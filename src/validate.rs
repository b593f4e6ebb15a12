//! The rules a block must meet to extend a list of earlier blocks.
use vstd::prelude::*;
use crate::block::{
    be_less_or_equal, block_hash_spec, block_update_spec, fits_block_size, holds_hash,
    pow_ok, uses_address, zero_hash, Block, BlockV, be_value,
};
use crate::config::{Hash256, SAMPLE_SIZE};
use crate::crypto::hash_eq;
use crate::error::Error;
use crate::page::chunk_count;
use crate::target::{calculate_target, genesis_target, genesis_target_spec, target_value};
use crate::wallet::{WalletStatus, WalletValidationResult};

verus! {

/// The values of a list of blocks.
pub open spec fn block_views(s: Seq<Block>) -> Seq<BlockV> {
    s.map_values(|b: Block| b@)
}

/// Folds a list of blocks into a status, failing at the first refusal.
pub open spec fn wallet_after(blocks: Seq<BlockV>, addr: Seq<u8>, start: Option<WalletStatus>)
    -> Option<WalletStatus>
    decreases blocks.len(),
{
    if blocks.len() == 0 {
        start
    } else {
        match wallet_after(blocks.drop_last(), addr, start) {
            Some(s) => block_update_spec(blocks.last(), addr, s),
            None => None,
        }
    }
}

/// The status of `addr` after a list of blocks, from nothing.
pub open spec fn wallet_status_spec(blocks: Seq<BlockV>, addr: Seq<u8>) -> Option<WalletStatus> {
    wallet_after(blocks, addr, Some(WalletStatus { balance: 0, max_id: 0 }))
}

/// The timestamps of the first and the last block of the sampling window
/// that ends at the last block; `None` while the window is not full.
pub open spec fn sample_spec(blocks: Seq<BlockV>) -> (Option<u128>, Option<u128>) {
    if blocks.len() < SAMPLE_SIZE {
        (None, None)
    } else {
        (Some(blocks[blocks.len() - SAMPLE_SIZE].timestamp), Some(blocks.last().timestamp))
    }
}

/// The target that the block after `prefix` must carry, as an integer.
pub open spec fn expected_target(prefix: Seq<BlockV>) -> nat {
    let prev = if prefix.len() == 0 {
        genesis_target_spec()
    } else {
        prefix.last().target@
    };
    target_value(prev, sample_spec(prefix).0, sample_spec(prefix).1)
}

/// Whether the block names the hash of the block before it.
pub open spec fn prev_link_ok(prefix: Seq<BlockV>, b: BlockV) -> bool {
    if prefix.len() == 0 {
        b.prev_hash@ == zero_hash()
    } else {
        fits_block_size(prefix.last()) && b.prev_hash@ == block_hash_spec(prefix.last())
    }
}

/// The first rule broken by the block's own transactions, if any.
pub open spec fn contents_error(b: BlockV) -> Option<Error> {
    if exists|i: int|
        0 <= i < b.transactions.len() && (b.transactions[i].header.amount < 0
            || b.transactions[i].header.transaction_fee < 0) {
        Some(Error::NegativeAmount)
    } else if exists|j: int| 0 <= j < b.pages.len() && b.pages[j].fee < 0 {
        Some(Error::NegativeAmount)
    } else if exists|j: int|
        0 <= j < b.pages.len() && b.pages[j].data_hashes.len() != chunk_count(
            b.pages[j].data_length,
        ) {
        Some(Error::WrongHashCount)
    } else {
        None
    }
}

/// Whether every address that takes part in the block can be folded
/// through it.
pub open spec fn wallets_ok(prefix: Seq<BlockV>, b: BlockV) -> bool {
    forall|a: Seq<u8>| uses_address(b, a) ==> wallet_status_spec(prefix.push(b), a) is Some
}

/// The first rule that the block breaks as the successor of `prefix`.
#[verifier::opaque]
pub open spec fn first_error(prefix: Seq<BlockV>, b: BlockV) -> Option<Error> {
    if b.block_id != prefix.len() {
        Some(Error::BadBlockId)
    } else if !prev_link_ok(prefix, b) {
        Some(Error::BadPrevHash)
    } else if !fits_block_size(b) {
        Some(Error::BlockTooLarge)
    } else if !pow_ok(b) {
        Some(Error::BadPoW)
    } else if be_value(b.target@) != expected_target(prefix) {
        Some(Error::BadTarget)
    } else if contents_error(b) is Some {
        contents_error(b)
    } else if !wallets_ok(prefix, b) {
        Some(Error::ReplayedId)
    } else {
        None
    }
}

/// Whether the block may follow `prefix`.
pub open spec fn valid_next(prefix: Seq<BlockV>, b: BlockV) -> bool {
    first_error(prefix, b) is None
}

/// Whether every block of a list may follow the ones before it.
#[verifier::opaque]
pub open spec fn valid_chain(blocks: Seq<BlockV>) -> bool {
    forall|i: int| 0 <= i < blocks.len() ==> valid_next(#[trigger] blocks.take(i), blocks[i])
}

/// The result of validating a block against `prefix`.
pub open spec fn validation_result(prefix: Seq<BlockV>, b: BlockV) -> Result<(), Error> {
    match first_error(prefix, b) {
        Some(e) => Err(e),
        None => Ok(()),
    }
}

/// The status of `addr` after the first `upto` blocks of a list.
pub fn wallet_status_through(blocks: &Vec<Block>, upto: usize, addr: &Hash256) -> (r: Option<
    WalletStatus,
>)
    requires
        upto <= blocks@.len(),
    ensures
        r == wallet_status_spec(block_views(blocks@).take(upto as int), addr@),
{
    let ghost views = block_views(blocks@);
    let mut cur: Option<WalletStatus> = Some(WalletStatus::new());
    let mut i: usize = 0;
    assert(views.take(0) =~= Seq::<BlockV>::empty());
    while i < upto
        invariant
            upto <= blocks@.len(),
            views == block_views(blocks@),
            0 <= i <= upto,
            cur == wallet_status_spec(views.take(i as int), addr@),
        decreases upto - i,
    {
        assert(views.take(i + 1).drop_last() =~= views.take(i as int));
        assert(views.take(i + 1).last() == blocks@[i as int]@);
        cur = match cur {
            Some(s) => blocks[i].update_wallet_status(addr, s),
            None => None,
        };
        i = i + 1;
    }
    cur
}

/// The sampling window that ends at block `upto - 1` of a list.
pub fn sample_through(blocks: &Vec<Block>, upto: usize) -> (r: (Option<u128>, Option<u128>))
    requires
        upto <= blocks@.len(),
    ensures
        r == sample_spec(block_views(blocks@).take(upto as int)),
{
    if (upto as u64) < SAMPLE_SIZE {
        (None, None)
    } else {
        (Some(blocks[upto - SAMPLE_SIZE as usize].timestamp), Some(blocks[upto - 1].timestamp))
    }
}

/// The first rule broken by the block's own transactions, if any.
pub fn check_contents(b: &Block) -> (r: Option<Error>)
    ensures
        r == contents_error(b@),
{
    let mut i: usize = 0;
    while i < b.transactions.len()
        invariant
            0 <= i <= b.transactions@.len(),
            forall|k: int|
                0 <= k < i ==> !(b.transactions@[k].header.amount < 0
                    || b.transactions@[k].header.transaction_fee < 0),
        decreases b.transactions@.len() - i,
    {
        if b.transactions[i].header.amount < 0 || b.transactions[i].header.transaction_fee < 0 {
            assert(b@.transactions[i as int] == b.transactions@[i as int]);
            return Some(Error::NegativeAmount);
        }
        i = i + 1;
    }
    let mut j: usize = 0;
    while j < b.pages.len()
        invariant
            0 <= j <= b.pages@.len(),
            forall|k: int|
                0 <= k < b.transactions@.len() ==> !(b.transactions@[k].header.amount < 0
                    || b.transactions@[k].header.transaction_fee < 0),
            forall|k: int| 0 <= k < j ==> !(b@.pages[k].fee < 0),
        decreases b.pages@.len() - j,
    {
        if b.pages[j].fee < 0 {
            assert(b@.pages[j as int] == b.pages@[j as int]@);
            return Some(Error::NegativeAmount);
        }
        j = j + 1;
    }
    let mut k: usize = 0;
    while k < b.pages.len()
        invariant
            0 <= k <= b.pages@.len(),
            forall|m: int|
                0 <= m < b.transactions@.len() ==> !(b.transactions@[m].header.amount < 0
                    || b.transactions@[m].header.transaction_fee < 0),
            forall|m: int| 0 <= m < b.pages@.len() ==> !(b@.pages[m].fee < 0),
            forall|m: int|
                0 <= m < k ==> b@.pages[m].data_hashes.len() == chunk_count(
                    b@.pages[m].data_length,
                ),
        decreases b.pages@.len() - k,
    {
        let p = &b.pages[k];
        let len = p.data_length as u64;
        let expected: u64 = (len + 1048575) / 1048576;
        assert(b@.pages[k as int] == b.pages@[k as int]@);
        assert(expected as int == chunk_count(p.data_length));
        if p.data_hashes.len() as u64 != expected {
            return Some(Error::WrongHashCount);
        }
        k = k + 1;
    }
    None
}

/// Whether every address of the block folds through it after `upto` blocks.
pub fn check_wallets(blocks: &Vec<Block>, upto: usize, b: &Block) -> (r: bool)
    requires
        upto <= blocks@.len(),
    ensures
        r == wallets_ok(block_views(blocks@).take(upto as int), b@),
{
    let ghost prefix = block_views(blocks@).take(upto as int);
    let addrs = b.get_addresses_used();
    let mut i: usize = 0;
    while i < addrs.len()
        invariant
            0 <= i <= addrs@.len(),
            upto <= blocks@.len(),
            prefix == block_views(blocks@).take(upto as int),
            forall|a: Seq<u8>| holds_hash(addrs@, a) <==> uses_address(b@, a),
            forall|k: int|
                0 <= k < i ==> wallet_status_spec(prefix.push(b@), #[trigger] addrs@[k]@) is Some,
        decreases addrs@.len() - i,
    {
        let a = addrs[i];
        assert(prefix.push(b@).drop_last() =~= prefix);
        let st = wallet_status_through(blocks, upto, &a);
        let ok = match st {
            Some(s) => b.update_wallet_status(&a, s).is_some(),
            None => false,
        };
        if !ok {
            assert(holds_hash(addrs@, a@));
            assert(uses_address(b@, a@));
            return false;
        }
        i = i + 1;
    }
    assert forall|a: Seq<u8>| uses_address(b@, a) implies wallet_status_spec(prefix.push(b@), a) is Some by {
        assert(holds_hash(addrs@, a));
        let k = choose|k: int| 0 <= k < addrs@.len() && addrs@[k]@ == a;
    }
    true
}

/// The first refusal among the outcomes of checking each transfer's
/// signature, in order.
pub open spec fn first_signature_error(checks: Seq<WalletValidationResult>) -> Option<Error>
    decreases checks.len(),
{
    if checks.len() == 0 {
        None
    } else {
        match first_signature_error(checks.drop_last()) {
            Some(e) => Some(e),
            None => match checks.last() {
                WalletValidationResult::Valid => None,
                WalletValidationResult::BadKey => Some(Error::BadKey),
                WalletValidationResult::BadSignature => Some(Error::BadSignature),
            },
        }
    }
}

/// Why the signatures of a block's transfers are refused, given the outcome
/// of checking each one: an outcome missing or extra counts as a bad
/// signature.
pub open spec fn signature_error(b: BlockV, checks: Seq<WalletValidationResult>) -> Option<Error> {
    if checks.len() != b.transactions.len() {
        Some(Error::BadSignature)
    } else {
        first_signature_error(checks)
    }
}

/// The result of validating a block with its signature outcomes.
pub open spec fn checked_result(
    prefix: Seq<BlockV>,
    b: BlockV,
    checks: Seq<WalletValidationResult>,
) -> Result<(), Error> {
    match signature_error(b, checks) {
        Some(e) => Err(e),
        None => validation_result(prefix, b),
    }
}

/// Checks the outcomes of checking the signatures of the block's transfers,
/// one outcome per transfer, in order.
pub fn check_signatures(b: &Block, checks: &Vec<WalletValidationResult>) -> (r: Option<Error>)
    ensures
        r == signature_error(b@, checks@),
{
    if checks.len() != b.transactions.len() {
        return Some(Error::BadSignature);
    }
    let mut i: usize = 0;
    assert(checks@.take(0) =~= Seq::<WalletValidationResult>::empty());
    while i < checks.len()
        invariant
            0 <= i <= checks@.len(),
            checks@.len() == b@.transactions.len(),
            first_signature_error(checks@.take(i as int)) is None,
        decreases checks@.len() - i,
    {
        assert(checks@.take(i + 1).drop_last() =~= checks@.take(i as int));
        assert(checks@.take(i + 1).last() == checks@[i as int]);
        match checks[i] {
            WalletValidationResult::Valid => {},
            WalletValidationResult::BadKey => {
                proof {
                    assert(checks@[i as int] == WalletValidationResult::BadKey);
                    assert(first_signature_error(checks@.take(i + 1)) == Some(Error::BadKey));
                    lemma_signature_error_extends(checks@, i + 1);
                    assert(checks@.len() == b@.transactions.len());
                    assert(signature_error(b@, checks@) == Some(Error::BadKey));
                }
                return Some(Error::BadKey);
            },
            WalletValidationResult::BadSignature => {
                proof {
                    lemma_signature_error_extends(checks@, i + 1);
                }
                return Some(Error::BadSignature);
            },
        }
        i = i + 1;
    }
    assert(checks@.take(checks@.len() as int) =~= checks@);
    None
}

proof fn lemma_signature_error_extends(checks: Seq<WalletValidationResult>, k: int)
    requires
        0 <= k <= checks.len(),
        first_signature_error(checks.take(k)) is Some,
    ensures
        first_signature_error(checks) == first_signature_error(checks.take(k)),
    decreases checks.len() - k,
{
    if k < checks.len() {
        assert(checks.take(k + 1).drop_last() =~= checks.take(k));
        lemma_signature_error_extends(checks, k + 1);
    } else {
        assert(checks.take(k) =~= checks);
    }
}

/// Checks the block as the successor of the first `upto` blocks of a list,
/// refusing it first where a transfer's signature was refused.
pub fn validate_on(
    blocks: &Vec<Block>,
    upto: usize,
    b: &Block,
    checks: &Vec<WalletValidationResult>,
) -> (r: Result<(), Error>)
    requires
        upto <= blocks@.len(),
    ensures
        r == checked_result(block_views(blocks@).take(upto as int), b@, checks@),
{
    match check_signatures(b, checks) {
        Some(e) => Err(e),
        None => validate_rules_on(blocks, upto, b),
    }
}

/// Checks the block against the chain rules as the successor of the first
/// `upto` blocks of a list.
pub fn validate_rules_on(blocks: &Vec<Block>, upto: usize, b: &Block) -> (r: Result<(), Error>)
    requires
        upto <= blocks@.len(),
    ensures
        r == validation_result(block_views(blocks@).take(upto as int), b@),
{
    reveal(first_error);
    let ghost prefix = block_views(blocks@).take(upto as int);
    if b.block_id != upto as u64 {
        return Err(Error::BadBlockId);
    }
    if upto == 0 {
        let zero: Hash256 = [0u8; 32];
        assert(zero@ =~= zero_hash());
        if !hash_eq(&b.prev_hash, &zero) {
            return Err(Error::BadPrevHash);
        }
    } else {
        assert(prefix.last() == blocks@[upto - 1]@);
        match blocks[upto - 1].hash() {
            Ok(h) => {
                if !hash_eq(&h, &b.prev_hash) {
                    return Err(Error::BadPrevHash);
                }
            },
            Err(_) => {
                return Err(Error::BadPrevHash);
            },
        }
    }
    match b.validate_pow() {
        Ok(()) => {},
        Err(e) => {
            return Err(e);
        },
    }
    let prev_target = if upto == 0 {
        genesis_target()
    } else {
        blocks[upto - 1].target
    };
    let (start, end) = sample_through(blocks, upto);
    let expected = calculate_target(&prev_target, start, end);
    if !(be_less_or_equal(&expected, &b.target) && be_less_or_equal(&b.target, &expected)) {
        return Err(Error::BadTarget);
    }
    match check_contents(b) {
        Some(e) => {
            return Err(e);
        },
        None => {},
    }
    if !check_wallets(blocks, upto, b) {
        return Err(Error::ReplayedId);
    }
    Ok(())
}

} // verus!
