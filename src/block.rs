use vstd::prelude::*;
use crate::config::{Hash256, BLOCK_SIZE, COIN};
use crate::crypto::{hash_eq, sha256, sha256_of};
use crate::transaction::transaction_hash_spec;
use crate::target::{genesis_target, genesis_target_spec};
use crate::encoding::{enc_u128, enc_u32, enc_u64, enc_i64, push_bytes, push_i64, push_u128, push_u32, push_u64};
use crate::error::Error;
use crate::page::{copy_hashes, page_update_spec, Page, PageV};
use crate::transaction::{enc_transaction, push_transaction, sender_spec, transfer_update_spec, Transaction};
use crate::wallet::{add_to_balance, shift_balance, WalletStatus};

verus! {

/// A 256-bit unsigned integer, big-endian.
pub type Target = [u8; 32];

/// The fixed reward for mining a block: ten coins.
pub const BLOCK_REWARD: i64 = 10 * COIN;

/// A block: header fields, pages, transfers, a timestamp in milliseconds,
/// the difficulty target and the proof-of-work nonce.
#[derive(Clone, Debug)]
pub struct Block {
    pub prev_hash: Hash256,
    pub block_id: u64,
    pub reward_to: Hash256,
    pub pages: Vec<Page>,
    pub transactions: Vec<Transaction>,
    pub timestamp: u128,
    pub target: Target,
    pub pow: u64,
}

/// The mathematical value of a block: its fields, with its lists as
/// sequences of values.
pub ghost struct BlockV {
    pub prev_hash: Hash256,
    pub block_id: u64,
    pub reward_to: Hash256,
    pub pages: Seq<PageV>,
    pub transactions: Seq<Transaction>,
    pub timestamp: u128,
    pub target: Target,
    pub pow: u64,
}

impl View for Block {
    type V = BlockV;

    open spec fn view(&self) -> BlockV {
        BlockV {
            prev_hash: self.prev_hash,
            block_id: self.block_id,
            reward_to: self.reward_to,
            pages: self.pages@.map_values(|p: Page| p@),
            transactions: self.transactions@,
            timestamp: self.timestamp,
            target: self.target,
            pow: self.pow,
        }
    }
}

/// The hashes of a list laid end to end.
pub open spec fn enc_hashes(s: Seq<Hash256>) -> Seq<u8>
    decreases s.len(),
{
    if s.len() == 0 {
        Seq::empty()
    } else {
        enc_hashes(s.drop_last()) + s.last()@
    }
}

/// The canonical encoding of a page.
pub open spec fn enc_page(p: PageV) -> Seq<u8> {
    enc_u32(p.id) + p.site@ + enc_u64(p.data_hashes.len() as u64) + enc_hashes(p.data_hashes)
        + enc_u32(p.data_length) + enc_i64(p.fee)
}

/// The pages of a list, encoded one after the other.
pub open spec fn enc_pages(s: Seq<PageV>) -> Seq<u8>
    decreases s.len(),
{
    if s.len() == 0 {
        Seq::empty()
    } else {
        enc_pages(s.drop_last()) + enc_page(s.last())
    }
}

/// The transfers of a list, encoded one after the other.
pub open spec fn enc_transactions(s: Seq<Transaction>) -> Seq<u8>
    decreases s.len(),
{
    if s.len() == 0 {
        Seq::empty()
    } else {
        enc_transactions(s.drop_last()) + enc_transaction(s.last())
    }
}

/// The canonical encoding of a block.
pub open spec fn enc_block(b: BlockV) -> Seq<u8> {
    b.prev_hash@ + enc_u64(b.block_id) + b.reward_to@ + enc_u64(b.pages.len() as u64) + enc_pages(
        b.pages,
    ) + enc_u64(b.transactions.len() as u64) + enc_transactions(b.transactions) + enc_u128(
        b.timestamp,
    ) + b.target@ + enc_u64(b.pow)
}

/// Whether a block's encoding fits the block-size cap.
pub open spec fn fits_block_size(b: BlockV) -> bool {
    enc_block(b).len() <= BLOCK_SIZE
}

/// The hash of a block: the digest of its encoding.
pub open spec fn block_hash_spec(b: BlockV) -> Seq<u8> {
    sha256_of(enc_block(b))
}

/// `256` to the power `n`.
pub open spec fn pow256(n: nat) -> nat
    decreases n,
{
    if n == 0 {
        1
    } else {
        256 * pow256((n - 1) as nat)
    }
}

/// The value of a byte string read as a big-endian unsigned integer.
pub open spec fn be_value(s: Seq<u8>) -> nat
    decreases s.len(),
{
    if s.len() == 0 {
        0
    } else {
        s[0] as nat * pow256((s.len() - 1) as nat) + be_value(s.drop_first())
    }
}

/// Whether the block's hash, read as a 256-bit integer, is at most its target.
pub open spec fn pow_ok(b: BlockV) -> bool {
    be_value(block_hash_spec(b)) <= be_value(b.target@)
}

pub proof fn lemma_be_value_bound(s: Seq<u8>)
    ensures
        be_value(s) < pow256(s.len()),
    decreases s.len(),
{
    if s.len() > 0 {
        lemma_be_value_bound(s.drop_first());
        let p = pow256((s.len() - 1) as nat);
        let r = be_value(s.drop_first());
        let d = s[0] as nat;
        assert(d * p + r < 256 * p) by (nonlinear_arith)
            requires
                d <= 255,
                r < p,
        ;
    }
}

/// Two byte strings of one length that agree before index `k` and differ at
/// `k` compare as their bytes at `k` do.
proof fn lemma_be_value_lt(a: Seq<u8>, b: Seq<u8>, k: int)
    requires
        a.len() == b.len(),
        0 <= k < a.len(),
        forall|j: int| 0 <= j < k ==> a[j] == b[j],
        a[k] < b[k],
    ensures
        be_value(a) < be_value(b),
    decreases k,
{
    let p = pow256((a.len() - 1) as nat);
    if k == 0 {
        lemma_be_value_bound(a.drop_first());
        let ra = be_value(a.drop_first());
        let rb = be_value(b.drop_first());
        let x = a[0] as nat;
        let y = b[0] as nat;
        assert(x * p + ra < y * p + rb) by (nonlinear_arith)
            requires
                x < y,
                ra < p,
        ;
    } else {
        lemma_be_value_lt(a.drop_first(), b.drop_first(), k - 1);
    }
}

/// Compares two 32-byte strings as big-endian integers.
pub fn be_less_or_equal(a: &Hash256, b: &Hash256) -> (r: bool)
    ensures
        r == (be_value(a@) <= be_value(b@)),
{
    let mut i: usize = 0;
    while i < 32
        invariant
            0 <= i <= 32,
            a@.len() == 32,
            b@.len() == 32,
            forall|j: int| 0 <= j < i ==> a@[j] == b@[j],
        decreases 32 - i,
    {
        if a[i] < b[i] {
            proof {
                lemma_be_value_lt(a@, b@, i as int);
            }
            return true;
        }
        if a[i] > b[i] {
            proof {
                lemma_be_value_lt(b@, a@, i as int);
            }
            return false;
        }
        i = i + 1;
    }
    assert(a@ =~= b@);
    true
}

/// Appends the encoding of a list of hashes.
pub fn push_hashes(out: &mut Vec<u8>, s: &Vec<Hash256>)
    ensures
        final(out)@ == old(out)@ + enc_hashes(s@),
{
    let mut i: usize = 0;
    while i < s.len()
        invariant
            0 <= i <= s@.len(),
            out@ == old(out)@ + enc_hashes(s@.take(i as int)),
        decreases s@.len() - i,
    {
        assert(s@.take(i + 1).drop_last() =~= s@.take(i as int));
        push_bytes(out, s[i].as_slice());
        i = i + 1;
        assert(out@ =~= old(out)@ + enc_hashes(s@.take(i as int)));
    }
    assert(s@.take(s@.len() as int) =~= s@);
}

/// Appends the encoding of a page.
pub fn push_page(out: &mut Vec<u8>, p: &Page)
    ensures
        final(out)@ == old(out)@ + enc_page(p@),
{
    push_u32(out, p.id);
    push_bytes(out, p.site.as_slice());
    push_u64(out, p.data_hashes.len() as u64);
    push_hashes(out, &p.data_hashes);
    push_u32(out, p.data_length);
    push_i64(out, p.fee);
    assert(final(out)@ =~= old(out)@ + enc_page(p@));
}

/// Appends the encoding of a block.
pub fn push_block(out: &mut Vec<u8>, b: &Block)
    ensures
        final(out)@ == old(out)@ + enc_block(b@),
{
    let ghost start = out@;
    push_bytes(out, b.prev_hash.as_slice());
    push_u64(out, b.block_id);
    push_bytes(out, b.reward_to.as_slice());
    push_u64(out, b.pages.len() as u64);
    let mut i: usize = 0;
    while i < b.pages.len()
        invariant
            0 <= i <= b.pages@.len(),
            out@ == start + b.prev_hash@ + enc_u64(b.block_id) + b.reward_to@ + enc_u64(
                b.pages@.len() as u64,
            ) + enc_pages(b@.pages.take(i as int)),
        decreases b.pages@.len() - i,
    {
        assert(b@.pages.take(i + 1).drop_last() =~= b@.pages.take(i as int));
        push_page(out, &b.pages[i]);
        i = i + 1;
        assert(out@ =~= start + b.prev_hash@ + enc_u64(b.block_id) + b.reward_to@ + enc_u64(
            b.pages@.len() as u64,
        ) + enc_pages(b@.pages.take(i as int)));
    }
    assert(b@.pages.take(b.pages@.len() as int) =~= b@.pages);
    let ghost mid = out@;
    push_u64(out, b.transactions.len() as u64);
    let mut j: usize = 0;
    while j < b.transactions.len()
        invariant
            0 <= j <= b.transactions@.len(),
            out@ == mid + enc_u64(b.transactions@.len() as u64) + enc_transactions(
                b.transactions@.take(j as int),
            ),
        decreases b.transactions@.len() - j,
    {
        assert(b.transactions@.take(j + 1).drop_last() =~= b.transactions@.take(j as int));
        push_transaction(out, &b.transactions[j]);
        j = j + 1;
        assert(out@ =~= mid + enc_u64(b.transactions@.len() as u64) + enc_transactions(
            b.transactions@.take(j as int),
        ));
    }
    assert(b.transactions@.take(b.transactions@.len() as int) =~= b.transactions@);
    push_u128(out, b.timestamp);
    push_bytes(out, b.target.as_slice());
    push_u64(out, b.pow);
    assert(final(out)@ =~= old(out)@ + enc_block(b@));
}

/// Folds a list of transfers into a status, failing at the first refusal.
pub open spec fn fold_transfers(
    s: Seq<Transaction>,
    addr: Seq<u8>,
    start: Option<WalletStatus>,
    winner: bool,
) -> Option<WalletStatus>
    decreases s.len(),
{
    if s.len() == 0 {
        start
    } else {
        match fold_transfers(s.drop_last(), addr, start, winner) {
            Some(x) => transfer_update_spec(s.last(), addr, x, winner),
            None => None,
        }
    }
}

/// Folds a list of pages into a status, failing at the first refusal.
pub open spec fn fold_pages(s: Seq<PageV>, addr: Seq<u8>, start: Option<WalletStatus>, winner: bool)
    -> Option<WalletStatus>
    decreases s.len(),
{
    if s.len() == 0 {
        start
    } else {
        match fold_pages(s.drop_last(), addr, start, winner) {
            Some(x) => page_update_spec(s.last(), addr, x, winner),
            None => None,
        }
    }
}

/// How a whole block moves the status of `addr`: the reward first, then
/// every transfer, then every page.
pub open spec fn block_update_spec(b: BlockV, addr: Seq<u8>, status: WalletStatus) -> Option<
    WalletStatus,
> {
    let winner = b.reward_to@ == addr;
    let start = if winner {
        shift_balance(status, BLOCK_REWARD as int)
    } else {
        Some(status)
    };
    fold_pages(b.pages, addr, fold_transfers(b.transactions, addr, start, winner), winner)
}

/// Whether `a` takes part in the block: as reward recipient, as sender or
/// recipient of a transfer, or as the site of a page.
pub open spec fn uses_address(b: BlockV, a: Seq<u8>) -> bool {
    ||| b.reward_to@ == a
    ||| exists|i: int|
        0 <= i < b.transactions.len() && (sender_spec(b.transactions[i]) == a
            || b.transactions[i].header.to@ == a)
    ||| exists|j: int| 0 <= j < b.pages.len() && b.pages[j].site@ == a
}

/// Whether a list of hashes holds `a`.
pub open spec fn holds_hash(s: Seq<Hash256>, a: Seq<u8>) -> bool {
    exists|k: int| 0 <= k < s.len() && s[k]@ == a
}

/// Whether a list of hashes holds none twice.
pub open spec fn no_repeats(s: Seq<Hash256>) -> bool {
    forall|k1: int, k2: int| 0 <= k1 < k2 < s.len() ==> s[k1]@ != s[k2]@
}

/// Adds `h` to a list of distinct hashes unless it is there already.
pub fn insert_hash(v: &mut Vec<Hash256>, h: Hash256)
    requires
        no_repeats(old(v)@),
    ensures
        no_repeats(final(v)@),
        forall|a: Seq<u8>| holds_hash(final(v)@, a) <==> (holds_hash(old(v)@, a) || a == h@),
{
    let mut i: usize = 0;
    while i < v.len()
        invariant
            0 <= i <= v@.len(),
            v@ == old(v)@,
            no_repeats(v@),
            forall|k: int| 0 <= k < i ==> v@[k]@ != h@,
        decreases v@.len() - i,
    {
        if hash_eq(&v[i], &h) {
            assert(v@[i as int]@ == h@);
            return;
        }
        i = i + 1;
    }
    let ghost before = v@;
    v.push(h);
    assert forall|a: Seq<u8>| holds_hash(v@, a) <==> (holds_hash(before, a) || a == h@) by {
        if holds_hash(v@, a) {
            let k = choose|k: int| 0 <= k < v@.len() && v@[k]@ == a;
            if k < before.len() {
                assert(before[k]@ == a);
            }
        }
        if holds_hash(before, a) {
            let k = choose|k: int| 0 <= k < before.len() && before[k]@ == a;
            assert(v@[k]@ == a);
        }
        if a == h@ {
            assert(v@[before.len() as int]@ == a);
        }
    }
}

/// The Merkle root of no leaves.
pub open spec fn zero_hash() -> Seq<u8> {
    Seq::new(32, |i: int| 0u8)
}

/// One level up a Merkle tree: each pair hashed together, a last unpaired
/// node paired with itself.
pub open spec fn merkle_level(s: Seq<Seq<u8>>) -> Seq<Seq<u8>> {
    Seq::new(
        ((s.len() + 1) / 2) as nat,
        |i: int| sha256_of(s[2 * i] + if 2 * i + 1 < s.len() { s[2 * i + 1] } else { s[2 * i] }),
    )
}

/// The Merkle root of a list of leaf hashes.
pub open spec fn merkle_root_spec(s: Seq<Seq<u8>>) -> Seq<u8>
    decreases s.len(),
{
    if s.len() == 0 {
        zero_hash()
    } else if s.len() == 1 {
        s[0]
    } else {
        merkle_root_spec(merkle_level(s))
    }
}

/// The views of a list of hashes.
pub open spec fn hash_views(s: Seq<Hash256>) -> Seq<Seq<u8>> {
    s.map_values(|h: Hash256| h@)
}

/// The leaves of a block's Merkle tree: the transfers' hashes, then the
/// pages' hashes.
pub open spec fn merkle_leaves(transfers: Seq<Transaction>, pages: Seq<PageV>) -> Seq<Seq<u8>> {
    transfers.map_values(|t: Transaction| transaction_hash_spec(t)) + pages.map_values(
        |p: PageV| sha256_of(enc_page(p)),
    )
}

/// The hash of two nodes side by side.
fn hash_pair(a: &Hash256, b: &Hash256) -> (r: Hash256)
    ensures
        r@ == sha256_of(a@ + b@),
{
    let mut bytes: Vec<u8> = Vec::new();
    push_bytes(&mut bytes, a.as_slice());
    push_bytes(&mut bytes, b.as_slice());
    assert(bytes@ =~= a@ + b@);
    sha256(bytes.as_slice())
}

/// The Merkle root of a list of leaf hashes.
pub fn merkle_root(leaves: &Vec<Hash256>) -> (r: Hash256)
    ensures
        r@ == merkle_root_spec(hash_views(leaves@)),
{
    if leaves.len() == 0 {
        let z = [0u8; 32];
        assert(z@ =~= zero_hash());
        return z;
    }
    let mut level = copy_hashes(leaves);
    while level.len() > 1
        invariant
            level@.len() >= 1,
            merkle_root_spec(hash_views(level@)) == merkle_root_spec(hash_views(leaves@)),
        decreases level@.len(),
    {
        let mut next: Vec<Hash256> = Vec::new();
        let n = level.len();
        let half = n / 2 + n % 2;
        let mut i: usize = 0;
        while i < half
            invariant
                n == level@.len(),
                n >= 2,
                half == (n + 1) / 2,
                0 <= i <= half,
                next@.len() == i,
                forall|k: int| 0 <= k < i ==> #[trigger] next@[k]@ == merkle_level(hash_views(level@))[k],
            decreases half - i,
        {
            let left = level[2 * i];
            let right = if 2 * i + 1 < n { level[2 * i + 1] } else { level[2 * i] };
            let h = hash_pair(&left, &right);
            next.push(h);
            i = i + 1;
        }
        assert(hash_views(next@) =~= merkle_level(hash_views(level@)));
        level = next;
    }
    assert(hash_views(level@).len() == 1);
    level[0]
}

/// The Merkle root over the hashes of the transfers, then of the pages.
pub fn merkle_root_for_transactions(transfers: &Vec<Transaction>, pages: &Vec<Page>) -> (r: Hash256)
    ensures
        r@ == merkle_root_spec(merkle_leaves(transfers@, pages@.map_values(|p: Page| p@))),
{
    let mut hashes: Vec<Hash256> = Vec::new();
    let mut i: usize = 0;
    while i < transfers.len()
        invariant
            0 <= i <= transfers@.len(),
            hash_views(hashes@) == transfers@.take(i as int).map_values(
                |t: Transaction| transaction_hash_spec(t),
            ),
        decreases transfers@.len() - i,
    {
        let h = transfers[i].hash();
        let ghost before = hashes@;
        hashes.push(h);
        assert(transfers@.take(i + 1) =~= transfers@.take(i as int).push(transfers@[i as int]));
        assert(hash_views(hashes@) =~= hash_views(before).push(h@));
        i = i + 1;
        assert(hash_views(hashes@) =~= transfers@.take(i as int).map_values(
            |t: Transaction| transaction_hash_spec(t),
        ));
    }
    let ghost first = hash_views(hashes@);
    let mut j: usize = 0;
    while j < pages.len()
        invariant
            0 <= j <= pages@.len(),
            hash_views(hashes@) == first + pages@.take(j as int).map_values(
                |p: Page| sha256_of(enc_page(p@)),
            ),
        decreases pages@.len() - j,
    {
        let mut bytes: Vec<u8> = Vec::new();
        push_page(&mut bytes, &pages[j]);
        let h = sha256(bytes.as_slice());
        let ghost before = hashes@;
        hashes.push(h);
        assert(pages@.take(j + 1) =~= pages@.take(j as int).push(pages@[j as int]));
        assert(hash_views(hashes@) =~= hash_views(before).push(h@));
        j = j + 1;
        assert(hash_views(hashes@) =~= first + pages@.take(j as int).map_values(
            |p: Page| sha256_of(enc_page(p@)),
        ));
    }
    assert(transfers@.take(transfers@.len() as int) =~= transfers@);
    assert(pages@.take(pages@.len() as int) =~= pages@);
    assert(hash_views(hashes@) =~= merkle_leaves(transfers@, pages@.map_values(|p: Page| p@)));
    merkle_root(&hashes)
}

/// A transfer or a page, as listed by `Block::transactions`.
#[derive(Clone, Debug)]
pub enum TransactionVariant {
    Transfer(Transaction),
    Page(Page),
}

/// Whether `v` is the transfer `t`.
pub open spec fn is_transfer_of(v: TransactionVariant, t: Transaction) -> bool {
    match v {
        TransactionVariant::Transfer(x) => x == t,
        TransactionVariant::Page(_) => false,
    }
}

/// Whether `v` is a page whose value is `p`.
pub open spec fn is_page_of(v: TransactionVariant, p: PageV) -> bool {
    match v {
        TransactionVariant::Transfer(_) => false,
        TransactionVariant::Page(x) => x@ == p,
    }
}

/// Relies on std::time::SystemTime::now: milliseconds since the Unix epoch,
/// whatever the clock says.
#[verifier::external_body]
pub(crate) fn current_timestamp() -> (r: u128) {
    std::time::SystemTime::now().duration_since(std::time::SystemTime::UNIX_EPOCH).map(|d|
        d.as_millis()).unwrap_or(0)
}

impl Block {
    /// The reward for mining this block.
    pub fn calculate_reward(&self) -> (r: i64)
        ensures
            r == BLOCK_REWARD,
    {
        BLOCK_REWARD
    }

    /// A block with no transactions and no reward recipient, stamped now,
    /// with the genesis target and the given link.
    pub fn new_debug(block_id: u64, prev_hash: Hash256) -> (r: Block)
        ensures
            r@.prev_hash == prev_hash,
            r@.block_id == block_id,
            r@.reward_to@ == zero_hash(),
            r@.pages.len() == 0,
            r@.transactions.len() == 0,
            r@.target@ == genesis_target_spec(),
            r@.pow == 0,
    {
        Block::empty(block_id, prev_hash, current_timestamp(), genesis_target())
    }

    /// A block with no transactions, no reward recipient and nonce zero.
    pub fn empty(block_id: u64, prev_hash: Hash256, timestamp: u128, target: Target) -> (r: Block)
        ensures
            r@.prev_hash == prev_hash,
            r@.block_id == block_id,
            r@.reward_to@ == zero_hash(),
            r@.pages.len() == 0,
            r@.transactions.len() == 0,
            r@.timestamp == timestamp,
            r@.target == target,
            r@.pow == 0,
    {
        let r = Block {
            prev_hash,
            block_id,
            reward_to: [0u8; 32],
            pages: Vec::new(),
            transactions: Vec::new(),
            timestamp,
            target,
            pow: 0,
        };
        assert(r.reward_to@ =~= zero_hash());
        r
    }

    /// A copy of the block.
    pub fn duplicate(&self) -> (r: Block)
        ensures
            r@ == self@,
    {
        let mut pages: Vec<Page> = Vec::new();
        let mut i: usize = 0;
        while i < self.pages.len()
            invariant
                0 <= i <= self.pages@.len(),
                pages@.map_values(|p: Page| p@) == self@.pages.take(i as int),
            decreases self.pages@.len() - i,
        {
            let p = self.pages[i].duplicate();
            let ghost before = pages@;
            pages.push(p);
            assert(pages@.map_values(|p: Page| p@) =~= before.map_values(|p: Page| p@).push(p@));
            assert(self@.pages.take(i + 1) =~= self@.pages.take(i as int).push(self@.pages[i as int]));
            i = i + 1;
            assert(pages@.map_values(|p: Page| p@) =~= self@.pages.take(i as int));
        }
        let mut transactions: Vec<Transaction> = Vec::new();
        let mut j: usize = 0;
        while j < self.transactions.len()
            invariant
                0 <= j <= self.transactions@.len(),
                transactions@ == self.transactions@.take(j as int),
            decreases self.transactions@.len() - j,
        {
            transactions.push(self.transactions[j]);
            j = j + 1;
            assert(transactions@ =~= self.transactions@.take(j as int));
        }
        let r = Block {
            prev_hash: self.prev_hash,
            block_id: self.block_id,
            reward_to: self.reward_to,
            pages,
            transactions,
            timestamp: self.timestamp,
            target: self.target,
            pow: self.pow,
        };
        assert(r@.pages =~= self@.pages);
        assert(r@.transactions =~= self@.transactions);
        r
    }

    /// Appends a page to the block.
    pub fn add_page(&mut self, page: Page)
        ensures
            final(self)@ == (BlockV { pages: old(self)@.pages.push(page@), ..old(self)@ }),
    {
        self.pages.push(page);
        assert(final(self)@.pages =~= old(self)@.pages.push(page@));
    }

    /// Appends a transfer to the block.
    pub fn add_transaction(&mut self, transaction: Transaction)
        ensures
            final(self)@ == (BlockV {
                transactions: old(self)@.transactions.push(transaction),
                ..old(self)@
            }),
    {
        self.transactions.push(transaction);
        assert(final(self)@.pages =~= old(self)@.pages);
    }

    /// The block's encoding, refused where it exceeds the block-size cap.
    pub fn as_bytes(&self) -> (r: Result<Vec<u8>, Error>)
        ensures
            fits_block_size(self@) ==> r == Ok::<Vec<u8>, Error>(r->Ok_0) && r->Ok_0@ == enc_block(
                self@,
            ),
            !fits_block_size(self@) ==> r == Err::<Vec<u8>, Error>(Error::BlockTooLarge),
    {
        let mut out: Vec<u8> = Vec::new();
        push_block(&mut out, self);
        assert(out@ =~= enc_block(self@));
        if out.len() > BLOCK_SIZE {
            Err(Error::BlockTooLarge)
        } else {
            Ok(out)
        }
    }

    /// The block's hash, refused where the block exceeds the size cap.
    pub fn hash(&self) -> (r: Result<Hash256, Error>)
        ensures
            fits_block_size(self@) ==> r is Ok && r->Ok_0@ == block_hash_spec(self@),
            !fits_block_size(self@) ==> r == Err::<Hash256, Error>(Error::BlockTooLarge),
    {
        match self.as_bytes() {
            Ok(bytes) => Ok(sha256(bytes.as_slice())),
            Err(e) => Err(e),
        }
    }

    /// Checks the proof of work: the hash, read as a big-endian integer, is
    /// at most the target.
    pub fn validate_pow(&self) -> (r: Result<(), Error>)
        ensures
            !fits_block_size(self@) ==> r == Err::<(), Error>(Error::BlockTooLarge),
            fits_block_size(self@) ==> (r is Ok <==> pow_ok(self@)),
            fits_block_size(self@) && !pow_ok(self@) ==> r == Err::<(), Error>(Error::BadPoW),
    {
        let h = self.hash()?;
        if be_less_or_equal(&h, &self.target) {
            Ok(())
        } else {
            Err(Error::BadPoW)
        }
    }

    /// Whether the proof of work holds.
    pub fn is_pow_valid(&self) -> (r: bool)
        ensures
            r == (fits_block_size(self@) && pow_ok(self@)),
    {
        self.validate_pow().is_ok()
    }

    /// Folds the whole block into the status of `addr`: the reward, every
    /// transfer, every page; `None` where any of them refuses.
    pub fn update_wallet_status(&self, addr: &Hash256, status: WalletStatus) -> (r: Option<
        WalletStatus,
    >)
        ensures
            r == block_update_spec(self@, addr@, status),
    {
        let winner = hash_eq(&self.reward_to, addr);
        let mut current: Option<WalletStatus> = if winner {
            add_to_balance(status, BLOCK_REWARD as i128)
        } else {
            Some(status)
        };
        let ghost start = current;
        let mut i: usize = 0;
        while i < self.transactions.len()
            invariant
                0 <= i <= self.transactions@.len(),
                winner == (self.reward_to@ == addr@),
                current == fold_transfers(self.transactions@.take(i as int), addr@, start, winner),
            decreases self.transactions@.len() - i,
        {
            assert(self.transactions@.take(i + 1).drop_last() =~= self.transactions@.take(i as int));
            current = match current {
                Some(st) => self.transactions[i].update_wallet_status(addr, st, winner),
                None => None,
            };
            i = i + 1;
        }
        assert(self.transactions@.take(self.transactions@.len() as int) =~= self.transactions@);
        let ghost mid = current;
        let mut j: usize = 0;
        while j < self.pages.len()
            invariant
                0 <= j <= self.pages@.len(),
                winner == (self.reward_to@ == addr@),
                current == fold_pages(self@.pages.take(j as int), addr@, mid, winner),
            decreases self.pages@.len() - j,
        {
            assert(self@.pages.take(j + 1).drop_last() =~= self@.pages.take(j as int));
            current = match current {
                Some(st) => self.pages[j].update_wallet_status(addr, st, winner),
                None => None,
            };
            j = j + 1;
        }
        assert(self@.pages.take(self.pages@.len() as int) =~= self@.pages);
        current
    }

    /// Every address that takes part in the block, each once.
    pub fn get_addresses_used(&self) -> (r: Vec<Hash256>)
        ensures
            no_repeats(r@),
            forall|a: Seq<u8>| holds_hash(r@, a) <==> uses_address(self@, a),
    {
        let mut out: Vec<Hash256> = Vec::new();
        insert_hash(&mut out, self.reward_to);
        let mut i: usize = 0;
        while i < self.transactions.len()
            invariant
                0 <= i <= self.transactions@.len(),
                no_repeats(out@),
                forall|a: Seq<u8>|
                    holds_hash(out@, a) <==> (self.reward_to@ == a || exists|k: int|
                        0 <= k < i && (sender_spec(self.transactions@[k]) == a
                            || self.transactions@[k].header.to@ == a)),
            decreases self.transactions@.len() - i,
        {
            let t = self.transactions[i];
            let from = t.get_from_address();
            insert_hash(&mut out, from);
            insert_hash(&mut out, t.header.to);
            assert forall|a: Seq<u8>|
                holds_hash(out@, a) <==> (self.reward_to@ == a || exists|k: int|
                    0 <= k < i + 1 && (sender_spec(self.transactions@[k]) == a
                        || self.transactions@[k].header.to@ == a)) by {
                if a == from@ || a == t.header.to@ {
                    assert(0 <= i < i + 1 && (sender_spec(self.transactions@[i as int]) == a
                        || self.transactions@[i as int].header.to@ == a));
                }
            }
            i = i + 1;
        }
        let mut j: usize = 0;
        while j < self.pages.len()
            invariant
                0 <= j <= self.pages@.len(),
                no_repeats(out@),
                forall|a: Seq<u8>|
                    holds_hash(out@, a) <==> (self.reward_to@ == a || (exists|k: int|
                        0 <= k < self.transactions@.len() && (sender_spec(self.transactions@[k])
                            == a || self.transactions@[k].header.to@ == a)) || exists|k: int|
                        0 <= k < j && self@.pages[k].site@ == a),
            decreases self.pages@.len() - j,
        {
            let site = self.pages[j].site;
            insert_hash(&mut out, site);
            assert forall|a: Seq<u8>|
                holds_hash(out@, a) <==> (self.reward_to@ == a || (exists|k: int|
                    0 <= k < self.transactions@.len() && (sender_spec(self.transactions@[k]) == a
                        || self.transactions@[k].header.to@ == a)) || exists|k: int|
                    0 <= k < j + 1 && self@.pages[k].site@ == a) by {
                if a == site@ {
                    assert(self@.pages[j as int].site@ == a);
                }
            }
            j = j + 1;
        }
        assert forall|a: Seq<u8>| holds_hash(out@, a) <==> uses_address(self@, a) by {
            if holds_hash(out@, a) && self.reward_to@ != a {
                if exists|k: int|
                    0 <= k < self.transactions@.len() && (sender_spec(self.transactions@[k]) == a
                        || self.transactions@[k].header.to@ == a) {
                    let k = choose|k: int|
                        0 <= k < self.transactions@.len() && (sender_spec(self.transactions@[k])
                            == a || self.transactions@[k].header.to@ == a);
                    assert(0 <= k < self@.transactions.len() && (sender_spec(self@.transactions[k])
                        == a || self@.transactions[k].header.to@ == a));
                } else {
                    let k = choose|k: int| 0 <= k < self.pages@.len() && self@.pages[k].site@ == a;
                    assert(0 <= k < self@.pages.len() && self@.pages[k].site@ == a);
                }
            }
        }
        out
    }

    /// The block's transfers, then its pages.
    pub fn transactions(&self) -> (r: Vec<TransactionVariant>)
        ensures
            r@.len() == self.transactions@.len() + self.pages@.len(),
            forall|i: int|
                0 <= i < self.transactions@.len() ==> is_transfer_of(r@[i], self.transactions@[i]),
            forall|i: int|
                0 <= i < self.pages@.len() ==> is_page_of(r@[self.transactions@.len() + i], self@.pages[i]),
    {
        let mut out: Vec<TransactionVariant> = Vec::new();
        let mut i: usize = 0;
        while i < self.transactions.len()
            invariant
                0 <= i <= self.transactions@.len(),
                out@.len() == i,
                forall|k: int|
                    0 <= k < i ==> is_transfer_of(out@[k], self.transactions@[k]),
            decreases self.transactions@.len() - i,
        {
            out.push(TransactionVariant::Transfer(self.transactions[i]));
            i = i + 1;
        }
        let mut j: usize = 0;
        while j < self.pages.len()
            invariant
                0 <= j <= self.pages@.len(),
                out@.len() == self.transactions@.len() + j,
                forall|k: int|
                    0 <= k < self.transactions@.len() ==> is_transfer_of(out@[k], self.transactions@[k]),
                forall|k: int|
                    0 <= k < j ==> is_page_of(out@[self.transactions@.len() + k], self@.pages[k]),
            decreases self.pages@.len() - j,
        {
            out.push(TransactionVariant::Page(self.pages[j].duplicate()));
            j = j + 1;
        }
        out
    }
}

/// Byte-wise equality of two arrays.
pub fn bytes_eq<const N: usize>(a: &[u8; N], b: &[u8; N]) -> (r: bool)
    ensures
        r == (*a == *b),
{
    let mut i: usize = 0;
    while i < N
        invariant
            0 <= i <= N,
            a@.len() == N,
            b@.len() == N,
            forall|j: int| 0 <= j < i ==> a@[j] == b@[j],
        decreases N - i,
    {
        if a[i] != b[i] {
            return false;
        }
        i = i + 1;
    }
    assert(a@ =~= b@);
    proof {
        broadcast use vstd::array::group_array_axioms;

        assert(*a =~= *b);
    }
    true
}

/// Field-wise equality of two transfers.
pub fn transaction_eq(a: &Transaction, b: &Transaction) -> (r: bool)
    ensures
        r == (*a == *b),
{
    a.header.id == b.header.id && bytes_eq(&a.header.from, &b.header.from) && bytes_eq(
        &a.header.to,
        &b.header.to,
    ) && a.header.amount == b.header.amount && a.header.transaction_fee
        == b.header.transaction_fee && bytes_eq(&a.signature, &b.signature) && bytes_eq(&a.e, &b.e)
}

/// Equality of the values of two pages.
pub fn page_eq(a: &Page, b: &Page) -> (r: bool)
    ensures
        r == (a@ == b@),
{
    if a.id != b.id || !bytes_eq(&a.site, &b.site) || a.data_length != b.data_length || a.fee
        != b.fee || a.data_hashes.len() != b.data_hashes.len() {
        return false;
    }
    let mut i: usize = 0;
    while i < a.data_hashes.len()
        invariant
            0 <= i <= a.data_hashes@.len(),
            a.data_hashes@.len() == b.data_hashes@.len(),
            forall|j: int| 0 <= j < i ==> a.data_hashes@[j] == b.data_hashes@[j],
        decreases a.data_hashes@.len() - i,
    {
        if !bytes_eq(&a.data_hashes[i], &b.data_hashes[i]) {
            return false;
        }
        i = i + 1;
    }
    assert(a.data_hashes@ =~= b.data_hashes@);
    true
}

/// Equality of the values of two blocks.
pub fn block_eq(a: &Block, b: &Block) -> (r: bool)
    ensures
        r == (a@ == b@),
{
    if !bytes_eq(&a.prev_hash, &b.prev_hash) || a.block_id != b.block_id || !bytes_eq(
        &a.reward_to,
        &b.reward_to,
    ) || a.timestamp != b.timestamp || !bytes_eq(&a.target, &b.target) || a.pow != b.pow
        || a.pages.len() != b.pages.len() || a.transactions.len() != b.transactions.len() {
        assert(a@.pages.len() == a.pages@.len() && b@.pages.len() == b.pages@.len());
        return false;
    }
    let mut i: usize = 0;
    while i < a.pages.len()
        invariant
            0 <= i <= a.pages@.len(),
            a.pages@.len() == b.pages@.len(),
            forall|j: int| 0 <= j < i ==> a@.pages[j] == b@.pages[j],
        decreases a.pages@.len() - i,
    {
        if !page_eq(&a.pages[i], &b.pages[i]) {
            assert(a@.pages[i as int] == a.pages@[i as int]@);
            assert(b@.pages[i as int] == b.pages@[i as int]@);
            return false;
        }
        i = i + 1;
    }
    let mut k: usize = 0;
    while k < a.transactions.len()
        invariant
            0 <= k <= a.transactions@.len(),
            a.transactions@.len() == b.transactions@.len(),
            forall|j: int| 0 <= j < k ==> a.transactions@[j] == b.transactions@[j],
        decreases a.transactions@.len() - k,
    {
        if !transaction_eq(&a.transactions[k], &b.transactions[k]) {
            assert(a@.transactions[k as int] != b@.transactions[k as int]);
            return false;
        }
        k = k + 1;
    }
    assert(a@.pages =~= b@.pages);
    assert(a@.transactions =~= b@.transactions);
    true
}

} // verus!
