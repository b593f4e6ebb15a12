//! The nonce search and the decisions of the mining worker.
use vstd::prelude::*;
use crate::block::{fits_block_size, pow_ok, Block, BlockV};
use crate::chain::BlockChain;
use crate::config::Hash256;
use crate::wallet::WalletValidationResult;

verus! {

/// The block with another nonce.
pub open spec fn with_nonce(b: BlockV, pow: u64) -> BlockV {
    BlockV { pow, ..b }
}

/// Whether a nonce gives the block a valid proof of work.
pub open spec fn nonce_works(b: BlockV, pow: u64) -> bool {
    fits_block_size(with_nonce(b, pow)) && pow_ok(with_nonce(b, pow))
}

/// Tries the nonces from the block's own up to `tries` of them. `Ok` holds
/// the block with the first nonce that works; `Err` the block with the
/// next nonce to try, none before it having worked.
pub fn search_nonce(block: Block, tries: u64) -> (r: Result<Block, Block>)
    ensures
        match r {
            Ok(b) => b@ == with_nonce(block@, b@.pow) && block@.pow <= b@.pow && nonce_works(
                block@,
                b@.pow,
            ) && forall|p: u64| block@.pow <= p < b@.pow ==> !nonce_works(block@, p),
            Err(b) => b@ == with_nonce(block@, b@.pow) && block@.pow <= b@.pow && (b@.pow
                == block@.pow + tries || b@.pow == u64::MAX) && forall|p: u64|
                block@.pow <= p < b@.pow ==> !nonce_works(block@, p),
        },
{
    let ghost start = block@;
    let mut b = block;
    let mut n: u64 = 0;
    while n < tries
        invariant
            start == block@,
            b@ == with_nonce(start, b@.pow),
            start.pow <= b@.pow,
            b@.pow - start.pow == n,
            n <= tries,
            forall|p: u64| start.pow <= p < b@.pow ==> !nonce_works(start, p),
        decreases tries - n,
    {
        if b.is_pow_valid() {
            assert(with_nonce(start, b@.pow) == b@);
            return Ok(b);
        }
        if b.pow == u64::MAX {
            return Err(b);
        }
        assert(with_nonce(start, b@.pow) == b@);
        b.pow = b.pow + 1;
        n = n + 1;
    }
    Err(b)
}

/// Searches nonces from the block's own upward until one works; `None`
/// where none up to the largest does.
pub fn mine_block(block: Block) -> (r: Option<Block>)
    ensures
        match r {
            Some(b) => b@ == with_nonce(block@, b@.pow) && block@.pow <= b@.pow && nonce_works(
                block@,
                b@.pow,
            ) && forall|p: u64| block@.pow <= p < b@.pow ==> !nonce_works(block@, p),
            None => forall|p: u64| block@.pow <= p < u64::MAX ==> !nonce_works(block@, p),
        },
{
    let start = block.pow;
    match search_nonce(block, u64::MAX - start) {
        Ok(b) => Some(b),
        Err(b) => {
            if b.is_pow_valid() {
                assert(with_nonce(block@, b@.pow) == b@);
                Some(b)
            } else {
                None
            }
        },
    }
}

/// Whether the miner should drop its candidate: the chain's top has
/// reached the candidate's height, or a shutdown was asked for.
pub fn should_abandon(candidate_id: u64, chain_len: u64, shutdown: bool) -> (r: bool)
    ensures
        r == (shutdown || chain_len > candidate_id),
{
    shutdown || chain_len > candidate_id
}

/// Mines `count` blocks in turn on the longest branch, each paying
/// `reward_to`, and appends each one that follows the branch's rules.
/// Returns how many were appended: the longest branch grows by exactly
/// those blocks.
pub fn mine(chain: &mut BlockChain, reward_to: Hash256, count: i32) -> (r: u32)
    requires
        old(chain).wf(),
    ensures
        final(chain).wf(),
        r as int <= (if count > 0 { count as int } else { 0 }),
        exists|added: Seq<BlockV>|
            {
                &&& added.len() == r
                &&& final(chain).longest_chain() == old(chain).longest_chain() + added
                &&& forall|k: int|
                    0 <= k < added.len() ==> (#[trigger] added[k]).reward_to == reward_to
                        && added[k].transactions.len() == 0 && added[k].pages.len() == 0
            },
{
    let ghost added: Seq<BlockV> = Seq::empty();
    let mut appended: u32 = 0;
    let mut i: i32 = 0;
    assert(old(chain).longest_chain() + added =~= old(chain).longest_chain());
    while i < count
        invariant
            chain.wf(),
            0 <= i,
            count > 0 ==> i <= count,
            count <= 0 ==> i == 0,
            appended as int <= i as int,
            added.len() == appended,
            chain.longest_chain() == old(chain).longest_chain() + added,
            forall|k: int|
                0 <= k < added.len() ==> (#[trigger] added[k]).reward_to == reward_to
                    && added[k].transactions.len() == 0 && added[k].pages.len() == 0,
        decreases count - i,
    {
        match Block::new(chain, reward_to) {
            Ok(candidate) => {
                match mine_block(candidate) {
                    Some(block) => {
                        let ghost before = chain.longest_chain();
                        let no_transfers: Vec<WalletValidationResult> = Vec::new();
                        assert(no_transfers@ =~= Seq::<WalletValidationResult>::empty());
                        if chain.append_to_longest(&block, &no_transfers).is_ok() {
                            proof {
                                let ghost next = added.push(block@);
                                assert(chain.longest_chain() =~= old(chain).longest_chain() + next);
                                added = next;
                            }
                            appended = appended + 1;
                        }
                    },
                    None => {},
                }
            },
            Err(_) => {},
        }
        i = i + 1;
    }
    appended
}

} // verus!
