//! Facts that hold of every branch and of every fold over blocks.
use vstd::prelude::*;
use crate::block::{
    BLOCK_REWARD,
    block_hash_spec, block_update_spec, fold_pages, fold_transfers, uses_address, BlockV,
};
use crate::chain::{lemma_valid_chain_ids, BlockChainBranch};
use crate::transaction::{sender_spec, transfer_update_spec, Transaction};
use crate::validate::{
    first_error, valid_chain, valid_next, wallet_after, wallet_status_spec, wallets_ok,
};
use crate::wallet::WalletStatus;

verus! {

/// In a valid branch, each block names the hash of the block before it and
/// carries the next id.
pub proof fn lemma_chain_contiguity(br: BlockChainBranch, i: int)
    requires
        br.wf(),
        0 <= i,
        i + 1 < br.chain().len(),
    ensures
        br.chain()[i + 1].prev_hash@ == block_hash_spec(br.chain()[i]),
        br.chain()[i + 1].block_id == br.chain()[i].block_id + 1,
{
    let s = br.chain();
    reveal(valid_chain);
    assert(valid_next(s.take(i + 1), s[i + 1]));
    reveal(first_error);
    assert(s.take(i + 1).last() == s[i]);
    lemma_valid_chain_ids(s);
}

/// Folding a list of blocks in two parts gives what folding it at once
/// gives: the second part starts from the status after the first.
pub proof fn lemma_fold_closure(blocks: Seq<BlockV>, addr: Seq<u8>, start: Option<WalletStatus>, k: int)
    requires
        0 <= k <= blocks.len(),
    ensures
        wallet_after(blocks, addr, start) == wallet_after(
            blocks.skip(k),
            addr,
            wallet_after(blocks.take(k), addr, start),
        ),
    decreases blocks.len(),
{
    if k == blocks.len() {
        assert(blocks.take(k) =~= blocks);
        assert(blocks.skip(k) =~= Seq::<BlockV>::empty());
    } else {
        lemma_fold_closure(blocks.drop_last(), addr, start, k);
        assert(blocks.drop_last().take(k) =~= blocks.take(k));
        assert(blocks.skip(k).drop_last() =~= blocks.drop_last().skip(k));
        assert(blocks.skip(k).last() == blocks.last());
    }
}

/// The status of an address through the whole of a chain equals its status
/// from any height on, started from its status through that height.
pub proof fn lemma_wallet_status_from_height(blocks: Seq<BlockV>, addr: Seq<u8>, k: int)
    requires
        0 <= k <= blocks.len(),
    ensures
        wallet_status_spec(blocks, addr) == wallet_after(
            blocks.skip(k),
            addr,
            wallet_status_spec(blocks.take(k), addr),
        ),
{
    lemma_fold_closure(blocks, addr, Some(WalletStatus { balance: 0, max_id: 0 }), k);
}

proof fn lemma_transfers_max_id(s: Seq<Transaction>, addr: Seq<u8>, st: WalletStatus, winner: bool)
    ensures
        fold_transfers(s, addr, Some(st), winner) is Some ==> fold_transfers(
            s,
            addr,
            Some(st),
            winner,
        )->0.max_id >= st.max_id,
    decreases s.len(),
{
    if s.len() > 0 {
        lemma_transfers_max_id(s.drop_last(), addr, st, winner);
    }
}

proof fn lemma_transfers_from_none(s: Seq<Transaction>, addr: Seq<u8>, winner: bool)
    ensures
        fold_transfers(s, addr, None, winner) is None,
    decreases s.len(),
{
    if s.len() > 0 {
        lemma_transfers_from_none(s.drop_last(), addr, winner);
    }
}

proof fn lemma_transfers_none(s: Seq<Transaction>, addr: Seq<u8>, start: Option<WalletStatus>, winner: bool, k: int)
    requires
        0 <= k <= s.len(),
        fold_transfers(s.take(k), addr, start, winner) is None,
    ensures
        fold_transfers(s, addr, start, winner) is None,
    decreases s.len() - k,
{
    if k < s.len() {
        assert(s.take(k + 1).drop_last() =~= s.take(k));
        lemma_transfers_none(s, addr, start, winner, k + 1);
    } else {
        assert(s.take(k) =~= s);
    }
}

proof fn lemma_pages_none(s: Seq<crate::page::PageV>, addr: Seq<u8>, winner: bool)
    ensures
        fold_pages(s, addr, None, winner) is None,
    decreases s.len(),
{
    if s.len() > 0 {
        lemma_pages_none(s.drop_last(), addr, winner);
    }
}

/// A block with a transfer whose id is at most the highest id its sender
/// has used before the block is rejected.
pub proof fn lemma_replay_rejected(prefix: Seq<BlockV>, b: BlockV, i: int, st: WalletStatus)
    requires
        0 <= i < b.transactions.len(),
        wallet_status_spec(prefix, sender_spec(b.transactions[i])) == Some(st),
        b.transactions[i].header.id <= st.max_id,
    ensures
        !valid_next(prefix, b),
{
    let a = sender_spec(b.transactions[i]);
    let t = b.transactions;
    assert(uses_address(b, a));
    assert(prefix.push(b).drop_last() =~= prefix);
    assert(wallet_status_spec(prefix.push(b), a) == block_update_spec(b, a, st));
    let winner = b.reward_to@ == a;
    let start = if winner {
        crate::wallet::shift_balance(st, crate::block::BLOCK_REWARD as int)
    } else {
        Some(st)
    };
    assert(t.take(i + 1).drop_last() =~= t.take(i));
    assert(t.take(i + 1).last() == t[i]);
    match start {
        Some(x) => {
            assert(x.max_id == st.max_id);
            lemma_transfers_max_id(t.take(i), a, x, winner);
        },
        None => {
            lemma_transfers_from_none(t.take(i), a, winner);
        },
    }
    match fold_transfers(t.take(i), a, start, winner) {
        Some(y) => {
            assert(y.max_id >= st.max_id);
            assert(transfer_update_spec(t[i], a, y, winner) is None);
        },
        None => {},
    }
    assert(fold_transfers(t.take(i + 1), a, start, winner) is None);
    lemma_transfers_none(t, a, start, winner, i + 1);
    lemma_pages_none(b.pages, a, winner);
    assert(!wallets_ok(prefix, b));
    reveal(first_error);
}

/// Blocks that hold nothing but a reward for `addr` raise its balance by
/// one reward each and leave its highest id as it was.
pub proof fn lemma_reward_only_blocks(blocks: Seq<BlockV>, addr: Seq<u8>, st: WalletStatus)
    requires
        forall|k: int|
            0 <= k < blocks.len() ==> (#[trigger] blocks[k]).reward_to@ == addr
                && blocks[k].transactions.len() == 0 && blocks[k].pages.len() == 0,
        st.balance + blocks.len() * BLOCK_REWARD <= i64::MAX,
        st.balance >= 0,
    ensures
        wallet_after(blocks, addr, Some(st)) == Some(
            WalletStatus { balance: (st.balance + blocks.len() * BLOCK_REWARD) as i64, max_id: st.max_id },
        ),
    decreases blocks.len(),
{
    if blocks.len() > 0 {
        let rest = blocks.drop_last();
        assert forall|k: int| 0 <= k < rest.len() implies (#[trigger] rest[k]).reward_to@ == addr
            && rest[k].transactions.len() == 0 && rest[k].pages.len() == 0 by {
            assert(rest[k] == blocks[k]);
        }
        assert(st.balance + rest.len() * BLOCK_REWARD <= st.balance + blocks.len() * BLOCK_REWARD)
            by (nonlinear_arith)
            requires
                rest.len() < blocks.len(),
        ;
        lemma_reward_only_blocks(rest, addr, st);
        let last = blocks.last();
        assert(last.reward_to@ == addr && last.transactions.len() == 0 && last.pages.len() == 0);
        assert(blocks.len() * BLOCK_REWARD == rest.len() * BLOCK_REWARD + BLOCK_REWARD)
            by (nonlinear_arith)
            requires
                blocks.len() == rest.len() + 1,
        ;
    }
}

} // verus!
