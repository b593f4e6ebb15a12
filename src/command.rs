//! What local clients ask of the node, and what it answers.
use vstd::prelude::*;
use crate::block::Block;
use crate::transaction::Transaction;
use crate::wallet::WalletStatus;

verus! {

/// A request from a local client. Amounts are in units.
#[derive(Clone, Debug)]
pub enum Command {
    Exit,
    Balance(Vec<u8>),
    Send(Vec<u8>, Vec<u8>, i64, i64),
    TransactionInfo(Vec<u8>),
    TransactionHistory(Vec<u8>),
    Blocks(u64, u64),
}

/// The answer to a `Command`.
#[derive(Clone, Debug)]
pub enum Response {
    Exit,
    WalletStatus(WalletStatus),
    Sent(Vec<u8>),
    TransactionInfo(Transaction, Option<Block>),
    TransactionHistory(Vec<(Transaction, Option<Block>)>),
    Blocks(Vec<Block>),
    Failed,
}

} // verus!
