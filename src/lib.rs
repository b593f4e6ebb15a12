//! A proof-of-work ledger node: block model, canonical encoding, wallet
//! accounting, a multi-branch chain store and the peer registry logic.

pub mod config;
pub mod crypto;
pub mod encoding;
pub mod decode;
pub mod wallet;
pub mod transaction;
pub mod error;
pub mod page;
pub mod block;
pub mod target;
pub mod validate;
pub mod chain;
pub mod miner;
pub mod invariants;
pub mod network;
pub mod node;
pub mod command;
