use vstd::prelude::*;

verus! {

/// Length in bytes of a hash.
pub const HASH_LEN: usize = 32;

/// Length in bytes of a public key or a signature.
pub const PUB_KEY_LEN: usize = 256;

/// A 32-byte digest.
pub type Hash256 = [u8; HASH_LEN];

/// A 256-byte public key or signature.
pub type Signature = [u8; PUB_KEY_LEN];

/// Amounts are fixed-point numbers: this many units make one coin.
pub const COIN: i64 = 1_000_000;

/// The largest serialized block, in bytes (16 MiB).
pub const BLOCK_SIZE: usize = 16777216;

/// Number of content bytes covered by one page data hash (1 MiB).
pub const PAGE_CHUNK_SIZE: u32 = 1048576;

/// Blocks behind the longest branch after which a branch is dropped.
pub const PRUNE_DEPTH: u64 = 10;

/// Number of blocks in the difficulty sampling window.
pub const SAMPLE_SIZE: u64 = 16;

/// How far, in milliseconds, a block's timestamp may lie ahead of the
/// local clock.
pub const MAX_CLOCK_SKEW_MS: u128 = 120000;

/// Milliseconds the sampling window is expected to span.
pub const SAMPLE_EXPECTED_MS: u128 = 100000;

} // verus!
