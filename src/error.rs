use vstd::prelude::*;

verus! {

/// Why a block, a branch operation or an encoding was refused.
#[derive(Clone, Copy, Debug, PartialEq, Eq, Structural)]
pub enum Error {
    BadSignature,
    BadKey,
    NegativeAmount,
    ReplayedId,
    UnbalancedInputs,
    WrongHashCount,
    BadPoW,
    BadPrevHash,
    BadTarget,
    BadBlockId,
    BlockTooLarge,
    DuplicateBlock,
    NoValidBranches,
    BranchNameTaken,
    SerializationError,
}

} // verus!
