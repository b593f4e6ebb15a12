use vstd::prelude::*;

verus! {

/// A running projection of one address: its balance and the highest
/// transaction id it has sent.
#[derive(Clone, Copy, Debug, PartialEq, Eq, Structural)]
pub struct WalletStatus {
    pub balance: i64,
    pub max_id: u32,
}

impl WalletStatus {
    /// The state before any block: nothing held, nothing sent.
    pub fn new() -> (r: WalletStatus)
        ensures
            r.balance == 0,
            r.max_id == 0,
    {
        WalletStatus { balance: 0, max_id: 0 }
    }
}

/// The outcome of checking a signature against a public key.
#[derive(Clone, Copy, Debug, PartialEq, Eq, Structural)]
pub enum WalletValidationResult {
    Valid,
    BadKey,
    BadSignature,
}

/// Whether an integer fits in an `i64`.
pub open spec fn fits_i64(v: int) -> bool {
    i64::MIN <= v <= i64::MAX
}

/// Moves `status` by `delta`, failing where the balance would leave the
/// `i64` range.
pub open spec fn shift_balance(status: WalletStatus, delta: int) -> Option<WalletStatus> {
    if fits_i64(status.balance + delta) {
        Some(WalletStatus { balance: (status.balance + delta) as i64, max_id: status.max_id })
    } else {
        None
    }
}

/// Adds `delta` to the balance, or `None` where the sum leaves the `i64` range.
pub fn add_to_balance(status: WalletStatus, delta: i128) -> (r: Option<WalletStatus>)
    ensures
        r == shift_balance(status, delta as int),
{
    let b = status.balance as i128;
    if delta > 0 && b > i64::MAX as i128 - delta {
        return None;
    }
    if delta < 0 && b < i64::MIN as i128 - delta {
        return None;
    }
    Some(WalletStatus { balance: (b + delta) as i64, max_id: status.max_id })
}

} // verus!
