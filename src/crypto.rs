use vstd::prelude::*;
use crate::config::{Hash256, Signature};

verus! {

/// The SHA-256 digest of a byte string.
pub uninterp spec fn sha256_of(data: Seq<u8>) -> Seq<u8>;

/// Relies on sha2::Sha256::digest: the digest depends on the bytes alone.
#[verifier::external_body]
pub(crate) fn sha256(data: &[u8]) -> (r: Hash256)
    ensures
        r@ == sha256_of(data@),
{
    let digest = <sha2::Sha256 as sha2::Digest>::digest(data);
    let mut out = [0u8; 32];
    out.copy_from_slice(digest.as_slice());
    out
}

/// The address that belongs to a public key: the hash of its bytes.
pub open spec fn address_spec(key: Signature) -> Seq<u8> {
    sha256_of(key@)
}

/// Derives the address of a public key.
pub fn address(key: &Signature) -> (r: Hash256)
    ensures
        r@ == address_spec(*key),
{
    sha256(key.as_slice())
}

/// Byte-wise equality of two hashes.
pub fn hash_eq(a: &Hash256, b: &Hash256) -> (r: bool)
    ensures
        r == (a@ == b@),
{
    let mut i: usize = 0;
    while i < 32
        invariant
            0 <= i <= 32,
            a@.len() == 32,
            b@.len() == 32,
            forall|j: int| 0 <= j < i ==> a@[j] == b@[j],
        decreases 32 - i,
    {
        if a[i] != b[i] {
            return false;
        }
        i = i + 1;
    }
    assert(a@ =~= b@);
    true
}

} // verus!
