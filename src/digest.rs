use crate::hash::H256;
use sha3::Digest;
use vstd::prelude::*;

verus! {

/// The SHA3-256 digest of a byte string.
pub uninterp spec fn sha3_256_of(b: Seq<u8>) -> Seq<u8>;

/// Relies on `sha3::Sha3_256::digest`: the 32-byte SHA3-256 digest of `b`,
/// which depends on the bytes alone.
#[verifier::external_body]
pub(crate) fn sha3_256(b: &[u8]) -> (r: H256)
    ensures
        r.0@ == sha3_256_of(b@),
{
    let out = sha3::Sha3_256::digest(b);
    H256(out.into())
}

} // verus!
