//! SHA-1 digests, computed by the `sha1` crate.

use vstd::prelude::*;

verus! {

/// The SHA-1 digest of a byte string (20 bytes).
pub uninterp spec fn sha1_of(data: Seq<u8>) -> Seq<u8>;

/// The SHA-1 digest of `data`.
///
/// Trusted: calls `sha1::Sha1::from(data).digest().bytes()` of the `sha1`
/// crate. The contract says only that the result is the digest of exactly
/// these bytes, a function of them alone; what SHA-1 computes is not stated.
#[verifier::external_body]
pub(crate) fn sha1_digest(data: &[u8]) -> (r: [u8; 20])
    ensures
        r@ == sha1_of(data@),
{
    sha1::Sha1::from(data).digest().bytes()
}

} // verus!
