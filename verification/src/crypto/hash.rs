//! SHA-256, from the `sha2` crate.

use vstd::prelude::*;

verus! {

/// The SHA-256 digest of a byte string. It depends on the bytes alone.
pub uninterp spec fn sha256_digest(data: Seq<u8>) -> Seq<u8>;

/// `sha2::Sha256::digest`: the 32-byte SHA-256 digest of `data`, which is
/// `sha256_digest(data)`. Nothing else is claimed of it.
#[verifier::external_body]
pub(crate) fn sha256(data: &[u8]) -> (r: [u8; 32])
    ensures
        r@ == sha256_digest(data@),
{
    <sha2::Sha256 as sha2::Digest>::digest(data).into()
}

} // verus!
