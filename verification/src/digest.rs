//! SHA-256, through the `sha2` crate.
use vstd::prelude::*;
use sha2::{Digest, Sha256};

verus! {

/// What `sha2::Sha256::digest` returns for `data`.
pub uninterp spec fn sha256_digest(data: Seq<u8>) -> Seq<u8>;

/// Calls `sha2::Sha256::digest`. Trusted: the 32 returned bytes are
/// `sha256_digest(data)`, the same for the same input, and nothing more is
/// claimed of them.
#[verifier::external_body]
pub(crate) fn sha256(data: &[u8]) -> (r: [u8; 32])
    ensures
        r@ == sha256_digest(data@),
{
    Sha256::digest(data).into()
}

} // verus!
