//! SHA-1, from the `sha1` crate.
use vstd::prelude::*;
use sha1::{Digest, Sha1};

verus! {

/// The SHA-1 digest of `data`.
pub uninterp spec fn sha1(data: Seq<u8>) -> Seq<u8>;

/// `Sha1::digest` of the `sha1` crate, as an array: the 20-byte SHA-1 digest of
/// `data`, which depends on `data` alone.
#[verifier::external_body]
pub(crate) fn sha1_digest(data: &[u8]) -> (digest: [u8; 20])
    ensures
        digest@ == sha1(data@),
{
    Sha1::digest(data).into()
}

} // verus!
