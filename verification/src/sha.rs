//! SHA-256, as the `sha2` crate computes it.
use sha2::{Digest, Sha256};
use vstd::prelude::*;

verus! {

/// The SHA-256 digest of `data`.
pub uninterp spec fn sha256_of(data: Seq<u8>) -> Seq<u8>;

/// Calls `sha2::Sha256::digest`. The contract claims that the digest is a
/// function of the bytes of `data` alone, which it names `sha256_of`; what that
/// function is stays unsaid. A message is shorter than 2^64 bits, the longest
/// that SHA-256 is defined on and whose bit count the crate can hold.
#[verifier::external_body]
pub(crate) fn sha256(data: &[u8]) -> (digest: [u8; 32])
    requires
        data@.len() < 0x2000_0000_0000_0000,
    ensures
        digest@ == sha256_of(data@),
{
    Sha256::digest(data).into()
}

} // verus!
