//! The content digest: BLAKE3 with its default 32-byte output.

use vstd::prelude::*;

verus! {

/// A 32-byte digest.
pub type Digest = [u8; 32];

/// The BLAKE3 digest of `data`, as a function of the input bytes alone.
pub uninterp spec fn blake3_digest(data: Seq<u8>) -> Digest;

/// Hashes `data` with `blake3::hash` and hands back the digest's bytes.
///
/// Trusted: the result is the BLAKE3 digest of exactly the bytes given, the
/// same on every call with the same input.
#[verifier::external_body]
pub(crate) fn digest(data: &[u8]) -> (out: Digest)
    ensures
        out == blake3_digest(data@),
{
    *blake3::hash(data).as_bytes()
}

} // verus!
