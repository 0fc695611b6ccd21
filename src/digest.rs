//! SHA-1 and SHA-256, as computed by the `sha1` and `sha2` crates.
//!
//! Both digests depend on the hashed bytes alone, so their results are
//! given a name here and the rest of the library is stated over it.
use sha2::Digest;
use vstd::prelude::*;

verus! {

/// The SHA-1 digest of `data`.
pub uninterp spec fn sha1_of(data: Seq<u8>) -> [u8; 20];

/// The SHA-256 digest of `data`.
pub uninterp spec fn sha256_of(data: Seq<u8>) -> [u8; 32];

/// Relies on `sha1::Sha1::digest` (through the `Digest` trait): one-shot
/// SHA-1 of the given bytes.
#[verifier::external_body]
pub(crate) fn sha1_digest(data: &[u8]) -> (r: [u8; 20])
    ensures
        r == sha1_of(data@),
{
    sha1::Sha1::digest(data).into()
}

/// Relies on `sha2::Sha256::digest` (through the `Digest` trait): one-shot
/// SHA-256 of the given bytes.
#[verifier::external_body]
pub(crate) fn sha256_digest(data: &[u8]) -> (r: [u8; 32])
    ensures
        r == sha256_of(data@),
{
    sha2::Sha256::digest(data).into()
}

} // verus!
