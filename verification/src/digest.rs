//! The SHA-2 digests of the data hash, computed by the `sha2` crate.
//!
//! Each digest is a function of its input alone; its value is named here
//! rather than restated.

use vstd::prelude::*;
use sha2::Digest;

verus! {

/// The name of the SHA-256 digest of `data`.
pub uninterp spec fn sha256(data: Seq<u8>) -> Seq<u8>;

/// The name of the SHA-384 digest of `data`.
pub uninterp spec fn sha384(data: Seq<u8>) -> Seq<u8>;

/// The name of the SHA-512 digest of `data`.
pub uninterp spec fn sha512(data: Seq<u8>) -> Seq<u8>;

/// `sha2::Sha256::digest`. Trusted: the result is the named digest of the
/// input, 32 bytes long.
#[verifier::external_body]
pub(crate) fn sha256_digest(data: &[u8]) -> (r: Vec<u8>)
    ensures
        r@ == sha256(data@),
        r@.len() == 32,
{
    sha2::Sha256::digest(data).to_vec()
}

/// `sha2::Sha384::digest`. Trusted: the result is the named digest of the
/// input, 48 bytes long.
#[verifier::external_body]
pub(crate) fn sha384_digest(data: &[u8]) -> (r: Vec<u8>)
    ensures
        r@ == sha384(data@),
        r@.len() == 48,
{
    sha2::Sha384::digest(data).to_vec()
}

/// `sha2::Sha512::digest`. Trusted: the result is the named digest of the
/// input, 64 bytes long.
#[verifier::external_body]
pub(crate) fn sha512_digest(data: &[u8]) -> (r: Vec<u8>)
    ensures
        r@ == sha512(data@),
        r@.len() == 64,
{
    sha2::Sha512::digest(data).to_vec()
}

} // verus!
