//! Hard binding for WebVTT: the `c2pa.hash.data` data hash.
//!
//! WebVTT is bound with a byte-exact data hash carrying a single exclusion
//! range that covers the manifest `NOTE` block. The hash is computed over the
//! raw bytes of the file with that range removed; no Unicode normalization is
//! applied.

use vstd::prelude::*;
use vstd::string::*;
use crate::digest::{sha256, sha256_digest, sha384, sha384_digest, sha512, sha512_digest};
use crate::error::Error;
use crate::extract::{extract_manifest, spec_extract, ManifestBlock};
use crate::structured::apply_exclusion;
use crate::text::{starts_with_at, text_bytes};
use vstd::utf8::*;

verus! {

/// A `c2pa.hash.data` exclusion range (`start`/`length`, in bytes).
#[derive(Debug, Clone, Copy, PartialEq, Eq, Structural)]
pub struct Exclusion {
    /// Starting byte of the excluded range.
    pub start: usize,
    /// Number of bytes to exclude.
    pub length: usize,
}

/// A C2PA cryptographic hash algorithm usable for the data hash.
#[derive(Debug, Clone, Copy, PartialEq, Eq, Structural)]
pub enum HashAlg {
    Sha256,
    Sha384,
    Sha512,
}

/// The C2PA identifier of an algorithm.
pub open spec fn alg_id(alg: HashAlg) -> Seq<char> {
    match alg {
        HashAlg::Sha256 => "sha256"@,
        HashAlg::Sha384 => "sha384"@,
        HashAlg::Sha512 => "sha512"@,
    }
}

/// The length in bytes of a digest under `alg`.
pub open spec fn digest_len(alg: HashAlg) -> nat {
    match alg {
        HashAlg::Sha256 => 32,
        HashAlg::Sha384 => 48,
        HashAlg::Sha512 => 64,
    }
}

/// The digest of `data` under `alg`.
pub open spec fn digest_of(alg: HashAlg, data: Seq<u8>) -> Seq<u8> {
    match alg {
        HashAlg::Sha256 => sha256(data),
        HashAlg::Sha384 => sha384(data),
        HashAlg::Sha512 => sha512(data),
    }
}

/// The bytes of `t` that the data hash covers: all but the block `b`.
pub open spec fn covered_bytes(t: Seq<u8>, b: ManifestBlock) -> Seq<u8> {
    t.subrange(0, b.offset) + t.subrange(b.offset + b.length, t.len() as int)
}

/// What [`compute_data_hash`] gives for a file with bytes `t`.
pub open spec fn spec_data_hash(t: Seq<u8>, alg: HashAlg) -> Result<Seq<u8>, Error> {
    match spec_extract(t) {
        Ok(b) => Ok(digest_of(alg, covered_bytes(t, b))),
        Err(e) => Err(e),
    }
}

/// What [`verify_data_hash`] gives for a file with bytes `t`.
pub open spec fn spec_verify(t: Seq<u8>, alg: HashAlg, expected: Seq<u8>) -> Result<bool, Error> {
    match spec_data_hash(t, alg) {
        Ok(h) => Ok(h == expected),
        Err(e) => Err(e),
    }
}

/// A hash computed for a file verifies against it.
pub proof fn law_verify_accepts_computed_hash(t: Seq<u8>, alg: HashAlg)
    ensures
        spec_data_hash(t, alg) matches Ok(h) ==> spec_verify(t, alg, h) == Ok::<bool, Error>(true),
{
}

impl HashAlg {
    /// The C2PA hash algorithm identifier (the value of the `alg` field).
    pub fn c2pa_id(self) -> (r: &'static str)
        ensures
            r@ == alg_id(self),
    {
        match self {
            HashAlg::Sha256 => "sha256",
            HashAlg::Sha384 => "sha384",
            HashAlg::Sha512 => "sha512",
        }
    }

    /// The algorithm whose C2PA identifier is `name`, or `None` when `name`
    /// is not one of `sha256`, `sha384` and `sha512`.
    pub fn from_c2pa_id(name: &str) -> (r: Option<HashAlg>)
        ensures
            match r {
                Some(a) => alg_id(a) == name@,
                None => forall|a: HashAlg| alg_id(a) != name@,
            },
    {
        if names_alg(name, HashAlg::Sha256) {
            Some(HashAlg::Sha256)
        } else if names_alg(name, HashAlg::Sha384) {
            Some(HashAlg::Sha384)
        } else if names_alg(name, HashAlg::Sha512) {
            Some(HashAlg::Sha512)
        } else {
            proof {
                assert forall|a: HashAlg| alg_id(a) != name@ by {
                    match a {
                        HashAlg::Sha256 => {},
                        HashAlg::Sha384 => {},
                        HashAlg::Sha512 => {},
                    }
                }
            }
            None
        }
    }
}

/// Whether `name` is the C2PA identifier of `alg`.
fn names_alg(name: &str, alg: HashAlg) -> (r: bool)
    ensures
        r == (name@ == alg_id(alg)),
{
    let given = text_bytes(name);
    let id = alg.c2pa_id();
    let wanted = text_bytes(id);
    let r = given.len() == wanted.len() && starts_with_at(given, 0, wanted);
    proof {
        if r {
            assert(given@ =~= wanted@);
            encode_utf8_decode_utf8(name@);
            encode_utf8_decode_utf8(alg_id(alg));
        }
        if name@ == alg_id(alg) {
            assert(given@ =~= wanted@);
            assert(given@.subrange(0, wanted@.len() as int) =~= wanted@);
        }
    }
    r
}

/// The single exclusion range covering the manifest `NOTE` block, which the
/// generator must place in the `c2pa.hash.data` assertion's `exclusions`
/// field.
pub fn data_hash_exclusion(text: &str) -> (res: Result<Exclusion, Error>)
    ensures
        match res {
            Ok(ex) => spec_extract(text.spec_bytes()) matches Ok(b) && ex.start == b.offset
                && ex.length == b.length,
            Err(e) => spec_extract(text.spec_bytes()) == Err::<ManifestBlock, Error>(e),
        },
        res matches Ok(ex) ==> ex.start + ex.length <= text.spec_bytes().len(),
{
    match extract_manifest(text) {
        Ok(found) => Ok(Exclusion { start: found.offset, length: found.length }),
        Err(e) => Err(e),
    }
}

/// Compute the `c2pa.hash.data` value over the file with the manifest block
/// excluded. The result is the byte string that goes in the assertion's
/// `hash` field.
pub fn compute_data_hash(text: &str, alg: HashAlg) -> (res: Result<Vec<u8>, Error>)
    ensures
        match res {
            Ok(h) => spec_data_hash(text.spec_bytes(), alg) == Ok::<Seq<u8>, Error>(h@),
            Err(e) => spec_data_hash(text.spec_bytes(), alg) == Err::<Seq<u8>, Error>(e),
        },
        res matches Ok(h) ==> h@.len() == digest_len(alg),
{
    let ex = match data_hash_exclusion(text) {
        Ok(ex) => ex,
        Err(e) => {
            return Err(e);
        },
    };
    let bytes = text_bytes(text);
    hash_excluding(bytes, ex, alg)
}

/// Verify a `c2pa.hash.data` value against a WebVTT file: `true` when the
/// recomputed hash equals `expected`.
pub fn verify_data_hash(text: &str, alg: HashAlg, expected: &[u8]) -> (res: Result<bool, Error>)
    ensures
        match res {
            Ok(ok) => spec_verify(text.spec_bytes(), alg, expected@) == Ok::<bool, Error>(ok),
            Err(e) => spec_verify(text.spec_bytes(), alg, expected@) == Err::<bool, Error>(e),
        },
{
    let got = match compute_data_hash(text, alg) {
        Ok(got) => got,
        Err(e) => {
            return Err(e);
        },
    };
    Ok(constant_time_eq(got.as_slice(), expected))
}

/// The digest under `alg` of `bytes` without the range `ex`; an error when
/// the range extends beyond the end of `bytes`.
fn hash_excluding(bytes: &[u8], ex: Exclusion, alg: HashAlg) -> (res: Result<Vec<u8>, Error>)
    ensures
        match res {
            Ok(h) => ex.start + ex.length <= bytes@.len() && h@ == digest_of(
                alg,
                bytes@.subrange(0, ex.start as int) + bytes@.subrange(
                    ex.start + ex.length,
                    bytes@.len() as int,
                ),
            ),
            Err(e) => ex.start + ex.length > bytes@.len() && e is ExclusionOutOfRange,
        },
        res matches Ok(h) ==> h@.len() == digest_len(alg),
{
    let covered = match apply_exclusion(bytes, ex.start, ex.length) {
        Ok(v) => v,
        Err(_) => {
            return Err(Error::ExclusionOutOfRange);
        },
    };
    let h = match alg {
        HashAlg::Sha256 => sha256_digest(covered.as_slice()),
        HashAlg::Sha384 => sha384_digest(covered.as_slice()),
        HashAlg::Sha512 => sha512_digest(covered.as_slice()),
    };
    Ok(h)
}

/// Whether `a` and `b` are equal, comparing every byte whatever the outcome.
fn constant_time_eq(a: &[u8], b: &[u8]) -> (r: bool)
    ensures
        r == (a@ == b@),
{
    if a.len() != b.len() {
        return false;
    }
    let mut diff: u8 = 0;
    let mut i: usize = 0;
    while i < a.len()
        invariant
            a@.len() == b@.len(),
            i <= a@.len(),
            (diff == 0) == (forall|j: int| 0 <= j < i ==> a@[j] == b@[j]),
        decreases a@.len() - i,
    {
        let x = a[i];
        let y = b[i];
        assert((diff | (x ^ y)) == 0 <==> (diff == 0 && x == y)) by (bit_vector);
        diff = diff | (x ^ y);
        i = i + 1;
    }
    proof {
        if diff == 0 {
            assert(a@ =~= b@);
        }
    }
    diff == 0
}

} // verus!
