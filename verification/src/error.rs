//! Errors returned when embedding, extracting, or hard-binding a manifest.

use vstd::prelude::*;
use vstd::string::*;

verus! {

/// Errors returned when embedding, extracting, or hard-binding a manifest.
#[derive(Debug)]
pub enum Error {
    /// The input does not begin with the `WEBVTT` signature line.
    NotVtt,
    /// No manifest `NOTE` block was found in the file.
    NotFound,
    /// More than one manifest `NOTE` block was found; there shall be at most
    /// one, so the file is rejected.
    MultipleManifests,
    /// Embedding was requested for a file that already carries a manifest
    /// `NOTE` block.
    AlreadyEmbedded,
    /// The file contains a bare CR line ending; only LF and CRLF are accepted.
    BareCarriageReturn,
    /// A manifest `NOTE` block was found but the reference between the
    /// delimiters is empty.
    EmptyReference,
    /// The manifest reference could not be parsed (e.g. a malformed
    /// `data:application/c2pa;base64,...` URI).
    MalformedReference(String),
    /// The hard-binding exclusion range extends beyond the end of the asset.
    ExclusionOutOfRange,
}

/// The human-readable message of an error.
pub open spec fn spec_message(e: Error) -> Seq<char> {
    match e {
        Error::NotVtt => "file does not start with WEBVTT header"@,
        Error::NotFound => "no manifest NOTE block found"@,
        Error::MultipleManifests => "multiple manifest NOTE blocks found"@,
        Error::AlreadyEmbedded => "a manifest NOTE block is already present"@,
        Error::BareCarriageReturn => "bare CR line endings are not supported; use LF or CRLF"@,
        Error::EmptyReference => "empty manifest reference"@,
        Error::MalformedReference(s) => "malformed manifest reference: "@ + s@,
        Error::ExclusionOutOfRange => "hard-binding exclusion range extends beyond end of asset"@,
    }
}

impl Error {
    /// The registered C2PA validation status code for this error, or `None`
    /// when the condition carries no status code. Only the data-hash
    /// condition maps to a code.
    pub fn code(&self) -> (r: Option<&'static str>)
        ensures
            r is Some <==> *self is ExclusionOutOfRange,
            r matches Some(c) ==> c@ == "assertion.dataHash.malformed"@,
    {
        match self {
            Error::ExclusionOutOfRange => Some("assertion.dataHash.malformed"),
            Error::NotVtt
            | Error::NotFound
            | Error::MultipleManifests
            | Error::AlreadyEmbedded
            | Error::BareCarriageReturn
            | Error::EmptyReference
            | Error::MalformedReference(_) => None,
        }
    }

    /// Whether this error means the asset carries no provenance at all, as
    /// opposed to provenance that was found and rejected. More than one
    /// manifest block counts as none located.
    pub fn is_no_manifest_located(&self) -> (r: bool)
        ensures
            r == (*self is NotFound || *self is MultipleManifests),
    {
        match self {
            Error::NotFound | Error::MultipleManifests => true,
            _ => false,
        }
    }

    /// The human-readable message of this error.
    pub fn message(&self) -> (r: String)
        ensures
            r@ == spec_message(*self),
    {
        match self {
            Error::NotVtt => String::from_str("file does not start with WEBVTT header"),
            Error::NotFound => String::from_str("no manifest NOTE block found"),
            Error::MultipleManifests => String::from_str("multiple manifest NOTE blocks found"),
            Error::AlreadyEmbedded => String::from_str("a manifest NOTE block is already present"),
            Error::BareCarriageReturn => String::from_str(
                "bare CR line endings are not supported; use LF or CRLF",
            ),
            Error::EmptyReference => String::from_str("empty manifest reference"),
            Error::MalformedReference(s) => {
                let mut m = String::from_str("malformed manifest reference: ");
                m.append(s.as_str());
                m
            },
            Error::ExclusionOutOfRange => String::from_str(
                "hard-binding exclusion range extends beyond end of asset",
            ),
        }
    }
}

} // verus!
