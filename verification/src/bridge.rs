//! Resolving the manifest reference of a WebVTT file to the manifest store's
//! origin: an external URI, or the bytes of an inline `data:` URI.
//!
//! Signature, trust, timestamp and assertion validation of the store is the
//! C2PA SDK's work; this crate performs no network I/O.

use vstd::prelude::*;
use vstd::utf8::*;
use vstd::string::*;
use crate::error::Error;
use c2pa::Error as C2paError;
use crate::extract::{extract_manifest, spec_extract};
use crate::base64::standard_decode;
use crate::structured::{codec_decode, codec_decode_message, data_uri_prefix, data_uri_prefix_bytes};
use crate::text::{lemma_boundary, starts_with_at, sub_str, text_bytes};

verus! {

broadcast use vstd::utf8::encode_utf8_valid_utf8, vstd::utf8::encode_utf8_decode_utf8;

/// The origin of a manifest store referenced from a WebVTT file.
#[derive(Debug, Clone, PartialEq, Eq)]
pub enum ManifestSource {
    /// A URI to an external manifest store. The caller is responsible for
    /// fetching the bytes.
    Url(String),
    /// A manifest store embedded inline via a `data:` URI, decoded to bytes.
    Embedded(Vec<u8>),
}

/// Whether reference `r` is an inline `data:application/c2pa;base64,` URI.
pub open spec fn is_data_uri(r: Seq<char>) -> bool {
    let rb = encode_utf8(r);
    rb.len() >= 29 && rb.subrange(0, 29) == data_uri_prefix_bytes()
}

/// The Base64 payload of an inline reference `r`.
pub open spec fn data_uri_payload(r: Seq<char>) -> Seq<char> {
    let rb = encode_utf8(r);
    decode_utf8(rb.subrange(29, rb.len() as int))
}

/// Whether `res` is what [`extract_manifest_source`] gives for a file with
/// bytes `t`: the extraction error; the payload of an inline reference,
/// decoded, or the decoder's message as a malformed reference; or any other
/// reference verbatim as a URL.
pub open spec fn source_agrees(res: Result<ManifestSource, Error>, t: Seq<u8>) -> bool {
    match spec_extract(t) {
        Err(e) => res == Err::<ManifestSource, Error>(e),
        Ok(b) => if is_data_uri(b.reference) {
            match standard_decode(encode_utf8(data_uri_payload(b.reference))) {
                Some(v) => res matches Ok(ManifestSource::Embedded(x)) && x@ == v,
                None => res matches Err(Error::MalformedReference(s)) && s@ == codec_decode_message(
                    data_uri_payload(b.reference),
                ),
            }
        } else {
            res matches Ok(ManifestSource::Url(s)) && s@ == b.reference
        },
    }
}

/// The source for the outcome of decoding an inline reference's payload:
/// the decoded store, or the decoder's message as a malformed reference.
pub fn source_of_decoded(decoded: Result<Vec<u8>, String>) -> (res: Result<ManifestSource, Error>)
    ensures
        res == match decoded {
            Ok(bytes) => Ok::<ManifestSource, Error>(ManifestSource::Embedded(bytes)),
            Err(message) => Err::<ManifestSource, Error>(Error::MalformedReference(message)),
        },
{
    match decoded {
        Ok(bytes) => Ok(ManifestSource::Embedded(bytes)),
        Err(message) => Err(Error::MalformedReference(message)),
    }
}

/// Extract and resolve the manifest reference from a WebVTT file.
///
/// A `data:application/c2pa;base64,...` reference is decoded to
/// [`ManifestSource::Embedded`]; any other reference is returned verbatim as
/// [`ManifestSource::Url`].
pub fn extract_manifest_source(text: &str) -> (res: Result<ManifestSource, Error>)
    ensures
        source_agrees(res, text.spec_bytes()),
{
    let reference = match extract_manifest(text) {
        Ok(found) => found.reference,
        Err(e) => {
            return Err(e);
        },
    };
    let r = reference.as_str();
    let rb = text_bytes(r);
    let prefix = text_bytes(data_uri_prefix());
    if starts_with_at(rb, 0, prefix) {
        proof {
            assert(rb@[28] == data_uri_prefix_bytes()[28]) by {
                assert(rb@.subrange(0, 29)[28] == rb@[28]);
            }
            lemma_boundary(rb@, 29);
            lemma_boundary(rb@, rb@.len() as int);
        }
        let payload = sub_str(r, 29, rb.len());
        source_of_decoded(codec_decode(payload))
    } else {
        Ok(ManifestSource::Url(reference))
    }
}

/// The C2PA SDK's reader of a manifest store, opaque here.
#[verifier::external_type_specification]
#[verifier::external_body]
pub struct SdkReader(c2pa::Reader);

/// The C2PA SDK's error type, opaque here.
#[verifier::external_type_specification]
#[verifier::external_body]
pub struct SdkError(C2paError);

/// Validate a WebVTT asset against a C2PA manifest store using the C2PA SDK
/// (`c2pa::Reader::with_manifest_data_and_stream`, with the asset as a
/// `text/vtt` stream).
///
/// The SDK performs signature, trust, timestamp and assertion validation;
/// inspect the returned reader's validation state and status. Validate the
/// WebVTT hard binding separately with [`crate::binding::verify_data_hash`].
/// Nothing is stated of the outcome: it rests on the SDK's validation, its
/// settings and its trust configuration.
/// Nor is it stated that the SDK's parsing of arbitrary store bytes never
/// panics: its errors come back as `Err`, but its source was not shown to be
/// free of panics on every input.
#[verifier::external_body]
pub fn validate(vtt: &str, manifest_store: &[u8]) -> Result<c2pa::Reader, C2paError> {
    c2pa::Reader::from_context(c2pa::Context::new()).with_manifest_data_and_stream(
        manifest_store,
        "text/vtt",
        std::io::Cursor::new(vtt.as_bytes()),
    )
}

} // verus!
