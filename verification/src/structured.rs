//! The calls this library makes into `c2pa_structured_text`: the ASCII armour
//! delimiters, the delimiter search, the Base64 codec of inline manifest
//! stores, and the removal of a hard-binding exclusion range.
//!
//! Each item here is trusted: its contract states what the crate's source
//! does, and nothing checks it but a reader.

use vstd::prelude::*;
use vstd::string::*;
use vstd::utf8::*;
use crate::base64::{spec_encode, standard_decode};
use crate::text::find_from;
use c2pa_structured_text::Error as StError;

verus! {

/// The bytes of `-----BEGIN C2PA MANIFEST-----`.
pub open spec fn begin_bytes() -> Seq<u8> {
    seq![
        45u8, 45, 45, 45, 45, 66, 69, 71, 73, 78, 32, 67, 50, 80, 65, 32, 77, 65, 78, 73, 70, 69,
        83, 84, 45, 45, 45, 45, 45,
    ]
}

/// The bytes of `-----END C2PA MANIFEST-----`.
pub open spec fn end_bytes() -> Seq<u8> {
    seq![
        45u8, 45, 45, 45, 45, 69, 78, 68, 32, 67, 50, 80, 65, 32, 77, 65, 78, 73, 70, 69, 83, 84,
        45, 45, 45, 45, 45,
    ]
}

/// The bytes of `data:application/c2pa;base64,`.
pub open spec fn data_uri_prefix_bytes() -> Seq<u8> {
    seq![
        100u8, 97, 116, 97, 58, 97, 112, 112, 108, 105, 99, 97, 116, 105, 111, 110, 47, 99, 50,
        112, 97, 59, 98, 97, 115, 101, 54, 52, 44,
    ]
}

/// `c2pa_structured_text::BEGIN`, the opening delimiter of a manifest block.
/// Trusted: the contract restates the constant's bytes.
#[verifier::external_body]
pub(crate) fn begin_delimiter() -> (d: &'static str)
    ensures
        d.spec_bytes() == begin_bytes(),
{
    c2pa_structured_text::BEGIN
}

/// `c2pa_structured_text::END`, the closing delimiter of a manifest block.
/// Trusted: the contract restates the constant's bytes.
#[verifier::external_body]
pub(crate) fn end_delimiter() -> (d: &'static str)
    ensures
        d.spec_bytes() == end_bytes(),
{
    c2pa_structured_text::END
}

/// `c2pa_structured_text::DATA_URI_PREFIX`, the prefix of an inline
/// manifest store reference. Trusted: the contract restates its bytes.
#[verifier::external_body]
pub(crate) fn data_uri_prefix() -> (d: &'static str)
    ensures
        d.spec_bytes() == data_uri_prefix_bytes(),
{
    c2pa_structured_text::DATA_URI_PREFIX
}

/// `c2pa_structured_text::find_delimiter`: the first position at which
/// `needle` occurs in `haystack`. Trusted: the contract says that it is the
/// least such position, and `None` when there is none. The crate's search
/// uses `windows(needle.len())`, which panics on an empty needle; `requires`
/// rules that out.
#[verifier::external_body]
pub(crate) fn find_delimiter(haystack: &[u8], needle: &str) -> (r: Option<usize>)
    requires
        needle.spec_bytes().len() > 0,
    ensures
        match r {
            Some(p) => find_from(haystack@, needle.spec_bytes(), 0) == Some(p as int),
            None => find_from(haystack@, needle.spec_bytes(), 0) is None,
        },
{
    c2pa_structured_text::find_delimiter(haystack, needle)
}

/// The name of the message (its `Display` text) of the error that
/// `c2pa_structured_text::codec::decode` gives for a string it refuses.
pub uninterp spec fn codec_decode_message(s: Seq<char>) -> Seq<char>;

/// The forms of the decoder's error messages for the bytes `s` it refuses:
/// the length message exactly when the length is not a multiple of four;
/// otherwise the padding message, or the invalid-character message with the
/// offending byte in two hexadecimal digits.
pub open spec fn decode_message_form(s: Seq<u8>, m: Seq<char>) -> bool {
    let length = "base64 input length is not a multiple of 4"@;
    let padding = "base64 input has malformed padding"@;
    let invalid = "base64 input has invalid character 0x"@;
    &&& (m == length) == (s.len() % 4 != 0)
    &&& (m == length || m == padding || (m.len() == invalid.len() + 2 && m.subrange(
        0,
        invalid.len() as int,
    ) == invalid))
}

/// `c2pa_structured_text::codec::encode`: standard (RFC 4648) Base64 with
/// padding. Trusted: the contract says that the result is the standard
/// encoding.
#[verifier::external_body]
pub(crate) fn codec_encode(input: &[u8]) -> (r: String)
    ensures
        encode_utf8(r@) == spec_encode(input@),
{
    c2pa_structured_text::codec::encode(input)
}

/// `c2pa_structured_text::codec::decode`, with its error turned into its
/// message. Trusted: the contract says that it decodes standard Base64
/// exactly as [`standard_decode`] does (no white space, a whole number of
/// groups of four, `=` only in the last two places of the last group and
/// never followed by a data character), failing exactly where that gives
/// `None`. The error's message is named, as a function of the input alone,
/// and its form is stated ([`decode_message_form`]); which of the padding and
/// invalid-character messages comes, and for which byte, depends on the
/// first failure in the decoder's scan, which is not restated here.
#[verifier::external_body]
pub(crate) fn codec_decode(s: &str) -> (r: Result<Vec<u8>, String>)
    ensures
        match r {
            Ok(v) => standard_decode(encode_utf8(s@)) == Some(v@),
            Err(m) => standard_decode(encode_utf8(s@)) is None && m@ == codec_decode_message(s@)
                && decode_message_form(encode_utf8(s@), m@),
        },
{
    match c2pa_structured_text::codec::decode(s) {
        Ok(v) => Ok(v),
        Err(e) => Err(e.to_string()),
    }
}

/// The error type of `c2pa_structured_text`, opaque here.
#[verifier::external_type_specification]
#[verifier::external_body]
pub struct StructuredTextError(StError);

/// `c2pa_structured_text::hardbinding::apply_exclusions` with the single
/// range `start`, `length`. Trusted: the contract says that it succeeds
/// exactly when the range ends within `bytes` (its end computed without
/// overflow), and then returns `bytes` without the range. Which error it
/// gives otherwise is not stated.
#[verifier::external_body]
pub(crate) fn apply_exclusion(bytes: &[u8], start: usize, length: usize) -> (r: Result<
    Vec<u8>,
    StError,
>)
    ensures
        r is Ok <==> start + length <= bytes@.len(),
        r matches Ok(v) ==> v@ == bytes@.subrange(0, start as int) + bytes@.subrange(
            start + length,
            bytes@.len() as int,
        ),
{
    c2pa_structured_text::hardbinding::apply_exclusions(
        bytes,
        &[c2pa_structured_text::hardbinding::Exclusion { start, length }],
    )
}

/// Byte facts about the delimiters that the layout proofs rely on.
pub proof fn lemma_delimiter_bytes()
    ensures
        begin_bytes().len() == 29,
        end_bytes().len() == 27,
        data_uri_prefix_bytes().len() == 29,
        begin_bytes()[0] == 45,
        end_bytes()[0] == 45,
        forall|j: int| 0 <= j < 29 ==> #[trigger] begin_bytes()[j] != 10 && begin_bytes()[j] != 13,
        forall|j: int| 0 <= j < 29 ==> 32 <= #[trigger] begin_bytes()[j] < 0x80,
        forall|j: int| 0 <= j < 27 ==> 32 <= #[trigger] end_bytes()[j] < 0x80,
        forall|j: int| 0 <= j < 29 ==> 32 < #[trigger] data_uri_prefix_bytes()[j] < 0x80,
        forall|j: int| 0 <= j < 29 ==> #[trigger] data_uri_prefix_bytes()[j] != 45,
        forall|j: int| 0 <= j < 27 && j != 8 && j != 13 ==> #[trigger] end_bytes()[j] != 32,
        end_bytes()[8] == 32,
        end_bytes()[13] == 32,
        end_bytes()[9] == 67,
        end_bytes()[14] == 77,
{
    let b = begin_bytes();
    let e = end_bytes();
    let d = data_uri_prefix_bytes();
    assert forall|j: int| 0 <= j < 29 implies 32 <= #[trigger] b[j] < 0x80 && b[j] != 10 && b[j]
        != 13 by {
        assert(b[j] == 45 || b[j] == 32 || (65 <= b[j] <= 90) || b[j] == 50);
    }
    assert forall|j: int| 0 <= j < 27 implies 32 <= #[trigger] e[j] < 0x80 && (j != 8 && j != 13
        ==> e[j] != 32) by {
        assert(e[j] == 45 || e[j] == 32 || (65 <= e[j] <= 90) || e[j] == 50);
    }
    assert forall|j: int| 0 <= j < 29 implies 32 < #[trigger] d[j] < 0x80 && d[j] != 45 by {
        assert(d[j] > 32);
    }
}

} // verus!
