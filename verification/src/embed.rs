//! Embedding a manifest reference after the `WEBVTT` signature line, and
//! removing it again.

use vstd::prelude::*;
use vstd::utf8::*;
use vstd::string::*;
use crate::base64::{lemma_encode_all_ascii, spec_encode};
use crate::error::Error;
use crate::extract::{
    extract_manifest, is_webvtt, is_webvtt_bytes, no_bare_cr, reject_bare_cr,
    spec_extract, ManifestBlock,
};
use crate::structured::{
    begin_bytes, begin_delimiter, codec_encode, data_uri_prefix, data_uri_prefix_bytes,
    end_bytes, end_delimiter,
};
use crate::text::{
    all_ascii, find_byte, find_byte_from, lemma_ascii_valid, lemma_boundary, lemma_decode_concat,
    lemma_find_byte_from_bounds, lemma_sub_valid, string_of_bytes, text_bytes,
};

verus! {

broadcast use vstd::utf8::encode_utf8_valid_utf8, vstd::utf8::encode_utf8_decode_utf8;

/// A manifest to associate with a WebVTT file.
pub enum ManifestRef<'a> {
    /// A URI to an external C2PA Manifest Store (the preferred form).
    Url(&'a str),
    /// Raw C2PA Manifest Store bytes to embed inline as a
    /// `data:application/c2pa;base64,...` URI.
    Embedded(&'a [u8]),
}

/// The bytes of the reference written between the delimiters for `m`.
pub open spec fn reference_bytes(m: ManifestRef) -> Seq<u8> {
    match m {
        ManifestRef::Url(u) => u.spec_bytes(),
        ManifestRef::Embedded(b) => data_uri_prefix_bytes() + spec_encode(b@),
    }
}

/// Whether `t` holds a CR LF pair.
pub open spec fn contains_crlf(t: Seq<u8>) -> bool {
    exists|i: int| 0 <= i && i + 1 < t.len() && #[trigger] t[i] == 13 && t[i + 1] == 10
}

/// The line terminator of `t`: CR LF when `t` holds one, LF otherwise.
pub open spec fn newline_of(t: Seq<u8>) -> Seq<u8> {
    if contains_crlf(t) {
        seq![13u8, 10]
    } else {
        seq![10u8]
    }
}

/// The end of the signature line's text: before its terminator (and before a
/// CR that ends it).
pub open spec fn header_end(t: Seq<u8>) -> int {
    let e = match find_byte_from(t, 10, 0) {
        Some(p) => p,
        None => t.len() as int,
    };
    if e > 0 && t[e - 1] == 13 {
        e - 1
    } else {
        e
    }
}

/// Where the text after the signature line starts.
pub open spec fn rest_start(t: Seq<u8>) -> int {
    match find_byte_from(t, 10, 0) {
        Some(p) => p + 1,
        None => t.len() as int,
    }
}

/// The first position at or after `i` that is not a CR or an LF.
pub open spec fn skip_line_breaks(t: Seq<u8>, i: int) -> int
    decreases t.len() - i,
{
    if 0 <= i < t.len() && (t[i] == 13 || t[i] == 10) {
        skip_line_breaks(t, i + 1)
    } else {
        i
    }
}

/// Where the body (the text after the signature line and the line breaks
/// that follow it) starts.
pub open spec fn body_start(t: Seq<u8>) -> int {
    skip_line_breaks(t, rest_start(t))
}

/// The signature line without its terminator.
pub open spec fn header_of(t: Seq<u8>) -> Seq<u8> {
    t.subrange(0, header_end(t))
}

/// The body of `t`.
pub open spec fn body_of(t: Seq<u8>) -> Seq<u8> {
    t.subrange(body_start(t), t.len() as int)
}

/// The bytes of `NOTE `.
pub open spec fn note_keyword_bytes() -> Seq<u8> {
    seq![78u8, 79, 84, 69, 32]
}

/// The manifest `NOTE` line carrying reference `r`, without a terminator.
pub open spec fn note_line(r: Seq<u8>) -> Seq<u8> {
    note_keyword_bytes() + begin_bytes() + seq![32u8] + r + seq![32u8] + end_bytes()
}

/// The file `t` with the `NOTE` line for reference `r` placed after the
/// signature line, separated from the signature and the body by blank
/// lines, in the file's own line-terminator convention.
pub open spec fn embedded_bytes(t: Seq<u8>, r: Seq<u8>) -> Seq<u8> {
    let nl = newline_of(t);
    let head = header_of(t) + nl + nl + note_line(r) + nl;
    if body_of(t).len() > 0 {
        head + nl + body_of(t)
    } else {
        head
    }
}

/// What [`embed_manifest`] gives for a file with bytes `t`.
pub open spec fn spec_embed(t: Seq<u8>, m: ManifestRef) -> Result<Seq<u8>, Error> {
    if !is_webvtt_bytes(t) {
        Err(Error::NotVtt)
    } else if !no_bare_cr(t) {
        Err(Error::BareCarriageReturn)
    } else {
        match spec_extract(t) {
            Ok(_) => Err(Error::AlreadyEmbedded),
            Err(Error::MultipleManifests) => Err(Error::AlreadyEmbedded),
            Err(Error::NotFound) => Ok(embedded_bytes(t, reference_bytes(m))),
            Err(e) => Err(e),
        }
    }
}

/// Where the text kept after a removed block starts: just past the block,
/// and past one blank line too when the text before the block ends with a
/// line terminator.
pub open spec fn removal_cut(t: Seq<u8>, b: ManifestBlock) -> int {
    let a = b.offset + b.length;
    if b.offset > 0 && t[b.offset - 1] == 10 {
        if a + 1 < t.len() && t[a] == 13 && t[a + 1] == 10 {
            a + 2
        } else if a < t.len() && t[a] == 10 {
            a + 1
        } else {
            a
        }
    } else {
        a
    }
}

/// The file `t` without the block `b`.
pub open spec fn removed_bytes(t: Seq<u8>, b: ManifestBlock) -> Seq<u8> {
    t.subrange(0, b.offset) + t.subrange(removal_cut(t, b), t.len() as int)
}

/// What [`remove_manifest`] gives for a file with bytes `t`.
pub open spec fn spec_remove(t: Seq<u8>) -> Result<Seq<u8>, Error> {
    match spec_extract(t) {
        Ok(b) => Ok(removed_bytes(t, b)),
        Err(e) => Err(e),
    }
}

/// Whether a string result agrees with a spec result over bytes.
pub open spec fn text_result_agrees(res: Result<String, Error>, s: Result<Seq<u8>, Error>) -> bool {
    match res {
        Ok(out) => s == Ok::<Seq<u8>, Error>(encode_utf8(out@)),
        Err(e) => s == Err::<Seq<u8>, Error>(e),
    }
}

/// Append the bytes of `s` to `out`.
fn push_bytes(out: &mut Vec<u8>, s: &[u8])
    ensures
        final(out)@ == old(out)@ + s@,
{
    let mut i: usize = 0;
    while i < s.len()
        invariant
            i <= s@.len(),
            out@ == old(out)@ + s@.subrange(0, i as int),
        decreases s@.len() - i,
    {
        out.push(s[i]);
        i = i + 1;
        assert(out@ =~= old(out)@ + s@.subrange(0, i as int));
    }
    assert(s@.subrange(0, s@.len() as int) =~= s@);
}

/// Append the bytes `t[a..b]` to `out`.
fn push_range(out: &mut Vec<u8>, t: &[u8], a: usize, b: usize)
    requires
        a <= b <= t@.len(),
    ensures
        final(out)@ == old(out)@ + t@.subrange(a as int, b as int),
{
    let mut i: usize = a;
    while i < b
        invariant
            a <= i <= b <= t@.len(),
            out@ == old(out)@ + t@.subrange(a as int, i as int),
        decreases b - i,
    {
        out.push(t[i]);
        i = i + 1;
        assert(out@ =~= old(out)@ + t@.subrange(a as int, i as int));
    }
}

/// Whether `t` holds a CR LF pair.
fn has_crlf(t: &[u8]) -> (r: bool)
    ensures
        r == contains_crlf(t@),
{
    let mut i: usize = 0;
    while i < t.len() && t.len() - i > 1
        invariant
            i <= t@.len(),
            forall|j: int| 0 <= j < i && j + 1 < t@.len() ==> !(#[trigger] t@[j] == 13 && t@[j + 1] == 10),
        decreases t@.len() - i,
    {
        if t[i] == 13 && t[i + 1] == 10 {
            assert(t@[i as int] == 13);
            return true;
        }
        i = i + 1;
    }
    proof {
        assert forall|j: int| 0 <= j && j + 1 < t@.len() && #[trigger] t@[j] == 13 implies t@[j + 1]
            != 10 by {
            assert(j < i);
        }
    }
    false
}

/// The bytes of `t` between the signature line and its body are valid, and
/// so are the pieces of the embedded file.
proof fn lemma_embedded_valid(t: Seq<u8>, r: Seq<u8>)
    requires
        valid_utf8(t),
        valid_utf8(r),
    ensures
        valid_utf8(embedded_bytes(t, r)),
{
    lemma_embed_positions(t);
    lemma_boundary(t, header_end(t));
    lemma_boundary(t, 0);
    lemma_boundary(t, body_start(t));
    lemma_boundary(t, t.len() as int);
    lemma_sub_valid(t, 0, header_end(t));
    lemma_sub_valid(t, body_start(t), t.len() as int);
    let nl = newline_of(t);
    assert(all_ascii(nl));
    lemma_ascii_valid(nl);
    assert(all_ascii(note_keyword_bytes() + begin_bytes() + seq![32u8]));
    lemma_ascii_valid(note_keyword_bytes() + begin_bytes() + seq![32u8]);
    assert(all_ascii(seq![32u8] + end_bytes()));
    lemma_ascii_valid(seq![32u8] + end_bytes());
    lemma_decode_concat(note_keyword_bytes() + begin_bytes() + seq![32u8], r);
    lemma_decode_concat(note_keyword_bytes() + begin_bytes() + seq![32u8] + r, seq![32u8] + end_bytes());
    assert(note_line(r) =~= note_keyword_bytes() + begin_bytes() + seq![32u8] + r + (seq![32u8] + end_bytes()));
    let h = header_of(t);
    lemma_decode_concat(h, nl);
    lemma_decode_concat(h + nl, nl);
    lemma_decode_concat(h + nl + nl, note_line(r));
    lemma_decode_concat(h + nl + nl + note_line(r), nl);
    let head = h + nl + nl + note_line(r) + nl;
    if body_of(t).len() > 0 {
        lemma_decode_concat(head, nl);
        lemma_decode_concat(head + nl, body_of(t));
    }
}

/// The signature line and the body of valid UTF-8 are valid UTF-8.
pub proof fn lemma_parts_valid(t: Seq<u8>)
    requires
        valid_utf8(t),
    ensures
        valid_utf8(header_of(t)),
        valid_utf8(body_of(t)),
{
    lemma_embed_positions(t);
    lemma_boundary(t, header_end(t));
    lemma_boundary(t, 0);
    lemma_boundary(t, body_start(t));
    lemma_boundary(t, t.len() as int);
    lemma_sub_valid(t, 0, header_end(t));
    lemma_sub_valid(t, body_start(t), t.len() as int);
}

/// Where the pieces of the signature line and the body lie.
pub proof fn lemma_embed_positions(t: Seq<u8>)
    ensures
        0 <= header_end(t) <= rest_start(t) <= body_start(t) <= t.len(),
        header_end(t) == t.len() || t[header_end(t)] == 13 || t[header_end(t)] == 10,
        body_start(t) == t.len() || body_start(t) == 0 || t[body_start(t) - 1] < 0x80,
        rest_start(t) == t.len() || (rest_start(t) > 0 && t[rest_start(t) - 1] == 10),
{
    lemma_find_byte_from_bounds(t, 10, 0);
    lemma_skip_line_breaks(t, rest_start(t));
}

/// Properties of `skip_line_breaks`.
pub proof fn lemma_skip_line_breaks(t: Seq<u8>, i: int)
    requires
        0 <= i <= t.len(),
        i == 0 || i == t.len() || t[i - 1] < 0x80,
    ensures
        i <= skip_line_breaks(t, i) <= t.len(),
        skip_line_breaks(t, i) == t.len() || skip_line_breaks(t, i) == 0 || t[skip_line_breaks(
            t,
            i,
        ) - 1] < 0x80,
        forall|j: int| i <= j < skip_line_breaks(t, i) ==> #[trigger] t[j] == 13 || t[j] == 10,
        skip_line_breaks(t, i) < t.len() ==> t[skip_line_breaks(t, i)] != 13 && t[skip_line_breaks(
            t,
            i,
        )] != 10,
    decreases t.len() - i,
{
    if 0 <= i < t.len() && (t[i] == 13 || t[i] == 10) {
        lemma_skip_line_breaks(t, i + 1);
    }
}

/// Where the signature line's text ends and where the body starts.
fn signature_layout(bytes: &[u8]) -> (r: (usize, usize))
    ensures
        r.0 as int == header_end(bytes@),
        r.1 as int == body_start(bytes@),
        r.0 <= r.1 <= bytes@.len(),
{
    let ghost t = bytes@;
    proof {
        lemma_embed_positions(t);
    }
    let first_nl = find_byte(bytes, 10, 0);
    let (mut hend, rstart) = match first_nl {
        Some(p) => {
            proof {
                lemma_find_byte_from_bounds(t, 10, 0);
                assert(p < bytes.len());
            }
            (p, p + 1)
        },
        None => (bytes.len(), bytes.len()),
    };
    if hend > 0 && bytes[hend - 1] == 13 {
        hend = hend - 1;
    }
    let mut bstart = rstart;
    while bstart < bytes.len() && (bytes[bstart] == 13 || bytes[bstart] == 10)
        invariant
            rstart <= bstart <= bytes@.len(),
            skip_line_breaks(t, rstart as int) == skip_line_breaks(t, bstart as int),
            bytes@ == t,
        decreases bytes@.len() - bstart,
    {
        bstart = bstart + 1;
    }
    (hend, bstart)
}

/// The bytes of the reference written for `manifest`.
fn reference_of(manifest: ManifestRef<'_>) -> (r: Vec<u8>)
    ensures
        r@ == reference_bytes(manifest),
        valid_utf8(r@),
{
    let mut out: Vec<u8> = Vec::new();
    match manifest {
        ManifestRef::Url(url) => {
            push_bytes(&mut out, url.as_bytes());
            assert(out@ =~= url.spec_bytes());
        },
        ManifestRef::Embedded(store) => {
            push_bytes(&mut out, data_uri_prefix().as_bytes());
            let encoded = codec_encode(store);
            push_bytes(&mut out, encoded.as_str().as_bytes());
            proof {
                decode_utf8_encode_utf8(spec_encode(store@));
                lemma_ascii_valid_of_encoding(store@);
                assert(decode_utf8(spec_encode(store@)) == encoded@);
                lemma_encode_all_ascii(store@);
                assert(all_ascii(data_uri_prefix_bytes()));
                lemma_ascii_valid(data_uri_prefix_bytes());
                lemma_ascii_valid(spec_encode(store@));
                lemma_decode_concat(data_uri_prefix_bytes(), spec_encode(store@));
            }
        },
    }
    out
}

/// An encoding is valid UTF-8.
proof fn lemma_ascii_valid_of_encoding(v: Seq<u8>)
    ensures
        valid_utf8(spec_encode(v)),
{
    lemma_encode_all_ascii(v);
    lemma_ascii_valid(spec_encode(v));
}

/// The `NOTE` line that carries `reference`, without its terminator.
fn note_line_of(reference: &[u8]) -> (line: Vec<u8>)
    ensures
        line@ == note_line(reference@),
{
    let mut line: Vec<u8> = Vec::new();
    push_bytes(&mut line, &[78u8, 79, 84, 69, 32]);
    push_bytes(&mut line, begin_delimiter().as_bytes());
    push_bytes(&mut line, &[32u8]);
    push_bytes(&mut line, reference);
    push_bytes(&mut line, &[32u8]);
    push_bytes(&mut line, end_delimiter().as_bytes());
    assert(line@ =~= note_line(reference@));
    line
}

/// The embedded file, assembled from its pieces.
fn assemble(bytes: &[u8], nl: &[u8], hend: usize, bstart: usize, reference: &[u8]) -> (out: Vec<
    u8,
>)
    requires
        nl@ == newline_of(bytes@),
        hend as int == header_end(bytes@),
        bstart as int == body_start(bytes@),
        hend <= bstart <= bytes@.len(),
    ensures
        out@ == embedded_bytes(bytes@, reference@),
{
    let line = note_line_of(reference);
    let mut out: Vec<u8> = Vec::new();
    push_range(&mut out, bytes, 0, hend);
    push_bytes(&mut out, nl);
    push_bytes(&mut out, nl);
    push_bytes(&mut out, line.as_slice());
    push_bytes(&mut out, nl);
    let ghost head = out@;
    assert(head =~= header_of(bytes@) + nl@ + nl@ + note_line(reference@) + nl@);
    if bstart < bytes.len() {
        push_bytes(&mut out, nl);
        push_range(&mut out, bytes, bstart, bytes.len());
        assert(out@ =~= head + nl@ + body_of(bytes@));
    }
    out
}

/// Embed a manifest reference as a single-line `NOTE` block placed
/// immediately after the `WEBVTT` signature line, separated from adjacent
/// blocks by blank lines as WebVTT requires.
///
/// The file's existing line-terminator convention (LF or CRLF) is preserved.
/// Fails with [`Error::NotVtt`] when `text` does not begin with the
/// `WEBVTT` signature (whatever else it holds), with
/// [`Error::BareCarriageReturn`] on a bare CR in WebVTT text, and with
/// [`Error::AlreadyEmbedded`] when it already carries a manifest block.
pub fn embed_manifest(text: &str, manifest: ManifestRef<'_>) -> (res: Result<String, Error>)
    ensures
        text_result_agrees(res, spec_embed(text.spec_bytes(), manifest)),
{
    let ghost t = text.spec_bytes();
    if !is_webvtt(text) {
        return Err(Error::NotVtt);
    }
    match reject_bare_cr(text) {
        Ok(()) => {},
        Err(e) => {
            return Err(e);
        },
    }
    match extract_manifest(text) {
        Ok(_) => {
            return Err(Error::AlreadyEmbedded);
        },
        Err(Error::MultipleManifests) => {
            return Err(Error::AlreadyEmbedded);
        },
        Err(Error::NotFound) => {},
        Err(error) => {
            return Err(error);
        },
    }
    let bytes = text_bytes(text);
    let crlf = has_crlf(bytes);
    let nl: &[u8] = if crlf {
        &[13u8, 10u8]
    } else {
        &[10u8]
    };
    proof {
        assert(nl@ =~= newline_of(t));
    }
    let (hend, bstart) = signature_layout(bytes);
    let reference = reference_of(manifest);
    let out = assemble(bytes, nl, hend, bstart, reference.as_slice());
    proof {
        lemma_embedded_valid(t, reference@);
    }
    Ok(string_of_bytes(out))
}

/// Remove the C2PA manifest `NOTE` block, restoring the file to its unsigned
/// form.
///
/// Fails with [`Error::NotVtt`] if `text` is not WebVTT, [`Error::NotFound`]
/// if it carries no manifest block, and [`Error::MultipleManifests`] if it
/// carries more than one. Removing nothing is an error rather than a silent
/// no-op.
pub fn remove_manifest(text: &str) -> (res: Result<String, Error>)
    ensures
        text_result_agrees(res, spec_remove(text.spec_bytes())),
{
    let ghost t = text.spec_bytes();
    let found = match extract_manifest(text) {
        Ok(found) => found,
        Err(e) => {
            return Err(e);
        },
    };
    let bytes = text_bytes(text);
    proof {
        assert(found.offset + found.length <= bytes.len());
    }
    let start = found.offset;
    let after = found.offset + found.length;
    let mut cut = after;
    if start > 0 && bytes[start - 1] == 10 {
        if after < bytes.len() && bytes.len() - after > 1 && bytes[after] == 13 && bytes[after
            + 1] == 10 {
            cut = after + 2;
        } else if after < bytes.len() && bytes[after] == 10 {
            cut = after + 1;
        }
    }
    let mut out: Vec<u8> = Vec::new();
    push_range(&mut out, bytes, 0, start);
    push_range(&mut out, bytes, cut, bytes.len());
    proof {
        let b = found@;
        assert(cut as int == removal_cut(t, b));
        lemma_boundary(t, start as int);
        lemma_boundary(t, cut as int);
        lemma_boundary(t, 0);
        lemma_boundary(t, t.len() as int);
        lemma_sub_valid(t, 0, start as int);
        lemma_sub_valid(t, cut as int, t.len() as int);
        lemma_decode_concat(t.subrange(0, start as int), t.subrange(cut as int, t.len() as int));
        assert(out@ =~= removed_bytes(t, b));
    }
    Ok(string_of_bytes(out))
}

} // verus!
