//! Locating the manifest `NOTE` block in a WebVTT file.
//!
//! The file is modelled by its bytes. [`spec_extract`] says what
//! [`extract_manifest`] returns for them, and [`block_wf`] what holds of every
//! block it locates.

use vstd::prelude::*;
use vstd::utf8::*;
use vstd::string::*;
use vstd::slice::slice_subrange;
use crate::error::Error;
use crate::structured::{
    begin_bytes, begin_delimiter, end_bytes, end_delimiter, find_delimiter, lemma_delimiter_bytes,
};
use crate::text::{
    chars_of, find_from, find_line_break, find_line_end, find_line_start, line_break, line_end,
    line_start, lemma_boundary, lemma_encode_ascii, lemma_find_byte_from_shift,
    lemma_find_from_bounds, lemma_find_from_first, lemma_find_from_suffix, lemma_line_start_no_nl,
    lemma_line_break_bounds, lemma_line_start_bounds,
    lemma_line_start_no_lf, lemma_line_start_shift, lemma_sub_valid, str_trim, sub_str, text_bytes,
    trim_chars, trim_end_chars, trim_start_chars, is_white_space, occurs_at,
};

verus! {

broadcast use vstd::utf8::encode_utf8_valid_utf8, vstd::utf8::encode_utf8_decode_utf8;

/// A located manifest `NOTE` block.
///
/// `offset` and `length` describe the byte range of the entire manifest block
/// line, including its comment prefix and its trailing line terminator (LF or
/// CRLF). This is exactly the single exclusion range of the `c2pa.hash.data`
/// hard binding.
#[derive(Debug, Clone, PartialEq, Eq)]
pub struct ExtractionResult {
    /// The manifest reference found between the delimiters (a URI, or a
    /// `data:application/c2pa;base64,...` URI for an embedded store).
    pub reference: String,
    /// Byte offset of the first byte of the manifest block line.
    pub offset: usize,
    /// Byte length of the manifest block line including its line terminator.
    pub length: usize,
}

/// The mathematical value of a located block.
pub struct ManifestBlock {
    pub reference: Seq<char>,
    pub offset: int,
    pub length: int,
}

impl View for ExtractionResult {
    type V = ManifestBlock;

    open spec fn view(&self) -> ManifestBlock {
        ManifestBlock {
            reference: self.reference@,
            offset: self.offset as int,
            length: self.length as int,
        }
    }
}

/// The bytes of the WebVTT signature, `WEBVTT`.
pub open spec fn signature_bytes() -> Seq<u8> {
    seq![87u8, 69, 66, 86, 84, 84]
}

/// The UTF-8 encoding of the byte-order mark U+FEFF.
pub open spec fn bom_bytes() -> Seq<u8> {
    seq![0xefu8, 0xbb, 0xbf]
}

/// `t` without a leading byte-order mark.
pub open spec fn strip_bom(t: Seq<u8>) -> Seq<u8> {
    if t.len() >= 3 && t.subrange(0, 3) == bom_bytes() {
        t.subrange(3, t.len() as int)
    } else {
        t
    }
}

/// Whether `t` begins (after an optional byte-order mark) with the WebVTT
/// signature, followed by the end of the file or a space, tab, or line
/// terminator.
pub open spec fn is_webvtt_bytes(t: Seq<u8>) -> bool {
    let b = strip_bom(t);
    &&& b.len() >= 6
    &&& b.subrange(0, 6) == signature_bytes()
    &&& (b.len() == 6 || b[6] == 32 || b[6] == 9 || b[6] == 10 || b[6] == 13)
}

/// Whether every CR in `t` is followed by an LF.
pub open spec fn no_bare_cr(t: Seq<u8>) -> bool {
    forall|i: int| 0 <= i < t.len() && #[trigger] t[i] == 13 ==> i + 1 < t.len() && t[i + 1] == 10
}

/// The characters `NOTE`.
pub open spec fn note_chars() -> Seq<char> {
    seq!['N', 'O', 'T', 'E']
}

/// Whether the text of a line before a delimiter is exactly the `NOTE`
/// comment keyword, up to surrounding white space.
pub open spec fn is_note_prefix(t: Seq<u8>, ls: int, begin: int) -> bool {
    trim_chars(chars_of(t, ls, begin)) == note_chars()
}

/// The closing delimiter that pairs with an opening one at `begin`: the
/// first one after it, when it lies on the same line (before the LF that
/// ends that line).
pub open spec fn closing_on_line(t: Seq<u8>, begin: int) -> Option<int> {
    match find_from(t, end_bytes(), begin + 29) {
        Some(end) => if end + 27 <= line_break(t, begin) {
            Some(end)
        } else {
            None
        },
        None => None,
    }
}

/// Whether the opening delimiter at `begin` opens a manifest block: its line
/// is a single-line `NOTE` comment that also carries a closing delimiter.
pub open spec fn opens_block(t: Seq<u8>, begin: int) -> bool {
    closing_on_line(t, begin) is Some && is_note_prefix(t, line_start(t, begin), begin)
}

/// The delimiter scan from byte `search`, having located `found` so far.
///
/// Only a single-line `NOTE` comment carrying both delimiters is a manifest
/// block; every other opening delimiter (on another line, or not closed on
/// its own line) is passed over. The first block with an empty reference,
/// or a second block, is an error.
pub open spec fn scan(t: Seq<u8>, search: int, found: Option<ManifestBlock>) -> Result<
    ManifestBlock,
    Error,
>
    decreases t.len() - search,
{
    if search < 0 || search > t.len() {
        Err(Error::NotFound)
    } else {
        match find_from(t, begin_bytes(), search) {
            None => match found {
                Some(b) => Ok(b),
                None => Err(Error::NotFound),
            },
            Some(begin) => {
                proof {
                    lemma_find_from_bounds(t, begin_bytes(), search);
                    lemma_find_from_bounds(t, end_bytes(), begin + 29);
                }
                let ls = line_start(t, begin);
                match closing_on_line(t, begin) {
                    Some(end) => if is_note_prefix(t, ls, begin) {
                        let r = trim_chars(chars_of(t, begin + 29, end));
                        if r.len() == 0 {
                            Err(Error::EmptyReference)
                        } else if found is Some {
                            Err(Error::MultipleManifests)
                        } else {
                            scan(
                                t,
                                end + 27,
                                Some(
                                    ManifestBlock {
                                        reference: r,
                                        offset: ls,
                                        length: line_end(t, begin) - ls,
                                    },
                                ),
                            )
                        }
                    } else {
                        scan(t, begin + 1, found)
                    },
                    None => scan(t, begin + 1, found),
                }
            },
        }
    }
}

/// What [`extract_manifest`] gives for a file with bytes `t`.
pub open spec fn spec_extract(t: Seq<u8>) -> Result<ManifestBlock, Error> {
    if !is_webvtt_bytes(t) {
        Err(Error::NotVtt)
    } else {
        scan(t, 0, None)
    }
}

/// What holds of a located block: it is one whole line of `t` (from a line
/// start to just past its LF, or to the end of the file), whose only LF is
/// its last byte.
pub open spec fn block_wf(t: Seq<u8>, b: ManifestBlock) -> bool {
    &&& 0 <= b.offset
    &&& 0 < b.length
    &&& b.offset + b.length <= t.len()
    &&& (b.offset == 0 || t[b.offset - 1] == 10)
    &&& (b.offset + b.length == t.len() || t[b.offset + b.length - 1] == 10)
    &&& forall|j: int| b.offset <= j < b.offset + b.length - 1 ==> #[trigger] t[j] != 10
}

/// The block of an optional result, if any.
pub open spec fn block_of(o: Option<ExtractionResult>) -> Option<ManifestBlock> {
    match o {
        Some(r) => Some(r@),
        None => None,
    }
}

/// Whether an extraction result agrees with the spec's.
pub open spec fn extraction_agrees(
    res: Result<ExtractionResult, Error>,
    s: Result<ManifestBlock, Error>,
) -> bool {
    match res {
        Ok(r) => s == Ok::<ManifestBlock, Error>(r@),
        Err(e) => s == Err::<ManifestBlock, Error>(e),
    }
}

/// Whether the delimiter scan from byte `search` meets no manifest block:
/// no opening delimiter from there on opens one.
pub open spec fn quiet_from(t: Seq<u8>, search: int) -> bool
    decreases t.len() - search,
{
    if search < 0 || search > t.len() {
        false
    } else {
        match find_from(t, begin_bytes(), search) {
            None => true,
            Some(begin) => {
                proof {
                    lemma_find_from_bounds(t, begin_bytes(), search);
                }
                !opens_block(t, begin) && quiet_from(t, begin + 1)
            },
        }
    }
}

/// A quiet scan returns what it had found before.
pub proof fn lemma_quiet_scan(t: Seq<u8>, search: int, found: Option<ManifestBlock>)
    requires
        quiet_from(t, search),
    ensures
        scan(t, search, found) == (match found {
            Some(b) => Ok::<ManifestBlock, Error>(b),
            None => Err::<ManifestBlock, Error>(Error::NotFound),
        }),
    decreases t.len() - search,
{
    match find_from(t, begin_bytes(), search) {
        None => {},
        Some(begin) => {
            lemma_find_from_bounds(t, begin_bytes(), search);
            lemma_quiet_scan(t, begin + 1, found);
        },
    }
}

/// Two search positions from which the first opening delimiter is the same
/// are equally quiet.
pub proof fn lemma_quiet_same_find(t: Seq<u8>, s1: int, s2: int)
    requires
        0 <= s1 <= t.len(),
        0 <= s2 <= t.len(),
        find_from(t, begin_bytes(), s1) == find_from(t, begin_bytes(), s2),
    ensures
        quiet_from(t, s1) == quiet_from(t, s2),
{
}

/// Quietness of `u` is unchanged by a prefix that ends a line.
pub proof fn lemma_quiet_shift(p: Seq<u8>, u: Seq<u8>, i: int)
    requires
        p.len() == 0 || p.last() == 10,
        0 <= i <= u.len(),
    ensures
        quiet_from(p + u, p.len() + i) == quiet_from(u, i),
    decreases u.len() - i,
{
    let w = p + u;
    let k = p.len() as int;
    assert(w.subrange(k, w.len() as int) =~= u);
    lemma_find_from_suffix(w, begin_bytes(), k, i);
    if let Some(begin) = find_from(u, begin_bytes(), i) {
        lemma_find_from_bounds(u, begin_bytes(), i);
        assert(find_from(w, begin_bytes(), k + i) == Some(k + begin));
        lemma_opens_block_shift(p, u, begin);
        lemma_quiet_shift(p, u, begin + 1);
    } else {
        assert(find_from(w, begin_bytes(), k + i) is None);
    }
}

/// Whether a delimiter opens a block is unchanged by a prefix that ends a
/// line.
proof fn lemma_opens_block_shift(p: Seq<u8>, u: Seq<u8>, begin: int)
    requires
        p.len() == 0 || p.last() == 10,
        0 <= begin,
        begin + 29 <= u.len(),
    ensures
        opens_block(p + u, p.len() + begin) == opens_block(u, begin),
        closing_on_line(p + u, p.len() + begin) == (match closing_on_line(u, begin) {
            Some(e) => Some(p.len() + e),
            None => None::<int>,
        }),
        line_end(p + u, p.len() + begin) == p.len() + line_end(u, begin),
{
    let w = p + u;
    let k = p.len() as int;
    assert(w.subrange(k, w.len() as int) =~= u);
    lemma_find_from_suffix(w, end_bytes(), k, begin + 29);
    lemma_find_byte_from_shift(p, u, 10, begin);
    lemma_quiet_shift_line(p, u, begin);
}

/// The `NOTE` test of a line is unchanged by a prefix that ends a line.
proof fn lemma_quiet_shift_line(p: Seq<u8>, u: Seq<u8>, begin: int)
    requires
        p.len() == 0 || p.last() == 10,
        0 <= begin <= u.len(),
    ensures
        line_start(p + u, p.len() + begin) == p.len() + line_start(u, begin),
        is_note_prefix(p + u, line_start(p + u, p.len() + begin), p.len() + begin)
            == is_note_prefix(u, line_start(u, begin), begin),
{
    let w = p + u;
    let k = p.len() as int;
    lemma_line_start_shift(p, u, begin);
    lemma_line_start_bounds(u, begin);
    let ls = line_start(u, begin);
    assert(w.subrange(k + ls, k + begin) =~= u.subrange(ls, begin));
}

/// Every block located by the scan is well formed.
pub proof fn lemma_scan_wf(t: Seq<u8>, search: int, found: Option<ManifestBlock>)
    requires
        found matches Some(b) ==> block_wf(t, b),
    ensures
        scan(t, search, found) matches Ok(b) ==> block_wf(t, b),
    decreases t.len() - search,
{
    if search < 0 || search > t.len() {
    } else {
        match find_from(t, begin_bytes(), search) {
            None => {},
            Some(begin) => {
                lemma_find_from_bounds(t, begin_bytes(), search);
                lemma_find_from_bounds(t, end_bytes(), begin + 29);
                match closing_on_line(t, begin) {
                    Some(end) => {
                        let ls = line_start(t, begin);
                        lemma_line_start_bounds(t, begin);
                        lemma_line_start_no_lf(t, begin);
                        lemma_line_break_bounds(t, begin);
                        let b = ManifestBlock {
                            reference: trim_chars(chars_of(t, begin + 29, end)),
                            offset: ls,
                            length: line_end(t, begin) - ls,
                        };
                        lemma_scan_wf(t, end + 27, Some(b));
                        lemma_scan_wf(t, begin + 1, found);
                    },
                    None => {
                        lemma_scan_wf(t, begin + 1, found);
                    },
                }
            },
        }
    }
}

/// Trimming keeps a first character that is not white space.
proof fn lemma_trim_keeps_first(c: Seq<char>)
    requires
        c.len() > 0,
        !is_white_space(c[0]),
    ensures
        trim_chars(c).len() > 0,
        trim_chars(c)[0] == c[0],
{
    assert(trim_start_chars(c) == c);
    lemma_trim_end_keeps_first(c);
}

/// Trimming the end keeps a first character that is not white space.
proof fn lemma_trim_end_keeps_first(c: Seq<char>)
    requires
        c.len() > 0,
        !is_white_space(c[0]),
    ensures
        trim_end_chars(c).len() > 0,
        trim_end_chars(c)[0] == c[0],
    decreases c.len(),
{
    if is_white_space(c.last()) {
        assert(c.len() > 1);
        assert(c.drop_last()[0] == c[0]);
        lemma_trim_end_keeps_first(c.drop_last());
    }
}

/// The first character that valid UTF-8 bytes encode.
proof fn lemma_first_char(s: Seq<u8>)
    requires
        valid_utf8(s),
        s.len() > 0,
    ensures
        decode_utf8(s).len() > 0,
        s[0] == 87 ==> decode_utf8(s)[0] as u32 == 87,
        s.len() >= 3 && s[0] == 0xef && s[1] == 0xbb && s[2] == 0xbf ==> decode_utf8(s)[0] as u32
            == 0xfeff,
{
    let c0 = decode_first_scalar(s) as char;
    assert(decode_utf8(s) == seq![c0] + decode_utf8(pop_first_scalar(s)));
    assert(valid_first_scalar(s));
    if s[0] == 87 {
        let b0 = s[0];
        assert((b0 & 0x7fu8) as u32 == 87) by (bit_vector)
            requires
                b0 == 87,
        ;
        assert(decode_first_scalar(s) == 87);
        char_u32_cast(c0, c0 as u32);
    }
    if s.len() >= 3 && s[0] == 0xef && s[1] == 0xbb && s[2] == 0xbf {
        let (b0, b1, b2) = (s[0], s[1], s[2]);
        assert(((((b0 & 0x0fu8) as u32) << 12u32) | (((b1 & 0x3fu8) as u32) << 6u32) | ((b2
            & 0x3fu8) as u32)) == 0xfeff) by (bit_vector)
            requires
                b0 == 0xef && b1 == 0xbb && b2 == 0xbf,
        ;
        assert(decode_first_scalar(s) == 0xfeff);
        char_u32_cast(c0, c0 as u32);
    }
}

/// The text before a delimiter on the signature line is not `NOTE`: the
/// line starts with the signature (or a byte-order mark).
proof fn lemma_signature_line_not_note(t: Seq<u8>, begin: int)
    requires
        valid_utf8(t),
        is_webvtt_bytes(t),
        0 <= begin < t.len(),
        t[begin] == 45,
    ensures
        !is_note_prefix(t, 0, begin),
{
    let bom = t.len() >= 3 && t.subrange(0, 3) == bom_bytes();
    if bom {
        assert(t.subrange(0, 3)[0] == t[0] && t.subrange(0, 3)[1] == t[1] && t.subrange(0, 3)[2]
            == t[2]);
    } else {
        assert(strip_bom(t).subrange(0, 6)[0] == t[0]);
    }
    assert(begin > 0);
    if bom {
        assert(begin >= 3);
    }
    lemma_boundary(t, 0);
    lemma_boundary(t, begin);
    lemma_sub_valid(t, 0, begin);
    let s = t.subrange(0, begin);
    assert(s[0] == t[0]);
    if bom {
        assert(s[1] == t[1] && s[2] == t[2]);
    }
    lemma_first_char(s);
    let c = decode_utf8(s);
    assert(!is_white_space(c[0]));
    lemma_trim_keeps_first(c);
    assert(c[0] as u32 != 78);
    assert(note_chars()[0] as u32 == 78);
    assert(trim_chars(c) != note_chars());
}

/// Whether an opening delimiter occurs at `q` and opens a manifest block.
pub open spec fn block_opener(t: Seq<u8>, q: int) -> bool {
    occurs_at(t, begin_bytes(), q) && opens_block(t, q)
}

/// The block read from the line of the opening delimiter at `q`: the
/// trimmed text between it and its closing delimiter, and the whole line
/// with its terminator.
pub open spec fn block_at(t: Seq<u8>, q: int) -> ManifestBlock {
    let end = match closing_on_line(t, q) {
        Some(e) => e,
        None => 0,
    };
    ManifestBlock {
        reference: trim_chars(chars_of(t, q + 29, end)),
        offset: line_start(t, q),
        length: line_end(t, q) - line_start(t, q),
    }
}

/// What the scan from `search` finds, stated without the scan: a block it
/// returns is read from a line that opens a block, and every line from
/// `search` on that opens one is that line; when it finds nothing, no line
/// from `search` on opens a block.
pub proof fn lemma_scan_finds_the_only_block(t: Seq<u8>, search: int, found: Option<ManifestBlock>)
    requires
        0 <= search <= t.len(),
    ensures
        scan(t, search, found) matches Ok(b) ==> {
            &&& found matches Some(f) ==> b == f
            &&& found is None ==> exists|q: int| search <= q && block_opener(t, q) && block_at(t, q) == b
            &&& forall|q: int|
                search <= q && #[trigger] block_opener(t, q) ==> found is None && line_start(t, q)
                    == b.offset
        },
        scan(t, search, found) == Err::<ManifestBlock, Error>(Error::NotFound) ==> found is None
            && forall|q: int| search <= q ==> !#[trigger] block_opener(t, q),
    decreases t.len() - search,
{
    lemma_find_from_bounds(t, begin_bytes(), search);
    lemma_find_from_first(t, begin_bytes(), search);
    lemma_delimiter_bytes();
    match find_from(t, begin_bytes(), search) {
        None => {},
        Some(begin) => {
            lemma_find_from_bounds(t, end_bytes(), begin + 29);
            let ls = line_start(t, begin);
            match closing_on_line(t, begin) {
                Some(end) => {
                    if is_note_prefix(t, ls, begin) {
                        let blk = block_at(t, begin);
                        lemma_scan_finds_the_only_block(t, end + 27, Some(blk));
                        lemma_line_start_bounds(t, begin);
                        lemma_line_start_no_lf(t, begin);
                        lemma_line_break_bounds(t, begin);
                        assert(block_opener(t, begin));
                        assert forall|q: int|
                            search <= q && #[trigger] block_opener(t, q) && q < end + 27 implies line_start(t, q) == ls by {
                            assert(begin <= q);
                            lemma_line_start_no_nl(t, ls, q);
                        }
                    } else {
                        lemma_scan_finds_the_only_block(t, begin + 1, found);
                    }
                },
                None => {
                    lemma_scan_finds_the_only_block(t, begin + 1, found);
                },
            }
        },
    }
}

/// Every block located by the scan of a WebVTT file lies after the
/// signature line.
pub proof fn lemma_scan_after_signature(t: Seq<u8>, search: int, found: Option<ManifestBlock>)
    requires
        valid_utf8(t),
        is_webvtt_bytes(t),
        found matches Some(b) ==> b.offset > 0,
    ensures
        scan(t, search, found) matches Ok(b) ==> b.offset > 0,
    decreases t.len() - search,
{
    if search < 0 || search > t.len() {
    } else {
        match find_from(t, begin_bytes(), search) {
            None => {},
            Some(begin) => {
                lemma_find_from_bounds(t, begin_bytes(), search);
                lemma_find_from_bounds(t, end_bytes(), begin + 29);
                lemma_delimiter_bytes();
                assert(t.subrange(begin, begin + 29)[0] == t[begin]);
                if line_start(t, begin) == 0 {
                    lemma_signature_line_not_note(t, begin);
                }
                match closing_on_line(t, begin) {
                    Some(end) => {
                        let ls = line_start(t, begin);
                        let b = ManifestBlock {
                            reference: trim_chars(chars_of(t, begin + 29, end)),
                            offset: ls,
                            length: line_end(t, begin) - ls,
                        };
                        lemma_line_start_bounds(t, begin);
                        if is_note_prefix(t, ls, begin) {
                            lemma_scan_after_signature(t, end + 27, Some(b));
                        }
                        lemma_scan_after_signature(t, begin + 1, found);
                    },
                    None => {
                        lemma_scan_after_signature(t, begin + 1, found);
                    },
                }
            },
        }
    }
}

/// Whether `text` begins with the WebVTT signature (after an optional
/// byte-order mark), followed by the end of the file or a space, tab, or
/// line terminator.
pub fn is_webvtt(text: &str) -> (r: bool)
    ensures
        r == is_webvtt_bytes(text.spec_bytes()),
{
    let t = text_bytes(text);
    let ghost tb = t@;
    let start: usize = if t.len() >= 3 && t[0] == 0xef && t[1] == 0xbb && t[2] == 0xbf {
        3
    } else {
        0
    };
    proof {
        if tb.len() >= 3 {
            if tb[0] == 0xef && tb[1] == 0xbb && tb[2] == 0xbf {
                assert(tb.subrange(0, 3) =~= bom_bytes());
            } else {
                assert(tb.subrange(0, 3)[0] == tb[0]);
                assert(tb.subrange(0, 3)[1] == tb[1]);
                assert(tb.subrange(0, 3)[2] == tb[2]);
            }
        }
    }
    let ghost b = strip_bom(tb);
    proof {
        assert(b =~= tb.subrange(start as int, tb.len() as int));
    }
    if t.len() - start < 6 {
        return false;
    }
    let sig = t[start] == 87 && t[start + 1] == 69 && t[start + 2] == 66 && t[start + 3] == 86
        && t[start + 4] == 84 && t[start + 5] == 84;
    proof {
        if sig {
            assert(b.subrange(0, 6) =~= signature_bytes());
        } else {
            assert(b.subrange(0, 6)[0] == b[0]);
            assert(b.subrange(0, 6)[1] == b[1]);
            assert(b.subrange(0, 6)[2] == b[2]);
            assert(b.subrange(0, 6)[3] == b[3]);
            assert(b.subrange(0, 6)[4] == b[4]);
            assert(b.subrange(0, 6)[5] == b[5]);
        }
    }
    if !sig {
        return false;
    }
    if t.len() - start == 6 {
        return true;
    }
    let c = t[start + 6];
    c == 32 || c == 9 || c == 10 || c == 13
}

/// `Ok` when every CR in `text` is followed by an LF; otherwise
/// [`Error::BareCarriageReturn`].
pub fn reject_bare_cr(text: &str) -> (r: Result<(), Error>)
    ensures
        r is Ok <==> no_bare_cr(text.spec_bytes()),
        r matches Err(e) ==> e is BareCarriageReturn,
{
    let t = text_bytes(text);
    let mut i: usize = 0;
    while i < t.len()
        invariant
            i <= t@.len(),
            t@ == text.spec_bytes(),
            forall|j: int|
                0 <= j < i && #[trigger] t@[j] == 13 ==> j + 1 < t@.len() && t@[j + 1] == 10,
        decreases t@.len() - i,
    {
        if t[i] == 13 {
            if i + 1 >= t.len() || t[i + 1] != 10 {
                proof {
                    assert(t@[i as int] == 13);
                    assert(!(i + 1 < t@.len() && t@[i + 1] == 10));
                    assert(!no_bare_cr(t@));
                }
                return Err(Error::BareCarriageReturn);
            }
        }
        i = i + 1;
    }
    Ok(())
}

/// Whether the bytes of `s` are `NOTE`.
fn is_note_keyword(s: &str) -> (r: bool)
    ensures
        r == (s@ == note_chars()),
{
    let b = text_bytes(s);
    proof {
        let n = note_chars();
        assert(n[0] as u32 == 78 && n[1] as u32 == 79 && n[2] as u32 == 84 && n[3] as u32 == 69);
        lemma_encode_ascii(n);
        assert(encode_utf8(n) =~= seq![78u8, 79, 84, 69]);
    }
    let r = b.len() == 4 && b[0] == 78 && b[1] == 79 && b[2] == 84 && b[3] == 69;
    proof {
        if r {
            assert(b@ =~= seq![78u8, 79, 84, 69]);
            assert(s@ == decode_utf8(encode_utf8(s@)));
        } else if s@ == note_chars() {
            assert(b@ == seq![78u8, 79, 84, 69]);
        }
    }
    r
}

/// The first position at or after `from` at which the delimiter `d` occurs
/// in `bytes`.
fn next_delimiter(bytes: &[u8], from: usize, d: &str) -> (r: Option<usize>)
    requires
        from <= bytes@.len(),
        d.spec_bytes().len() > 0,
    ensures
        match r {
            Some(p) => find_from(bytes@, d.spec_bytes(), from as int) == Some(p as int) && from
                <= p && p + d.spec_bytes().len() <= bytes@.len() && bytes@.subrange(
                p as int,
                p + d.spec_bytes().len(),
            ) == d.spec_bytes(),
            None => find_from(bytes@, d.spec_bytes(), from as int) is None,
        },
{
    let ghost t = bytes@;
    let hay = slice_subrange(bytes, from, bytes.len());
    proof {
        lemma_find_from_suffix(t, d.spec_bytes(), from as int, 0);
    }
    match find_delimiter(hay, d) {
        Some(rel) => {
            proof {
                lemma_find_from_bounds(hay@, d.spec_bytes(), 0);
                lemma_find_from_bounds(t, d.spec_bytes(), from as int);
            }
            Some(from + rel)
        },
        None => None,
    }
}

/// Whether the text between byte positions `ls` and `begin` is the `NOTE`
/// keyword, up to surrounding white space.
fn note_prefix(text: &str, ls: usize, begin: usize) -> (r: bool)
    requires
        ls <= begin <= text.spec_bytes().len(),
        is_char_boundary(text.spec_bytes(), ls as int),
        is_char_boundary(text.spec_bytes(), begin as int),
    ensures
        r == is_note_prefix(text.spec_bytes(), ls as int, begin as int),
{
    let line = sub_str(text, ls, begin);
    let keyword = str_trim(line);
    is_note_keyword(keyword)
}

/// The text between byte positions `a` and `e`, trimmed.
fn trimmed_between(text: &str, a: usize, e: usize) -> (r: String)
    requires
        a <= e <= text.spec_bytes().len(),
        is_char_boundary(text.spec_bytes(), a as int),
        is_char_boundary(text.spec_bytes(), e as int),
    ensures
        r@ == trim_chars(chars_of(text.spec_bytes(), a as int, e as int)),
{
    let seg = sub_str(text, a, e);
    str_trim(seg).to_owned()
}

/// Locate the C2PA manifest `NOTE` block in a WebVTT file.
///
/// Only a single-line `NOTE` comment carrying both delimiters is
/// recognised; occurrences of the delimiters on non-`NOTE` lines (e.g. inside
/// cue text) are ignored. Returns [`Error::MultipleManifests`] if more than one qualifying
/// block is present.
pub fn extract_manifest(text: &str) -> (res: Result<ExtractionResult, Error>)
    ensures
        extraction_agrees(res, spec_extract(text.spec_bytes())),
        res matches Ok(r) ==> block_wf(text.spec_bytes(), r@) && r.offset > 0,
{
    let ghost t = text.spec_bytes();
    proof {
        lemma_scan_wf(t, 0, None);

        lemma_delimiter_bytes();
    }
    if !is_webvtt(text) {
        return Err(Error::NotVtt);
    }
    let bytes = text_bytes(text);
    let begin_d = begin_delimiter();
    let end_d = end_delimiter();
    let mut found: Option<ExtractionResult> = None;
    let mut search: usize = 0;
    loop
        invariant
            bytes@ == t,
            t == text.spec_bytes(),
            valid_utf8(t),
            begin_d.spec_bytes() == begin_bytes(),
            end_d.spec_bytes() == end_bytes(),
            begin_bytes().len() == 29,
            end_bytes().len() == 27,
            begin_bytes()[0] == 45,
            end_bytes()[0] == 45,
            search <= t.len(),
            scan(t, 0, None) == scan(t, search as int, block_of(found)),
            is_webvtt_bytes(t),
            found matches Some(r) ==> block_wf(t, r@) && r.offset > 0,
        decreases t.len() - search,
    {
        let begin = match next_delimiter(bytes, search, begin_d) {
            Some(b) => b,
            None => {
                return match found {
                    Some(r) => Ok(r),
                    None => Err(Error::NotFound),
                };
            },
        };
        proof {
            assert(begin_d.spec_bytes().len() == 29);
            assert(begin + 29 <= t.len());
        }
        let n: usize = bytes.len();
        proof {
            assert(begin + 29 <= n);
        }
        let after_begin = begin + 29;
        let lb = find_line_break(bytes, begin);
        let closing: Option<usize> = match next_delimiter(bytes, after_begin, end_d) {
            Some(end) => if end <= lb && lb - end >= 27 {
                Some(end)
            } else {
                None
            },
            None => None,
        };
        proof {
            lemma_find_from_bounds(t, begin_bytes(), search as int);
            lemma_find_from_bounds(t, end_bytes(), after_begin as int);
            lemma_line_break_bounds(t, begin as int);
            assert(closing_on_line(t, begin as int) == match closing {
                Some(e) => Some(e as int),
                None => None::<int>,
            });
        }
        let ls = find_line_start(bytes, begin);
        match closing {
            Some(end) => {
                proof {
                    lemma_line_start_bounds(t, begin as int);
                    assert(t.subrange(begin as int, begin + 29)[0] == t[begin as int]);
                    assert(t.subrange(begin as int, begin + 29)[28] == t[begin + 28]);
                    assert(t.subrange(end as int, end + 27)[0] == t[end as int]);
                    lemma_boundary(t, ls as int);
                    lemma_boundary(t, begin as int);
                    lemma_boundary(t, after_begin as int);
                    lemma_boundary(t, end as int);
                }
                if note_prefix(text, ls, begin) {
                    let reference = trimmed_between(text, after_begin, end);
                    if reference.as_str().is_empty() {
                        return Err(Error::EmptyReference);
                    }
                    if found.is_some() {
                        return Err(Error::MultipleManifests);
                    }
                    let le = find_line_end(bytes, begin);
                    proof {
                        lemma_line_start_no_lf(t, begin as int);
                        if ls == 0 {
                            lemma_signature_line_not_note(t, begin as int);
                        }
                    }
                    found = Some(ExtractionResult { reference, offset: ls, length: le - ls });
                    search = end + 27;
                } else {
                    search = begin + 1;
                }
            },
            None => {
                search = begin + 1;
            },
        }
    }
}

} // verus!
