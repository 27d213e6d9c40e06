//! The layout of an embedded file, and what the delimiter scan finds in it.
//!
//! [`layout`] is an embedded file built from its pieces: the signature line,
//! the line terminator, the reference and the body. [`lemma_scan_layout`]
//! says what extraction finds in it.

use vstd::prelude::*;
use vstd::utf8::*;
use vstd::utf8::char_u32_cast;
use crate::embed::{note_keyword_bytes, note_line};
use crate::error::Error;
use crate::extract::{
    closing_on_line, is_note_prefix, lemma_quiet_same_find, lemma_quiet_scan, lemma_quiet_shift, note_chars,
    quiet_from, scan, ManifestBlock,
};
use crate::structured::{begin_bytes, end_bytes, lemma_delimiter_bytes};
use crate::text::{
    chars_of, find_byte_from, find_from, is_white_space, lemma_decode_ascii, lemma_decode_spaced,
    lemma_find_from_here, lemma_find_from_none_past, lemma_find_from_skip, lemma_line_start_no_nl,
    lemma_line_break_at, lemma_trim_spaces, line_break, line_end, line_start, occurs_at, trim_chars, trim_end_chars,
    trim_start_chars,
};

verus! {

/// A reference that can stand between the delimiters: valid UTF-8, on one
/// line, holding no closing delimiter, and not blank.
pub open spec fn plain_reference(r: Seq<u8>) -> bool {
    &&& valid_utf8(r)
    &&& forall|i: int| 0 <= i < r.len() ==> #[trigger] r[i] != 10
    &&& forall|q: int| !#[trigger] occurs_at(r, end_bytes(), q)
    &&& trim_chars(decode_utf8(r)).len() > 0
}

/// The pieces of a `NOTE` line.
pub proof fn lemma_note_line(r: Seq<u8>)
    ensures
        ({
            let n = note_line(r);
            let m = r.len() as int;
            &&& n.len() == 63 + m
            &&& n.subrange(0, 5) == note_keyword_bytes()
            &&& n.subrange(5, 34) == begin_bytes()
            &&& n.subrange(34, 36 + m) == seq![32u8] + r + seq![32u8]
            &&& n.subrange(36 + m, 63 + m) == end_bytes()
        }),
{
    let n = note_line(r);
    let m = r.len() as int;
    assert(n.subrange(0, 5) =~= note_keyword_bytes());
    assert(n.subrange(5, 34) =~= begin_bytes());
    assert(n.subrange(34, 36 + m) =~= seq![32u8] + r + seq![32u8]);
    assert(n.subrange(36 + m, 63 + m) =~= end_bytes());
}

/// The file laid out by embedding: header `hd`, terminator `nl`, reference
/// `r` and body `b`.
#[verifier::opaque]
pub open spec fn layout(hd: Seq<u8>, nl: Seq<u8>, r: Seq<u8>, b: Seq<u8>) -> Seq<u8> {
    if b.len() > 0 {
        layout_head(hd, nl, r) + nl + b
    } else {
        layout_head(hd, nl, r)
    }
}

/// The pieces of a concatenation.
pub proof fn lemma_pieces(a: Seq<u8>, b: Seq<u8>)
    ensures
        (a + b).subrange(0, a.len() as int) == a,
        (a + b).subrange(a.len() as int, (a.len() + b.len()) as int) == b,
{
    assert((a + b).subrange(0, a.len() as int) =~= a);
    assert((a + b).subrange(a.len() as int, (a.len() + b.len()) as int) =~= b);
}

/// A range of a range.
pub proof fn lemma_sub_sub(s: Seq<u8>, a: int, b: int, c: int, d: int)
    requires
        0 <= a <= b <= s.len(),
        0 <= c <= d <= b - a,
    ensures
        s.subrange(a, b).subrange(c, d) == s.subrange(a + c, a + d),
{
    assert(s.subrange(a, b).subrange(c, d) =~= s.subrange(a + c, a + d));
}

/// The terminator facts of a line terminator.
pub proof fn lemma_newline(nl: Seq<u8>)
    requires
        nl == seq![10u8] || nl == seq![13u8, 10u8],
    ensures
        nl.len() == 1 || nl.len() == 2,
        nl.last() == 10,
        forall|j: int| 0 <= j < nl.len() ==> #[trigger] nl[j] == 10 || nl[j] == 13,
{
}

/// The head of a laid-out file: everything up to the terminator of the
/// `NOTE` line.
#[verifier::opaque]
pub open spec fn layout_head(hd: Seq<u8>, nl: Seq<u8>, r: Seq<u8>) -> Seq<u8> {
    hd + nl + nl + note_line(r) + nl
}

/// A header followed by two terminators.
pub proof fn lemma_two_newlines(hd: Seq<u8>, nl: Seq<u8>)
    requires
        nl == seq![10u8] || nl == seq![13u8, 10u8],
    ensures
        ({
            let p = hd + nl + nl;
            let h = hd.len() as int;
            let k = nl.len() as int;
            &&& p.len() == h + 2 * k
            &&& p.subrange(0, h) == hd
            &&& forall|j: int| h <= j < h + 2 * k ==> #[trigger] p[j] == 10 || p[j] == 13
            &&& p[h + 2 * k - 1] == 10
        }),
{
    let p = hd + nl + nl;
    let h = hd.len() as int;
    let k = nl.len() as int;
    lemma_newline(nl);
    assert(p.subrange(0, h) =~= hd);
    assert forall|j: int| h <= j < h + 2 * k implies #[trigger] p[j] == 10 || p[j] == 13 by {
        if j < h + k {
            assert(p[j] == nl[j - h]);
        } else {
            assert(p[j] == nl[j - h - k]);
        }
    }
    assert(p[h + 2 * k - 1] == nl[k - 1]);
}

/// Where the pieces of the head lie.
pub proof fn lemma_layout_head(hd: Seq<u8>, nl: Seq<u8>, r: Seq<u8>)
    requires
        nl == seq![10u8] || nl == seq![13u8, 10u8],
    ensures
        ({
            let head = layout_head(hd, nl, r);
            let h = hd.len() as int;
            let k = nl.len() as int;
            let off = h + 2 * k;
            let m = r.len() as int;
            let ae = off + 63 + m;
            &&& head.len() == ae + k
            &&& head.subrange(0, h) == hd
            &&& head.subrange(0, off) == hd + nl + nl
            &&& forall|j: int| h <= j < off ==> #[trigger] head[j] == 10 || head[j] == 13
            &&& head[off - 1] == 10
            &&& head.subrange(off, ae) == note_line(r)
            &&& head.subrange(ae, ae + k) == nl
            &&& forall|j: int| ae <= j < ae + k ==> #[trigger] head[j] == 10 || head[j] == 13
            &&& head[ae + k - 1] == 10
        }),
{
    let h = hd.len() as int;
    let k = nl.len() as int;
    let off = h + 2 * k;
    let n = note_line(r);
    lemma_note_line(r);
    lemma_newline(nl);
    lemma_two_newlines(hd, nl);
    let p2 = hd + nl + nl;
    let p3 = p2 + n;
    let head = p3 + nl;
    reveal(layout_head);
    assert(head == layout_head(hd, nl, r));
    let ae = off + n.len();
    lemma_pieces(p3, nl);
    lemma_pieces(p2, n);
    assert forall|j: int| 0 <= j < off implies #[trigger] head[j] == p2[j] by {
        assert(head[j] == p3[j]);
    }
    assert(head.subrange(0, h) =~= hd) by {
        assert forall|j: int| 0 <= j < h implies #[trigger] head.subrange(0, h)[j] == hd[j] by {
            assert(head[j] == p2[j]);
            assert(p2.subrange(0, h)[j] == p2[j]);
        }
    }
    assert(head.subrange(0, off) =~= p2) by {
        assert forall|j: int| 0 <= j < off implies #[trigger] head.subrange(0, off)[j] == p2[j] by {
            assert(head[j] == p2[j]);
        }
    }
    assert(head.subrange(off, ae) =~= n) by {
        assert forall|j: int| 0 <= j < n.len() implies #[trigger] head.subrange(off, ae)[j]
            == n[j] by {
            assert(head[off + j] == p3[off + j]);
        }
    }
    assert forall|j: int| ae <= j < ae + k implies #[trigger] head[j] == 10 || head[j] == 13 by {
        assert(head[j] == nl[j - ae]);
    }
    assert(head[ae + k - 1] == nl[k - 1]);
}

/// Where the pieces of the `NOTE` line lie within a laid-out file.
pub proof fn lemma_layout_note(out: Seq<u8>, off: int, r: Seq<u8>)
    requires
        0 <= off,
        off + 63 + r.len() <= out.len(),
        out.subrange(off, off + 63 + r.len()) == note_line(r),
    ensures
        ({
            let m = r.len() as int;
            let begin = off + 5;
            let ab = begin + 29;
            let end = ab + m + 2;
            &&& out.subrange(off, begin) == note_keyword_bytes()
            &&& out.subrange(begin, ab) == begin_bytes()
            &&& out.subrange(ab, end) == seq![32u8] + r + seq![32u8]
            &&& out.subrange(end, end + 27) == end_bytes()
        }),
{
    let m = r.len() as int;
    lemma_note_line(r);
    lemma_sub_sub(out, off, off + 63 + m, 0, 5);
    lemma_sub_sub(out, off, off + 63 + m, 5, 34);
    lemma_sub_sub(out, off, off + 63 + m, 34, 36 + m);
    lemma_sub_sub(out, off, off + 63 + m, 36 + m, 63 + m);
}

/// Where the head and the body lie within a laid-out file.
pub proof fn lemma_layout(hd: Seq<u8>, nl: Seq<u8>, r: Seq<u8>, b: Seq<u8>)
    requires
        nl == seq![10u8] || nl == seq![13u8, 10u8],
    ensures
        ({
            let out = layout(hd, nl, r, b);
            let head = layout_head(hd, nl, r);
            let k = nl.len() as int;
            let hl = head.len() as int;
            &&& out.subrange(0, hl) == head
            &&& out.len() == hl + (if b.len() > 0 { k + b.len() } else { 0 })
            &&& forall|j: int| hl <= j < out.len() - b.len() ==> #[trigger] out[j] == 10 || out[j]
                == 13
            &&& b.len() > 0 ==> out == out.subrange(0, hl + k) + b && out[hl + k - 1] == 10
        }),
{
    let out = layout(hd, nl, r, b);
    let head = layout_head(hd, nl, r);
    let k = nl.len() as int;
    let hl = head.len() as int;
    lemma_newline(nl);
    reveal(layout);
    if b.len() > 0 {
        let p = head + nl;
        lemma_pieces(p, b);
        lemma_pieces(head, nl);
        assert(out == p + b);
        assert(out.subrange(0, hl) =~= head);
        assert forall|j: int| hl <= j < out.len() - b.len() implies #[trigger] out[j] == 10
            || out[j] == 13 by {
            assert(out[j] == nl[j - hl]);
        }
        assert(out[hl + k - 1] == nl[k - 1]);
    } else {
        assert(out.subrange(0, hl) =~= head);
    }
}

/// The first opening delimiter of a laid-out file is the one on its `NOTE`
/// line, when the header holds none.
pub proof fn lemma_first_begin(out: Seq<u8>, hd: Seq<u8>, h: int, off: int)
    requires
        0 <= h < off,
        off + 34 <= out.len(),
        hd.len() == h,
        out.subrange(0, h) == hd,
        forall|q: int| !#[trigger] occurs_at(hd, begin_bytes(), q),
        forall|j: int| h <= j < off ==> #[trigger] out[j] == 10 || out[j] == 13,
        out.subrange(off, off + 5) == note_keyword_bytes(),
        out.subrange(off + 5, off + 34) == begin_bytes(),
    ensures
        find_from(out, begin_bytes(), 0) == Some(off + 5),
{
    lemma_delimiter_bytes();
    let bb = begin_bytes();
    assert forall|q: int| 0 <= q < off + 5 implies !#[trigger] occurs_at(out, bb, q) by {
        if occurs_at(out, bb, q) {
            let w = out.subrange(q, q + 29);
            assert(w == bb);
            if q < h {
                if q + 29 <= h {
                    assert(hd.subrange(q, q + 29) =~= w) by {
                        assert forall|i: int| 0 <= i < 29 implies #[trigger] hd.subrange(q, q + 29)[i]
                            == w[i] by {
                            assert(out.subrange(0, h)[q + i] == out[q + i]);
                        }
                    }
                    assert(occurs_at(hd, bb, q));
                } else {
                    assert(w[h - q] == out[h]);
                    assert(bb[h - q] != 10 && bb[h - q] != 13);
                }
            } else if q < off {
                assert(w[0] == out[q]);
            } else {
                assert(w[0] == out[q]);
                assert(out[q] == out.subrange(off, off + 5)[q - off]);
                assert(note_keyword_bytes()[q - off] != 45);
            }
        }
    }
    lemma_find_from_skip(out, bb, 0, off + 5);
    assert(out.subrange(off + 5, off + 34) == bb);
    lemma_find_from_here(out, bb, off + 5);
}

/// The first closing delimiter after the opening one of a laid-out file is
/// the one on its `NOTE` line, when the reference holds none.
pub proof fn lemma_first_end(out: Seq<u8>, r: Seq<u8>, ab: int)
    requires
        0 <= ab,
        ab + r.len() + 29 <= out.len(),
        out.subrange(ab, ab + r.len() + 2) == seq![32u8] + r + seq![32u8],
        out.subrange(ab + r.len() + 2, ab + r.len() + 29) == end_bytes(),
        forall|q: int| !#[trigger] occurs_at(r, end_bytes(), q),
    ensures
        find_from(out, end_bytes(), ab) == Some(ab + r.len() + 2),
{
    lemma_delimiter_bytes();
    let eb = end_bytes();
    let m = r.len() as int;
    let end = ab + m + 2;
    let sp = seq![32u8] + r + seq![32u8];
    assert(out[ab] == sp[0]);
    assert(out[end - 1] == sp[m + 1]);
    assert(out[end] == out.subrange(end, end + 27)[0]);
    assert forall|q: int| ab <= q < end implies !#[trigger] occurs_at(out, eb, q) by {
        if occurs_at(out, eb, q) {
            let w = out.subrange(q, q + 27);
            assert(w == eb);
            if q == ab {
                assert(w[0] == out[ab]);
            } else if q + 27 <= end - 1 {
                let q2 = q - ab - 1;
                assert(r.subrange(q2, q2 + 27) =~= w) by {
                    assert forall|i: int| 0 <= i < 27 implies #[trigger] r.subrange(q2, q2 + 27)[i]
                        == w[i] by {
                        assert(out[q + i] == out.subrange(ab, end)[q + i - ab]);
                        assert(sp[q + i - ab] == r[q2 + i]);
                    }
                }
                assert(occurs_at(r, eb, q2));
            } else {
                let j0 = end - 1 - q;
                assert(w[j0] == out[end - 1]);
                if j0 == 8 || j0 == 13 {
                    assert(w[j0 + 1] == out[end]);
                }
            }
        }
    }
    lemma_find_from_skip(out, eb, ab, end);
    lemma_find_from_here(out, eb, end);
}

/// The `NOTE ` keyword before the opening delimiter of a laid-out file makes
/// its line a `NOTE` line, starting at `off`.
pub proof fn lemma_note_keyword_line(out: Seq<u8>, off: int)
    requires
        0 < off,
        off + 5 <= out.len(),
        out[off - 1] == 10,
        out.subrange(off, off + 5) == note_keyword_bytes(),
    ensures
        line_start(out, off + 5) == off,
        is_note_prefix(out, off, off + 5),
{
    let kw = note_keyword_bytes();
    assert forall|j: int| off <= j < off + 5 implies #[trigger] out[j] != 10 by {
        assert(out[j] == out.subrange(off, off + 5)[j - off]);
    }
    lemma_line_start_no_nl(out, off, off + 5);
    assert(crate::text::all_ascii(kw));
    lemma_decode_ascii(kw);
    let c = chars_of(out, off, off + 5);
    assert(c == decode_utf8(kw));
    let n = note_chars();
    assert(c.len() == 5);
    assert(c[0] as u32 == 78 && c[1] as u32 == 79 && c[2] as u32 == 84 && c[3] as u32 == 69
        && c[4] as u32 == 32);
    char_u32_cast(c[0], 78);
    char_u32_cast(c[1], 79);
    char_u32_cast(c[2], 84);
    char_u32_cast(c[3], 69);
    char_u32_cast(c[4], 32);
    char_u32_cast('N', 78);
    char_u32_cast('O', 79);
    char_u32_cast('T', 84);
    char_u32_cast('E', 69);
    char_u32_cast(' ', 32);
    assert(c =~= seq!['N', 'O', 'T', 'E', ' ']);
    assert(!is_white_space('N'));
    assert(is_white_space(' '));
    assert(!is_white_space('E'));
    assert(trim_start_chars(c) == c);
    assert(c.drop_last() =~= n);
    assert(trim_end_chars(n) == n);
    assert(trim_end_chars(c) == trim_end_chars(c.drop_last()));
    assert(trim_chars(c) == n);
}

/// The scan of a laid-out file after its `NOTE` line meets nothing when its
/// body is quiet.
pub proof fn lemma_after_block_quiet(hd: Seq<u8>, nl: Seq<u8>, r: Seq<u8>, b: Seq<u8>)
    requires
        nl == seq![10u8] || nl == seq![13u8, 10u8],
        quiet_from(b, 0),
    ensures
        quiet_from(layout(hd, nl, r, b), layout_head(hd, nl, r).len() - nl.len()),
{
    let out = layout(hd, nl, r, b);
    let head = layout_head(hd, nl, r);
    let k = nl.len() as int;
    let hl = head.len() as int;
    let ae = hl - k;
    lemma_layout(hd, nl, r, b);
    lemma_layout_head(hd, nl, r);
    lemma_delimiter_bytes();
    let bb = begin_bytes();
    let stop = out.len() - b.len();
    assert forall|q: int| ae <= q < stop implies !#[trigger] occurs_at(out, bb, q) by {
        if occurs_at(out, bb, q) {
            assert(out.subrange(q, q + 29)[0] == out[q]);
            if q < hl {
                assert(out[q] == head[q]);
            }
        }
    }
    lemma_find_from_skip(out, bb, ae, stop);
    if b.len() > 0 {
        let p = out.subrange(0, hl + k);
        assert(stop == hl + k);
        lemma_quiet_same_find(out, ae, stop);
        lemma_quiet_shift(p, b, 0);
    } else {
        lemma_find_from_none_past(out, bb, stop);
    }
}

/// The pieces of a laid-out file, located in the file itself.
pub proof fn lemma_layout_pieces(hd: Seq<u8>, nl: Seq<u8>, r: Seq<u8>, b: Seq<u8>)
    requires
        nl == seq![10u8] || nl == seq![13u8, 10u8],
    ensures
        ({
            let out = layout(hd, nl, r, b);
            let h = hd.len() as int;
            let k = nl.len() as int;
            let m = r.len() as int;
            let off = h + 2 * k;
            let begin = off + 5;
            let ab = begin + 29;
            let end = ab + m + 2;
            let ae = end + 27;
            &&& k == 1 || k == 2
            &&& ae + k == layout_head(hd, nl, r).len()
            &&& ae + k <= out.len()
            &&& out.subrange(0, h) == hd
            &&& out.subrange(0, off) == hd + nl + nl
            &&& forall|j: int| h <= j < off ==> #[trigger] out[j] == 10 || out[j] == 13
            &&& out[off - 1] == 10
            &&& out.subrange(off, begin) == note_keyword_bytes()
            &&& out.subrange(begin, ab) == begin_bytes()
            &&& out.subrange(ab, end) == seq![32u8] + r + seq![32u8]
            &&& out.subrange(end, end + 27) == end_bytes()
            &&& out.subrange(ae, ae + k) == nl
        }),
{
    let out = layout(hd, nl, r, b);
    let head = layout_head(hd, nl, r);
    let h = hd.len() as int;
    let k = nl.len() as int;
    let m = r.len() as int;
    let off = h + 2 * k;
    let ae = off + 63 + m;
    let hl = ae + k;
    lemma_layout(hd, nl, r, b);
    lemma_layout_head(hd, nl, r);
    lemma_sub_sub(out, 0, hl, 0, h);
    lemma_sub_sub(out, 0, hl, 0, off);
    lemma_sub_sub(out, 0, hl, off, ae);
    lemma_sub_sub(out, 0, hl, ae, hl);
    lemma_layout_note(out, off, r);
    lemma_prefix_breaks(out, head, hl, h, off);
}

/// Line breaks of a prefix are line breaks of the whole.
proof fn lemma_prefix_breaks(out: Seq<u8>, head: Seq<u8>, hl: int, h: int, off: int)
    requires
        0 <= h < off <= hl <= out.len(),
        out.subrange(0, hl) == head,
        forall|j: int| h <= j < off ==> #[trigger] head[j] == 10 || head[j] == 13,
        head[off - 1] == 10,
    ensures
        forall|j: int| h <= j < off ==> #[trigger] out[j] == 10 || out[j] == 13,
        out[off - 1] == 10,
{
    assert forall|j: int| h <= j < off implies #[trigger] out[j] == 10 || out[j] == 13 by {
        assert(out.subrange(0, hl)[j] == out[j]);
    }
    assert(out.subrange(0, hl)[off - 1] == out[off - 1]);
}

/// The delimiter scan's view of the `NOTE` line of a laid-out file.
pub proof fn lemma_layout_facts(hd: Seq<u8>, nl: Seq<u8>, r: Seq<u8>, b: Seq<u8>)
    requires
        nl == seq![10u8] || nl == seq![13u8, 10u8],
        forall|q: int| !#[trigger] occurs_at(hd, begin_bytes(), q),
        plain_reference(r),
    ensures
        ({
            let out = layout(hd, nl, r, b);
            let h = hd.len() as int;
            let k = nl.len() as int;
            let m = r.len() as int;
            let off = h + 2 * k;
            let begin = off + 5;
            let ab = begin + 29;
            let end = ab + m + 2;
            let ae = end + 27;
            &&& find_from(out, begin_bytes(), 0) == Some(begin)
            &&& find_from(out, end_bytes(), ab) == Some(end)
            &&& line_start(out, begin) == off
            &&& is_note_prefix(out, off, begin)
            &&& trim_chars(chars_of(out, ab, end)) == trim_chars(decode_utf8(r))
            &&& line_end(out, ae) == ae + k
            &&& line_break(out, begin) == ae + k - 1
            &&& line_end(out, begin) == ae + k
            &&& closing_on_line(out, begin) == Some(end)
            &&& ae + k == layout_head(hd, nl, r).len()
        }),
{
    let out = layout(hd, nl, r, b);
    let h = hd.len() as int;
    let k = nl.len() as int;
    let m = r.len() as int;
    let off = h + 2 * k;
    let begin = off + 5;
    let ab = begin + 29;
    let end = ab + m + 2;
    let ae = end + 27;
    lemma_layout_pieces(hd, nl, r, b);
    lemma_first_begin(out, hd, h, off);
    lemma_first_end(out, r, ab);
    lemma_note_keyword_line(out, off);
    lemma_reference_chars(out, r, ab);
    lemma_line_end_at(out, nl, ae);
    lemma_delimiter_bytes();
    assert forall|j: int| begin <= j < ae + k - 1 implies #[trigger] out[j] != 10 by {
        if j < ab {
            assert(out.subrange(begin, ab)[j - begin] == out[j]);
        } else if j < end {
            assert(out.subrange(ab, end)[j - ab] == out[j]);
            if ab < j < end - 1 {
                assert((seq![32u8] + r + seq![32u8])[j - ab] == r[j - ab - 1]);
            }
        } else if j < ae {
            assert(out.subrange(end, end + 27)[j - end] == out[j]);
        } else {
            assert(out.subrange(ae, ae + k)[0] == out[j]);
        }
    }
    assert(out.subrange(ae, ae + k)[k - 1] == out[ae + k - 1]);
    lemma_line_break_at(out, begin, ae + k - 1);
}

/// The characters between the delimiters of a laid-out file, trimmed, are
/// the trimmed reference.
pub proof fn lemma_reference_chars(out: Seq<u8>, r: Seq<u8>, ab: int)
    requires
        0 <= ab,
        ab + r.len() + 2 <= out.len(),
        out.subrange(ab, ab + r.len() + 2) == seq![32u8] + r + seq![32u8],
        valid_utf8(r),
    ensures
        trim_chars(chars_of(out, ab, ab + r.len() + 2)) == trim_chars(decode_utf8(r)),
{
    lemma_decode_spaced(r);
    lemma_trim_spaces(decode_utf8(r));
}

/// The line that ends with terminator `nl` at `ae` ends just past it.
pub proof fn lemma_line_end_at(out: Seq<u8>, nl: Seq<u8>, ae: int)
    requires
        nl == seq![10u8] || nl == seq![13u8, 10u8],
        0 <= ae,
        ae + nl.len() <= out.len(),
        out.subrange(ae, ae + nl.len()) == nl,
    ensures
        line_end(out, ae) == ae + nl.len(),
{
    assert(out[ae] == nl[0]);
    if nl.len() == 2 {
        assert(out[ae + 1] == nl[1]);
        assert(find_byte_from(out, 10, ae + 1) == Some(ae + 1));
        assert(find_byte_from(out, 10, ae) == Some(ae + 1));
    } else {
        assert(find_byte_from(out, 10, ae) == Some(ae));
    }
}

/// Extracting from a laid-out file finds the block on its `NOTE` line.
pub proof fn lemma_scan_layout(hd: Seq<u8>, nl: Seq<u8>, r: Seq<u8>, b: Seq<u8>)
    requires
        nl == seq![10u8] || nl == seq![13u8, 10u8],
        forall|q: int| !#[trigger] occurs_at(hd, begin_bytes(), q),
        plain_reference(r),
        quiet_from(b, 0),
    ensures
        scan(layout(hd, nl, r, b), 0, None) == Ok::<ManifestBlock, Error>(
            ManifestBlock {
                reference: trim_chars(decode_utf8(r)),
                offset: (hd.len() + 2 * nl.len()) as int,
                length: (63 + r.len() + nl.len()) as int,
            },
        ),
{
    let out = layout(hd, nl, r, b);
    let h = hd.len() as int;
    let k = nl.len() as int;
    let m = r.len() as int;
    let off = h + 2 * k;
    let begin = off + 5;
    let end = begin + 29 + m + 2;
    let ae = end + 27;
    lemma_layout_facts(hd, nl, r, b);
    lemma_after_block_quiet(hd, nl, r, b);
    let blk = ManifestBlock {
        reference: trim_chars(decode_utf8(r)),
        offset: off,
        length: ae + k - off,
    };
    lemma_quiet_scan(out, ae, Some(blk));
    assert(scan(out, 0, None) == scan(out, ae, Some(blk)));
}

} // verus!
