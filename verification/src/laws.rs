//! Laws that relate embedding, extraction, removal and the data hash.
//!
//! They hold for an unsigned WebVTT file ([`unsigned_webvtt`]) and a
//! reference that can be carried between the delimiters
//! ([`plain_reference`]).

use vstd::prelude::*;
use vstd::utf8::*;
use vstd::string::*;
use crate::embed::{
    contains_crlf, lemma_parts_valid, note_keyword_bytes, reference_bytes, removal_cut, removed_bytes, spec_embed, spec_remove, ManifestRef, body_of, body_start, embedded_bytes, header_end, header_of, lemma_embed_positions,
    lemma_skip_line_breaks, newline_of, note_line, rest_start, skip_line_breaks,
};
use crate::base64::{
    encode_group, lemma_encode_all_ascii, lemma_groups_round_trip, spec_encode, triple,
};
use crate::bridge::{data_uri_payload, is_data_uri, source_agrees, ManifestSource};
use crate::binding::{covered_bytes, digest_of, spec_data_hash, spec_verify, HashAlg};
use crate::digest::{sha256, sha384, sha512};
use crate::error::Error;
use crate::extract::{
    block_at, block_opener, lemma_scan_finds_the_only_block, bom_bytes, is_webvtt_bytes, strip_bom, lemma_scan_after_signature, lemma_scan_wf, lemma_quiet_same_find, lemma_quiet_scan, lemma_quiet_shift, no_bare_cr,
    quiet_from, spec_extract, ManifestBlock,
};
use crate::layout::{
    layout, layout_head, lemma_layout, lemma_layout_head, lemma_two_newlines, lemma_layout_pieces, lemma_scan_layout,
    lemma_sub_sub, plain_reference,
};
use crate::structured::{
    begin_bytes, data_uri_prefix_bytes, end_bytes,
    lemma_delimiter_bytes,
};
use crate::text::{
    all_ascii, lemma_ascii_valid, lemma_decode_ascii, lemma_decode_concat, lemma_trim_identity,
    find_byte_from, find_from, lemma_find_byte_from_bounds, lemma_find_from_skip, line_start, occurs_at,
    trim_chars,
};

verus! {


/// A WebVTT file without a manifest block that can take one: valid UTF-8
/// with LF or CRLF line terminators, starting with the signature; no opening
/// delimiter on the signature line, and none that opens a manifest block.
pub open spec fn unsigned_webvtt(t: Seq<u8>) -> bool {
    &&& valid_utf8(t)
    &&& no_bare_cr(t)
    &&& is_webvtt_bytes(t)
    &&& forall|q: int| 0 <= q < body_start(t) ==> !#[trigger] occurs_at(t, begin_bytes(), q)
    &&& quiet_from(t, 0)
}


/// The block that embedding reference `r` into `t` writes.
pub open spec fn embedded_block(t: Seq<u8>, r: Seq<u8>) -> ManifestBlock {
    let k = newline_of(t).len();
    ManifestBlock {
        reference: trim_chars(decode_utf8(r)),
        offset: header_end(t) + 2 * k,
        length: note_line(r).len() + k as int,
    }
}

/// `t` with its signature line followed by exactly one blank line.
pub open spec fn normalized(t: Seq<u8>) -> Seq<u8> {
    header_of(t) + newline_of(t) + newline_of(t) + body_of(t)
}

/// An embedded file is the layout of its pieces.
proof fn lemma_embedded_is_layout(t: Seq<u8>, r: Seq<u8>)
    ensures
        embedded_bytes(t, r) == layout(header_of(t), newline_of(t), r, body_of(t)),
        newline_of(t) == seq![10u8] || newline_of(t) == seq![13u8, 10u8],
{
    reveal(layout);
    reveal(layout_head);
}

/// The header of an unsigned file holds no opening delimiter and no CR, its
/// body is quiet and directly follows an LF, and it has no manifest block.
proof fn lemma_unsigned_parts(t: Seq<u8>)
    requires
        unsigned_webvtt(t),
    ensures
        forall|q: int| !#[trigger] occurs_at(header_of(t), begin_bytes(), q),
        forall|i: int| 0 <= i < header_end(t) ==> #[trigger] t[i] != 13,
        quiet_from(body_of(t), 0),
        body_start(t) < t.len() ==> body_start(t) > 0 && t[body_start(t) - 1] == 10,
        spec_extract(t) == Err::<ManifestBlock, Error>(Error::NotFound),
        newline_of(t) == seq![10u8] || newline_of(t) == seq![13u8, 10u8],
{
    let he = header_end(t);
    let bs = body_start(t);
    let rs = rest_start(t);
    let bb = begin_bytes();
    lemma_embed_positions(t);
    lemma_find_byte_from_bounds(t, 10, 0);
    lemma_delimiter_bytes();
    let hd = header_of(t);
    assert forall|q: int| !#[trigger] occurs_at(hd, bb, q) by {
        if occurs_at(hd, bb, q) {
            assert(t.subrange(q, q + 29) =~= hd.subrange(q, q + 29));
            assert(occurs_at(t, bb, q));
        }
    }
    // No LF precedes the first one, so a CR before the header's end would
    // be bare.
    assert forall|i: int| 0 <= i < he implies #[trigger] t[i] != 13 by {
        if t[i] == 13 {
            assert(t[i + 1] == 10);
            lemma_find_byte_from_first(t, 10, 0, i + 1);
        }
    }
    lemma_skip_line_breaks(t, rs);
    if bs < t.len() {
        if bs > rs {
            assert(t[bs - 1] == 13 || t[bs - 1] == 10);
            if t[bs - 1] == 13 {
                assert(t[bs] == 10);
            }
        }
        let p = t.subrange(0, bs);
        let body = body_of(t);
        assert(t =~= p + body);
        lemma_find_from_skip(t, bb, 0, bs);
        lemma_quiet_same_find(t, 0, bs);
        lemma_quiet_shift(p, body, 0);
    } else {
        assert(body_of(t).len() == 0);
        assert(find_from(body_of(t), bb, 0) is None);
    }
    lemma_quiet_scan(t, 0, None);
}

/// No byte before the first occurrence of `b` from `from` is `b`.
proof fn lemma_find_byte_from_first(t: Seq<u8>, b: u8, from: int, i: int)
    requires
        0 <= from <= i < t.len(),
        t[i] == b,
    ensures
        find_byte_from(t, b, from) matches Some(p) && p <= i,
    decreases i - from,
{
    if t[from] != b {
        lemma_find_byte_from_first(t, b, from + 1, i);
    }
}

/// The signature line of an unsigned file is at least the signature long.
proof fn lemma_header_covers_signature(t: Seq<u8>)
    requires
        no_bare_cr(t),
        is_webvtt_bytes(t),
    ensures
        ({
            let s: int = if t.len() >= 3 && t.subrange(0, 3) == bom_bytes() { 3 } else { 0 };
            &&& s + 6 <= header_end(t) <= t.len()
            &&& header_end(t) > s + 6 ==> t[s + 6] == 32 || t[s + 6] == 9
        }),
{
    let s: int = if t.len() >= 3 && t.subrange(0, 3) == bom_bytes() { 3 } else { 0 };
    let b = strip_bom(t);
    assert(b =~= t.subrange(s, t.len() as int));
    assert forall|j: int| 0 <= j < s + 6 implies #[trigger] t[j] != 10 && t[j] != 13 by {
        if j < s {
            assert(t[j] == t.subrange(0, 3)[j]);
        } else {
            assert(t[j] == b[j - s]);
            assert(b[j - s] == b.subrange(0, 6)[j - s]);
        }
    }
    lemma_find_byte_from_bounds(t, 10, 0);
    lemma_embed_positions(t);
    match find_byte_from(t, 10, 0) {
        Some(p) => {
            assert(p >= s + 6);
            if p == s + 6 {
                assert(t[p - 1] != 13);
            }
            if header_end(t) > s + 6 {
                assert(t[s + 6] == b[6]);
                if t[s + 6] == 10 {
                    lemma_find_byte_from_first(t, 10, 0, s + 6);
                } else if t[s + 6] == 13 {
                    assert(t[s + 7] == 10);
                    lemma_find_byte_from_first(t, 10, 0, s + 7);
                }
            }
        },
        None => {
            if t.len() > 0 && t[t.len() - 1] == 13 {
                assert(!(t.len() - 1 + 1 < t.len()));
            }
            if header_end(t) > s + 6 {
                assert(t[s + 6] == b[6]);
                if t[s + 6] == 10 {
                    lemma_find_byte_from_first(t, 10, 0, s + 6);
                } else if t[s + 6] == 13 {
                    assert(t[s + 7] == 10);
                    lemma_find_byte_from_first(t, 10, 0, s + 7);
                }
            }
        },
    }
}

/// A file that starts like `t` up to the end of its signature line, and
/// continues with a line terminator, is WebVTT when `t` is.
proof fn lemma_same_signature_line(t: Seq<u8>, out: Seq<u8>)
    requires
        no_bare_cr(t),
        is_webvtt_bytes(t),
        header_end(t) < out.len(),
        out.subrange(0, header_end(t)) == t.subrange(0, header_end(t)),
        out[header_end(t)] == 10 || out[header_end(t)] == 13,
    ensures
        is_webvtt_bytes(out),
{
    lemma_header_covers_signature(t);
    let he = header_end(t);
    let s: int = if t.len() >= 3 && t.subrange(0, 3) == bom_bytes() { 3 } else { 0 };
    assert forall|j: int| 0 <= j < he implies #[trigger] out[j] == t[j] by {
        assert(out.subrange(0, he)[j] == out[j]);
        assert(t.subrange(0, he)[j] == t[j]);
    }
    assert(out.subrange(0, 3) =~= t.subrange(0, 3));
    let bt = strip_bom(t);
    let bo = strip_bom(out);
    assert(bt =~= t.subrange(s, t.len() as int));
    assert(bo =~= out.subrange(s, out.len() as int));
    assert(bo.subrange(0, 6) =~= bt.subrange(0, 6)) by {
        assert forall|j: int| 0 <= j < 6 implies #[trigger] bo.subrange(0, 6)[j] == bt.subrange(
            0,
            6,
        )[j] by {
            assert(bo[j] == out[s + j]);
            assert(bt[j] == t[s + j]);
        }
    }
    assert(bo[6] == out[s + 6]);
    if he > s + 6 {
        assert(out[s + 6] == t[s + 6]);
    }
}

/// Embedding in an unsigned file: the file is laid out, and WebVTT.
proof fn lemma_embedded_facts(t: Seq<u8>, r: Seq<u8>)
    requires
        unsigned_webvtt(t),
        plain_reference(r),
    ensures
        spec_extract(t) == Err::<ManifestBlock, Error>(Error::NotFound),
        is_webvtt_bytes(embedded_bytes(t, r)),
        spec_extract(embedded_bytes(t, r)) == Ok::<ManifestBlock, Error>(embedded_block(t, r)),
{
    let hd = header_of(t);
    let nl = newline_of(t);
    let b = body_of(t);
    lemma_unsigned_parts(t);
    lemma_embedded_is_layout(t, r);
    lemma_embed_positions(t);
    let out = embedded_bytes(t, r);
    lemma_layout_pieces(hd, nl, r, b);
    let h = header_end(t);
    assert(hd.len() == h);
    assert(out[h] == 10 || out[h] == 13);
    lemma_same_signature_line(t, out);
    lemma_scan_layout(hd, nl, r, b);
    lemma_note_line_len(r);
}

/// The length of a `NOTE` line.
proof fn lemma_note_line_len(r: Seq<u8>)
    ensures
        note_line(r).len() == 63 + r.len(),
{
}

/// Embedding a reference in an unsigned file succeeds, and extracting from
/// the result finds the trimmed reference on the `NOTE` line placed just
/// after the signature line and a blank line.
pub proof fn law_embed_then_extract(t: Seq<u8>, m: ManifestRef)
    requires
        unsigned_webvtt(t),
        plain_reference(reference_bytes(m)),
    ensures
        spec_embed(t, m) == Ok::<Seq<u8>, Error>(embedded_bytes(t, reference_bytes(m))),
        spec_extract(embedded_bytes(t, reference_bytes(m))) == Ok::<ManifestBlock, Error>(
            embedded_block(t, reference_bytes(m)),
        ),
{
    lemma_embedded_facts(t, reference_bytes(m));
}

/// Where removal cuts a laid-out file, and what it leaves.
proof fn lemma_remove_layout(hd: Seq<u8>, nl: Seq<u8>, r: Seq<u8>, b: Seq<u8>, blk: ManifestBlock)
    requires
        nl == seq![10u8] || nl == seq![13u8, 10u8],
        blk.offset == hd.len() + 2 * nl.len(),
        blk.offset + blk.length == layout_head(hd, nl, r).len(),
    ensures
        removed_bytes(layout(hd, nl, r, b), blk) == hd + nl + nl + b,
{
    let out = layout(hd, nl, r, b);
    lemma_layout_pieces(hd, nl, r, b);
    lemma_layout(hd, nl, r, b);
    let k = nl.len() as int;
    let off = blk.offset;
    let hl = layout_head(hd, nl, r).len() as int;
    if b.len() > 0 {
        reveal(layout);
        let head = layout_head(hd, nl, r);
        assert(out == head + nl + b);
        assert(out[hl] == nl[0]);
        if k == 2 {
            assert(out[hl + 1] == nl[1]);
        }
        assert(removal_cut(out, blk) == hl + k);
        assert(out.subrange(hl + k, out.len() as int) =~= b);
        assert(removed_bytes(out, blk) =~= hd + nl + nl + b);
    } else {
        assert(removal_cut(out, blk) == hl);
        assert(removed_bytes(out, blk) =~= hd + nl + nl + b);
    }
}

/// Removing the block from a file embedded from an unsigned file gives the
/// file back with its signature line followed by exactly one blank line:
/// the file itself when it was already so.
pub proof fn law_remove_undoes_embed(t: Seq<u8>, r: Seq<u8>)
    requires
        unsigned_webvtt(t),
        plain_reference(r),
    ensures
        spec_remove(embedded_bytes(t, r)) == Ok::<Seq<u8>, Error>(normalized(t)),
        normalized(t) == t ==> spec_remove(embedded_bytes(t, r)) == Ok::<Seq<u8>, Error>(t),
{
    lemma_embedded_facts(t, r);
    lemma_embedded_is_layout(t, r);
    lemma_embed_positions(t);
    lemma_note_line_len(r);
    let nl = newline_of(t);
    lemma_layout_head(header_of(t), nl, r);
    lemma_remove_layout(header_of(t), nl, r, body_of(t), embedded_block(t, r));
}

/// The bytes that the data hash covers in a laid-out file: all but the
/// `NOTE` line.
pub open spec fn layout_covered(hd: Seq<u8>, nl: Seq<u8>, b: Seq<u8>) -> Seq<u8> {
    if b.len() > 0 {
        hd + nl + nl + nl + b
    } else {
        hd + nl + nl
    }
}

/// What the data hash covers in a laid-out file does not depend on the
/// reference.
proof fn lemma_covered_layout(hd: Seq<u8>, nl: Seq<u8>, r: Seq<u8>, b: Seq<u8>, blk: ManifestBlock)
    requires
        nl == seq![10u8] || nl == seq![13u8, 10u8],
        blk.offset == hd.len() + 2 * nl.len(),
        blk.offset + blk.length == layout_head(hd, nl, r).len(),
    ensures
        covered_bytes(layout(hd, nl, r, b), blk) == layout_covered(hd, nl, b),
{
    let out = layout(hd, nl, r, b);
    lemma_layout_pieces(hd, nl, r, b);
    let hl = layout_head(hd, nl, r).len() as int;
    reveal(layout);
    let head = layout_head(hd, nl, r);
    if b.len() > 0 {
        assert(out == head + nl + b);
        assert(out.subrange(hl, out.len() as int) =~= nl + b);
        assert(covered_bytes(out, blk) =~= layout_covered(hd, nl, b));
    } else {
        assert(out == head);
        assert(out.subrange(hl, out.len() as int) =~= Seq::<u8>::empty());
        assert(covered_bytes(out, blk) =~= layout_covered(hd, nl, b));
    }
}

/// The data hash of a file embedded from an unsigned file does not depend
/// on the reference: the `NOTE` line is excluded, and nothing else changes.
pub proof fn law_data_hash_ignores_reference(t: Seq<u8>, r1: Seq<u8>, r2: Seq<u8>, alg: HashAlg)
    requires
        unsigned_webvtt(t),
        plain_reference(r1),
        plain_reference(r2),
    ensures
        spec_data_hash(embedded_bytes(t, r1), alg) == spec_data_hash(embedded_bytes(t, r2), alg),
        spec_data_hash(embedded_bytes(t, r1), alg) == Ok::<Seq<u8>, Error>(
            digest_of(alg, layout_covered(header_of(t), newline_of(t), body_of(t))),
        ),
{
    lemma_data_hash_of_embedded(t, r1, alg);
    lemma_data_hash_of_embedded(t, r2, alg);
}

/// The data hash of a file embedded from an unsigned file.
proof fn lemma_data_hash_of_embedded(t: Seq<u8>, r: Seq<u8>, alg: HashAlg)
    requires
        unsigned_webvtt(t),
        plain_reference(r),
    ensures
        spec_data_hash(embedded_bytes(t, r), alg) == Ok::<Seq<u8>, Error>(
            digest_of(alg, layout_covered(header_of(t), newline_of(t), body_of(t))),
        ),
{
    lemma_embedded_facts(t, r);
    lemma_embedded_is_layout(t, r);
    lemma_embed_positions(t);
    lemma_note_line_len(r);
    let nl = newline_of(t);
    lemma_layout_head(header_of(t), nl, r);
    lemma_covered_layout(header_of(t), nl, r, body_of(t), embedded_block(t, r));
}

/// Whether every CR is followed by an LF, and `s` does not end in a CR.
pub open spec fn closed_crs(s: Seq<u8>) -> bool {
    no_bare_cr(s) && (s.len() == 0 || s.last() != 13)
}

/// Joining two pieces whose CRs are all followed by LFs keeps them so.
proof fn lemma_closed_crs_concat(a: Seq<u8>, c: Seq<u8>)
    requires
        closed_crs(a),
        closed_crs(c),
    ensures
        closed_crs(a + c),
{
    let w = a + c;
    assert forall|i: int| 0 <= i < w.len() && #[trigger] w[i] == 13 implies i + 1 < w.len() && w[i
        + 1] == 10 by {
        if i < a.len() {
            assert(w[i] == a[i]);
            assert(i + 1 < a.len());
            assert(w[i + 1] == a[i + 1]);
        } else {
            assert(w[i] == c[i - a.len()]);
            assert(w[i + 1] == c[i - a.len() + 1]);
        }
    }
    if c.len() > 0 {
        assert(w.last() == c.last());
    } else if a.len() > 0 {
        assert(w.last() == a.last());
    }
}

/// Bytes without a CR have their CRs closed.
proof fn lemma_closed_crs_no_cr(a: Seq<u8>)
    requires
        forall|i: int| 0 <= i < a.len() ==> #[trigger] a[i] != 13,
    ensures
        closed_crs(a),
{
}

/// Every CR of an embedded file is followed by an LF when those of the
/// file and of the reference are.
proof fn lemma_embedded_no_bare_cr(t: Seq<u8>, r: Seq<u8>)
    requires
        unsigned_webvtt(t),
        closed_crs(r),
    ensures
        no_bare_cr(embedded_bytes(t, r)),
{
    let hd = header_of(t);
    let nl = newline_of(t);
    let b = body_of(t);
    lemma_unsigned_parts(t);
    lemma_embed_positions(t);
    lemma_embedded_is_layout(t, r);
    lemma_delimiter_bytes();
    assert forall|i: int| 0 <= i < hd.len() implies #[trigger] hd[i] != 13 by {
        assert(hd[i] == t[i]);
    }
    lemma_closed_crs_no_cr(hd);
    assert(closed_crs(nl));
    let kw = note_keyword_bytes() + begin_bytes() + seq![32u8];
    assert forall|i: int| 0 <= i < kw.len() implies #[trigger] kw[i] != 13 by {
        if i >= 5 && i < 34 {
            assert(kw[i] == begin_bytes()[i - 5]);
        }
    }
    lemma_closed_crs_no_cr(kw);
    let tail = seq![32u8] + end_bytes();
    assert forall|i: int| 0 <= i < tail.len() implies #[trigger] tail[i] != 13 by {
        if i >= 1 {
            assert(tail[i] == end_bytes()[i - 1]);
        }
    }
    lemma_closed_crs_no_cr(tail);
    lemma_closed_crs_concat(kw, r);
    lemma_closed_crs_concat(kw + r, tail);
    assert(note_line(r) =~= kw + r + tail);
    lemma_closed_crs_concat(hd, nl);
    lemma_closed_crs_concat(hd + nl, nl);
    lemma_closed_crs_concat(hd + nl + nl, note_line(r));
    lemma_closed_crs_concat(hd + nl + nl + note_line(r), nl);
    reveal(layout);
    reveal(layout_head);
    if b.len() > 0 {
        let bs = body_start(t);
        assert forall|i: int| 0 <= i < b.len() && #[trigger] b[i] == 13 implies i + 1 < b.len()
            && b[i + 1] == 10 by {
            assert(b[i] == t[bs + i]);
            assert(t[bs + i + 1] == 10);
            assert(b[i + 1] == t[bs + i + 1]);
        }
        if t[t.len() - 1] == 13 {
            assert(!(t.len() - 1 + 1 < t.len()));
        }
        assert(b.last() == t[t.len() - 1]);
        lemma_closed_crs_concat(layout_head(hd, nl, r), nl);
        lemma_closed_crs_concat(layout_head(hd, nl, r) + nl, b);
    }
}

/// Embedding into a file that already carries the block written by an
/// earlier embedding is refused.
pub proof fn law_embed_twice_is_refused(t: Seq<u8>, m: ManifestRef, m2: ManifestRef)
    requires
        unsigned_webvtt(t),
        plain_reference(reference_bytes(m)),
        closed_crs(reference_bytes(m)),
    ensures
        spec_embed(embedded_bytes(t, reference_bytes(m)), m2) == Err::<Seq<u8>, Error>(
            Error::AlreadyEmbedded,
        ),
{
    lemma_embedded_facts(t, reference_bytes(m));
    lemma_embedded_no_bare_cr(t, reference_bytes(m));
}

/// No opening delimiter starts before the body of `hd + nl + nl + b` when
/// `hd` holds none.
proof fn lemma_no_begin_before_body(hd: Seq<u8>, nl: Seq<u8>, b: Seq<u8>)
    requires
        nl == seq![10u8] || nl == seq![13u8, 10u8],
        forall|q: int| !#[trigger] occurs_at(hd, begin_bytes(), q),
    ensures
        forall|q: int|
            0 <= q < hd.len() + 2 * nl.len() ==> !#[trigger] occurs_at(hd + nl + nl + b, begin_bytes(), q),
{
    let p = hd + nl + nl;
    let w = p + b;
    let h = hd.len() as int;
    let off = h + 2 * nl.len();
    lemma_two_newlines(hd, nl);
    lemma_delimiter_bytes();
    let bb = begin_bytes();
    assert forall|q: int| 0 <= q < off implies !#[trigger] occurs_at(w, bb, q) by {
        if occurs_at(w, bb, q) {
            let win = w.subrange(q, q + 29);
            if q < h && q + 29 <= h {
                assert(hd.subrange(q, q + 29) =~= win) by {
                    assert forall|i: int| 0 <= i < 29 implies #[trigger] hd.subrange(q, q + 29)[i]
                        == win[i] by {
                        assert(w[q + i] == p[q + i]);
                        assert(p.subrange(0, h)[q + i] == p[q + i]);
                    }
                }
                assert(occurs_at(hd, bb, q));
            } else if q < h {
                assert(win[h - q] == w[h]);
                assert(w[h] == p[h]);
            } else {
                assert(win[0] == w[q]);
                assert(w[q] == p[q]);
            }
        }
    }
}

/// A file in normalized form, built from an unsigned file, carries no
/// manifest block.
proof fn lemma_normalized_unsigned(t: Seq<u8>)
    requires
        unsigned_webvtt(t),
    ensures
        spec_extract(normalized(t)) == Err::<ManifestBlock, Error>(Error::NotFound),
{
    let hd = header_of(t);
    let nl = newline_of(t);
    let b = body_of(t);
    let n = normalized(t);
    lemma_unsigned_parts(t);
    lemma_embed_positions(t);
    lemma_two_newlines(hd, nl);
    let h = header_end(t);
    let off = h + 2 * nl.len();
    let p = hd + nl + nl;
    assert(n == p + b);
    assert(n.subrange(0, h) =~= t.subrange(0, h)) by {
        assert forall|i: int| 0 <= i < h implies #[trigger] n.subrange(0, h)[i] == t.subrange(
            0,
            h,
        )[i] by {
            assert(n[i] == p[i]);
            assert(p.subrange(0, h)[i] == p[i]);
        }
    }
    assert(n[h] == p[h]);
    lemma_same_signature_line(t, n);
    lemma_no_begin_before_body(hd, nl, b);
    lemma_find_from_skip(n, begin_bytes(), 0, off);
    lemma_quiet_same_find(n, 0, off);
    assert(p.last() == p[off - 1]);
    lemma_quiet_shift(p, b, 0);
    lemma_quiet_scan(n, 0, None);
}

/// Removing the block from a file embedded from an unsigned file leaves no
/// manifest block.
pub proof fn law_removal_leaves_no_manifest(t: Seq<u8>, r: Seq<u8>)
    requires
        unsigned_webvtt(t),
        plain_reference(r),
    ensures
        spec_remove(embedded_bytes(t, r)) matches Ok(clean) && spec_extract(clean) == Err::<
            ManifestBlock,
            Error,
        >(Error::NotFound),
{
    law_remove_undoes_embed(t, r);
    lemma_normalized_unsigned(t);
}

/// A one-line URL reference embedded in an unsigned file is extracted back,
/// trimmed, and resolves to that URL unless it is itself an inline `data:`
/// URI.
pub proof fn law_url_round_trip(t: Seq<u8>, u: &str, source: Result<ManifestSource, Error>)
    requires
        unsigned_webvtt(t),
        forall|q: int| !#[trigger] occurs_at(u.spec_bytes(), end_bytes(), q),
        forall|i: int| 0 <= i < u.spec_bytes().len() ==> #[trigger] u.spec_bytes()[i] != 10,
        trim_chars(u@).len() > 0,
        source_agrees(source, embedded_bytes(t, u.spec_bytes())),
    ensures
        spec_embed(t, ManifestRef::Url(u)) == Ok::<Seq<u8>, Error>(embedded_bytes(t, u.spec_bytes())),
        spec_extract(embedded_bytes(t, u.spec_bytes())) matches Ok(b) && b.reference == trim_chars(
            u@,
        ),
        !is_data_uri(trim_chars(u@)) ==> (source matches Ok(ManifestSource::Url(s)) && s@
            == trim_chars(u@)),
{
    encode_utf8_decode_utf8(u@);
    encode_utf8_valid_utf8(u@);
    assert(decode_utf8(u.spec_bytes()) == u@);
    law_embed_then_extract(t, ManifestRef::Url(u));
}

/// An inline store embedded in an unsigned file is carried as the
/// `data:` URI of its standard Base64 encoding; resolving the extracted
/// reference decodes that encoding and gives the store back.
pub proof fn law_embedded_store_round_trip(
    t: Seq<u8>,
    store: Seq<u8>,
    source: Result<ManifestSource, Error>,
)
    requires
        unsigned_webvtt(t),
        source_agrees(source, embedded_bytes(t, data_uri_prefix_bytes() + spec_encode(store))),
    ensures
        plain_reference(data_uri_prefix_bytes() + spec_encode(store)),
        closed_crs(data_uri_prefix_bytes() + spec_encode(store)),
        spec_extract(embedded_bytes(t, data_uri_prefix_bytes() + spec_encode(store))) matches Ok(b)
            && is_data_uri(b.reference) && data_uri_payload(b.reference) == decode_utf8(
            spec_encode(store),
        ) && encode_utf8(b.reference) == data_uri_prefix_bytes() + spec_encode(store),
        source matches Ok(ManifestSource::Embedded(x)) && x@ == store,
{
    let pre = data_uri_prefix_bytes();
    let e = spec_encode(store);
    let r = pre + e;
    lemma_delimiter_bytes();
    lemma_encode_all_ascii(store);
    lemma_groups_round_trip(store);
    assert(all_ascii(pre));
    assert(all_ascii(r)) by {
        assert forall|i: int| 0 <= i < r.len() implies #[trigger] r[i] < 0x80 by {
            if i >= 29 {
                assert(r[i] == e[i - 29]);
            }
        }
    }
    lemma_ascii_valid(r);
    lemma_ascii_valid(pre);
    lemma_ascii_valid(e);
    lemma_decode_concat(pre, e);
    // No byte of the reference is `-`, so no closing delimiter occurs in it.
    assert forall|i: int| 0 <= i < r.len() implies #[trigger] r[i] != 45 && r[i] != 13 && r[i]
        != 10 by {
        if i >= 29 {
            assert(r[i] == e[i - 29]);
            lemma_encoding_bytes(store, i - 29);
        }
    }
    assert forall|q: int| !#[trigger] occurs_at(r, end_bytes(), q) by {
        if occurs_at(r, end_bytes(), q) {
            assert(r.subrange(q, q + 27)[0] == r[q]);
        }
    }
    lemma_closed_crs_no_cr(r);
    // The reference is its own trim: it starts with `d` and ends with an
    // alphabet character, `=` or `,`.
    let c = decode_utf8(r);
    lemma_decode_ascii(r);
    assert(c[0] as u32 == 100);
    assert(r.last() == 44 || r.last() == e.last());
    assert(c.last() as u32 == r.last() as u32);
    if e.len() > 0 {
        lemma_encoding_bytes(store, e.len() - 1);
    }
    lemma_trim_identity(c);
    assert(plain_reference(r));
    law_embed_then_extract_ref(t, r);
    decode_utf8_encode_utf8(r);
    assert(encode_utf8(c) == r);
    assert(r.subrange(0, 29) =~= pre);
    assert(r.subrange(29, r.len() as int) =~= e);
    decode_utf8_encode_utf8(e);
}

/// Embedding reference bytes `r` into an unsigned file: the extracted
/// block.
proof fn law_embed_then_extract_ref(t: Seq<u8>, r: Seq<u8>)
    requires
        unsigned_webvtt(t),
        plain_reference(r),
    ensures
        spec_extract(embedded_bytes(t, r)) == Ok::<ManifestBlock, Error>(embedded_block(t, r)),
{
    lemma_embedded_facts(t, r);
}

/// Every byte of an encoding is an alphabet character or `=`: never `-`,
/// CR, or white space.
proof fn lemma_encoding_bytes(v: Seq<u8>, i: int)
    requires
        0 <= i < spec_encode(v).len(),
    ensures
        spec_encode(v)[i] != 45,
        spec_encode(v)[i] != 13,
        !(spec_encode(v)[i] == 32 || (9 <= spec_encode(v)[i] <= 13)),
    decreases v.len(),
{
    let n: int = if v.len() < 3 { v.len() as int } else { 3 };
    let b1: u8 = if v.len() > 1 { v[1] } else { 0 };
    let b2: u8 = if v.len() > 2 { v[2] } else { 0 };
    let g = encode_group(v[0], b1, b2, n);
    let rest = v.subrange(n, v.len() as int);
    assert(spec_encode(v) =~= g + spec_encode(rest));
    if i >= 4 {
        lemma_encoding_bytes(rest, i - 4);
    } else {
        let t = triple(v[0], b1, b2);
        assert(((t >> 18u32) & 0x3f) < 64 && ((t >> 12u32) & 0x3f) < 64 && ((t >> 6u32) & 0x3f)
            < 64 && (t & 0x3f) < 64) by (bit_vector);
    }
}

/// No byte before the first occurrence of `b` is `b`; when there is none,
/// no byte from `from` on is.
proof fn lemma_find_byte_from_before(t: Seq<u8>, b: u8, from: int)
    requires
        0 <= from,
    ensures
        match find_byte_from(t, b, from) {
            Some(p) => forall|i: int| from <= i < p ==> #[trigger] t[i] != b,
            None => forall|i: int| from <= i < t.len() ==> #[trigger] t[i] != b,
        },
    decreases t.len() - from,
{
    if from < t.len() && t[from] != b {
        lemma_find_byte_from_before(t, b, from + 1);
    }
}

/// The signature line of an unsigned file holds no LF.
proof fn lemma_header_no_lf(t: Seq<u8>)
    requires
        unsigned_webvtt(t),
    ensures
        forall|i: int| 0 <= i < header_end(t) ==> #[trigger] t[i] != 10,
{
    lemma_find_byte_from_before(t, 10, 0);
    lemma_find_byte_from_bounds(t, 10, 0);
    lemma_embed_positions(t);
}

/// The file in normalized form has the pieces of the file it came from.
proof fn lemma_normalized_layout(t: Seq<u8>)
    requires
        unsigned_webvtt(t),
    ensures
        header_end(normalized(t)) == header_end(t),
        header_of(normalized(t)) == header_of(t),
        body_of(normalized(t)) == body_of(t),
        body_start(normalized(t)) == header_end(t) + 2 * newline_of(t).len(),
{
    let hd = header_of(t);
    let nl = newline_of(t);
    let b = body_of(t);
    let n = normalized(t);
    let h = header_end(t);
    let k = nl.len() as int;
    lemma_unsigned_parts(t);
    lemma_embed_positions(t);
    lemma_header_no_lf(t);
    lemma_skip_line_breaks(t, rest_start(t));
    assert(hd.len() == h);
    assert forall|i: int| 0 <= i < h implies #[trigger] n[i] == t[i] by {
        assert(n[i] == hd[i]);
    }
    assert(n[h + k - 1] == 10);
    if k == 2 {
        assert(n[h] == 13);
    }
    assert forall|i: int| 0 <= i < h + k - 1 implies #[trigger] n[i] != 10 by {
        if i < h {
            assert(n[i] == t[i]);
        }
    }
    lemma_find_byte_from_first(n, 10, 0, h + k - 1);
    lemma_find_byte_from_bounds(n, 10, 0);
    assert(find_byte_from(n, 10, 0) == Some(h + k - 1));
    if h > 0 && k == 1 {
        assert(n[h - 1] == t[h - 1]);
    }
    assert(header_end(n) == h);
    assert(header_of(n) =~= hd);
    assert(rest_start(n) == h + k);
    // The second terminator is skipped, and the body starts after it.
    let bs = h + 2 * k;
    assert forall|i: int| h + k <= i < bs implies #[trigger] n[i] == 13 || n[i] == 10 by {
        assert(n[i] == nl[i - h - k]);
    }
    lemma_skip_run(n, h + k, bs);
    if b.len() > 0 {
        assert(n[bs] == b[0]);
        assert(b[0] == t[body_start(t)]);
    }
    assert(body_start(n) == bs);
    assert(body_of(n) =~= b);
}

/// Skipping a run of line breaks ends where the run ends.
proof fn lemma_skip_run(t: Seq<u8>, i: int, e: int)
    requires
        0 <= i <= e <= t.len(),
        forall|j: int| i <= j < e ==> #[trigger] t[j] == 13 || t[j] == 10,
    ensures
        skip_line_breaks(t, i) == skip_line_breaks(t, e),
    decreases e - i,
{
    if i < e {
        lemma_skip_run(t, i + 1, e);
    }
}

/// The normalized file has the line terminator of the file it came from.
proof fn lemma_normalized_newline(t: Seq<u8>)
    requires
        unsigned_webvtt(t),
    ensures
        newline_of(normalized(t)) == newline_of(t),
{
    let hd = header_of(t);
    let nl = newline_of(t);
    let b = body_of(t);
    let n = normalized(t);
    let h = header_end(t);
    lemma_unsigned_parts(t);
    lemma_embed_positions(t);
    if contains_crlf(t) {
        assert(n[h] == 13 && n[h + 1] == 10);
        assert(contains_crlf(n));
    } else {
        let bs = body_start(t);
        assert forall|i: int| 0 <= i && i + 1 < n.len() && #[trigger] n[i] == 13 implies n[i + 1]
            != 10 by {
            if i < h {
                assert(n[i] == t[i]);
            } else if i < h + 2 {
                assert(n[i] == 10);
            } else {
                assert(n[i] == b[i - h - 2]);
                assert(b[i - h - 2] == t[bs + i - h - 2]);
                assert(n[i + 1] == b[i - h - 1]);
                assert(b[i - h - 1] == t[bs + i - h - 1]);
                if t[bs + i - h - 1] == 10 {
                    assert(t[bs + i - h - 2] == 13);
                }
            }
        }
        assert(!contains_crlf(n));
    }
}

/// The normalized form of an unsigned file is itself unsigned.
#[verifier::rlimit(40)]
proof fn lemma_normalized_is_unsigned(t: Seq<u8>)
    requires
        unsigned_webvtt(t),
    ensures
        unsigned_webvtt(normalized(t)),
{
    let hd = header_of(t);
    let nl = newline_of(t);
    let b = body_of(t);
    let n = normalized(t);
    let h = header_end(t);
    let off = h + 2 * nl.len();
    lemma_unsigned_parts(t);
    lemma_embed_positions(t);
    lemma_normalized_layout(t);
    lemma_parts_valid(t);
    // Valid UTF-8.
    assert(all_ascii(nl));
    lemma_ascii_valid(nl);
    lemma_decode_concat(hd, nl);
    lemma_decode_concat(hd + nl, nl);
    lemma_decode_concat(hd + nl + nl, b);
    // Every CR is followed by an LF.
    assert forall|i: int| 0 <= i < hd.len() implies #[trigger] hd[i] != 13 by {
        assert(hd[i] == t[i]);
    }
    lemma_closed_crs_no_cr(hd);
    assert(closed_crs(nl));
    lemma_closed_crs_concat(hd, nl);
    lemma_closed_crs_concat(hd + nl, nl);
    let bs = body_start(t);
    assert forall|i: int| 0 <= i < b.len() && #[trigger] b[i] == 13 implies i + 1 < b.len() && b[i
        + 1] == 10 by {
        assert(b[i] == t[bs + i]);
        assert(t[bs + i + 1] == 10);
        assert(b[i + 1] == t[bs + i + 1]);
    }
    if b.len() > 0 {
        if t[t.len() - 1] == 13 {
            assert(!(t.len() - 1 + 1 < t.len()));
        }
        assert(b.last() == t[t.len() - 1]);
    }
    lemma_closed_crs_concat(hd + nl + nl, b);
    // WebVTT, with no opening delimiter before the body, and quiet.
    lemma_two_newlines(hd, nl);
    let p = hd + nl + nl;
    assert(n == p + b);
    assert(n.subrange(0, h) =~= t.subrange(0, h)) by {
        assert forall|i: int| 0 <= i < h implies #[trigger] n.subrange(0, h)[i] == t.subrange(
            0,
            h,
        )[i] by {
            assert(n[i] == p[i]);
            assert(p.subrange(0, h)[i] == p[i]);
        }
    }
    assert(n[h] == p[h]);
    lemma_same_signature_line(t, n);
    lemma_no_begin_before_body(hd, nl, b);
    lemma_find_from_skip(n, begin_bytes(), 0, off);
    lemma_quiet_same_find(n, 0, off);
    assert(p.last() == p[off - 1]);
    lemma_quiet_shift(p, b, 0);
}

/// Replacing the reference of a file embedded from an unsigned file
/// (removing the block and embedding another) keeps its data hash: a hash
/// computed before still verifies after.
pub proof fn law_re_reference_keeps_data_hash(
    t: Seq<u8>,
    r1: Seq<u8>,
    r2: Seq<u8>,
    alg: HashAlg,
)
    requires
        unsigned_webvtt(t),
        plain_reference(r1),
        plain_reference(r2),
    ensures
        spec_remove(embedded_bytes(t, r1)) == Ok::<Seq<u8>, Error>(normalized(t)),
        spec_data_hash(embedded_bytes(normalized(t), r2), alg) == spec_data_hash(
            embedded_bytes(t, r1),
            alg,
        ),
        spec_data_hash(embedded_bytes(t, r1), alg) matches Ok(h) ==> spec_verify(
            embedded_bytes(normalized(t), r2),
            alg,
            h,
        ) == Ok::<bool, Error>(true),
{
    law_remove_undoes_embed(t, r1);
    lemma_normalized_is_unsigned(t);
    lemma_normalized_layout(t);
    lemma_normalized_newline(t);
    lemma_data_hash_of_embedded(t, r1, alg);
    lemma_data_hash_of_embedded(normalized(t), r2, alg);
}

/// The block that embedding writes is exactly the `NOTE` line with the
/// reference, followed by the file's line terminator: that line is what the
/// data hash excludes.
pub proof fn law_exclusion_is_the_note_line(t: Seq<u8>, m: ManifestRef)
    requires
        unsigned_webvtt(t),
        plain_reference(reference_bytes(m)),
    ensures
        spec_embed(t, m) matches Ok(s) && spec_extract(s) matches Ok(b) && s.subrange(
            b.offset,
            b.offset + b.length,
        ) == note_line(reference_bytes(m)) + newline_of(t),
{
    law_embed_then_extract(t, m);
    lemma_embed_positions(t);
    lemma_block_bytes(t, reference_bytes(m));
}

/// The bytes of the block that embedding writes.
proof fn lemma_block_bytes(t: Seq<u8>, r: Seq<u8>)
    requires
        header_of(t).len() == header_end(t),
    ensures
        ({
            let blk = embedded_block(t, r);
            embedded_bytes(t, r).subrange(blk.offset, blk.offset + blk.length) == note_line(r)
                + newline_of(t)
        }),
{
    let out = embedded_bytes(t, r);
    let nl = newline_of(t);
    let hd = header_of(t);
    let head = hd + nl + nl + note_line(r) + nl;
    let blk = embedded_block(t, r);
    assert(blk.offset == hd.len() + 2 * nl.len());
    assert(blk.offset + blk.length == head.len());
    assert(out.subrange(0, head.len() as int) =~= head);
    lemma_sub_sub(out, 0, head.len() as int, blk.offset, blk.offset + blk.length);
    assert(head.subrange(blk.offset, blk.offset + blk.length) =~= note_line(r) + nl);
}

/// Signing a file, removing the block and signing it again with another
/// reference keeps the data hash: a hash computed for the first signed file
/// verifies against the second.
pub proof fn law_re_signing_keeps_the_binding(
    t: Seq<u8>,
    m1: ManifestRef,
    m2: ManifestRef,
    alg: HashAlg,
)
    requires
        unsigned_webvtt(t),
        plain_reference(reference_bytes(m1)),
        plain_reference(reference_bytes(m2)),
    ensures
        spec_embed(t, m1) matches Ok(s1) && spec_remove(s1) matches Ok(u) && spec_embed(u, m2)
            matches Ok(s2) && spec_data_hash(s2, alg) == spec_data_hash(s1, alg) && (spec_data_hash(
            s1,
            alg,
        ) matches Ok(h) ==> spec_verify(s2, alg, h) == Ok::<bool, Error>(true)),
        spec_data_hash(embedded_bytes(t, reference_bytes(m1)), alg) is Ok,
{
    let r1 = reference_bytes(m1);
    let r2 = reference_bytes(m2);
    law_embed_then_extract(t, m1);
    law_re_reference_keeps_data_hash(t, r1, r2, alg);
    lemma_normalized_is_unsigned(t);
    law_embed_then_extract(normalized(t), m2);
    law_data_hash_ignores_reference(t, r1, r2, alg);
}

/// A file whose signature line `h` is followed by exactly one blank line
/// (in its own line terminator `nl`) and then the body `b` is its own
/// normalized form.
proof fn lemma_shape_is_normalized(x: Seq<u8>, h: Seq<u8>, nl: Seq<u8>, b: Seq<u8>)
    requires
        x == h + nl + nl + b,
        nl == seq![10u8] || nl == seq![13u8, 10u8],
        newline_of(x) == nl,
        forall|i: int| 0 <= i < h.len() ==> #[trigger] h[i] != 10 && h[i] != 13,
        b.len() > 0 ==> b[0] != 10 && b[0] != 13,
    ensures
        normalized(x) == x,
{
    let k = nl.len() as int;
    let hl = h.len() as int;
    assert forall|i: int| 0 <= i < hl + k - 1 implies #[trigger] x[i] != 10 by {
        if i < hl {
            assert(x[i] == h[i]);
        }
    }
    assert(x[hl + k - 1] == 10);
    if k == 2 {
        assert(x[hl] == 13);
    }
    lemma_find_byte_from_first(x, 10, 0, hl + k - 1);
    lemma_find_byte_from_bounds(x, 10, 0);
    assert(find_byte_from(x, 10, 0) == Some(hl + k - 1));
    if hl > 0 && k == 1 {
        assert(x[hl - 1] == h[hl - 1]);
    }
    assert(header_end(x) == hl);
    assert(rest_start(x) == hl + k);
    assert forall|j: int| hl + k <= j < hl + 2 * k implies #[trigger] x[j] == 13 || x[j] == 10 by {
        assert(x[j] == nl[j - hl - k]);
    }
    lemma_skip_run(x, hl + k, hl + 2 * k);
    if b.len() > 0 {
        assert(x[hl + 2 * k] == b[0]);
    }
    assert(body_start(x) == hl + 2 * k);
    assert(header_of(x) =~= h);
    assert(body_of(x) =~= b);
}

/// Removal is the exact inverse of embedding for a file whose signature line
/// `h` is followed by exactly one blank line in the file's own line
/// terminator `nl`, and then the body `b`.
pub proof fn law_remove_restores_the_file(
    x: Seq<u8>,
    h: Seq<u8>,
    nl: Seq<u8>,
    b: Seq<u8>,
    m: ManifestRef,
)
    requires
        unsigned_webvtt(x),
        plain_reference(reference_bytes(m)),
        x == h + nl + nl + b,
        nl == seq![10u8] || nl == seq![13u8, 10u8],
        newline_of(x) == nl,
        forall|i: int| 0 <= i < h.len() ==> #[trigger] h[i] != 10 && h[i] != 13,
        b.len() > 0 ==> b[0] != 10 && b[0] != 13,
    ensures
        spec_embed(x, m) matches Ok(s) && spec_remove(s) == Ok::<Seq<u8>, Error>(x),
{
    lemma_shape_is_normalized(x, h, nl, b);
    law_embed_then_extract(x, m);
    law_remove_undoes_embed(x, reference_bytes(m));
}

/// `a` without one leading line break (CR LF, or LF), if it starts with one.
pub open spec fn after_one_break(a: Seq<u8>) -> Seq<u8> {
    if a.len() >= 2 && a[0] == 13 && a[1] == 10 {
        a.subrange(2, a.len() as int)
    } else if a.len() >= 1 && a[0] == 10 {
        a.subrange(1, a.len() as int)
    } else {
        a
    }
}

/// Removing the manifest block of any file drops exactly the block's line,
/// which follows a line terminator, and at most one line break after it;
/// every other byte stays, in order.
pub proof fn law_removal_drops_only_the_block_line(t: Seq<u8>)
    requires
        valid_utf8(t),
    ensures
        spec_extract(t) matches Ok(b) ==> {
            &&& b.offset > 0
            &&& t[b.offset - 1] == 10
            &&& spec_remove(t) == Ok::<Seq<u8>, Error>(
                t.subrange(0, b.offset) + after_one_break(
                    t.subrange(b.offset + b.length, t.len() as int),
                ),
            )
        },
{
    if let Ok(b) = spec_extract(t) {
        lemma_scan_wf(t, 0, None);
        lemma_scan_after_signature(t, 0, None);
        let a = b.offset + b.length;
        let rest = t.subrange(a, t.len() as int);
        if a + 1 < t.len() && t[a] == 13 && t[a + 1] == 10 {
            assert(rest[0] == t[a] && rest[1] == t[a + 1]);
            assert(t.subrange(a + 2, t.len() as int) =~= rest.subrange(2, rest.len() as int));
        } else if a < t.len() && t[a] == 10 {
            assert(rest[0] == t[a]);
            if rest.len() >= 2 && rest[0] == 13 {
            }
            assert(t.subrange(a + 1, t.len() as int) =~= rest.subrange(1, rest.len() as int));
        } else {
            if rest.len() >= 2 {
                assert(rest[0] == t[a] && rest[1] == t[a + 1]);
            } else if rest.len() >= 1 {
                assert(rest[0] == t[a]);
            }
        }
    }
}

/// Extraction finds the one manifest block of a file. A block it returns
/// is read from a line that is a single-line `NOTE` comment carrying both
/// delimiters, and no other line of the file is one; so a file with two such
/// lines, whatever their references, gives an error. When it reports that
/// no block was found, no line is one.
pub proof fn law_extract_finds_the_only_block(t: Seq<u8>)
    ensures
        spec_extract(t) matches Ok(b) ==> {
            &&& exists|q: int| block_opener(t, q) && block_at(t, q) == b
            &&& forall|q: int| #[trigger] block_opener(t, q) ==> line_start(t, q) == b.offset
        },
        forall|q1: int, q2: int|
            #[trigger] block_opener(t, q1) && #[trigger] block_opener(t, q2) && line_start(t, q1)
                != line_start(t, q2) ==> spec_extract(t) is Err,
        spec_extract(t) == Err::<ManifestBlock, Error>(Error::NotFound) ==> forall|q: int|
            !#[trigger] block_opener(t, q),
{
    lemma_scan_finds_the_only_block(t, 0, None);
    assert forall|q: int| #[trigger] block_opener(t, q) implies 0 <= q by {
    }
}

/// Verification compares the whole recomputed data hash with the expected
/// value: it fails exactly when the hash cannot be computed, and otherwise
/// answers `true` exactly when the two have the same length and agree on
/// every byte.
pub proof fn law_verify_compares_every_byte(t: Seq<u8>, alg: HashAlg, expected: Seq<u8>)
    ensures
        spec_verify(t, alg, expected) is Ok <==> spec_data_hash(t, alg) is Ok,
        spec_verify(t, alg, expected) matches Ok(ok) ==> spec_data_hash(t, alg) matches Ok(h) && (ok
            <==> (h.len() == expected.len() && forall|j: int|
            0 <= j < h.len() ==> h[j] == expected[j])),
        spec_verify(t, alg, expected) matches Err(e) ==> spec_data_hash(t, alg) == Err::<
            Seq<u8>,
            Error,
        >(e),
{
    if let Ok(h) = spec_data_hash(t, alg) {
        if h.len() == expected.len() && forall|j: int| 0 <= j < h.len() ==> h[j] == expected[j] {
            assert(h =~= expected);
        }
    }
}

/// The data hash is the chosen SHA-2 digest of every byte of the file
/// outside the manifest line, however long the file: the bytes before the
/// line followed by the bytes after it.
pub proof fn law_data_hash_covers_every_other_byte(t: Seq<u8>, alg: HashAlg)
    ensures
        spec_data_hash(t, alg) matches Ok(h) ==> spec_extract(t) matches Ok(b) && {
            let covered = t.subrange(0, b.offset) + t.subrange(b.offset + b.length, t.len() as int);
            h == match alg {
                HashAlg::Sha256 => sha256(covered),
                HashAlg::Sha384 => sha384(covered),
                HashAlg::Sha512 => sha512(covered),
            }
        },
        spec_data_hash(t, alg) matches Err(e) ==> spec_extract(t) == Err::<ManifestBlock, Error>(e),
{
}

/// Embedding an inline store writes the `data:` URI of its standard Base64
/// encoding, unbroken, on the `NOTE` line: extraction reads that URI back
/// whole, and resolving it gives the store back.
pub proof fn law_inline_store_is_written_whole(
    t: Seq<u8>,
    store: &[u8],
    source: Result<ManifestSource, Error>,
)
    requires
        unsigned_webvtt(t),
        source_agrees(source, embedded_bytes(t, data_uri_prefix_bytes() + spec_encode(store@))),
    ensures
        spec_embed(t, ManifestRef::Embedded(store)) == Ok::<Seq<u8>, Error>(
            embedded_bytes(t, data_uri_prefix_bytes() + spec_encode(store@)),
        ),
        spec_embed(t, ManifestRef::Embedded(store)) matches Ok(s) && spec_extract(s) matches Ok(b)
            && encode_utf8(b.reference) == data_uri_prefix_bytes() + spec_encode(store@),
        source matches Ok(ManifestSource::Embedded(x)) && x@ == store@,
{
    law_embedded_store_round_trip(t, store@, source);
    law_embed_then_extract(t, ManifestRef::Embedded(store));
}

} // verus!
