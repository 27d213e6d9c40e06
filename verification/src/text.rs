//! Byte-level model of UTF-8 text: the spec functions that the rest of the
//! library states its contracts with, the lemmas that connect a string's
//! characters with its bytes, and small executable helpers over byte slices.

use vstd::prelude::*;
use vstd::utf8::*;
use vstd::string::*;
use vstd::slice::slice_subrange;

verus! {

broadcast use vstd::utf8::encode_utf8_valid_utf8, vstd::utf8::encode_utf8_decode_utf8;

/// Whether `c` has the Unicode `White_Space` property, which is what
/// `char::is_whitespace` (and hence `str::trim`) tests.
pub open spec fn is_white_space(c: char) -> bool {
    let u = c as u32;
    ||| 0x09 <= u <= 0x0d
    ||| u == 0x20
    ||| u == 0x85
    ||| u == 0xa0
    ||| u == 0x1680
    ||| 0x2000 <= u <= 0x200a
    ||| u == 0x2028
    ||| u == 0x2029
    ||| u == 0x202f
    ||| u == 0x205f
    ||| u == 0x3000
}

/// `s` without its leading white space.
pub open spec fn trim_start_chars(s: Seq<char>) -> Seq<char>
    decreases s.len(),
{
    if s.len() > 0 && is_white_space(s[0]) {
        trim_start_chars(s.drop_first())
    } else {
        s
    }
}

/// `s` without its trailing white space.
pub open spec fn trim_end_chars(s: Seq<char>) -> Seq<char>
    decreases s.len(),
{
    if s.len() > 0 && is_white_space(s.last()) {
        trim_end_chars(s.drop_last())
    } else {
        s
    }
}

/// `s` without leading and trailing white space.
pub open spec fn trim_chars(s: Seq<char>) -> Seq<char> {
    trim_end_chars(trim_start_chars(s))
}

/// The characters that the bytes `t[a..b]` encode.
pub open spec fn chars_of(t: Seq<u8>, a: int, b: int) -> Seq<char> {
    decode_utf8(t.subrange(a, b))
}

/// Whether `n` occurs in `t` starting at position `p`.
pub open spec fn occurs_at(t: Seq<u8>, n: Seq<u8>, p: int) -> bool {
    &&& 0 <= p
    &&& p + n.len() <= t.len()
    &&& t.subrange(p, p + n.len()) == n
}

/// The first position at or after `from` at which `n` occurs in `t`.
pub open spec fn find_from(t: Seq<u8>, n: Seq<u8>, from: int) -> Option<int>
    decreases t.len() - from,
{
    if from < 0 || from >= t.len() || from + n.len() > t.len() {
        None
    } else if occurs_at(t, n, from) {
        Some(from)
    } else {
        find_from(t, n, from + 1)
    }
}

/// The first position at or after `from` that holds the byte `b`.
pub open spec fn find_byte_from(t: Seq<u8>, b: u8, from: int) -> Option<int>
    decreases t.len() - from,
{
    if from < 0 || from >= t.len() {
        None
    } else if t[from] == b {
        Some(from)
    } else {
        find_byte_from(t, b, from + 1)
    }
}

/// The start of the line that holds position `i`: one past the last LF
/// before `i`, or 0.
pub open spec fn line_start(t: Seq<u8>, i: int) -> int
    decreases i,
{
    if i <= 0 {
        0
    } else if t[i - 1] == 10 {
        i
    } else {
        line_start(t, i - 1)
    }
}

/// One past the first LF at or after `i`, or the length of `t` when there is
/// none.
pub open spec fn line_end(t: Seq<u8>, i: int) -> int {
    match find_byte_from(t, 10, i) {
        Some(p) => p + 1,
        None => t.len() as int,
    }
}

/// Where the line that holds position `i` ends: the first LF at or after
/// `i`, or the length of `t` when there is none.
pub open spec fn line_break(t: Seq<u8>, i: int) -> int {
    match find_byte_from(t, 10, i) {
        Some(p) => p,
        None => t.len() as int,
    }
}

/// Whether every byte of `t` is ASCII.
pub open spec fn all_ascii(t: Seq<u8>) -> bool {
    forall|i: int| 0 <= i < t.len() ==> #[trigger] t[i] < 0x80
}

// ---------------------------------------------------------------------------
// Lemmas
// ---------------------------------------------------------------------------

/// Encoding a concatenation encodes each part.
pub proof fn lemma_encode_concat(a: Seq<char>, b: Seq<char>)
    ensures
        encode_utf8(a + b) == encode_utf8(a) + encode_utf8(b),
    decreases a.len(),
{
    if a.len() == 0 {
        assert(a + b =~= b);
    } else {
        assert((a + b).drop_first() =~= a.drop_first() + b);
        assert((a + b)[0] == a[0]);
        lemma_encode_concat(a.drop_first(), b);
        assert(encode_scalar(a[0] as u32) + encode_utf8(a.drop_first() + b) =~= encode_scalar(
            a[0] as u32,
        ) + encode_utf8(a.drop_first()) + encode_utf8(b));
    }
}

/// An ASCII character encodes as its own value.
pub proof fn lemma_encode_ascii_char(c: char)
    requires
        (c as u32) < 0x80,
    ensures
        encode_scalar(c as u32) == seq![(c as u32) as u8],
        has_width_1_encoding(c as u32),
{
    let s = c as u32;
    assert(s < 0x80 ==> (s & 0x7f) as u8 == s as u8) by (bit_vector);
}

/// ASCII characters encode as their values, one byte each.
pub proof fn lemma_encode_ascii(s: Seq<char>)
    requires
        forall|i: int| 0 <= i < s.len() ==> (#[trigger] s[i] as u32) < 0x80,
    ensures
        encode_utf8(s).len() == s.len(),
        forall|i: int| 0 <= i < s.len() ==> #[trigger] encode_utf8(s)[i] == (s[i] as u32) as u8,
    decreases s.len(),
{
    if s.len() > 0 {
        lemma_encode_ascii_char(s[0]);
        let rest = s.drop_first();
        assert forall|i: int| 0 <= i < rest.len() implies (#[trigger] rest[i] as u32) < 0x80 by {
            assert(rest[i] == s[i + 1]);
        }
        lemma_encode_ascii(rest);
        assert forall|i: int| 0 <= i < s.len() implies #[trigger] encode_utf8(s)[i] == (
        s[i] as u32) as u8 by {
            if i > 0 {
                assert(s[i] == rest[i - 1]);
            }
        }
    }
}

/// Decoding a concatenation of valid parts decodes each part.
pub proof fn lemma_decode_concat(a: Seq<u8>, b: Seq<u8>)
    requires
        valid_utf8(a),
        valid_utf8(b),
    ensures
        valid_utf8(a + b),
        decode_utf8(a + b) == decode_utf8(a) + decode_utf8(b),
{
    decode_utf8_encode_utf8(a);
    decode_utf8_encode_utf8(b);
    lemma_encode_concat(decode_utf8(a), decode_utf8(b));
    valid_utf8_concat(a, b);
}

/// ASCII bytes are valid UTF-8.
pub proof fn lemma_ascii_valid(t: Seq<u8>)
    requires
        all_ascii(t),
    ensures
        valid_utf8(t),
{
    assert(t.subrange(0, 0) =~= Seq::<u8>::empty());
    assert(partial_valid_utf8(t, 0));
    assert forall|i: int| 0 <= 0 <= i < t.len() <= t.len() implies #[trigger] is_leading_byte_width_1(
        t[i],
    ) by {
        assert(t[i] < 0x80);
    }
    partial_valid_utf8_extend_ascii_block(t, 0, t.len() as int);
    assert(t.subrange(0, t.len() as int) =~= t);
}

/// Positions next to an ASCII byte, and both ends, are character boundaries.
pub proof fn lemma_boundary(t: Seq<u8>, i: int)
    requires
        valid_utf8(t),
        0 <= i <= t.len(),
        i == 0 || i == t.len() || t[i] < 0x80 || t[i - 1] < 0x80,
    ensures
        is_char_boundary(t, i),
{
    is_char_boundary_start_end_of_seq(t);
    if i == 0 || i == t.len() {
    } else if t[i] < 0x80 {
        is_char_boundary_iff_not_is_continuation_byte(t, i);
    } else {
        // t[i - 1] is ASCII, so it starts a one-byte scalar and the rest is valid.
        is_char_boundary_iff_not_is_continuation_byte(t, i - 1);
        valid_utf8_split(t, i - 1);
        let s = t.subrange(i - 1, t.len() as int);
        assert(s[0] == t[i - 1]);
        assert(valid_first_scalar(s));
        assert(length_of_first_scalar(s) == 1);
        let rest = pop_first_scalar(s);
        assert(rest =~= t.subrange(i, t.len() as int));
        assert(valid_utf8(rest));
        assert(rest.len() > 0);
        assert(valid_first_scalar(rest));
        assert(rest[0] == t[i]);
        is_char_boundary_iff_not_is_continuation_byte(t, i);
    }
}

/// A character boundary of `t` below `b` is a character boundary of `t[0..b]`.
pub proof fn lemma_boundary_prefix(t: Seq<u8>, a: int, b: int)
    requires
        valid_utf8(t),
        0 <= a <= b <= t.len(),
        is_char_boundary(t, a),
        is_char_boundary(t, b),
    ensures
        valid_utf8(t.subrange(0, b)),
        is_char_boundary(t.subrange(0, b), a),
{
    valid_utf8_split(t, b);
    let p = t.subrange(0, b);
    is_char_boundary_start_end_of_seq(p);
    if a < b {
        is_char_boundary_iff_not_is_continuation_byte(t, a);
        assert(p[a] == t[a]);
        is_char_boundary_iff_not_is_continuation_byte(p, a);
    }
}

/// The bytes between two character boundaries are valid UTF-8.
pub proof fn lemma_sub_valid(t: Seq<u8>, a: int, b: int)
    requires
        valid_utf8(t),
        0 <= a <= b <= t.len(),
        is_char_boundary(t, a),
        is_char_boundary(t, b),
    ensures
        valid_utf8(t.subrange(a, b)),
{
    lemma_boundary_prefix(t, a, b);
    let p = t.subrange(0, b);
    valid_utf8_split(p, a);
    assert(p.subrange(a, p.len() as int) =~= t.subrange(a, b));
}

/// Decoding ASCII bytes gives one character per byte, of the same value.
pub proof fn lemma_decode_ascii(e: Seq<u8>)
    requires
        all_ascii(e),
    ensures
        decode_utf8(e).len() == e.len(),
        forall|i: int| 0 <= i < e.len() ==> #[trigger] decode_utf8(e)[i] as u32 == e[i] as u32,
    decreases e.len(),
{
    lemma_ascii_valid(e);
    if e.len() > 0 {
        let rest = e.subrange(1, e.len() as int);
        assert(all_ascii(rest)) by {
            assert forall|i: int| 0 <= i < rest.len() implies #[trigger] rest[i] < 0x80 by {
                assert(rest[i] == e[i + 1]);
            }
        }
        lemma_decode_ascii(rest);
        let b = e[0];
        assert(b < 0x80);
        assert(valid_first_scalar(e));
        assert(pop_first_scalar(e) =~= rest);
        assert(decode_first_scalar(e) == codepoint_width_1(b));
        assert(b < 0x80 ==> codepoint_width_1(b) == b as u32) by (bit_vector);
        let c0 = decode_first_scalar(e) as char;
        char_u32_cast(c0, c0 as u32);
        assert(c0 as u32 == b as u32);
        let d = decode_utf8(e);
        assert(d =~= seq![c0] + decode_utf8(rest));
        assert forall|i: int| 0 <= i < e.len() implies #[trigger] d[i] as u32 == e[i] as u32 by {
            if i > 0 {
                assert(d[i] == decode_utf8(rest)[i - 1]);
                assert(e[i] == rest[i - 1]);
            }
        }
    }
}

/// Trimming characters whose first and last are not white space changes
/// nothing.
pub proof fn lemma_trim_identity(c: Seq<char>)
    requires
        c.len() > 0 ==> !is_white_space(c[0]) && !is_white_space(c.last()),
    ensures
        trim_chars(c) == c,
{
}

/// Trimming is unaffected by a space on either side.
pub proof fn lemma_trim_spaces(s: Seq<char>)
    ensures
        trim_chars(seq![' '] + s + seq![' ']) == trim_chars(s),
{
    let w = seq![' '] + s + seq![' '];
    assert(is_white_space(' '));
    assert(w[0] == ' ');
    assert(w.drop_first() =~= s + seq![' ']);
    lemma_trim_start_space_end(s);
}

/// Trimming `s` followed by a space is trimming `s`.
proof fn lemma_trim_start_space_end(s: Seq<char>)
    ensures
        trim_end_chars(trim_start_chars(s + seq![' '])) == trim_end_chars(trim_start_chars(s)),
    decreases s.len(),
{
    let w = s + seq![' '];
    assert(is_white_space(' '));
    if s.len() == 0 {
        assert(w =~= seq![' ']);
        assert(w.drop_first() =~= Seq::<char>::empty());
        assert(trim_start_chars(w.drop_first()) == w.drop_first());
        assert(trim_start_chars(w) == Seq::<char>::empty());
        assert(trim_start_chars(s) == s);
        assert(s =~= Seq::<char>::empty());
    } else if is_white_space(s[0]) {
        assert(w[0] == s[0]);
        assert(w.drop_first() =~= s.drop_first() + seq![' ']);
        lemma_trim_start_space_end(s.drop_first());
        assert(trim_start_chars(w) == trim_start_chars(s.drop_first() + seq![' ']));
        assert(trim_start_chars(s) == trim_start_chars(s.drop_first()));
    } else {
        assert(w[0] == s[0]);
        assert(w.last() == ' ');
        assert(w.drop_last() =~= s);
        assert(trim_start_chars(w) == w);
        assert(trim_start_chars(s) == s);
        assert(trim_end_chars(w) == trim_end_chars(s));
    }
}

/// The characters that `[32] + r + [32]` encode.
pub proof fn lemma_decode_spaced(r: Seq<u8>)
    requires
        valid_utf8(r),
    ensures
        valid_utf8(seq![32u8] + r + seq![32u8]),
        decode_utf8(seq![32u8] + r + seq![32u8]) == seq![' '] + decode_utf8(r) + seq![' '],
{
    let sp = seq![32u8];
    assert(all_ascii(sp));
    lemma_decode_ascii(sp);
    let c = decode_utf8(sp);
    assert(c[0] as u32 == 32);
    assert((' ' as u32) == 32);
    char_u32_cast(' ', 32);
    char_u32_cast(c[0], 32);
    assert(c =~= seq![' ']);
    lemma_ascii_valid(sp);
    lemma_decode_concat(sp, r);
    lemma_decode_concat(sp + r, sp);
}

// ---------------------------------------------------------------------------
// Executable helpers
// ---------------------------------------------------------------------------

/// `str::trim`: the string with leading and trailing white space removed.
#[verifier::external_body]
pub(crate) fn str_trim(s: &str) -> (r: &str)
    ensures
        r@ == trim_chars(s@),
{
    s.trim()
}

/// `String::from_utf8`: the string that `bytes` encode, when they are valid
/// UTF-8.
#[verifier::external_body]
pub(crate) fn string_from_utf8(bytes: Vec<u8>) -> (r: Option<String>)
    ensures
        r is Some <==> valid_utf8(bytes@),
        r matches Some(s) ==> encode_utf8(s@) == bytes@,
{
    match String::from_utf8(bytes) {
        Ok(s) => Some(s),
        Err(_) => None,
    }
}

/// The string whose UTF-8 encoding is `bytes`.
pub(crate) fn string_of_bytes(bytes: Vec<u8>) -> (s: String)
    requires
        valid_utf8(bytes@),
    ensures
        encode_utf8(s@) == bytes@,
{
    match string_from_utf8(bytes) {
        Some(s) => s,
        None => String::new(),
    }
}

/// The bytes of `text`, with the fact that they are valid UTF-8.
pub(crate) fn text_bytes(text: &str) -> (b: &[u8])
    ensures
        b@ == text.spec_bytes(),
        b@ == encode_utf8(text@),
        valid_utf8(b@),
{
    text.as_bytes()
}

/// The part of `text` between the byte positions `a` and `b`.
pub(crate) fn sub_str<'a>(text: &'a str, a: usize, b: usize) -> (r: &'a str)
    requires
        a <= b <= text.spec_bytes().len(),
        is_char_boundary(text.spec_bytes(), a as int),
        is_char_boundary(text.spec_bytes(), b as int),
    ensures
        r.spec_bytes() == text.spec_bytes().subrange(a as int, b as int),
        r@ == chars_of(text.spec_bytes(), a as int, b as int),
{
    let ghost t = text.spec_bytes();
    proof {
        lemma_boundary_prefix(t, a as int, b as int);
    }
    let (head, _) = text.split_at(b);
    proof {
        assert(head.spec_bytes() =~= t.subrange(0, b as int));
    }
    let (_, r) = head.split_at(a);
    proof {
        assert(r.spec_bytes() =~= t.subrange(a as int, b as int));
        decode_utf8_encode_utf8(r.spec_bytes());
    }
    r
}

/// The first position at or after `from` that holds `b`, if any.
pub(crate) fn find_byte(t: &[u8], b: u8, from: usize) -> (r: Option<usize>)
    ensures
        match r {
            Some(p) => find_byte_from(t@, b, from as int) == Some(p as int),
            None => find_byte_from(t@, b, from as int) is None,
        },
{
    let mut i = from;
    while i < t.len()
        invariant
            from <= i,
            find_byte_from(t@, b, from as int) == find_byte_from(t@, b, i as int),
        decreases t.len() - i,
    {
        if t[i] == b {
            return Some(i);
        }
        i = i + 1;
    }
    None
}

/// The start of the line that holds position `i`.
pub(crate) fn find_line_start(t: &[u8], i: usize) -> (r: usize)
    requires
        i <= t@.len(),
    ensures
        r as int == line_start(t@, i as int),
{
    let mut j = i;
    while j > 0
        invariant
            j <= i <= t@.len(),
            line_start(t@, i as int) == line_start(t@, j as int),
        decreases j,
    {
        if t[j - 1] == 10 {
            return j;
        }
        j = j - 1;
    }
    0
}

/// The first LF at or after `i`, or the length of `t`.
pub(crate) fn find_line_break(t: &[u8], i: usize) -> (r: usize)
    ensures
        r as int == line_break(t@, i as int),
{
    match find_byte(t, 10, i) {
        Some(p) => p,
        None => t.len(),
    }
}

/// One past the first LF at or after `i`, or the length of `t`.
pub(crate) fn find_line_end(t: &[u8], i: usize) -> (r: usize)
    ensures
        r as int == line_end(t@, i as int),
{
    match find_byte(t, 10, i) {
        Some(p) => {
            proof {
                lemma_find_byte_from_bounds(t@, 10, i as int);
                assert(p < t.len());
            }
            p + 1
        },
        None => t.len(),
    }
}

/// Whether `t[from..]` starts with `prefix`.
pub(crate) fn starts_with_at(t: &[u8], from: usize, prefix: &[u8]) -> (r: bool)
    requires
        from <= t@.len(),
    ensures
        r == (from + prefix@.len() <= t@.len() && t@.subrange(
            from as int,
            from + prefix@.len(),
        ) == prefix@),
{
    if t.len() - from < prefix.len() {
        return false;
    }
    let mut k: usize = 0;
    while k < prefix.len()
        invariant
            from + prefix.len() <= t.len(),
            k <= prefix@.len(),
            forall|j: int| 0 <= j < k ==> t@[from + j] == prefix@[j],
        decreases prefix@.len() - k,
    {
        if t[from + k] != prefix[k] {
            assert(t@.subrange(from as int, from + prefix@.len())[k as int] != prefix@[k as int]);
            return false;
        }
        k = k + 1;
    }
    assert(t@.subrange(from as int, from + prefix@.len()) =~= prefix@);
    true
}

/// Properties of the result of `find_byte_from`.
pub proof fn lemma_find_byte_from_bounds(t: Seq<u8>, b: u8, from: int)
    ensures
        find_byte_from(t, b, from) matches Some(p) ==> from <= p < t.len() && t[p] == b,
    decreases t.len() - from,
{
    if from < 0 || from >= t.len() {
    } else if t[from] == b {
    } else {
        lemma_find_byte_from_bounds(t, b, from + 1);
    }
}

/// Properties of `line_start`.
pub proof fn lemma_line_start_bounds(t: Seq<u8>, i: int)
    requires
        0 <= i <= t.len(),
    ensures
        0 <= line_start(t, i) <= i,
        line_start(t, i) == 0 || t[line_start(t, i) - 1] == 10,
    decreases i,
{
    if i <= 0 {
    } else if t[i - 1] == 10 {
    } else {
        lemma_line_start_bounds(t, i - 1);
    }
}

/// Properties of the result of `find_from`.
pub proof fn lemma_find_from_bounds(t: Seq<u8>, n: Seq<u8>, from: int)
    requires
        n.len() > 0,
        0 <= from,
    ensures
        find_from(t, n, from) matches Some(p) ==> from <= p && occurs_at(t, n, p),
        find_from(t, n, from) is None ==> forall|q: int|
            from <= q && 0 <= q ==> !#[trigger] occurs_at(t, n, q),
    decreases t.len() - from,
{
    if from < 0 || from >= t.len() || from + n.len() > t.len() {
    } else if occurs_at(t, n, from) {
    } else {
        lemma_find_from_bounds(t, n, from + 1);
    }
}

/// Searching a suffix of `t` finds what searching `t` from the suffix's start
/// finds, shifted.
pub proof fn lemma_find_from_suffix(t: Seq<u8>, n: Seq<u8>, s: int, i: int)
    requires
        0 <= s <= t.len(),
        0 <= i,
    ensures
        find_from(t.subrange(s, t.len() as int), n, i) == (match find_from(t, n, s + i) {
            Some(p) => Some(p - s),
            None => None::<int>,
        }),
    decreases t.len() - s - i,
{
    let u = t.subrange(s, t.len() as int);
    if i >= u.len() || i + n.len() > u.len() {
    } else {
        assert(u.subrange(i, i + n.len()) =~= t.subrange(s + i, s + i + n.len()));
        if occurs_at(u, n, i) {
        } else {
            lemma_find_from_suffix(t, n, s, i + 1);
        }
    }
}

/// Searching from `s` finds what searching from `s2` finds when nothing
/// occurs in between.
pub proof fn lemma_find_from_skip(t: Seq<u8>, n: Seq<u8>, s: int, s2: int)
    requires
        n.len() > 0,
        0 <= s <= s2,
        forall|q: int| s <= q < s2 ==> !#[trigger] occurs_at(t, n, q),
    ensures
        find_from(t, n, s) == find_from(t, n, s2),
    decreases s2 - s,
{
    if s < s2 {
        lemma_find_from_skip(t, n, s + 1, s2);
        assert(!occurs_at(t, n, s));
        if s >= t.len() || s + n.len() > t.len() {
            lemma_find_from_none_past(t, n, s2);
        }
    }
}

/// Nothing is found past the point where `n` no longer fits.
pub proof fn lemma_find_from_none_past(t: Seq<u8>, n: Seq<u8>, s: int)
    requires
        n.len() > 0,
        s >= 0,
        s + n.len() > t.len(),
    ensures
        find_from(t, n, s) is None,
{
}

/// Searching from an occurrence finds it.
pub proof fn lemma_find_from_here(t: Seq<u8>, n: Seq<u8>, p: int)
    requires
        n.len() > 0,
        occurs_at(t, n, p),
    ensures
        find_from(t, n, p) == Some(p),
{
}

/// The line start of a position whose line began at `a`.
pub proof fn lemma_line_start_no_nl(t: Seq<u8>, a: int, b: int)
    requires
        0 <= a <= b <= t.len(),
        a == 0 || t[a - 1] == 10,
        forall|j: int| a <= j < b ==> #[trigger] t[j] != 10,
    ensures
        line_start(t, b) == a,
    decreases b - a,
{
    if a < b {
        lemma_line_start_no_nl(t, a, b - 1);
        assert(t[b - 1] != 10);
    }
}

/// Line starts in `u` shift by the length of a prefix that ends a line.
pub proof fn lemma_line_start_shift(p: Seq<u8>, u: Seq<u8>, i: int)
    requires
        p.len() == 0 || p.last() == 10,
        0 <= i <= u.len(),
    ensures
        line_start(p + u, p.len() + i) == p.len() + line_start(u, i),
    decreases i,
{
    let w = p + u;
    if i == 0 {
        if p.len() > 0 {
            assert(w[p.len() - 1] == p.last());
        }
    } else {
        assert(w[p.len() + i - 1] == u[i - 1]);
        lemma_line_start_shift(p, u, i - 1);
    }
}

/// A byte search in `u` shifts by the length of a prefix.
pub proof fn lemma_find_byte_from_shift(p: Seq<u8>, u: Seq<u8>, b: u8, i: int)
    requires
        0 <= i <= u.len(),
    ensures
        find_byte_from(p + u, b, p.len() + i) == (match find_byte_from(u, b, i) {
            Some(x) => Some(p.len() + x),
            None => None::<int>,
        }),
        line_break(p + u, p.len() + i) == p.len() + line_break(u, i),
    decreases u.len() - i,
{
    if i < u.len() {
        assert((p + u)[p.len() + i] == u[i]);
        lemma_find_byte_from_shift(p, u, b, i + 1);
        lemma_find_byte_from_shift(p, u, 10, i + 1);
        assert((p + u)[p.len() + i] == u[i]);
    }
}

/// Properties of `line_break`.
pub proof fn lemma_line_break_bounds(t: Seq<u8>, i: int)
    requires
        0 <= i <= t.len(),
    ensures
        i <= line_break(t, i) <= t.len(),
        line_break(t, i) < t.len() ==> t[line_break(t, i)] == 10,
        forall|j: int| i <= j < line_break(t, i) ==> #[trigger] t[j] != 10,
        line_end(t, i) == if line_break(t, i) < t.len() {
            line_break(t, i) + 1
        } else {
            t.len() as int
        },
    decreases t.len() - i,
{
    lemma_find_byte_from_bounds(t, 10, i);
    if i < t.len() && t[i] != 10 {
        lemma_line_break_bounds(t, i + 1);
    }
}

/// No LF lies between the start of a line and a position on it.
pub proof fn lemma_line_start_no_lf(t: Seq<u8>, i: int)
    requires
        0 <= i <= t.len(),
    ensures
        forall|j: int| line_start(t, i) <= j < i ==> #[trigger] t[j] != 10,
    decreases i,
{
    if i > 0 && t[i - 1] != 10 {
        lemma_line_start_no_lf(t, i - 1);
    }
}

/// The line that holds `i` ends at the LF at `p` when no LF comes before
/// it.
pub proof fn lemma_line_break_at(t: Seq<u8>, i: int, p: int)
    requires
        0 <= i <= p < t.len(),
        t[p] == 10,
        forall|j: int| i <= j < p ==> #[trigger] t[j] != 10,
    ensures
        line_break(t, i) == p,
        line_end(t, i) == p + 1,
    decreases p - i,
{
    if i < p {
        lemma_line_break_at(t, i + 1, p);
    }
}

/// Nothing occurs between the start of a search and what it finds.
pub proof fn lemma_find_from_first(t: Seq<u8>, n: Seq<u8>, from: int)
    requires
        0 <= from,
    ensures
        find_from(t, n, from) matches Some(p) ==> forall|q: int|
            from <= q < p ==> !#[trigger] occurs_at(t, n, q),
    decreases t.len() - from,
{
    if from < 0 || from >= t.len() || from + n.len() > t.len() {
    } else if occurs_at(t, n, from) {
    } else {
        lemma_find_from_first(t, n, from + 1);
    }
}

} // verus!
