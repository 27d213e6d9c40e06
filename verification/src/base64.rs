//! Standard Base64 (RFC 4648, with `=` padding) encode/decode.
//!
//! [`spec_encode`] is the standard encoding. [`encode`] computes it, and
//! [`decode`] reverses it: [`lemma_decode_encode`] proves that decoding an
//! encoding gives back the bytes.

use vstd::prelude::*;
use vstd::utf8::*;
use crate::text::{
    all_ascii, lemma_ascii_valid, lemma_decode_ascii, lemma_trim_identity,
    str_trim, string_of_bytes, text_bytes, trim_chars,
};

verus! {

broadcast use vstd::utf8::encode_utf8_valid_utf8, vstd::utf8::encode_utf8_decode_utf8;

/// The alphabet character (as an ASCII byte) for the 6-bit value `v`.
pub open spec fn alphabet(v: u8) -> u8 {
    if v < 26 {
        (65 + v) as u8
    } else if v < 52 {
        (97 + (v - 26)) as u8
    } else if v < 62 {
        (48 + (v - 52)) as u8
    } else if v == 62 {
        43
    } else {
        47
    }
}

/// The 24-bit group formed by three bytes.
pub open spec fn triple(b0: u8, b1: u8, b2: u8) -> u32 {
    ((b0 as u32) << 16u32) | ((b1 as u32) << 8u32) | (b2 as u32)
}

/// The four characters that encode the group `b0 b1 b2`, of which the first
/// `n` (1, 2 or 3) bytes are real; missing bytes are written as `=`.
pub open spec fn encode_group(b0: u8, b1: u8, b2: u8, n: int) -> Seq<u8> {
    let t = triple(b0, b1, b2);
    seq![
        alphabet(((t >> 18u32) & 0x3f) as u8),
        alphabet(((t >> 12u32) & 0x3f) as u8),
        if n > 1 { alphabet(((t >> 6u32) & 0x3f) as u8) } else { 61u8 },
        if n > 2 { alphabet((t & 0x3f) as u8) } else { 61u8 },
    ]
}

/// The standard Base64 encoding of `v`, as ASCII bytes.
pub open spec fn spec_encode(v: Seq<u8>) -> Seq<u8>
    decreases v.len(),
{
    if v.len() == 0 {
        seq![]
    } else {
        let n: int = if v.len() < 3 { v.len() as int } else { 3 };
        let b1: u8 = if v.len() > 1 { v[1] } else { 0 };
        let b2: u8 = if v.len() > 2 { v[2] } else { 0 };
        encode_group(v[0], b1, b2, n) + spec_encode(v.subrange(n, v.len() as int))
    }
}

/// The 6-bit value of an alphabet character.
pub open spec fn value_of(c: u8) -> Option<u32> {
    if 65 <= c <= 90 {
        Some((c - 65) as u32)
    } else if 97 <= c <= 122 {
        Some((c - 97 + 26) as u32)
    } else if 48 <= c <= 57 {
        Some((c - 48 + 52) as u32)
    } else if c == 43 {
        Some(62)
    } else if c == 47 {
        Some(63)
    } else {
        None
    }
}

/// Whether the character at position `i` of a group is padding: `=` in
/// one of the last two positions of the last group.
pub open spec fn is_pad(c: u8, i: int, last: bool) -> bool {
    c == 61 && i >= 2 && last
}

/// The value contributed by the character at position `i` of a group, or
/// `None` when it is not accepted there.
pub open spec fn digit(c: u8, i: int, last: bool) -> Option<u32> {
    if is_pad(c, i, last) {
        Some(0)
    } else {
        value_of(c)
    }
}

/// The bytes decoded from one group of four characters (the last group of
/// the input when `last`), or `None` when it holds a character that is not
/// accepted where it stands, or a data character after padding.
pub open spec fn decode_group(q: Seq<u8>, last: bool) -> Option<Seq<u8>> {
    match (digit(q[0], 0, last), digit(q[1], 1, last), digit(q[2], 2, last), digit(q[3], 3, last)) {
        (Some(a), Some(b), Some(c), Some(d)) => if is_pad(q[2], 2, last) && !is_pad(q[3], 3, last) {
            None
        } else {
            let acc = (((((a << 6u32) | b) << 6u32) | c) << 6u32) | d;
            let pad: int = (if is_pad(q[2], 2, last) { 1int } else { 0int }) + (if is_pad(q[3], 3, last) {
                1int
            } else {
                0int
            });
            Some(
                seq![(acc >> 16u32) as u8] + (if pad < 2 {
                    seq![(acc >> 8u32) as u8]
                } else {
                    Seq::<u8>::empty()
                }) + (if pad < 1 {
                    seq![acc as u8]
                } else {
                    Seq::<u8>::empty()
                }),
            )
        },
        _ => None,
    }
}

/// Standard Base64 decoding of the characters `s` (as ASCII bytes): a whole
/// number of groups of four, with `=` padding only at the end of the last
/// group; `None` when `s` is not such an encoding.
pub open spec fn standard_decode(s: Seq<u8>) -> Option<Seq<u8>> {
    if s.len() % 4 != 0 {
        None
    } else {
        decode_groups(s)
    }
}

/// The bytes decoded from consecutive groups of four characters, or `None`
/// when a group holds a character that is not accepted.
pub open spec fn decode_groups(s: Seq<u8>) -> Option<Seq<u8>>
    decreases s.len(),
{
    if s.len() < 4 {
        Some(seq![])
    } else {
        match decode_group(s.subrange(0, 4), s.len() == 4) {
            None => None,
            Some(o) => match decode_groups(s.subrange(4, s.len() as int)) {
                None => None,
                Some(r) => Some(o + r),
            },
        }
    }
}

/// `p` prepended to the bytes of `o`, if any.
pub open spec fn prepend(p: Seq<u8>, o: Option<Seq<u8>>) -> Option<Seq<u8>> {
    match o {
        Some(r) => Some(p + r),
        None => None,
    }
}

/// What [`decode`] gives for `input`: the input is trimmed, then must be a
/// whole number of groups of four characters.
pub open spec fn spec_decode(input: Seq<char>) -> Result<Seq<u8>, Seq<char>> {
    let s = encode_utf8(trim_chars(input));
    if s.len() % 4 != 0 {
        Err("length is not a multiple of 4"@)
    } else {
        match decode_groups(s) {
            Some(v) => Ok(v),
            None => Err("invalid base64 character"@),
        }
    }
}

/// Every byte of an encoding is ASCII.
pub proof fn lemma_encode_all_ascii(v: Seq<u8>)
    ensures
        all_ascii(spec_encode(v)),
    decreases v.len(),
{
    if v.len() > 0 {
        let n: int = if v.len() < 3 { v.len() as int } else { 3 };
        lemma_encode_all_ascii(v.subrange(n, v.len() as int));
        let b1: u8 = if v.len() > 1 { v[1] } else { 0 };
        let b2: u8 = if v.len() > 2 { v[2] } else { 0 };
        let g = encode_group(v[0], b1, b2, n);
        assert(all_ascii(g));
        let e = spec_encode(v);
        assert(e =~= g + spec_encode(v.subrange(n, v.len() as int)));
        assert forall|i: int| 0 <= i < e.len() implies #[trigger] e[i] < 0x80 by {
            if i >= 4 {
                assert(e[i] == spec_encode(v.subrange(n, v.len() as int))[i - 4]);
            }
        }
    }
}

/// Decoding an alphabet character gives its 6-bit value back.
proof fn lemma_alphabet_value(x: u8)
    requires
        x < 64,
    ensures
        value_of(alphabet(x)) == Some(x as u32),
        alphabet(x) != 61,
        alphabet(x) < 0x80,
        alphabet(x) != 32 && !(9 <= alphabet(x) <= 13),
{
}

/// The 6-bit digits of a 24-bit group put back together give the group, and
/// its bytes; digits that only cover zero bytes are zero.
proof fn lemma_group_bits(b0: u8, b1: u8, b2: u8)
    ensures
        ({
            let t = triple(b0, b1, b2);
            let d0 = (t >> 18u32) & 0x3f;
            let d1 = (t >> 12u32) & 0x3f;
            let d2 = (t >> 6u32) & 0x3f;
            let d3 = t & 0x3f;
            &&& (((((d0 << 6u32) | d1) << 6u32) | d2) << 6u32) | d3 == t
            &&& (t >> 16u32) as u8 == b0
            &&& (t >> 8u32) as u8 == b1
            &&& t as u8 == b2
            &&& (b2 == 0 ==> d3 == 0)
            &&& (b1 == 0 && b2 == 0 ==> d2 == 0)
            &&& d0 < 64 && d1 < 64 && d2 < 64 && d3 < 64
        }),
{
    let t = triple(b0, b1, b2);
    assert(t == ((b0 as u32) << 16u32) | ((b1 as u32) << 8u32) | (b2 as u32));
    assert({
        let d0 = (t >> 18u32) & 0x3f;
        let d1 = (t >> 12u32) & 0x3f;
        let d2 = (t >> 6u32) & 0x3f;
        let d3 = t & 0x3f;
        &&& (((((d0 << 6u32) | d1) << 6u32) | d2) << 6u32) | d3 == t
        &&& (t >> 16u32) as u8 == b0
        &&& (t >> 8u32) as u8 == b1
        &&& t as u8 == b2
        &&& (b2 == 0 ==> d3 == 0)
        &&& (b1 == 0 && b2 == 0 ==> d2 == 0)
        &&& d0 < 64 && d1 < 64 && d2 < 64 && d3 < 64
    }) by (bit_vector)
        requires
            t == ((b0 as u32) << 16u32) | ((b1 as u32) << 8u32) | (b2 as u32),
    ;
}

/// Decoding the encoding of one group gives its real bytes back.
proof fn lemma_group_round_trip(b0: u8, b1: u8, b2: u8, n: int, last: bool)
    requires
        1 <= n <= 3,
        n < 2 ==> b1 == 0,
        n < 3 ==> b2 == 0,
        n < 3 ==> last,
    ensures
        decode_group(encode_group(b0, b1, b2, n), last) == Some(
            if n == 1 {
                seq![b0]
            } else if n == 2 {
                seq![b0, b1]
            } else {
                seq![b0, b1, b2]
            },
        ),
{
    let t = triple(b0, b1, b2);
    lemma_group_bits(b0, b1, b2);
    let d0 = ((t >> 18u32) & 0x3f);
    let d1 = ((t >> 12u32) & 0x3f);
    let d2 = ((t >> 6u32) & 0x3f);
    let d3 = (t & 0x3f);
    lemma_alphabet_value(d0 as u8);
    lemma_alphabet_value(d1 as u8);
    lemma_alphabet_value(d2 as u8);
    lemma_alphabet_value(d3 as u8);
    let q = encode_group(b0, b1, b2, n);
    assert(digit(q[0], 0, last) == Some(d0));
    assert(digit(q[1], 1, last) == Some(d1));
    assert(digit(q[2], 2, last) == Some(d2));
    assert(digit(q[3], 3, last) == Some(d3));
    let o = decode_group(q, last).unwrap();
    if n == 1 {
        assert(o =~= seq![b0]);
    } else if n == 2 {
        assert(o =~= seq![b0, b1]);
    } else {
        assert(o =~= seq![b0, b1, b2]);
    }
}

/// Decoding an encoding group by group gives the bytes back.
pub proof fn lemma_groups_round_trip(v: Seq<u8>)
    ensures
        decode_groups(spec_encode(v)) == Some(v),
        standard_decode(spec_encode(v)) == Some(v),
        spec_encode(v).len() % 4 == 0,
        spec_encode(v).len() == 0 <==> v.len() == 0,
        v.len() > 0 ==> spec_encode(v)[0] != 61 && !is_white_space_byte(spec_encode(v)[0]),
        v.len() > 0 ==> !is_white_space_byte(spec_encode(v).last()),
    decreases v.len(),
{
    if v.len() > 0 {
        let n: int = if v.len() < 3 { v.len() as int } else { 3 };
        let b1: u8 = if v.len() > 1 { v[1] } else { 0 };
        let b2: u8 = if v.len() > 2 { v[2] } else { 0 };
        let rest = v.subrange(n, v.len() as int);
        let g = encode_group(v[0], b1, b2, n);
        let e = spec_encode(v);
        lemma_groups_round_trip(rest);
        lemma_group_round_trip(v[0], b1, b2, n, rest.len() == 0);
        lemma_group_bits(v[0], b1, b2);
        lemma_alphabet_value(((triple(v[0], b1, b2) >> 18u32) & 0x3f) as u8);
        lemma_alphabet_value(((triple(v[0], b1, b2) >> 6u32) & 0x3f) as u8);
        lemma_alphabet_value((triple(v[0], b1, b2) & 0x3f) as u8);
        assert(e =~= g + spec_encode(rest));
        assert(e.subrange(0, 4) =~= g);
        assert(e.subrange(4, e.len() as int) =~= spec_encode(rest));
        let first: Seq<u8> = if n == 1 {
            seq![v[0]]
        } else if n == 2 {
            seq![v[0], b1]
        } else {
            seq![v[0], b1, b2]
        };
        assert(first + rest =~= v);
        if rest.len() > 0 {
            assert(e.last() == spec_encode(rest).last());
        } else {
            assert(e.last() == g[3]);
        }
    }
}

/// Whether an ASCII byte is white space.
pub open spec fn is_white_space_byte(b: u8) -> bool {
    b == 32 || (9 <= b <= 13)
}

/// Decoding the standard encoding of any bytes gives the bytes back.
pub proof fn lemma_decode_encode(v: Seq<u8>)
    ensures
        spec_decode(decode_utf8(spec_encode(v))) == Ok::<Seq<u8>, Seq<char>>(v),
{
    let e = spec_encode(v);
    lemma_encode_all_ascii(v);
    lemma_ascii_valid(e);
    lemma_groups_round_trip(v);
    let c = decode_utf8(e);
    decode_utf8_encode_utf8(e);
    lemma_decode_ascii(e);
    if e.len() > 0 {
        assert(c[0] as u32 == e[0] as u32);
        assert(c.last() as u32 == e.last() as u32);
    }
    lemma_trim_identity(c);
}

fn alphabet_char(v: u8) -> (c: u8)
    requires
        v < 64,
    ensures
        c == alphabet(v),
        c < 0x80,
{
    if v < 26 {
        65 + v
    } else if v < 52 {
        97 + (v - 26)
    } else if v < 62 {
        48 + (v - 52)
    } else if v == 62 {
        43
    } else {
        47
    }
}

/// Encode `input` as standard Base64.
pub fn encode(input: &[u8]) -> (res: String)
    ensures
        encode_utf8(res@) == spec_encode(input@),
{
    let len = input.len();
    let mut out: Vec<u8> = Vec::new();
    let mut i: usize = 0;
    proof {
        assert(input@.subrange(0, len as int) =~= input@);
    }
    while i < len
        invariant
            len == input@.len(),
            i <= len,
            spec_encode(input@) == out@ + spec_encode(input@.subrange(i as int, len as int)),
            all_ascii(out@),
        decreases len - i,
    {
        let ghost rest = input@.subrange(i as int, len as int);
        let b0 = input[i];
        let b1 = if len - i > 1 { input[i + 1] } else { 0 };
        let b2 = if len - i > 2 { input[i + 2] } else { 0 };
        let t: u32 = ((b0 as u32) << 16u32) | ((b1 as u32) << 8u32) | (b2 as u32);
        assert(((t >> 18u32) & 0x3f) < 64 && ((t >> 12u32) & 0x3f) < 64 && ((t >> 6u32) & 0x3f)
            < 64 && (t & 0x3f) < 64) by (bit_vector);
        let c0 = alphabet_char(((t >> 18u32) & 0x3f) as u8);
        let c1 = alphabet_char(((t >> 12u32) & 0x3f) as u8);
        let c2 = if len - i > 1 {
            alphabet_char(((t >> 6u32) & 0x3f) as u8)
        } else {
            61u8
        };
        let c3 = if len - i > 2 {
            alphabet_char((t & 0x3f) as u8)
        } else {
            61u8
        };
        let ghost old_out = out@;
        out.push(c0);
        out.push(c1);
        out.push(c2);
        out.push(c3);
        let step: usize = if len - i < 3 {
            len - i
        } else {
            3
        };
        proof {
            let n: int = step as int;
            assert(rest[0] == b0);
            assert(rest.len() > 1 ==> rest[1] == b1);
            assert(rest.len() > 2 ==> rest[2] == b2);
            assert(t == triple(rest[0], if rest.len() > 1 { rest[1] } else { 0 }, if rest.len()
                > 2 {
                rest[2]
            } else {
                0
            }));
            assert(rest.subrange(n, rest.len() as int) =~= input@.subrange(
                i + step,
                len as int,
            ));
            assert(out@ =~= old_out + encode_group(
                rest[0],
                if rest.len() > 1 { rest[1] } else { 0 },
                if rest.len() > 2 { rest[2] } else { 0 },
                n,
            ));
            assert(all_ascii(out@)) by {
                assert forall|j: int| 0 <= j < out@.len() implies #[trigger] out@[j] < 0x80 by {
                    if j < old_out.len() {
                        assert(out@[j] == old_out[j]);
                    }
                }
            }
        }
        i = i + step;
    }
    proof {
        assert(input@.subrange(len as int, len as int) =~= Seq::<u8>::empty());
        assert(out@ =~= spec_encode(input@));
        lemma_ascii_valid(out@);
    }
    string_of_bytes(out)
}

fn digit_of(c: u8, i: usize, last: bool) -> (r: Option<u32>)
    ensures
        r == digit(c, i as int, last),
        r matches Some(x) ==> x < 64,
{
    if c == 61 && i >= 2 && last {
        Some(0)
    } else if 65 <= c && c <= 90 {
        Some((c - 65) as u32)
    } else if 97 <= c && c <= 122 {
        Some((c - 97 + 26) as u32)
    } else if 48 <= c && c <= 57 {
        Some((c - 48 + 52) as u32)
    } else if c == 43 {
        Some(62)
    } else if c == 47 {
        Some(63)
    } else {
        None
    }
}

/// Decode standard Base64 after trimming surrounding white space.
pub fn decode(input: &str) -> (res: Result<Vec<u8>, &'static str>)
    ensures
        match res {
            Ok(v) => spec_decode(input@) == Ok::<Seq<u8>, Seq<char>>(v@),
            Err(m) => spec_decode(input@) == Err::<Seq<u8>, Seq<char>>(m@),
        },
{
    let s = str_trim(input);
    let bytes = text_bytes(s);
    let len = bytes.len();
    if len % 4 != 0 {
        return Err("length is not a multiple of 4");
    }
    let mut out: Vec<u8> = Vec::new();
    let mut i: usize = 0;
    proof {
        assert(bytes@.subrange(0, len as int) =~= bytes@);
    }
    while i < len
        invariant
            len == bytes@.len(),
            bytes@ == encode_utf8(trim_chars(input@)),
            i <= len,
            i % 4 == 0,
            len % 4 == 0,
            decode_groups(bytes@) == prepend(
                out@,
                decode_groups(bytes@.subrange(i as int, len as int)),
            ),
        decreases len - i,
    {
        let ghost rest = bytes@.subrange(i as int, len as int);
        let ghost q = rest.subrange(0, 4);
        proof {
            assert(q[0] == bytes@[i as int]);
            assert(q[1] == bytes@[i + 1]);
            assert(q[2] == bytes@[i + 2]);
            assert(q[3] == bytes@[i + 3]);
            assert(rest.subrange(4, rest.len() as int) =~= bytes@.subrange(i + 4, len as int));
        }
        let last = len - i == 4;
        let d0 = digit_of(bytes[i], 0, last);
        let d1 = digit_of(bytes[i + 1], 1, last);
        let d2 = digit_of(bytes[i + 2], 2, last);
        let d3 = digit_of(bytes[i + 3], 3, last);
        match (d0, d1, d2, d3) {
            (Some(a), Some(b), Some(c), Some(d)) => {
                if last && bytes[i + 2] == 61 && bytes[i + 3] != 61 {
                    proof {
                        assert(decode_group(q, last) is None);
                        assert(decode_groups(rest) is None);
                        assert(decode_groups(bytes@) is None);
                    }
                    return Err("invalid base64 character");
                }
                let acc: u32 = (((((a << 6u32) | b) << 6u32) | c) << 6u32) | d;
                let pad: usize = (if bytes[i + 2] == 61 {
                    1
                } else {
                    0
                }) + (if bytes[i + 3] == 61 {
                    1
                } else {
                    0
                });
                let ghost old_out = out@;
                out.push(#[verifier::truncate] ((acc >> 16u32) as u8));
                if pad < 2 {
                    out.push(#[verifier::truncate] ((acc >> 8u32) as u8));
                }
                if pad < 1 {
                    out.push(#[verifier::truncate] (acc as u8));
                }
                proof {
                    let o = decode_group(q, last).unwrap();
                    assert(out@ =~= old_out + o);
                    assert(old_out + o + (match decode_groups(
                        bytes@.subrange(i + 4, len as int),
                    ) {
                        Some(r) => r,
                        None => Seq::<u8>::empty(),
                    }) =~= old_out + (o + (match decode_groups(
                        bytes@.subrange(i + 4, len as int),
                    ) {
                        Some(r) => r,
                        None => Seq::<u8>::empty(),
                    })));
                }
            },
            _ => {
                proof {
                    assert(decode_group(q, last) is None);
                    assert(decode_groups(rest) is None);
                    assert(decode_groups(bytes@) is None);
                }
                return Err("invalid base64 character");
            },
        }
        i = i + 4;
    }
    proof {
        assert(bytes@.subrange(len as int, len as int) =~= Seq::<u8>::empty());
        assert(out@ + Seq::<u8>::empty() =~= out@);
    }
    Ok(out)
}

} // verus!
