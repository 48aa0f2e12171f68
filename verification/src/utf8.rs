//! The manual UTF-8 decoder: sequence lengths, single-character decoding at a
//! known boundary, and character encoding.
//!
//! Everything here is stated against the UTF-8 model in [`vstd::utf8`]:
//! [`valid_utf8`] for well-formedness, [`encode_scalar`] for the bytes of one
//! scalar, and [`decode_first_scalar`] / [`length_of_first_scalar`] for what a
//! well-formed sequence begins with.

use crate::error::Utf8Error;
use vstd::prelude::*;
use vstd::string::StringSliceAdditionalSpecFns;
use vstd::utf8::{
    char_is_scalar, codepoint_width_1, codepoint_width_2, codepoint_width_3, codepoint_width_4,
    decode_first_codepoint, decode_first_scalar, encode_scalar, encode_utf8,
    encode_utf8_valid_utf8, has_width_1_encoding,
    has_width_2_encoding, has_width_3_encoding, has_width_4_encoding, is_char_boundary,
    is_char_boundary_iff_not_is_continuation_byte, is_continuation_byte, is_leading_byte_width_1,
    is_leading_byte_width_2, is_leading_byte_width_3, is_leading_byte_width_4, is_scalar,
    length_of_first_scalar, not_overlong_encoding, not_surrogate, partial_valid_partial_invalid_utf8,
    partial_valid_utf8, partial_valid_utf8_extend, pop_first_scalar, valid_first_scalar,
    valid_leading_and_continuation_bytes_first_codepoint, valid_utf8, valid_utf8_split,
};

verus! {

/// The sequence length that a leading byte announces, derived purely from its
/// bit pattern: a high bit of zero means length one; otherwise the two fixed
/// marker bits are masked off and the leading one-bits counted.
///
/// The result ranges over one to six even though well-formed UTF-8 only uses
/// lengths one to four.
pub open spec fn spec_utf8_char_len(prefix: u8) -> int {
    if prefix < 0x80 {
        1
    } else if prefix < 0xC0 {
        1
    } else if prefix < 0xE0 {
        2
    } else if prefix < 0xF0 {
        3
    } else if prefix < 0xF8 {
        4
    } else if prefix < 0xFC {
        5
    } else {
        6
    }
}

/// Computes the sequence length announced by a leading byte.
pub fn utf8_char_len(prefix: u8) -> (r: usize)
    ensures
        r == spec_utf8_char_len(prefix),
        1 <= r <= 6,
{
    if prefix < 0x80 {
        1
    } else if prefix < 0xC0 {
        1
    } else if prefix < 0xE0 {
        2
    } else if prefix < 0xF0 {
        3
    } else if prefix < 0xF8 {
        4
    } else if prefix < 0xFC {
        5
    } else {
        6
    }
}

/// For a well-formed first scalar, the announced length agrees with the
/// structural length.
pub proof fn lemma_char_len_agrees(s: Seq<u8>)
    requires
        valid_first_scalar(s),
    ensures
        spec_utf8_char_len(s[0]) == length_of_first_scalar(s),
{
}

/// A well-formed first scalar never begins with a continuation byte, and its
/// length fits within the sequence.
pub proof fn lemma_first_scalar_lead_not_continuation(s: Seq<u8>)
    requires
        valid_first_scalar(s),
    ensures
        !is_continuation_byte(s[0]),
        1 <= length_of_first_scalar(s) <= s.len(),
{
}

/// Whether a well-formed scalar encoding begins a byte sequence depends only
/// on the first few bytes, so it carries over from a prefix to any extension
/// that agrees with it.
pub proof fn lemma_valid_first_scalar_extend(s: Seq<u8>, i: int, j: int)
    requires
        0 <= i <= j <= s.len(),
        valid_first_scalar(s.subrange(i, j)),
    ensures
        valid_first_scalar(s.subrange(i, s.len() as int)),
        length_of_first_scalar(s.subrange(i, s.len() as int)) == length_of_first_scalar(
            s.subrange(i, j),
        ),
        decode_first_scalar(s.subrange(i, s.len() as int)) == decode_first_scalar(
            s.subrange(i, j),
        ),
{
    let short = s.subrange(i, j);
    let long = s.subrange(i, s.len() as int);
    let k = length_of_first_scalar(short);
    assert(forall|m: int| 0 <= m < short.len() ==> short[m] == long[m]);
    assert(valid_leading_and_continuation_bytes_first_codepoint(long));
    assert(length_of_first_scalar(long) == k);
    assert(decode_first_scalar(long) == decode_first_scalar(short));
}

proof fn bv_width_2(b1: u8, b2: u8)
    by (bit_vector)
    requires
        0xC0 <= b1 <= 0xDF,
        0x80 <= b2 <= 0xBF,
        ((((b1 & 0x1F) as u32) << 6u32) | ((b2 & 0x3F) as u32)) >= 0x80,
    ensures
        ({
            let c = (((b1 & 0x1F) as u32) << 6u32) | ((b2 & 0x3F) as u32);
            &&& 0x80 <= c <= 0x7FF
            &&& (0xC0 | ((c >> 6u32) & 0x1F) as u8) == b1
            &&& (0x80 | (c & 0x3F) as u8) == b2
        }),
{
}

proof fn bv_width_3(b1: u8, b2: u8, b3: u8)
    by (bit_vector)
    requires
        0xE0 <= b1 <= 0xEF,
        0x80 <= b2 <= 0xBF,
        0x80 <= b3 <= 0xBF,
        ((((b1 & 0x0F) as u32) << 12u32) | (((b2 & 0x3F) as u32) << 6u32) | ((b3
            & 0x3F) as u32)) >= 0x800,
    ensures
        ({
            let c = (((b1 & 0x0F) as u32) << 12u32) | (((b2 & 0x3F) as u32) << 6u32) | ((b3
                & 0x3F) as u32);
            &&& 0x800 <= c <= 0xFFFF
            &&& (0xE0 | ((c >> 12u32) & 0x0F) as u8) == b1
            &&& (0x80 | ((c >> 6u32) & 0x3F) as u8) == b2
            &&& (0x80 | (c & 0x3F) as u8) == b3
        }),
{
}

proof fn bv_width_4(b1: u8, b2: u8, b3: u8, b4: u8)
    by (bit_vector)
    requires
        0xF0 <= b1 <= 0xF7,
        0x80 <= b2 <= 0xBF,
        0x80 <= b3 <= 0xBF,
        0x80 <= b4 <= 0xBF,
        ((((b1 & 0x07) as u32) << 18u32) | (((b2 & 0x3F) as u32) << 12u32) | (((b3
            & 0x3F) as u32) << 6u32) | ((b4 & 0x3F) as u32)) >= 0x10000,
        ((((b1 & 0x07) as u32) << 18u32) | (((b2 & 0x3F) as u32) << 12u32) | (((b3
            & 0x3F) as u32) << 6u32) | ((b4 & 0x3F) as u32)) <= 0x10FFFF,
    ensures
        ({
            let c = (((b1 & 0x07) as u32) << 18u32) | (((b2 & 0x3F) as u32) << 12u32) | (((b3
                & 0x3F) as u32) << 6u32) | ((b4 & 0x3F) as u32);
            &&& (0xF0 | ((c >> 18u32) & 0x7) as u8) == b1
            &&& (0x80 | ((c >> 12u32) & 0x3F) as u8) == b2
            &&& (0x80 | ((c >> 6u32) & 0x3F) as u8) == b3
            &&& (0x80 | (c & 0x3F) as u8) == b4
        }),
{
}

/// Converts a Unicode scalar value to the character it numbers.
///
/// Relies on `char::from_u32`: for every value outside the surrogate range
/// and at most 0x10FFFF it returns that value as a `char`.
#[verifier::external_body]
fn char_from_scalar(v: u32) -> (c: char)
    requires
        is_scalar(v),
    ensures
        c as u32 == v,
{
    char::from_u32(v).unwrap()
}

/// Decodes the character whose encoding starts at `index`, which the caller
/// has already checked to be a character boundary of well-formed content.
///
/// Returns the character and the byte length of its encoding.
pub(crate) fn decode_utf8_bytes(bytes: &[u8], index: usize) -> (r: (char, usize))
    requires
        valid_utf8(bytes@),
        is_char_boundary(bytes@, index as int),
        index < bytes@.len(),
    ensures
        ({
            let rest = bytes@.subrange(index as int, bytes@.len() as int);
            &&& valid_first_scalar(rest)
            &&& r.1 == length_of_first_scalar(rest)
            &&& index + r.1 <= bytes@.len()
            &&& r.0 as u32 == decode_first_scalar(rest)
            &&& encode_scalar(r.0 as u32) == bytes@.subrange(index as int, index + r.1)
        }),
{
    let ghost rest = bytes@.subrange(index as int, bytes@.len() as int);
    proof {
        valid_utf8_split(bytes@, index as int);
        assert(rest.len() > 0);
        assert(valid_first_scalar(rest));
        lemma_first_scalar_lead_not_continuation(rest);
    }
    let b0 = bytes[index];
    assert(b0 == rest[0]);
    let (v, k): (u32, usize) = if b0 < 0x80 {
        let v: u32 = b0 as u32;
        proof {
            assert(is_leading_byte_width_1(rest[0]));
            assert((b0 & 0x7F) as u32 == v && (v & 0x7F) as u8 == b0 && v <= 0x7F) by (bit_vector)
                requires
                    b0 < 0x80,
                    v == b0 as u32,
            ;
            assert(v == codepoint_width_1(rest[0]));
            assert(has_width_1_encoding(v));
            assert(encode_scalar(v) =~= seq![b0]);
        }
        (v, 1)
    } else if b0 < 0xE0 {
        proof {
            assert(is_leading_byte_width_2(rest[0]));
            assert(rest.len() >= 2 && is_continuation_byte(rest[1]));
        }
        let b1 = bytes[index + 1];
        assert(b1 == rest[1]);
        let v: u32 = (((b0 & 0x1F) as u32) << 6u32) | ((b1 & 0x3F) as u32);
        proof {
            assert(v == codepoint_width_2(rest[0], rest[1]));
            assert(decode_first_scalar(rest) == v);
            assert(not_overlong_encoding(v, 2));
            bv_width_2(b0, b1);
            assert(has_width_2_encoding(v));
            assert(encode_scalar(v) =~= seq![b0, b1]);
        }
        (v, 2)
    } else if b0 < 0xF0 {
        proof {
            assert(is_leading_byte_width_3(rest[0]));
            assert(rest.len() >= 3 && is_continuation_byte(rest[1]) && is_continuation_byte(
                rest[2],
            ));
        }
        let b1 = bytes[index + 1];
        let b2 = bytes[index + 2];
        assert(b1 == rest[1] && b2 == rest[2]);
        let v: u32 = (((b0 & 0x0F) as u32) << 12u32) | (((b1 & 0x3F) as u32) << 6u32) | ((b2
            & 0x3F) as u32);
        proof {
            assert(v == codepoint_width_3(rest[0], rest[1], rest[2]));
            assert(decode_first_scalar(rest) == v);
            assert(not_overlong_encoding(v, 3) && not_surrogate(v));
            bv_width_3(b0, b1, b2);
            assert(has_width_3_encoding(v));
            assert(encode_scalar(v) =~= seq![b0, b1, b2]);
        }
        (v, 3)
    } else {
        proof {
            assert(is_leading_byte_width_4(rest[0]));
            assert(rest.len() >= 4 && is_continuation_byte(rest[1]) && is_continuation_byte(
                rest[2],
            ) && is_continuation_byte(rest[3]));
        }
        let b1 = bytes[index + 1];
        let b2 = bytes[index + 2];
        let b3 = bytes[index + 3];
        assert(b1 == rest[1] && b2 == rest[2] && b3 == rest[3]);
        let v: u32 = (((b0 & 0x07) as u32) << 18u32) | (((b1 & 0x3F) as u32) << 12u32) | (((b2
            & 0x3F) as u32) << 6u32) | ((b3 & 0x3F) as u32);
        proof {
            assert(v == codepoint_width_4(rest[0], rest[1], rest[2], rest[3]));
            assert(decode_first_scalar(rest) == v);
            assert(not_overlong_encoding(v, 4));
            bv_width_4(b0, b1, b2, b3);
            assert(has_width_4_encoding(v));
            assert(!has_width_1_encoding(v) && !has_width_2_encoding(v) && !has_width_3_encoding(
                v,
            ));
            assert(encode_scalar(v) =~= seq![b0, b1, b2, b3]);
        }
        (v, 4)
    };
    let c = char_from_scalar(v);
    proof {
        assert(encode_scalar(c as u32) == rest.subrange(0, k as int));
        assert(rest.subrange(0, k as int) =~= bytes@.subrange(index as int, index + k));
    }
    (c, k)
}

/// A character boundary always lies within the content.
pub proof fn lemma_boundary_in_range(s: Seq<u8>, i: int)
    requires
        valid_utf8(s),
        is_char_boundary(s, i),
    ensures
        0 <= i <= s.len(),
{
}

/// The UTF-8 encoding of a character sequence distributes over concatenation.
pub proof fn lemma_encode_utf8_concat(a: Seq<char>, b: Seq<char>)
    ensures
        encode_utf8(a + b) == encode_utf8(a) + encode_utf8(b),
    decreases a.len(),
{
    if a.len() == 0 {
        assert(a + b =~= b);
        assert(encode_utf8(a) + encode_utf8(b) =~= encode_utf8(b));
    } else {
        assert((a + b).drop_first() =~= a.drop_first() + b);
        lemma_encode_utf8_concat(a.drop_first(), b);
        assert((a + b)[0] == a[0]);
        assert(encode_scalar(a[0] as u32) + (encode_utf8(a.drop_first()) + encode_utf8(b)) =~= (
        encode_scalar(a[0] as u32) + encode_utf8(a.drop_first())) + encode_utf8(b));
    }
}

/// A one-character sequence encodes to exactly that character's scalar
/// encoding.
pub proof fn lemma_encode_utf8_singleton(c: char)
    ensures
        encode_utf8(seq![c]) == encode_scalar(c as u32),
{
    let s = seq![c];
    assert(s.len() == 1 && s[0] == c);
    assert(s.drop_first() =~= Seq::<char>::empty());
    assert(encode_utf8(s.drop_first()) =~= Seq::<u8>::empty());
    assert(encode_utf8(s) =~= encode_scalar(c as u32));
}

/// The encoding of a single character is well-formed UTF-8.
pub proof fn lemma_encode_scalar_valid(c: char)
    ensures
        valid_utf8(encode_scalar(c as u32)),
        1 <= encode_scalar(c as u32).len() <= 4,
{
    char_is_scalar(c);
    encode_utf8_valid_utf8(seq![c]);
    lemma_encode_utf8_singleton(c);
}

/// A character's encoding begins with a leading byte and continues with
/// continuation bytes only, so its length is structurally recoverable.
pub proof fn lemma_encode_scalar_shape(c: char)
    ensures
        ({
            let e = encode_scalar(c as u32);
            &&& 1 <= e.len() <= 4
            &&& !is_continuation_byte(e[0])
            &&& forall|j: int| 1 <= j < e.len() ==> is_continuation_byte(e[j])
        }),
        length_of_first_scalar(encode_scalar(c as u32)) == encode_scalar(c as u32).len(),
        valid_first_scalar(encode_scalar(c as u32)),
        decode_first_scalar(encode_scalar(c as u32)) == c as u32,
{
    char_is_scalar(c);
    lemma_encode_scalar_valid(c);
    let v = c as u32;
    let e = encode_scalar(v);
    if has_width_1_encoding(v) {
        assert(((v & 0x7F) as u8) < 0x80) by (bit_vector)
            requires
                v <= 0x7F,
        ;
    } else if has_width_2_encoding(v) {
        assert(0xC0 <= (0xC0 | ((v >> 6u32) & 0x1F) as u8) < 0xE0 && 0x80 <= (0x80 | (v
            & 0x3F) as u8) < 0xC0) by (bit_vector);
        assert(e[1] == (0x80 | (v & 0x3F) as u8));
    } else if has_width_3_encoding(v) {
        assert(0xE0 <= (0xE0 | ((v >> 12u32) & 0x0F) as u8) < 0xF0 && 0x80 <= (0x80 | ((v
            >> 6u32) & 0x3F) as u8) < 0xC0 && 0x80 <= (0x80 | (v & 0x3F) as u8) < 0xC0)
            by (bit_vector);
        assert(e[1] == (0x80 | ((v >> 6u32) & 0x3F) as u8));
        assert(e[2] == (0x80 | (v & 0x3F) as u8));
    } else {
        assert(0xF0 <= (0xF0 | ((v >> 18u32) & 0x7) as u8) < 0xF8 && 0x80 <= (0x80 | ((v
            >> 12u32) & 0x3F) as u8) < 0xC0 && 0x80 <= (0x80 | ((v >> 6u32) & 0x3F) as u8) < 0xC0
            && 0x80 <= (0x80 | (v & 0x3F) as u8) < 0xC0) by (bit_vector);
        assert(e[1] == (0x80 | ((v >> 12u32) & 0x3F) as u8));
        assert(e[2] == (0x80 | ((v >> 6u32) & 0x3F) as u8));
        assert(e[3] == (0x80 | (v & 0x3F) as u8));
    }
    lemma_last_scalar_start(e, 0);
    assert(e.subrange(0, e.len() as int) =~= e);
    char_is_scalar(c);
    vstd::utf8::encode_utf8_first_scalar(seq![c]);
    lemma_encode_utf8_singleton(c);
}

/// In well-formed content, the byte where the last character starts is a
/// character boundary, and that character's encoding runs to the end.
pub proof fn lemma_last_scalar_start(s: Seq<u8>, i: int)
    requires
        valid_utf8(s),
        0 <= i < s.len(),
        !is_continuation_byte(s[i]),
        forall|j: int| i < j < s.len() ==> is_continuation_byte(s[j]),
    ensures
        is_char_boundary(s, i),
        valid_first_scalar(s.subrange(i, s.len() as int)),
        length_of_first_scalar(s.subrange(i, s.len() as int)) == s.len() - i,
        valid_utf8(s.subrange(0, i)),
{
    is_char_boundary_iff_not_is_continuation_byte(s, i);
    valid_utf8_split(s, i);
    let rest = s.subrange(i, s.len() as int);
    assert(valid_utf8(rest));
    assert(rest.len() > 0);
    assert(valid_first_scalar(rest));
    let k = length_of_first_scalar(rest);
    lemma_first_scalar_lead_not_continuation(rest);
    if k < rest.len() {
        let tail = pop_first_scalar(rest);
        assert(valid_utf8(tail));
        assert(tail.len() > 0);
        assert(valid_first_scalar(tail));
        lemma_first_scalar_lead_not_continuation(tail);
        assert(tail[0] == rest[k]);
        assert(rest[k] == s[i + k]);
        assert(is_continuation_byte(s[i + k]));
        assert(false);
    }
}

/// A byte-wise transformation that maps ASCII bytes to ASCII bytes and
/// leaves every other byte untouched preserves UTF-8 well-formedness.
pub proof fn lemma_ascii_transform_preserves_valid_utf8(s: Seq<u8>, t: Seq<u8>)
    requires
        valid_utf8(s),
        t.len() == s.len(),
        forall|j: int| 0 <= j < s.len() ==> ((s[j] < 0x80 && t[j] < 0x80) || t[j] == s[j]),
    ensures
        valid_utf8(t),
    decreases s.len(),
{
    if s.len() == 0 {
    } else {
        assert(valid_first_scalar(s));
        let k = length_of_first_scalar(s);
        if is_leading_byte_width_1(s[0]) {
            assert(t[0] < 0x80);
            let b = t[0];
            assert(((b & 0x7F) as u32) <= 0x7F) by (bit_vector);
            assert(valid_first_scalar(t));
            assert(length_of_first_scalar(t) == 1);
        } else {
            assert forall|j: int| 0 <= j < k implies t[j] == s[j] by {
                if j == 0 {
                    assert(s[0] >= 0xC0);
                } else {
                    assert(is_continuation_byte(s[j]));
                }
            }
            assert(valid_leading_and_continuation_bytes_first_codepoint(t));
            assert(decode_first_codepoint(t) == decode_first_codepoint(s));
            assert(valid_first_scalar(t));
            assert(length_of_first_scalar(t) == k);
        }
        let s2 = pop_first_scalar(s);
        let t2 = t.subrange(k, t.len() as int);
        assert(s2 =~= s.subrange(k, s.len() as int));
        assert forall|j: int|
            0 <= j < s2.len() implies ((s2[j] < 0x80 && t2[j] < 0x80) || t2[j] == s2[j]) by {
            assert(s2[j] == s[j + k] && t2[j] == t[j + k]);
        }
        lemma_ascii_transform_preserves_valid_utf8(s2, t2);
        assert(pop_first_scalar(t) =~= t2);
    }
}

/// Where no well-formed character encoding starts, no longer prefix of the
/// sequence is well-formed either.
proof fn lemma_no_valid_extension(s: Seq<u8>, i: int)
    requires
        0 <= i < s.len(),
        valid_utf8(s.subrange(0, i)),
        !valid_first_scalar(s.subrange(i, s.len() as int)),
    ensures
        forall|j: int| i < j <= s.len() ==> !valid_utf8(s.subrange(0, j)),
{
    assert forall|j: int| i < j <= s.len() implies !valid_utf8(s.subrange(0, j)) by {
        if valid_utf8(s.subrange(0, j)) {
            let t = s.subrange(0, j);
            assert(t.subrange(0, i) =~= s.subrange(0, i));
            assert(t.subrange(i, j) =~= s.subrange(i, j));
            if valid_utf8(s.subrange(i, j)) {
                assert(s.subrange(i, j).len() > 0);
                assert(valid_first_scalar(s.subrange(i, j)));
                lemma_valid_first_scalar_extend(s, i, j);
                assert(false);
            }
            assert(!valid_utf8(t.subrange(i, t.len() as int)));
            partial_valid_partial_invalid_utf8(t, i);
            assert(false);
        }
    }
}

/// Encodes a character into the bytes of its UTF-8 representation.
pub(crate) fn encode_char_bytes(c: char) -> (r: Vec<u8>)
    ensures
        r@ == encode_scalar(c as u32),
        1 <= r@.len() <= 4,
        valid_utf8(r@),
{
    proof {
        char_is_scalar(c);
        lemma_encode_scalar_valid(c);
    }
    let v: u32 = c as u32;
    let mut r: Vec<u8> = Vec::new();
    if v < 0x80 {
        proof {
            assert((v & 0x7F) as u8 == v as u8) by (bit_vector)
                requires
                    v < 0x80,
            ;
        }
        r.push(v as u8);
        proof {
            assert(r@ =~= encode_scalar(c as u32));
        }
    } else if v < 0x800 {
        proof {
            assert(((v >> 6u32) & 0x1F) < 0x100 && (v & 0x3F) < 0x100) by (bit_vector);
        }
        r.push(0xC0 | (((v >> 6u32) & 0x1F) as u8));
        r.push(0x80 | ((v & 0x3F) as u8));
        proof {
            assert(r@ =~= encode_scalar(c as u32));
        }
    } else if v < 0x10000 {
        proof {
            assert(((v >> 12u32) & 0x0F) < 0x100 && ((v >> 6u32) & 0x3F) < 0x100 && (v & 0x3F)
                < 0x100) by (bit_vector);
        }
        r.push(0xE0 | (((v >> 12u32) & 0x0F) as u8));
        r.push(0x80 | (((v >> 6u32) & 0x3F) as u8));
        r.push(0x80 | ((v & 0x3F) as u8));
        proof {
            assert(r@ =~= encode_scalar(c as u32));
        }
    } else {
        proof {
            assert(((v >> 18u32) & 0x7) < 0x100 && ((v >> 12u32) & 0x3F) < 0x100 && ((v >> 6u32)
                & 0x3F) < 0x100 && (v & 0x3F) < 0x100) by (bit_vector);
        }
        r.push(0xF0 | (((v >> 18u32) & 0x7) as u8));
        r.push(0x80 | (((v >> 12u32) & 0x3F) as u8));
        r.push(0x80 | (((v >> 6u32) & 0x3F) as u8));
        r.push(0x80 | ((v & 0x3F) as u8));
        proof {
            assert(r@ =~= encode_scalar(c as u32));
        }
    }
    r
}

/// Checks whether a well-formed character encoding starts at position `i`,
/// returning its byte length when one does.
pub(crate) fn check_scalar_at(bytes: &[u8], i: usize) -> (r: Option<usize>)
    requires
        i < bytes@.len(),
    ensures
        ({
            let rest = bytes@.subrange(i as int, bytes@.len() as int);
            match r {
                Some(k) => {
                    &&& valid_first_scalar(rest)
                    &&& k == length_of_first_scalar(rest)
                    &&& 1 <= k <= 4
                    &&& i + k <= bytes@.len()
                },
                None => !valid_first_scalar(rest),
            }
        }),
{
    let ghost rest = bytes@.subrange(i as int, bytes@.len() as int);
    let n = bytes.len();
    let b0 = bytes[i];
    assert(b0 == rest[0]);
    if b0 < 0x80 {
        proof {
            assert((b0 & 0x7F) as u32 <= 0x7F) by (bit_vector)
                requires
                    b0 < 0x80,
            ;
            assert(decode_first_scalar(rest) == codepoint_width_1(rest[0]));
        }
        Some(1)
    } else if b0 < 0xC0 {
        None
    } else if b0 < 0xE0 {
        if n - i < 2 {
            return None;
        }
        let b1 = bytes[i + 1];
        assert(b1 == rest[1]);
        if !(0x80 <= b1 && b1 < 0xC0) {
            return None;
        }
        let v: u32 = (((b0 & 0x1F) as u32) << 6u32) | ((b1 & 0x3F) as u32);
        assert(v == codepoint_width_2(rest[0], rest[1]));
        if v < 0x80 {
            assert(!not_overlong_encoding(decode_first_scalar(rest), 2));
            return None;
        }
        proof {
            assert(not_surrogate(v)) by (bit_vector)
                requires
                    v == (((b0 & 0x1F) as u32) << 6u32) | ((b1 & 0x3F) as u32),
                    not_surrogate(v) == !(0xD800 <= v <= 0xDFFF),
            ;
        }
        Some(2)
    } else if b0 < 0xF0 {
        if n - i < 3 {
            return None;
        }
        let b1 = bytes[i + 1];
        let b2 = bytes[i + 2];
        assert(b1 == rest[1] && b2 == rest[2]);
        if !(0x80 <= b1 && b1 < 0xC0) {
            return None;
        }
        if !(0x80 <= b2 && b2 < 0xC0) {
            return None;
        }
        let v: u32 = (((b0 & 0x0F) as u32) << 12u32) | (((b1 & 0x3F) as u32) << 6u32) | ((b2
            & 0x3F) as u32);
        assert(v == codepoint_width_3(rest[0], rest[1], rest[2]));
        if v < 0x800 {
            assert(!not_overlong_encoding(decode_first_scalar(rest), 3));
            return None;
        }
        if 0xD800 <= v && v <= 0xDFFF {
            assert(!not_surrogate(decode_first_scalar(rest)));
            return None;
        }
        Some(3)
    } else if b0 < 0xF8 {
        if n - i < 4 {
            return None;
        }
        let b1 = bytes[i + 1];
        let b2 = bytes[i + 2];
        let b3 = bytes[i + 3];
        assert(b1 == rest[1] && b2 == rest[2] && b3 == rest[3]);
        if !(0x80 <= b1 && b1 < 0xC0) {
            return None;
        }
        if !(0x80 <= b2 && b2 < 0xC0) {
            return None;
        }
        if !(0x80 <= b3 && b3 < 0xC0) {
            return None;
        }
        let v: u32 = (((b0 & 0x07) as u32) << 18u32) | (((b1 & 0x3F) as u32) << 12u32) | (((b2
            & 0x3F) as u32) << 6u32) | ((b3 & 0x3F) as u32);
        assert(v == codepoint_width_4(rest[0], rest[1], rest[2], rest[3]));
        if v < 0x10000 || v > 0x10FFFF {
            assert(!not_overlong_encoding(decode_first_scalar(rest), 4));
            return None;
        }
        Some(4)
    } else {
        None
    }
}

/// What a reported UTF-8 error says of a byte sequence: the error's index is
/// the length of the longest well-formed prefix, no longer prefix is
/// well-formed, and the error's value is the byte at that index.
pub open spec fn utf8_error_at(s: Seq<u8>, e: Utf8Error) -> bool {
    &&& 0 <= e.index < s.len()
    &&& e.value == s[e.index as int]
    &&& valid_utf8(s.subrange(0, e.index as int))
    &&& forall|j: int| e.index < j <= s.len() ==> !valid_utf8(s.subrange(0, j))
}

/// Validates that a byte sequence is entirely well-formed UTF-8.
///
/// On the first offending position the returned error carries the byte that
/// broke the sequence and the length of the longest well-formed prefix.
pub(crate) fn validate_utf8(bytes: &[u8]) -> (r: Result<(), Utf8Error>)
    ensures
        r is Ok <==> valid_utf8(bytes@),
        r matches Err(e) ==> utf8_error_at(bytes@, e),
{
    let n = bytes.len();
    let mut i: usize = 0;
    proof {
        assert(bytes@.subrange(0, 0) =~= Seq::<u8>::empty());
    }
    while i < n
        invariant
            0 <= i <= n,
            n == bytes@.len(),
            valid_utf8(bytes@.subrange(0, i as int)),
        decreases n - i,
    {
        match check_scalar_at(bytes, i) {
            Some(k) => {
                proof {
                    assert(partial_valid_utf8(bytes@, i as int));
                    partial_valid_utf8_extend(bytes@, i as int);
                }
                i += k;
            },
            None => {
                proof {
                    lemma_no_valid_extension(bytes@, i as int);
                    assert(bytes@.subrange(0, n as int) =~= bytes@);
                    assert(!valid_utf8(bytes@.subrange(0, n as int)));
                }
                return Err(Utf8Error { value: bytes[i], index: i });
            },
        }
    }
    proof {
        assert(bytes@.subrange(0, n as int) =~= bytes@);
    }
    Ok(())
}

/// Decodes one character of `buf` at a known character boundary; no
/// validation is performed beyond what the contract already demands.
///
/// Returns the decoded character together with its length in bytes.
pub fn decode_utf8(buf: &str, index: usize) -> (r: (char, usize))
    requires
        is_char_boundary(buf.spec_bytes(), index as int),
        index < buf.spec_bytes().len(),
    ensures
        ({
            let rest = buf.spec_bytes().subrange(index as int, buf.spec_bytes().len() as int);
            &&& valid_first_scalar(rest)
            &&& r.1 == length_of_first_scalar(rest)
            &&& r.0 as u32 == decode_first_scalar(rest)
            &&& encode_scalar(r.0 as u32) == buf.spec_bytes().subrange(index as int, index + r.1)
        }),
{
    let bytes = buf.as_bytes();
    proof {
        vstd::utf8::encode_utf8_valid_utf8(buf@);
    }
    decode_utf8_bytes(bytes, index)
}

} // verus!
