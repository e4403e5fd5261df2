//! Strings compared through their UTF-8 bytes.
//!
//! A string is stored as the UTF-8 encoding of its characters, and the
//! comparisons that run walk those bytes. UTF-8 is built so that this gives
//! the same answers as walking the characters: the encoding keeps both the
//! lexicographic order and the prefixes of texts. This module proves the two
//! facts and, resting on them, offers the comparisons of strings with
//! contracts over characters.

use crate::order::{
    begins_with, compare, has_prefix, lemma_lex_lt_asymmetric, lemma_lex_lt_irreflexive, lex_lt,
    precedes_at, Side,
};
use crate::text::{code_lt, code_precedes_at, code_under, lemma_code_lt_total};
use vstd::prelude::*;
use vstd::string::StringSliceAdditionalSpecFns;
use vstd::utf8::{
    char_is_scalar, encode_scalar, encode_utf8, encode_utf8_decode_utf8, has_width_1_encoding,
    has_width_2_encoding, has_width_3_encoding, has_width_4_encoding, is_leading_byte_width_1,
    is_leading_byte_width_2, is_leading_byte_width_3, is_leading_byte_width_4, is_scalar,
    last_continuation_byte, leading_byte_width_1, leading_byte_width_2, leading_byte_width_3,
    leading_byte_width_4, second_last_continuation_byte, third_last_continuation_byte,
};

verus! {

/// The first byte of an encoding tells its width.
proof fn lemma_leading_byte(x: u32)
    by (bit_vector)
    ensures
        has_width_1_encoding(x) ==> is_leading_byte_width_1(leading_byte_width_1(x)),
        has_width_2_encoding(x) ==> is_leading_byte_width_2(leading_byte_width_2(x)),
        has_width_3_encoding(x) ==> is_leading_byte_width_3(leading_byte_width_3(x)),
        has_width_4_encoding(x) ==> is_leading_byte_width_4(leading_byte_width_4(x)),
{
}

/// Of two scalars encoded in one byte, the smaller has the smaller byte.
proof fn lemma_width_1_order(x: u32, y: u32)
    by (bit_vector)
    requires
        has_width_1_encoding(x),
        has_width_1_encoding(y),
        x < y,
    ensures
        leading_byte_width_1(x) < leading_byte_width_1(y),
{
}

/// Of two scalars encoded in two bytes, the smaller has the smaller byte
/// where the encodings first differ.
proof fn lemma_width_2_order(x: u32, y: u32)
    by (bit_vector)
    requires
        has_width_2_encoding(x),
        has_width_2_encoding(y),
        x < y,
    ensures
        leading_byte_width_2(x) < leading_byte_width_2(y) || (leading_byte_width_2(x)
            == leading_byte_width_2(y) && last_continuation_byte(x) < last_continuation_byte(y)),
{
}

/// Of two scalars encoded in three bytes, the smaller has the smaller byte
/// where the encodings first differ.
proof fn lemma_width_3_order(x: u32, y: u32)
    by (bit_vector)
    requires
        has_width_3_encoding(x),
        has_width_3_encoding(y),
        x < y,
    ensures
        leading_byte_width_3(x) < leading_byte_width_3(y) || (leading_byte_width_3(x)
            == leading_byte_width_3(y) && (second_last_continuation_byte(x)
            < second_last_continuation_byte(y) || (second_last_continuation_byte(x)
            == second_last_continuation_byte(y) && last_continuation_byte(x)
            < last_continuation_byte(y)))),
{
}

/// Of two scalars encoded in four bytes, the smaller has the smaller byte
/// where the encodings first differ.
proof fn lemma_width_4_order(x: u32, y: u32)
    by (bit_vector)
    requires
        has_width_4_encoding(x),
        has_width_4_encoding(y),
        x < y,
    ensures
        leading_byte_width_4(x) < leading_byte_width_4(y) || (leading_byte_width_4(x)
            == leading_byte_width_4(y) && (third_last_continuation_byte(x)
            < third_last_continuation_byte(y) || (third_last_continuation_byte(x)
            == third_last_continuation_byte(y) && (second_last_continuation_byte(x)
            < second_last_continuation_byte(y) || (second_last_continuation_byte(x)
            == second_last_continuation_byte(y) && last_continuation_byte(x)
            < last_continuation_byte(y)))))),
{
}

/// Byte strings `a` and `b` agree on their first `d` bytes and both go on,
/// `a` with the smaller byte.
spec fn parts_at(a: Seq<u8>, b: Seq<u8>, d: int) -> bool {
    &&& 0 <= d < a.len()
    &&& d < b.len()
    &&& forall|j: int| 0 <= j < d ==> a[j] == b[j]
    &&& a[d] < b[d]
}

/// The encodings of two scalars part inside both, the smaller scalar's with
/// the smaller byte. So neither encoding begins with the other.
proof fn lemma_scalar_order(x: u32, y: u32) -> (d: int)
    requires
        is_scalar(x),
        is_scalar(y),
        x < y,
    ensures
        parts_at(encode_scalar(x), encode_scalar(y), d),
{
    lemma_leading_byte(x);
    lemma_leading_byte(y);
    let ex = encode_scalar(x);
    let ey = encode_scalar(y);
    if has_width_1_encoding(x) && has_width_1_encoding(y) {
        lemma_width_1_order(x, y);
    } else if has_width_2_encoding(x) && has_width_2_encoding(y) {
        lemma_width_2_order(x, y);
    } else if has_width_3_encoding(x) && has_width_3_encoding(y) {
        lemma_width_3_order(x, y);
    } else if has_width_4_encoding(x) && has_width_4_encoding(y) {
        lemma_width_4_order(x, y);
    }
    if ex[0] < ey[0] {
        0
    } else if ex[1] < ey[1] {
        1
    } else if ex[2] < ey[2] {
        2
    } else {
        3
    }
}

/// The encoding of two texts joined is the two encodings joined.
pub proof fn lemma_encode_joined(a: Seq<char>, b: Seq<char>)
    ensures
        encode_utf8(a + b) == encode_utf8(a) + encode_utf8(b),
    decreases a.len(),
{
    if a.len() > 0 {
        assert((a + b).drop_first() =~= a.drop_first() + b);
        lemma_encode_joined(a.drop_first(), b);
    }
}

/// The encoding of a text is that of its first `k` characters, then that of
/// the character at `k`, then that of the rest.
proof fn lemma_encode_around(a: Seq<char>, k: int)
    requires
        0 <= k < a.len(),
    ensures
        encode_utf8(a) == encode_utf8(a.take(k)) + (encode_scalar(a[k] as u32) + encode_utf8(
            a.skip(k + 1),
        )),
{
    let tail = a.skip(k);
    assert(a =~= a.take(k) + tail);
    lemma_encode_joined(a.take(k), tail);
    assert(tail.drop_first() =~= a.skip(k + 1));
}

/// Where text `a` precedes text `b` with the first difference at character
/// `k`, the encoding of `a` precedes that of `b`, and they part inside the
/// encoding of `a` unless `a` ends at `k`.
proof fn lemma_order_kept(a: Seq<char>, b: Seq<char>, k: int) -> (at: int)
    requires
        code_precedes_at(a, b, k),
    ensures
        precedes_at(encode_utf8(a), encode_utf8(b), at),
        k < a.len() ==> at < encode_utf8(a).len(),
{
    let head = encode_utf8(a.take(k));
    assert(a.take(k) =~= b.take(k));
    lemma_encode_around(b, k);
    char_is_scalar(b[k]);
    if k == a.len() {
        assert(a.take(k) =~= a);
        head.len() as int
    } else {
        lemma_encode_around(a, k);
        char_is_scalar(a[k]);
        let d = lemma_scalar_order(a[k] as u32, b[k] as u32);
        head.len() + d
    }
}

/// UTF-8 keeps the order of texts: one text sorts before another exactly
/// where its encoding comes first in lexicographic byte order.
pub proof fn lemma_encoding_keeps_order(a: Seq<char>, b: Seq<char>)
    ensures
        code_lt(a, b) <==> lex_lt(encode_utf8(a), encode_utf8(b)),
{
    if code_lt(a, b) {
        let k = choose|k: int| code_precedes_at(a, b, k);
        lemma_order_kept(a, b, k);
    }
    if lex_lt(encode_utf8(a), encode_utf8(b)) {
        lemma_code_lt_total(a, b);
        lemma_lex_lt_irreflexive(encode_utf8(a));
        lemma_lex_lt_asymmetric(encode_utf8(a), encode_utf8(b));
        if code_lt(b, a) {
            let k = choose|k: int| code_precedes_at(b, a, k);
            lemma_order_kept(b, a, k);
        }
    }
}

/// UTF-8 keeps prefixes: one text begins with another exactly where its
/// encoding begins with the other's.
pub proof fn lemma_encoding_keeps_prefix(s: Seq<char>, prefix: Seq<char>)
    ensures
        prefix.is_prefix_of(s) <==> begins_with(encode_utf8(s), encode_utf8(prefix)),
{
    if prefix.is_prefix_of(s) {
        assert(s =~= prefix + s.skip(prefix.len() as int));
        lemma_encode_joined(prefix, s.skip(prefix.len() as int));
    }
    if begins_with(encode_utf8(s), encode_utf8(prefix)) {
        lemma_code_lt_total(prefix, s);
        if code_lt(s, prefix) {
            let k = choose|k: int| code_precedes_at(s, prefix, k);
            lemma_order_kept(s, prefix, k);
        } else if code_lt(prefix, s) {
            let k = choose|k: int| code_precedes_at(prefix, s, k);
            lemma_order_kept(prefix, s, k);
        }
    }
}

/// Two texts with the same UTF-8 encoding are the same text.
pub proof fn lemma_encoding_is_injective(a: Seq<char>, b: Seq<char>)
    requires
        encode_utf8(a) == encode_utf8(b),
    ensures
        a == b,
{
    encode_utf8_decode_utf8(a);
    encode_utf8_decode_utf8(b);
}

/// Three-way comparison of two codes in the order the table is kept in.
pub fn compare_text(a: &str, b: &str) -> (side: Side)
    ensures
        side is Before <==> code_lt(a@, b@),
        side is Same <==> a@ == b@,
        side is After <==> code_lt(b@, a@),
{
    let side = compare(a.as_bytes(), b.as_bytes());
    proof {
        lemma_encoding_keeps_order(a@, b@);
        lemma_encoding_keeps_order(b@, a@);
        if a.spec_bytes() == b.spec_bytes() {
            lemma_encoding_is_injective(a@, b@);
        }
    }
    side
}

/// Whether two texts are equal, character for character.
pub fn same_text(a: &str, b: &str) -> (yes: bool)
    ensures
        yes == (a@ == b@),
{
    match compare_text(a, b) {
        Side::Same => true,
        _ => false,
    }
}

/// Whether `code` lies under `country`.
pub fn text_under(code: &str, country: &str) -> (yes: bool)
    ensures
        yes == code_under(code@, country@),
{
    proof {
        lemma_encoding_keeps_prefix(code@, country@);
    }
    has_prefix(code.as_bytes(), country.as_bytes())
}

} // verus!
