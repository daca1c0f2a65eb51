//! What the encodings of names have to do with the text that they stand for.

use vstd::prelude::*;
use vstd::utf8::{encode_scalar, encode_utf8};
use crate::wtf8::{
    char_units, encoded, encoded_all, folded, folded_all, is_high, is_low, is_scalar, lower_of,
    lowercase_of, points, text_units, utf16_of, wtf8_of,
};

verus! {

/// The code points of two texts one behind the other are those of the two,
/// unless the first ends in half a pair and the second begins with the other.
pub proof fn lemma_points_join(a: Seq<u16>, b: Seq<u16>)
    requires
        a.len() == 0 || b.len() == 0 || !is_high(a.last()) || !is_low(b[0]),
    ensures
        points(a + b) == points(a) + points(b),
    decreases a.len(),
{
    let u = a + b;
    if a.len() == 0 {
        assert(u =~= b);
        assert(points(a) + points(b) =~= points(b));
    } else if b.len() == 0 {
        assert(u =~= a);
        assert(points(a) + points(b) =~= points(a));
    } else if a.len() > 1 && is_high(a[0]) && is_low(a[1]) {
        let rest = a.skip(2);
        assert(u.skip(2) =~= rest + b);
        if rest.len() > 0 {
            assert(rest.last() == a.last());
        }
        lemma_points_join(rest, b);
        assert(points(u) =~= points(a) + points(b));
    } else {
        let rest = a.skip(1);
        assert(u.skip(1) =~= rest + b);
        if rest.len() > 0 {
            assert(rest.last() == a.last());
            assert(u[1] == a[1]);
        } else {
            assert(u[1] == b[0]);
        }
        lemma_points_join(rest, b);
        assert(points(u) =~= points(a) + points(b));
    }
}

proof fn lemma_encoded_join(p: Seq<u32>, q: Seq<u32>)
    ensures
        encoded_all(p + q) == encoded_all(p) + encoded_all(q),
    decreases p.len(),
{
    if p.len() == 0 {
        assert(p + q =~= q);
        assert(encoded_all(p) + encoded_all(q) =~= encoded_all(q));
    } else {
        assert((p + q).skip(1) =~= p.skip(1) + q);
        lemma_encoded_join(p.skip(1), q);
        assert(encoded_all(p + q) =~= encoded_all(p) + encoded_all(q));
    }
}

/// A name is encoded part by part, and folded part by part, wherever it is
/// not cut through a pair.
pub proof fn lemma_names_join(a: Seq<u16>, b: Seq<u16>)
    requires
        a.len() == 0 || b.len() == 0 || !is_high(a.last()) || !is_low(b[0]),
    ensures
        wtf8_of(a + b) == wtf8_of(a) + wtf8_of(b),
        lower_of(a + b) == lower_of(a) + lower_of(b),
{
    lemma_points_join(a, b);
    lemma_encoded_join(points(a), points(b));
    assert(folded_all(points(a) + points(b)) =~= folded_all(points(a)) + folded_all(points(b)));
    lemma_encoded_join(folded_all(points(a)), folded_all(points(b)));
}

/// A character is encoded as UTF-8 has it.
pub proof fn lemma_encoded_is_utf8(p: u32)
    requires
        is_scalar(p),
    ensures
        encoded(p) == encode_scalar(p),
{
    if p < 0x80 {
        assert((p & 0x7F) as u8 == p as u8) by (bit_vector)
            requires
                p < 0x80,
        ;
        assert(encoded(p) =~= encode_scalar(p));
    } else if p < 0x800 {
        assert(0xC0u8 | ((p >> 6) & 0x1F) as u8 == (0xC0 + p / 64) as u8) by (bit_vector)
            requires
                p < 0x800,
        ;
        assert(0x80u8 | (p & 0x3F) as u8 == (0x80 + p % 64) as u8) by (bit_vector);
        assert(encoded(p) =~= encode_scalar(p));
    } else if p < 0x10000 {
        assert(0xE0u8 | ((p >> 12) & 0x0F) as u8 == (0xE0 + p / 4096) as u8) by (bit_vector)
            requires
                p < 0x10000,
        ;
        assert(0x80u8 | ((p >> 6) & 0x3F) as u8 == (0x80 + p / 64 % 64) as u8) by (bit_vector);
        assert(0x80u8 | (p & 0x3F) as u8 == (0x80 + p % 64) as u8) by (bit_vector);
        assert(encoded(p) =~= encode_scalar(p));
    } else {
        assert(0xF0u8 | ((p >> 18) & 0x7) as u8 == (0xF0 + p / 262144) as u8) by (bit_vector)
            requires
                p <= 0x10FFFF,
        ;
        assert(0x80u8 | ((p >> 12) & 0x3F) as u8 == (0x80 + p / 4096 % 64) as u8) by (bit_vector);
        assert(0x80u8 | ((p >> 6) & 0x3F) as u8 == (0x80 + p / 64 % 64) as u8) by (bit_vector);
        assert(0x80u8 | (p & 0x3F) as u8 == (0x80 + p % 64) as u8) by (bit_vector);
        assert(encoded(p) =~= encode_scalar(p));
    }
}

/// The units of a character are its code, or the pair that stands for it.
pub proof fn lemma_char_units(c: char)
    ensures
        points(char_units(c)) == seq![c as u32],
        char_units(c).len() > 0,
        !is_low(char_units(c)[0]),
        char_units(c).len() == 2 <==> c as u32 >= 0x10000,
{
    let u = char_units(c);
    if (c as u32) < 0x10000 {
        assert(u[0] as u32 == c as u32);
        assert(points(u.skip(1)).len() == 0);
        assert(points(u) =~= seq![c as u32]);
    } else {
        let x = c as u32 - 0x10000;
        assert(0 <= x / 0x400 < 0x400);
        assert(is_high(u[0]) && is_low(u[1]));
        assert(points(u.skip(2)).len() == 0);
        assert((u[0] - 0xD800) * 0x400 + (u[1] - 0xDC00) == x);
        assert(points(u) =~= seq![c as u32]);
    }
}

proof fn lemma_units_head(c: char, rest: Seq<char>)
    ensures
        text_units(seq![c] + rest) == char_units(c) + text_units(rest),
    decreases rest.len(),
{
    let s = seq![c] + rest;
    if rest.len() == 0 {
        assert(s.drop_last() =~= Seq::empty());
        assert(s.last() == c);
        assert(text_units(s.drop_last()).len() == 0 && text_units(rest).len() == 0);
        assert(text_units(s) =~= char_units(c) + text_units(rest));
    } else {
        assert(s.drop_last() =~= seq![c] + rest.drop_last());
        lemma_units_head(c, rest.drop_last());
        assert(s.last() == rest.last());
        assert(text_units(s) =~= char_units(c) + text_units(rest));
    }
}

/// The name of a text is the text in UTF-8, and reading it back gives the
/// text's units.
pub proof fn lemma_text_is_utf8(s: Seq<char>)
    ensures
        wtf8_of(text_units(s)) == encode_utf8(s),
        utf16_of(encode_utf8(s)) == text_units(s),
    decreases s.len(),
{
    crate::wtf8::lemma_wtf8_round_trip(text_units(s));
    if s.len() > 0 {
        let c = s[0];
        let rest = s.drop_first();
        assert(s =~= seq![c] + rest);
        lemma_units_head(c, rest);
        lemma_text_is_utf8(rest);
        lemma_char_units(c);
        if rest.len() > 0 {
            lemma_units_head(rest[0], rest.drop_first());
            assert(rest =~= seq![rest[0]] + rest.drop_first());
            lemma_char_units(rest[0]);
        }
        lemma_names_join(char_units(c), text_units(rest));
        vstd::utf8::char_is_scalar(c);
        lemma_encoded_is_utf8(c as u32);
        assert(encoded_all(seq![c as u32].skip(1)).len() == 0);
        assert(encoded_all(seq![c as u32]) =~= encoded(c as u32));
    } else {
        assert(wtf8_of(text_units(s)) =~= encode_utf8(s));
    }
}

/// A unit that is half a pair alone is encoded in three bytes like any other
/// of its size.
pub proof fn lemma_lone_half(u: u16)
    requires
        is_high(u) || is_low(u),
    ensures
        wtf8_of(seq![u]).len() == 3,
        wtf8_of(seq![u])[0] == 0xED,
        0xA0 <= wtf8_of(seq![u])[1] <= 0xBF,
        (wtf8_of(seq![u])[0] - 0xE0) * 4096 + (wtf8_of(seq![u])[1] - 0x80) * 64 + (wtf8_of(
            seq![u],
        )[2] - 0x80) == u,
{
    let s = seq![u];
    assert(points(s.skip(1)).len() == 0);
    assert(points(s) =~= seq![u as u32]);
    assert(encoded_all(seq![u as u32].skip(1)).len() == 0);
    assert(wtf8_of(s) =~= encoded(u as u32));
}

/// A character is folded to its lower case where that is one character of the
/// same length in UTF-8, and stays as it is everywhere else.
pub proof fn lemma_folded_is(p: u32, q: u32)
    ensures
        is_scalar(p) && is_scalar(q) && lowercase_of(p) == seq![q] && encode_scalar(p).len()
            == encode_scalar(q).len() ==> folded(p) == q,
        is_scalar(p) && lowercase_of(p).len() != 1 ==> folded(p) == p,
        is_scalar(p) && is_scalar(q) && lowercase_of(p) == seq![q] && encode_scalar(p).len()
            != encode_scalar(q).len() ==> folded(p) == p,
        !is_scalar(p) ==> folded(p) == p,
{
    if is_scalar(p) {
        lemma_encoded_is_utf8(p);
    }
    if is_scalar(q) {
        lemma_encoded_is_utf8(q);
    }
}

/// A byte that begins no character, and one whose character is cut off, is
/// read as the replacement character, and what follows is read on from the next
/// byte.
pub proof fn lemma_malformed_is_replaced(b: u8, rest: Seq<u8>)
    ensures
        0x80 <= b < 0xC0 || b >= 0xF8 ==> utf16_of(seq![b] + rest) == seq![0xFFFDu16] + utf16_of(
            rest,
        ),
        0xC0 <= b < 0xE0 && rest.len() < 1 || 0xE0 <= b < 0xF0 && rest.len() < 2 || 0xF0 <= b < 0xF8
            && rest.len() < 3 ==> utf16_of(seq![b] + rest) == seq![0xFFFDu16] + utf16_of(rest),
        b < 0x80 ==> utf16_of(seq![b] + rest) == seq![b as u16] + utf16_of(rest),
{
    let s = seq![b] + rest;
    assert(s[0] == b);
    assert(s.skip(1) =~= rest);
}

} // verus!
