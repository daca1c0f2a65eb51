//! WTF-8: UTF-16 names, unpaired surrogates included, as bytes; and the
//! folded form that names are compared by.

use vstd::prelude::*;

verus! {

/// A unit that starts a surrogate pair.
pub open spec fn is_high(u: u16) -> bool {
    0xD800 <= u <= 0xDBFF
}

/// A unit that ends a surrogate pair.
pub open spec fn is_low(u: u16) -> bool {
    0xDC00 <= u <= 0xDFFF
}

/// A code point that is a character, not a surrogate.
pub open spec fn is_scalar(p: u32) -> bool {
    p <= 0x10FFFF && !(0xD800 <= p <= 0xDFFF)
}

/// The code points of UTF-16 units: surrogate pairs are joined, unpaired
/// surrogates stand for themselves.
pub open spec fn points(u: Seq<u16>) -> Seq<u32>
    decreases u.len(),
{
    if u.len() == 0 {
        Seq::empty()
    } else if u.len() > 1 && is_high(u[0]) && is_low(u[1]) {
        seq![(0x10000 + (u[0] - 0xD800) * 0x400 + (u[1] - 0xDC00)) as u32] + points(u.skip(2))
    } else {
        seq![u[0] as u32] + points(u.skip(1))
    }
}

/// The bytes of one code point.
pub open spec fn encoded(p: u32) -> Seq<u8> {
    if p < 0x80 {
        seq![p as u8]
    } else if p < 0x800 {
        seq![(0xC0 + p / 64) as u8, (0x80 + p % 64) as u8]
    } else if p < 0x10000 {
        seq![(0xE0 + p / 4096) as u8, (0x80 + p / 64 % 64) as u8, (0x80 + p % 64) as u8]
    } else {
        seq![
            (0xF0 + p / 262144) as u8,
            (0x80 + p / 4096 % 64) as u8,
            (0x80 + p / 64 % 64) as u8,
            (0x80 + p % 64) as u8,
        ]
    }
}

/// The bytes of a sequence of code points.
pub open spec fn encoded_all(p: Seq<u32>) -> Seq<u8>
    decreases p.len(),
{
    if p.len() == 0 {
        Seq::empty()
    } else {
        encoded(p[0]) + encoded_all(p.skip(1))
    }
}

/// The WTF-8 bytes of UTF-16 units.
pub open spec fn wtf8_of(u: Seq<u16>) -> Seq<u8> {
    encoded_all(points(u))
}

/// The code points that a character's lowercase mapping consists of.
pub uninterp spec fn lowercase_of(p: u32) -> Seq<u32>;

/// `char::to_lowercase`: the lowercase mapping of a character, which is one or
/// more characters.
#[verifier::external_body]
fn lowercase(p: u32) -> (r: Vec<u32>)
    requires
        is_scalar(p),
    ensures
        r@ == lowercase_of(p),
        forall|i: int| 0 <= i < r@.len() ==> is_scalar(#[trigger] r@[i]),
{
    match char::from_u32(p) {
        Some(c) => c.to_lowercase().map(|l| l as u32).collect(),
        None => Vec::new(),
    }
}

/// The folded form of a code point: its lowercase, where that is one character
/// of the same encoded length, else the code point itself.
pub open spec fn folded(p: u32) -> u32 {
    if is_scalar(p) && lowercase_of(p).len() == 1 && is_scalar(lowercase_of(p)[0]) && encoded(
        lowercase_of(p)[0],
    ).len() == encoded(p).len() {
        lowercase_of(p)[0]
    } else {
        p
    }
}

/// The folded form of a sequence of code points.
pub open spec fn folded_all(p: Seq<u32>) -> Seq<u32> {
    Seq::new(p.len(), |i: int| folded(p[i]))
}

/// The WTF-8 bytes of the folded form of UTF-16 units.
pub open spec fn lower_of(u: Seq<u16>) -> Seq<u8> {
    encoded_all(folded_all(points(u)))
}

/// The number of bytes of one code point.
fn encoded_len(p: u32) -> (r: usize)
    ensures
        r == encoded(p).len(),
{
    if p < 0x80 {
        1
    } else if p < 0x800 {
        2
    } else if p < 0x10000 {
        3
    } else {
        4
    }
}

/// Fold one code point.
fn fold(p: u32) -> (r: u32)
    ensures
        r == folded(p),
{
    if p > 0x10FFFF || (0xD800 <= p && p <= 0xDFFF) {
        return p;
    }
    let lower: Vec<u32> = lowercase(p);
    if lower.len() == 1 && encoded_len(lower[0]) == encoded_len(p) {
        lower[0]
    } else {
        p
    }
}

/// Append the bytes of one code point.
fn push_point(p: u32, out: &mut Vec<u8>)
    requires
        p <= 0x10FFFF,
    ensures
        final(out)@ == old(out)@ + encoded(p),
{
    let ghost before = out@;
    if p < 0x80 {
        out.push(p as u8);
    } else if p < 0x800 {
        out.push((0xC0 + p / 64) as u8);
        out.push((0x80 + p % 64) as u8);
    } else if p < 0x10000 {
        out.push((0xE0 + p / 4096) as u8);
        out.push((0x80 + p / 64 % 64) as u8);
        out.push((0x80 + p % 64) as u8);
    } else {
        out.push((0xF0 + p / 262144) as u8);
        out.push((0x80 + p / 4096 % 64) as u8);
        out.push((0x80 + p / 64 % 64) as u8);
        out.push((0x80 + p % 64) as u8);
    }
    assert(out@ =~= before + encoded(p));
}

proof fn lemma_encoded_all_push(p: Seq<u32>, x: u32)
    ensures
        encoded_all(p.push(x)) == encoded_all(p) + encoded(x),
    decreases p.len(),
{
    if p.len() == 0 {
        assert(p.push(x).skip(1) =~= Seq::empty());
        assert(encoded_all(Seq::empty()) =~= Seq::empty());
        assert(p.push(x)[0] == x);
        assert(encoded_all(p) =~= Seq::empty());
        assert(encoded(x) + Seq::<u8>::empty() =~= Seq::<u8>::empty() + encoded(x));
    } else {
        assert(p.push(x).skip(1) =~= p.skip(1).push(x));
        lemma_encoded_all_push(p.skip(1), x);
        assert(encoded_all(p.push(x)) =~= encoded_all(p) + encoded(x));
    }
}

/// Append the WTF-8 form of the units to `name`, and the bytes of their folded
/// form, which are as many, to `lower`.
pub fn push_wtf8_pair(units: &[u16], name: &mut Vec<u8>, lower: &mut Vec<u8>)
    ensures
        final(name)@ == old(name)@ + wtf8_of(units@),
        final(lower)@ == old(lower)@ + lower_of(units@),
{
    let ghost u = units@;
    let ghost n0 = name@;
    let ghost l0 = lower@;
    let ghost mut done: Seq<u32> = Seq::empty();
    let mut i: usize = 0;
    proof {
        assert(u.skip(0) =~= u);
        assert(done + points(u) =~= points(u));
        assert(folded_all(done) =~= Seq::empty());
        assert(n0 + encoded_all(done) =~= n0);
        assert(l0 + encoded_all(folded_all(done)) =~= l0);
    }
    while i < units.len()
        invariant
            i <= u.len(),
            u == units@,
            points(u) == done + points(u.skip(i as int)),
            name@ == n0 + encoded_all(done),
            lower@ == l0 + encoded_all(folded_all(done)),
        decreases u.len() - i,
    {
        let first: u16 = units[i];
        let mut p: u32 = first as u32;
        let mut width: usize = 1;
        if 0xD800 <= first && first <= 0xDBFF && units.len() - i > 1 {
            let second: u16 = units[i + 1];
            if 0xDC00 <= second && second <= 0xDFFF {
                p = 0x10000 + (first as u32 - 0xD800) * 0x400 + (second as u32 - 0xDC00);
                width = 2;
            }
        }
        let f: u32 = fold(p);
        push_point(p, name);
        push_point(f, lower);
        proof {
            let rest = u.skip(i as int);
            assert(rest.skip(width as int) =~= u.skip(i + width));
            assert(points(rest) == seq![p] + points(rest.skip(width as int)));
            let next = done.push(p);
            assert(done + (seq![p] + points(rest.skip(width as int))) =~= next + points(
                rest.skip(width as int),
            ));
            lemma_encoded_all_push(done, p);
            assert(folded_all(next) =~= folded_all(done).push(f));
            lemma_encoded_all_push(folded_all(done), f);
            assert(n0 + encoded_all(done) + encoded(p) =~= n0 + (encoded_all(done) + encoded(p)));
            assert(l0 + encoded_all(folded_all(done)) + encoded(f) =~= l0 + (encoded_all(
                folded_all(done),
            ) + encoded(f)));
            done = next;
        }
        i = i + width;
    }
    proof {
        assert(u.skip(i as int) =~= Seq::empty());
        assert(done + Seq::<u32>::empty() =~= done);
    }
}

proof fn lemma_same_length(p: Seq<u32>)
    ensures
        encoded_all(folded_all(p)).len() == encoded_all(p).len(),
    decreases p.len(),
{
    if p.len() > 0 {
        assert(folded_all(p).skip(1) =~= folded_all(p.skip(1)));
        lemma_same_length(p.skip(1));
    }
}

proof fn lemma_points_count(u: Seq<u16>)
    ensures
        encoded_all(points(u)).len() <= 3 * u.len(),
    decreases u.len(),
{
    if u.len() > 0 {
        if u.len() > 1 && is_high(u[0]) && is_low(u[1]) {
            lemma_points_count(u.skip(2));
            let p = (0x10000 + (u[0] - 0xD800) * 0x400 + (u[1] - 0xDC00)) as u32;
            assert((seq![p] + points(u.skip(2))).skip(1) =~= points(u.skip(2)));
        } else {
            lemma_points_count(u.skip(1));
            assert((seq![u[0] as u32] + points(u.skip(1))).skip(1) =~= points(u.skip(1)));
        }
    }
}

/// Folding keeps the length of a name, and a unit takes at most three bytes.
pub proof fn lemma_fold_keeps_length(u: Seq<u16>)
    ensures
        lower_of(u).len() == wtf8_of(u).len(),
        wtf8_of(u).len() <= 3 * u.len(),
{
    lemma_same_length(points(u));
    lemma_points_count(u);
}

/// How many bytes the sequence that starts with `lead` has; 0 when no sequence
/// starts so.
pub open spec fn sequence_len(lead: u8) -> int {
    if lead < 0x80 {
        1
    } else if 0xC0 <= lead < 0xE0 {
        2
    } else if 0xE0 <= lead < 0xF0 {
        3
    } else if 0xF0 <= lead < 0xF8 {
        4
    } else {
        0
    }
}

/// The code point of the sequence at the start of `s`.
pub open spec fn decoded_point(s: Seq<u8>) -> int {
    let n = sequence_len(s[0]);
    if n == 1 {
        s[0] as int
    } else if n == 2 {
        (s[0] % 32) * 64 + s[1] % 64
    } else if n == 3 {
        (s[0] % 16) * 4096 + (s[1] % 64) * 64 + s[2] % 64
    } else {
        (s[0] % 8) * 262144 + (s[1] % 64) * 4096 + (s[2] % 64) * 64 + s[3] % 64
    }
}

/// The UTF-16 units of a code point.
pub open spec fn units_of_point(p: int) -> Seq<u16> {
    if p < 0x10000 {
        seq![p as u16]
    } else {
        seq![
            (0xD800 + (p - 0x10000) / 0x400 % 0x400) as u16,
            (0xDC00 + (p - 0x10000) % 0x400) as u16,
        ]
    }
}

/// The UTF-16 units of WTF-8 bytes; a byte that does not start a whole
/// sequence stands for one replacement character.
pub open spec fn utf16_of(s: Seq<u8>) -> Seq<u16>
    decreases s.len(),
{
    if s.len() == 0 {
        Seq::empty()
    } else {
        let n = sequence_len(s[0]);
        if n == 0 || n > s.len() {
            seq![0xFFFDu16] + utf16_of(s.skip(1))
        } else {
            units_of_point(decoded_point(s)) + utf16_of(s.skip(n))
        }
    }
}

/// Append the UTF-16 units of WTF-8 bytes.
pub fn wtf8_to_utf16(bytes: &[u8], out: &mut Vec<u16>)
    ensures
        final(out)@ == old(out)@ + utf16_of(bytes@),
{
    let ghost s = bytes@;
    let ghost base = out@;
    let mut i: usize = 0;
    assert(s.skip(0) =~= s);
    while i < bytes.len()
        invariant
            i <= s.len(),
            s == bytes@,
            out@ + utf16_of(s.skip(i as int)) == base + utf16_of(s),
        decreases s.len() - i,
    {
        let ghost rest = s.skip(i as int);
        let ghost before = out@;
        let lead: u8 = bytes[i];
        let n: usize = if lead < 0x80 {
            1
        } else if 0xC0 <= lead && lead < 0xE0 {
            2
        } else if 0xE0 <= lead && lead < 0xF0 {
            3
        } else if 0xF0 <= lead && lead < 0xF8 {
            4
        } else {
            0
        };
        if n == 0 || n > bytes.len() - i {
            out.push(0xFFFD);
            proof {
                assert(rest.skip(1) =~= s.skip(i + 1));
                assert(before + (seq![0xFFFDu16] + utf16_of(rest.skip(1))) =~= out@ + utf16_of(
                    rest.skip(1),
                ));
            }
            i = i + 1;
        } else {
            let p: u32 = if n == 1 {
                lead as u32
            } else if n == 2 {
                (lead % 32) as u32 * 64 + (bytes[i + 1] % 64) as u32
            } else if n == 3 {
                (lead % 16) as u32 * 4096 + (bytes[i + 1] % 64) as u32 * 64 + (bytes[i + 2]
                    % 64) as u32
            } else {
                (lead % 8) as u32 * 262144 + (bytes[i + 1] % 64) as u32 * 4096 + (bytes[i + 2]
                    % 64) as u32 * 64 + (bytes[i + 3] % 64) as u32
            };
            if p < 0x10000 {
                out.push(p as u16);
            } else {
                out.push((0xD800 + (p - 0x10000) / 0x400 % 0x400) as u16);
                out.push((0xDC00 + (p - 0x10000) % 0x400) as u16);
            }
            proof {
                assert(p == decoded_point(rest));
                assert(rest.skip(n as int) =~= s.skip(i + n));
                assert(out@ =~= before + units_of_point(p as int));
                assert(before + (units_of_point(p as int) + utf16_of(rest.skip(n as int))) =~= out@
                    + utf16_of(rest.skip(n as int)));
            }
            i = i + n;
        }
    }
    assert(s.skip(i as int) =~= Seq::empty());
    assert(out@ + Seq::<u16>::empty() =~= out@);
}

proof fn lemma_decode_one(p: u32, rest: Seq<u8>)
    requires
        p <= 0x10FFFF,
    ensures
        utf16_of(encoded(p) + rest) == units_of_point(p as int) + utf16_of(rest),
{
    let s = encoded(p) + rest;
    let n = encoded(p).len() as int;
    assert(s.skip(n) =~= rest);
    assert(s[0] == encoded(p)[0]);
    if p < 0x80 {
        assert(sequence_len(s[0]) == 1);
    } else if p < 0x800 {
        assert(s[1] == encoded(p)[1]);
        assert(sequence_len(s[0]) == 2);
        assert(decoded_point(s) == p);
    } else if p < 0x10000 {
        assert(s[1] == encoded(p)[1] && s[2] == encoded(p)[2]);
        assert(sequence_len(s[0]) == 3);
        assert(decoded_point(s) == p);
    } else {
        assert(s[1] == encoded(p)[1] && s[2] == encoded(p)[2] && s[3] == encoded(p)[3]);
        assert(sequence_len(s[0]) == 4);
        assert(decoded_point(s) == p);
    }
}

/// Converting a name to WTF-8 and back gives the same units, whether or not
/// they are well-formed UTF-16.
#[verifier::spinoff_prover]
#[verifier::rlimit(40)]
pub proof fn lemma_wtf8_round_trip(u: Seq<u16>)
    ensures
        utf16_of(wtf8_of(u)) == u,
    decreases u.len(),
{
    if u.len() > 0 {
        let width: int = if u.len() > 1 && is_high(u[0]) && is_low(u[1]) {
            2
        } else {
            1
        };
        let p = points(u)[0];
        let rest = u.skip(width);
        assert(points(u).skip(1) =~= points(rest));
        lemma_wtf8_round_trip(rest);
        lemma_decode_one(p, wtf8_of(rest));
        assert(units_of_point(p as int) =~= u.take(width));
        assert(u.take(width) + rest =~= u);
    }
}

/// The UTF-16 units of a character: one, or a surrogate pair.
pub open spec fn char_units(c: char) -> Seq<u16> {
    if (c as u32) < 0x10000 {
        seq![c as u16]
    } else {
        seq![
            (0xD800 + (c as u32 - 0x10000) / 0x400) as u16,
            (0xDC00 + (c as u32 - 0x10000) % 0x400) as u16,
        ]
    }
}

/// The UTF-16 units of a text.
pub open spec fn text_units(s: Seq<char>) -> Seq<u16>
    decreases s.len(),
{
    if s.len() == 0 {
        Seq::empty()
    } else {
        text_units(s.drop_last()) + char_units(s.last())
    }
}

/// A text as UTF-16 units.
pub fn encode_units(text: &str) -> (units: Vec<u16>)
    ensures
        units@ == text_units(text@),
{
    let mut units: Vec<u16> = Vec::new();
    let n: usize = text.unicode_len();
    let mut i: usize = 0;
    assert(text@.take(0) =~= Seq::empty());
    while i < n
        invariant
            i <= n,
            n == text@.len(),
            units@ == text_units(text@.take(i as int)),
        decreases n - i,
    {
        let c: char = text.get_char(i);
        let p: u32 = c as u32;
        proof {
            assert(text@.take(i + 1).drop_last() =~= text@.take(i as int));
            assert(text@.take(i + 1).last() == c);
        }
        let ghost before = units@;
        if p < 0x10000 {
            units.push(p as u16);
            assert(units@ =~= before + char_units(c));
        } else {
            let q: u32 = p - 0x10000;
            units.push((0xD800 + q / 0x400) as u16);
            units.push((0xDC00 + q % 0x400) as u16);
            assert(units@ =~= before + char_units(c));
        }
        i = i + 1;
    }
    assert(text@.take(i as int) =~= text@);
    units
}

} // verus!
