//! Building texts: characters, widths in UTF-8, decimal numbers.

use vstd::prelude::*;

verus! {

/// `String::push`: the character is appended.
#[verifier::external_body]
pub(crate) fn push_char(out: &mut String, c: char)
    ensures
        final(out)@ == old(out)@.push(c),
{
    out.push(c);
}

/// The characters of a text.
pub fn chars_of(text: &str) -> (r: Vec<char>)
    ensures
        r@ == text@,
{
    let mut r: Vec<char> = Vec::new();
    for c in it: text.chars()
        invariant
            it.seq() == text@,
            r@ == text@.take(it.index() as int),
    {
        r.push(c);
        assert(r@ =~= text@.take(it.index() + 1));
    }
    assert(text@.take(text@.len() as int) =~= text@);
    r
}

/// Append characters.
pub fn push_chars(out: &mut String, chars: &[char])
    ensures
        final(out)@ == old(out)@ + chars@,
{
    let ghost start = out@;
    let mut i: usize = 0;
    assert(start + chars@.take(0) =~= start);
    while i < chars.len()
        invariant
            i <= chars@.len(),
            out@ == start + chars@.take(i as int),
        decreases chars@.len() - i,
    {
        push_char(out, chars[i]);
        assert(chars@.take(i + 1) =~= chars@.take(i as int).push(chars@[i as int]));
        assert((start + chars@.take(i as int)).push(chars@[i as int]) =~= start + chars@.take(i + 1));
        i = i + 1;
    }
    assert(chars@.take(i as int) =~= chars@);
}

/// How many bytes a character takes in UTF-8.
pub open spec fn char_width(c: char) -> int {
    if (c as u32) < 0x80 {
        1
    } else if (c as u32) < 0x800 {
        2
    } else if (c as u32) < 0x1_0000 {
        3
    } else {
        4
    }
}

/// How many bytes a text takes in UTF-8.
pub open spec fn text_width(s: Seq<char>) -> int
    decreases s.len(),
{
    if s.len() == 0 {
        0
    } else {
        text_width(s.drop_last()) + char_width(s.last())
    }
}

/// The first `k` characters are the longest start of the text that takes no
/// more than `cap` bytes.
pub open spec fn fits(s: Seq<char>, cap: int, k: int) -> bool {
    &&& 0 <= k <= s.len()
    &&& text_width(s.take(k)) <= cap
    &&& k < s.len() ==> text_width(s.take(k + 1)) > cap
}

/// The longest start of a text that takes no more than `cap` bytes.
pub open spec fn clipped(s: Seq<char>, cap: int) -> Seq<char> {
    s.take(choose|k: int| fits(s, cap, k))
}

proof fn lemma_width_grows(s: Seq<char>, j: int, k: int)
    requires
        0 <= j <= k <= s.len(),
    ensures
        0 <= text_width(s.take(j)),
        text_width(s.take(j)) + (k - j) <= text_width(s.take(k)),
    decreases k,
{
    if k > 0 {
        assert(s.take(k).drop_last() =~= s.take(k - 1));
        if j < k {
            lemma_width_grows(s, j, k - 1);
        } else {
            lemma_width_grows(s, j - 1, k - 1);
        }
    }
}

proof fn lemma_fits_once(s: Seq<char>, cap: int, j: int, k: int)
    requires
        fits(s, cap, j),
        fits(s, cap, k),
    ensures
        j == k,
{
    if j < k {
        lemma_width_grows(s, j + 1, k);
    } else if k < j {
        lemma_width_grows(s, k + 1, j);
    }
}

/// A text that fits is not clipped, and one that does not is.
pub proof fn lemma_clipped(s: Seq<char>, cap: int)
    requires
        cap >= 0,
    ensures
        text_width(s) <= cap ==> clipped(s, cap) == s,
        text_width(clipped(s, cap)) <= cap,
        clipped(s, cap).len() <= s.len(),
        clipped(s, cap) == s.take(clipped(s, cap).len() as int),
        clipped(s, cap).len() < s.len() ==> text_width(s.take(clipped(s, cap).len() as int + 1)) > cap,
{
    lemma_fit_exists(s, cap, s.len() as int);
    let k = choose|k: int| fits(s, cap, k);
    assert(s.take(s.len() as int) =~= s);
    if text_width(s) <= cap {
        lemma_fits_once(s, cap, k, s.len() as int);
    }
}

proof fn lemma_fit_exists(s: Seq<char>, cap: int, n: int)
    requires
        0 <= n <= s.len(),
        cap >= 0,
        n < s.len() ==> text_width(s.take(n + 1)) > cap,
    ensures
        exists|k: int| fits(s, cap, k),
    decreases n,
{
    if text_width(s.take(n)) <= cap {
        assert(fits(s, cap, n));
    } else if n > 0 {
        lemma_fit_exists(s, cap, n - 1);
    } else {
        assert(s.take(0).len() == 0);
    }
}

/// How many characters of a text fit `cap` bytes.
pub fn clip_len(s: &[char], cap: usize) -> (r: usize)
    ensures
        r <= s@.len(),
        s@.take(r as int) == clipped(s@, cap as int),
        r == s@.len() <==> text_width(s@) <= cap,
{
    let mut width: usize = 0;
    let mut i: usize = 0;
    assert(s@.take(0).len() == 0);
    while i < s.len()
        invariant
            i <= s@.len(),
            width == text_width(s@.take(i as int)),
            width <= cap,
        decreases s@.len() - i,
    {
        let p: u32 = s[i] as u32;
        let w: usize = if p < 0x80 {
            1
        } else if p < 0x800 {
            2
        } else if p < 0x1_0000 {
            3
        } else {
            4
        };
        proof {
            assert(s@.take(i + 1).drop_last() =~= s@.take(i as int));
        }
        if w > cap - width {
            proof {
                lemma_fit_exists(s@, cap as int, s@.len() as int);
                lemma_fits_once(
                    s@,
                    cap as int,
                    i as int,
                    choose|k: int| fits(s@, cap as int, k),
                );
                lemma_width_grows(s@, i + 1, s@.len() as int);
                assert(s@.take(s@.len() as int) =~= s@);
            }
            return i;
        }
        width = width + w;
        i = i + 1;
    }
    proof {
        lemma_fit_exists(s@, cap as int, s@.len() as int);
        lemma_fits_once(s@, cap as int, i as int, choose|k: int| fits(s@, cap as int, k));
        assert(s@.take(s@.len() as int) =~= s@);
    }
    i
}

/// The character of a digit.
pub open spec fn digit(n: int) -> char {
    (0x30 + n) as char
}

/// A number in decimal digits, without leading zeros.
pub open spec fn decimal(n: nat) -> Seq<char>
    decreases n,
{
    if n < 10 {
        seq![digit(n as int)]
    } else {
        decimal(n / 10).push(digit((n % 10) as int))
    }
}

/// `n` in at least `width` decimal digits, with leading zeros.
pub open spec fn padded(n: nat, width: nat) -> Seq<char> {
    let d = decimal(n);
    if d.len() < width {
        Seq::new((width - d.len()) as nat, |i: int| '0') + d
    } else {
        d
    }
}

fn digit_of(n: u8) -> (r: char)
    requires
        n < 10,
    ensures
        r == digit(n as int),
{
    (0x30 + n) as char
}

/// Append a number in decimal digits.
pub fn push_decimal(out: &mut String, n: u64)
    ensures
        final(out)@ == old(out)@ + decimal(n as nat),
    decreases n,
{
    let ghost start = out@;
    if n >= 10 {
        push_decimal(out, n / 10);
        push_char(out, digit_of((n % 10) as u8));
        assert(out@ =~= start + decimal(n as nat));
    } else {
        push_char(out, digit_of(n as u8));
        assert(out@ =~= start + decimal(n as nat));
    }
}

proof fn lemma_decimal_len(n: nat, width: nat)
    requires
        width >= 1,
        n < vstd::arithmetic::power::pow(10, width),
    ensures
        1 <= decimal(n).len() <= width,
    decreases width,
{
    vstd::arithmetic::power::lemma_pow1(10);
    if n >= 10 {
        if width == 1 {
        } else {
            vstd::arithmetic::power::lemma_pow_adds(10, (width - 1) as nat, 1);
            assert(vstd::arithmetic::power::pow(10, width) == vstd::arithmetic::power::pow(
                10,
                (width - 1) as nat,
            ) * 10);
            lemma_decimal_len(n / 10, (width - 1) as nat);
        }
    }
}

/// A number of no more than `width` digits, padded to `width`, takes exactly
/// that many characters.
pub proof fn lemma_padded_len(n: nat, width: nat)
    requires
        width >= 1,
        n < vstd::arithmetic::power::pow(10, width),
    ensures
        padded(n, width).len() == width,
{
    lemma_decimal_len(n, width);
}

/// Append a number in at least `width` decimal digits.
pub fn push_padded(out: &mut String, n: u64, width: usize)
    ensures
        final(out)@ == old(out)@ + padded(n as nat, width as nat),
{
    let ghost start = out@;
    let mut digits: u64 = 1;
    let mut rest: u64 = n;
    let ghost d = decimal(n as nat);
    while rest >= 10
        invariant
            digits + decimal(rest as nat).len() - 1 == d.len(),
            digits >= 1,
            digits + rest <= n + 1,
        decreases rest,
    {
        proof {
            assert(decimal(rest as nat).len() == decimal((rest / 10) as nat).len() + 1);
            lemma_some_digit((rest / 10) as nat);
        }
        rest = rest / 10;
        digits = digits + 1;
    }
    assert(digits == d.len());
    let mut i: u64 = digits;
    let wanted: u64 = width as u64;
    assert(start =~= start + Seq::new(0, |i: int| '0'));
    while i < wanted
        invariant
            digits == d.len(),
            digits <= i,
            i <= wanted || i == digits,
            out@ == start + Seq::new((i - digits) as nat, |i: int| '0'),
        decreases wanted - i,
    {
        push_char(out, '0');
        i = i + 1;
        assert(out@ =~= start + Seq::new((i - digits) as nat, |i: int| '0'));
    }
    push_decimal(out, n);
    assert(out@ =~= start + padded(n as nat, width as nat));
}

proof fn lemma_some_digit(n: nat)
    ensures
        decimal(n).len() >= 1,
    decreases n,
{
    if n >= 10 {
        lemma_some_digit(n / 10);
    }
}

/// The number that digits spell.
pub open spec fn value_of(s: Seq<char>) -> int
    decreases s.len(),
{
    if s.len() == 0 {
        0
    } else {
        10 * value_of(s.drop_last()) + (s.last() as u32 - 0x30)
    }
}

/// Nothing but digits.
pub open spec fn all_digits(s: Seq<char>) -> bool {
    forall|i: int| 0 <= i < s.len() ==> 0x30 <= (#[trigger] s[i]) as u32 <= 0x39
}

/// A number in decimal digits spells that number, and begins with a zero only
/// where it is one.
pub proof fn lemma_decimal_reads(n: nat)
    ensures
        value_of(decimal(n)) == n,
        all_digits(decimal(n)),
        decimal(n).len() > 0,
        n > 0 ==> decimal(n)[0] as u32 != 0x30,
        n == 0 ==> decimal(n).len() == 1,
    decreases n,
{
    let s = decimal(n);
    if n < 10 {
        assert(s.drop_last().len() == 0);
        assert(value_of(s.drop_last()) == 0);
    } else {
        lemma_decimal_reads(n / 10);
        assert(s.drop_last() =~= decimal(n / 10));
        assert(s[0] == decimal(n / 10)[0]);
    }
}

proof fn lemma_zeros_before(k: nat, s: Seq<char>)
    requires
        all_digits(s),
    ensures
        value_of(Seq::new(k, |i: int| '0') + s) == value_of(s),
        all_digits(Seq::new(k, |i: int| '0') + s),
    decreases s.len(), k,
{
    let z = Seq::new(k, |i: int| '0');
    let t = z + s;
    if s.len() > 0 {
        let front = s.drop_last();
        assert(all_digits(front)) by {
            assert forall|i: int| 0 <= i < front.len() implies 0x30 <= (#[trigger] front[i]) as u32
                <= 0x39 by {
                assert(front[i] == s[i]);
            }
        }
        lemma_zeros_before(k, front);
        assert(t.drop_last() =~= z + front);
        assert(t.last() == s.last());
    } else if k > 0 {
        lemma_zeros_before((k - 1) as nat, s);
        assert(t.drop_last() =~= Seq::new((k - 1) as nat, |i: int| '0') + s);
        assert(t.last() == '0');
    } else {
        assert(t =~= s);
    }
}

/// A padded number spells the number; it is as wide as asked for, or wider
/// where its digits are more.
pub proof fn lemma_padded_reads(n: nat, width: nat)
    ensures
        value_of(padded(n, width)) == n,
        all_digits(padded(n, width)),
        padded(n, width).len() >= width,
        padded(n, width).len() > width ==> padded(n, width) == decimal(n),
{
    lemma_decimal_reads(n);
    let d = decimal(n);
    if d.len() < width {
        lemma_zeros_before((width - d.len()) as nat, d);
    }
}

/// A character is as wide as it is long in UTF-8, and so is a text.
pub proof fn lemma_width_is_utf8(s: Seq<char>)
    ensures
        text_width(s) == vstd::utf8::encode_utf8(s).len(),
    decreases s.len(),
{
    if s.len() > 0 {
        let front = s.drop_last();
        lemma_width_is_utf8(front);
        lemma_utf8_push(front, s.last());
        assert(s =~= front.push(s.last()));
        vstd::utf8::char_is_scalar(s.last());
    }
}

proof fn lemma_utf8_push(s: Seq<char>, c: char)
    ensures
        vstd::utf8::encode_utf8(s.push(c)) == vstd::utf8::encode_utf8(s)
            + vstd::utf8::encode_scalar(c as u32),
    decreases s.len(),
{
    let t = s.push(c);
    if s.len() == 0 {
        assert(vstd::utf8::encode_utf8(t.drop_first()).len() == 0);
        assert(vstd::utf8::encode_utf8(t) =~= vstd::utf8::encode_utf8(s)
            + vstd::utf8::encode_scalar(c as u32));
    } else {
        lemma_utf8_push(s.drop_first(), c);
        assert(t.drop_first() =~= s.drop_first().push(c));
        assert(vstd::utf8::encode_utf8(t) =~= vstd::utf8::encode_utf8(s)
            + vstd::utf8::encode_scalar(c as u32));
    }
}

} // verus!
