//! Little-endian integers inside byte sequences.

use vstd::prelude::*;
use vstd::arithmetic::power2::*;

verus! {

/// The unsigned 16-bit value stored at `off`.
pub open spec fn u16_at(s: Seq<u8>, off: int) -> u16 {
    (s[off] as int + 0x100 * (s[off + 1] as int)) as u16
}

/// The unsigned 32-bit value stored at `off`.
pub open spec fn u32_at(s: Seq<u8>, off: int) -> u32 {
    (u16_at(s, off) as int + 0x1_0000 * (u16_at(s, off + 2) as int)) as u32
}

/// The unsigned 64-bit value stored at `off`.
pub open spec fn u64_at(s: Seq<u8>, off: int) -> u64 {
    (u32_at(s, off) as int + 0x1_0000_0000 * (u32_at(s, off + 4) as int)) as u64
}

/// The two's complement reading of a 64-bit pattern.
pub open spec fn signed_of(v: u64) -> i64 {
    if v < 0x8000_0000_0000_0000 {
        v as i64
    } else {
        (v - 0x1_0000_0000_0000_0000) as i64
    }
}

/// The signed 64-bit value stored at `off`.
pub open spec fn i64_at(s: Seq<u8>, off: int) -> i64 {
    signed_of(u64_at(s, off))
}

/// The number that bytes spell, the lowest byte first.
pub open spec fn spelled(s: Seq<u8>) -> int
    decreases s.len(),
{
    if s.len() == 0 {
        0
    } else {
        s[0] + 0x100 * spelled(s.skip(1))
    }
}

/// The bytes from `from` to `to` spell a number.
pub open spec fn spelled_at(s: Seq<u8>, from: int, to: int) -> int {
    spelled(s.subrange(from, to))
}

/// What one more byte at the front adds.
proof fn lemma_spelled_step(s: Seq<u8>, from: int, to: int)
    requires
        0 <= from < to <= s.len(),
    ensures
        spelled_at(s, from, to) == s[from] + 0x100 * spelled_at(s, from + 1, to),
{
    assert(s.subrange(from, to).skip(1) =~= s.subrange(from + 1, to));
}

/// A stored value is the number that its own bytes spell, the lowest first.
pub proof fn lemma_u16_is_spelled(s: Seq<u8>, off: int)
    requires
        0 <= off,
        off + 2 <= s.len(),
    ensures
        u16_at(s, off) == spelled_at(s, off, off + 2),
        spelled_at(s, off, off + 2) == s[off] + 0x100 * s[off + 1],
{
    lemma_spelled_step(s, off, off + 2);
    lemma_spelled_step(s, off + 1, off + 2);
}

/// A stored value is the number that its own bytes spell, the lowest first.
pub proof fn lemma_u32_is_spelled(s: Seq<u8>, off: int)
    requires
        0 <= off,
        off + 4 <= s.len(),
    ensures
        u32_at(s, off) == spelled_at(s, off, off + 4),
        spelled_at(s, off, off + 4) == s[off] + 0x100 * s[off + 1] + 0x1_0000 * s[off + 2]
            + 0x100_0000 * s[off + 3],
{
    lemma_spelled_step(s, off, off + 4);
    lemma_spelled_step(s, off + 1, off + 4);
    lemma_spelled_step(s, off + 2, off + 4);
    lemma_spelled_step(s, off + 3, off + 4);
}

/// A stored value is the number that its own bytes spell, the lowest first.
pub proof fn lemma_u64_is_spelled(s: Seq<u8>, off: int)
    requires
        0 <= off,
        off + 8 <= s.len(),
    ensures
        u64_at(s, off) == spelled_at(s, off, off + 8),
        spelled_at(s, off, off + 8) == s[off] + 0x100 * s[off + 1] + 0x1_0000 * s[off + 2]
            + 0x100_0000 * s[off + 3] + 0x1_0000_0000 * s[off + 4] + 0x100_0000_0000 * s[off + 5]
            + 0x1_0000_0000_0000 * s[off + 6] + 0x100_0000_0000_0000 * s[off + 7],
{
    lemma_u32_is_spelled(s, off);
    lemma_u32_is_spelled(s, off + 4);
    lemma_spelled_step(s, off, off + 8);
    lemma_spelled_step(s, off + 1, off + 8);
    lemma_spelled_step(s, off + 2, off + 8);
    lemma_spelled_step(s, off + 3, off + 8);
}

/// Signed values are those of the same bytes, with those that have the highest
/// bit set below zero.
pub proof fn lemma_i64_is_spelled(s: Seq<u8>, off: int)
    requires
        0 <= off,
        off + 8 <= s.len(),
    ensures
        s[off + 7] < 0x80 ==> i64_at(s, off) == spelled_at(s, off, off + 8),
        s[off + 7] >= 0x80 ==> i64_at(s, off) == spelled_at(s, off, off + 8)
            - 0x1_0000_0000_0000_0000,
{
    lemma_u64_is_spelled(s, off);
}

/// As many bytes that spell the same number are the same.
pub proof fn lemma_spelled_apart(a: Seq<u8>, b: Seq<u8>)
    requires
        a.len() == b.len(),
        spelled(a) == spelled(b),
    ensures
        a == b,
    decreases a.len(),
{
    if a.len() > 0 {
        lemma_spelled_apart(a.skip(1), b.skip(1));
        assert forall|i: int| 0 <= i < a.len() implies a[i] == b[i] by {
            if i > 0 {
                assert(a[i] == a.skip(1)[i - 1]);
                assert(b[i] == b.skip(1)[i - 1]);
            }
        }
    }
    assert(a =~= b);
}

/// The bytes of a value spell it.
pub proof fn lemma_bytes_spell(v: u64, w: u32)
    ensures
        u64_bytes(v).len() == 8,
        spelled(u64_bytes(v)) == v,
        u32_bytes(w).len() == 4,
        spelled(u32_bytes(w)) == w,
{
    let a = u64_bytes(v);
    let b = u32_bytes(w);
    assert(a.subrange(0, 8) =~= a);
    assert(b.subrange(0, 4) =~= b);
    lemma_u64_bytes(a, 0, v);
    lemma_u32_bytes(b, 0, w);
    lemma_u64_is_spelled(a, 0);
    lemma_u32_is_spelled(b, 0);
}

/// Read the 16-bit value at `off`.
pub fn read_u16(data: &[u8], off: usize) -> (r: u16)
    requires
        off + 2 <= data@.len(),
    ensures
        r == u16_at(data@, off as int),
{
    data[off] as u16 + 0x100 * (data[off + 1] as u16)
}

/// Read the 32-bit value at `off`.
pub fn read_u32(data: &[u8], off: usize) -> (r: u32)
    requires
        off + 4 <= data@.len(),
    ensures
        r == u32_at(data@, off as int),
{
    assert(off + 4 <= data.len());
    read_u16(data, off) as u32 + 0x1_0000 * (read_u16(data, off + 2) as u32)
}

/// Read the 64-bit value at `off`.
pub fn read_u64(data: &[u8], off: usize) -> (r: u64)
    requires
        off + 8 <= data@.len(),
    ensures
        r == u64_at(data@, off as int),
{
    assert(off + 8 <= data.len());
    read_u32(data, off) as u64 + 0x1_0000_0000 * (read_u32(data, off + 4) as u64)
}

/// Reinterpret a 64-bit pattern as two's complement.
pub fn to_signed(v: u64) -> (r: i64)
    ensures
        r == signed_of(v),
{
    if v < 0x8000_0000_0000_0000 {
        v as i64
    } else {
        -((u64::MAX - v) as i64) - 1
    }
}

/// Read the signed 64-bit value at `off`.
pub fn read_i64(data: &[u8], off: usize) -> (r: i64)
    requires
        off + 8 <= data@.len(),
    ensures
        r == i64_at(data@, off as int),
{
    to_signed(read_u64(data, off))
}

/// Whether `off..off + width` lies inside a buffer of `len` bytes.
pub open spec fn in_bounds(len: int, off: int, width: int) -> bool {
    0 <= off && off + width <= len
}

/// The 16-bit value at `off`, if the buffer holds it.
pub fn le_u16(data: &[u8], off: usize) -> (r: Option<u16>)
    ensures
        r == (if in_bounds(data@.len() as int, off as int, 2) {
            Some(u16_at(data@, off as int))
        } else {
            None
        }),
{
    if data.len() >= 2 && off <= data.len() - 2 {
        Some(read_u16(data, off))
    } else {
        None
    }
}

/// The 32-bit value at `off`, if the buffer holds it.
pub fn le_u32(data: &[u8], off: usize) -> (r: Option<u32>)
    ensures
        r == (if in_bounds(data@.len() as int, off as int, 4) {
            Some(u32_at(data@, off as int))
        } else {
            None
        }),
{
    if data.len() >= 4 && off <= data.len() - 4 {
        Some(read_u32(data, off))
    } else {
        None
    }
}

/// The 64-bit value at `off`, if the buffer holds it.
pub fn le_u64(data: &[u8], off: usize) -> (r: Option<u64>)
    ensures
        r == (if in_bounds(data@.len() as int, off as int, 8) {
            Some(u64_at(data@, off as int))
        } else {
            None
        }),
{
    if data.len() >= 8 && off <= data.len() - 8 {
        Some(read_u64(data, off))
    } else {
        None
    }
}

/// The bytes of a 32-bit value.
pub open spec fn u32_bytes(v: u32) -> Seq<u8> {
    seq![
        (v % 0x100) as u8,
        (v / 0x100 % 0x100) as u8,
        (v / 0x1_0000 % 0x100) as u8,
        (v / 0x100_0000) as u8,
    ]
}

/// The bytes of a 64-bit value.
pub open spec fn u64_bytes(v: u64) -> Seq<u8> {
    u32_bytes((v % 0x1_0000_0000) as u32) + u32_bytes((v / 0x1_0000_0000) as u32)
}

/// The two's complement pattern of a signed value.
pub open spec fn pattern_of(v: i64) -> u64 {
    if v >= 0 {
        v as u64
    } else {
        (v + 0x1_0000_0000_0000_0000) as u64
    }
}

/// A value is read back from its bytes.
pub proof fn lemma_u32_bytes(s: Seq<u8>, off: int, v: u32)
    requires
        0 <= off,
        off + 4 <= s.len(),
        s.subrange(off, off + 4) == u32_bytes(v),
    ensures
        u32_at(s, off) == v,
{
    let b = s.subrange(off, off + 4);
    assert(b[0] == s[off] && b[1] == s[off + 1] && b[2] == s[off + 2] && b[3] == s[off + 3]);
    assert(v == v % 0x100 + 0x100 * (v / 0x100 % 0x100) + 0x1_0000 * (v / 0x1_0000 % 0x100)
        + 0x100_0000 * (v / 0x100_0000));
}

/// A value is read back from its bytes.
pub proof fn lemma_u64_bytes(s: Seq<u8>, off: int, v: u64)
    requires
        0 <= off,
        off + 8 <= s.len(),
        s.subrange(off, off + 8) == u64_bytes(v),
    ensures
        u64_at(s, off) == v,
{
    let b = s.subrange(off, off + 8);
    let lo = (v % 0x1_0000_0000) as u32;
    let hi = (v / 0x1_0000_0000) as u32;
    assert(s.subrange(off, off + 4) =~= u32_bytes(lo)) by {
        assert(b.subrange(0, 4) =~= u32_bytes(lo));
        assert(s.subrange(off, off + 4) =~= b.subrange(0, 4));
    }
    assert(s.subrange(off + 4, off + 8) =~= u32_bytes(hi)) by {
        assert(b.subrange(4, 8) =~= u32_bytes(hi));
        assert(s.subrange(off + 4, off + 8) =~= b.subrange(4, 8));
    }
    lemma_u32_bytes(s, off, lo);
    lemma_u32_bytes(s, off + 4, hi);
}

/// A signed value is read back from its pattern.
pub proof fn lemma_pattern(v: i64)
    ensures
        signed_of(pattern_of(v)) == v,
{
}

/// The two's complement pattern of a signed value.
pub fn to_pattern(v: i64) -> (r: u64)
    ensures
        r == pattern_of(v),
{
    if v >= 0 {
        v as u64
    } else {
        u64::MAX - (-(v + 1)) as u64
    }
}

/// Append the bytes of a 32-bit value.
pub fn push_u32(out: &mut Vec<u8>, v: u32)
    ensures
        final(out)@ == old(out)@ + u32_bytes(v),
{
    out.push((v % 0x100) as u8);
    out.push((v / 0x100 % 0x100) as u8);
    out.push((v / 0x1_0000 % 0x100) as u8);
    out.push((v / 0x100_0000) as u8);
    assert(out@ =~= old(out)@ + u32_bytes(v));
}

/// Append the bytes of a 64-bit value.
pub fn push_u64(out: &mut Vec<u8>, v: u64)
    ensures
        final(out)@ == old(out)@ + u64_bytes(v),
{
    push_u32(out, (v % 0x1_0000_0000) as u32);
    push_u32(out, (v / 0x1_0000_0000) as u32);
    assert(out@ =~= old(out)@ + u64_bytes(v));
}

/// The bytes of 32-bit values.
pub open spec fn u32s_bytes(v: Seq<u32>) -> Seq<u8>
    decreases v.len(),
{
    if v.len() == 0 {
        Seq::empty()
    } else {
        u32s_bytes(v.drop_last()) + u32_bytes(v.last())
    }
}

/// The bytes of 64-bit values.
pub open spec fn u64s_bytes(v: Seq<u64>) -> Seq<u8>
    decreases v.len(),
{
    if v.len() == 0 {
        Seq::empty()
    } else {
        u64s_bytes(v.drop_last()) + u64_bytes(v.last())
    }
}

/// The 32-bit values of bytes.
pub open spec fn u32s_of(b: Seq<u8>) -> Seq<u32> {
    Seq::new((b.len() / 4) as nat, |i: int| u32_at(b, 4 * i))
}

/// The 64-bit values of bytes.
pub open spec fn u64s_of(b: Seq<u8>) -> Seq<u64> {
    Seq::new((b.len() / 8) as nat, |i: int| u64_at(b, 8 * i))
}

proof fn lemma_u32s_at(v: Seq<u32>, i: int)
    requires
        0 <= i < v.len(),
    ensures
        u32s_bytes(v).len() == 4 * v.len(),
        u32s_bytes(v).subrange(4 * i, 4 * i + 4) == u32_bytes(v[i]),
    decreases v.len(),
{
    let d = v.drop_last();
    if d.len() > 0 {
        lemma_u32s_at(d, if i < d.len() { i } else { 0 });
    }
    assert(u32s_bytes(d).len() == 4 * d.len());
    if i < d.len() {
        assert(u32s_bytes(v).subrange(4 * i, 4 * i + 4) =~= u32s_bytes(d).subrange(
            4 * i,
            4 * i + 4,
        ));
    } else {
        assert(u32s_bytes(v).subrange(4 * i, 4 * i + 4) =~= u32_bytes(v[i]));
    }
}

/// 32-bit values are read back from their bytes.
pub proof fn lemma_u32s(v: Seq<u32>)
    ensures
        u32s_bytes(v).len() == 4 * v.len(),
        u32s_of(u32s_bytes(v)) == v,
{
    if v.len() > 0 {
        lemma_u32s_at(v, 0);
    }
    let b = u32s_bytes(v);
    assert forall|i: int| 0 <= i < v.len() implies #[trigger] u32s_of(b)[i] == v[i] by {
        lemma_u32s_at(v, i);
        lemma_u32_bytes(b, 4 * i, v[i]);
    }
    assert(u32s_of(b) =~= v);
}

proof fn lemma_u64s_at(v: Seq<u64>, i: int)
    requires
        0 <= i < v.len(),
    ensures
        u64s_bytes(v).len() == 8 * v.len(),
        u64s_bytes(v).subrange(8 * i, 8 * i + 8) == u64_bytes(v[i]),
    decreases v.len(),
{
    let d = v.drop_last();
    if d.len() > 0 {
        lemma_u64s_at(d, if i < d.len() { i } else { 0 });
    }
    assert(u64s_bytes(d).len() == 8 * d.len());
    if i < d.len() {
        assert(u64s_bytes(v).subrange(8 * i, 8 * i + 8) =~= u64s_bytes(d).subrange(
            8 * i,
            8 * i + 8,
        ));
    } else {
        assert(u64s_bytes(v).subrange(8 * i, 8 * i + 8) =~= u64_bytes(v[i]));
    }
}

/// 64-bit values are read back from their bytes.
pub proof fn lemma_u64s(v: Seq<u64>)
    ensures
        u64s_bytes(v).len() == 8 * v.len(),
        u64s_of(u64s_bytes(v)) == v,
{
    if v.len() > 0 {
        lemma_u64s_at(v, 0);
    }
    let b = u64s_bytes(v);
    assert forall|i: int| 0 <= i < v.len() implies #[trigger] u64s_of(b)[i] == v[i] by {
        lemma_u64s_at(v, i);
        lemma_u64_bytes(b, 8 * i, v[i]);
    }
    assert(u64s_of(b) =~= v);
}

/// Append the bytes of 32-bit values.
pub fn push_u32s(out: &mut Vec<u8>, v: &[u32])
    ensures
        final(out)@ == old(out)@ + u32s_bytes(v@),
{
    let ghost before = out@;
    let mut i: usize = 0;
    proof {
        assert(v@.take(0) =~= Seq::empty());
        assert(before + u32s_bytes(v@.take(0)) =~= before);
    }
    while i < v.len()
        invariant
            i <= v@.len(),
            out@ == before + u32s_bytes(v@.take(i as int)),
        decreases v@.len() - i,
    {
        push_u32(out, v[i]);
        proof {
            assert(v@.take(i + 1).drop_last() =~= v@.take(i as int));
            assert(v@.take(i + 1).last() == v@[i as int]);
            assert(out@ =~= before + u32s_bytes(v@.take(i + 1)));
        }
        i = i + 1;
    }
    assert(v@.take(i as int) =~= v@);
}

/// Append the bytes of 64-bit values.
pub fn push_u64s(out: &mut Vec<u8>, v: &[u64])
    ensures
        final(out)@ == old(out)@ + u64s_bytes(v@),
{
    let ghost before = out@;
    let mut i: usize = 0;
    proof {
        assert(v@.take(0) =~= Seq::empty());
        assert(before + u64s_bytes(v@.take(0)) =~= before);
    }
    while i < v.len()
        invariant
            i <= v@.len(),
            out@ == before + u64s_bytes(v@.take(i as int)),
        decreases v@.len() - i,
    {
        push_u64(out, v[i]);
        proof {
            assert(v@.take(i + 1).drop_last() =~= v@.take(i as int));
            assert(v@.take(i + 1).last() == v@[i as int]);
            assert(out@ =~= before + u64s_bytes(v@.take(i + 1)));
        }
        i = i + 1;
    }
    assert(v@.take(i as int) =~= v@);
}

/// The 32-bit values of bytes.
pub fn take_u32s(b: &[u8]) -> (r: Vec<u32>)
    ensures
        r@ == u32s_of(b@),
{
    let n: usize = b.len() / 4;
    let mut r: Vec<u32> = Vec::new();
    let mut i: usize = 0;
    while i < n
        invariant
            n == b@.len() / 4,
            b@.len() <= usize::MAX,
            i <= n,
            r@.len() == i,
            forall|k: int| 0 <= k < i ==> #[trigger] r@[k] == u32_at(b@, 4 * k),
        decreases n - i,
    {
        r.push(read_u32(b, 4 * i));
        i = i + 1;
    }
    assert(r@ =~= u32s_of(b@));
    r
}

/// The 64-bit values of bytes.
pub fn take_u64s(b: &[u8]) -> (r: Vec<u64>)
    ensures
        r@ == u64s_of(b@),
{
    let n: usize = b.len() / 8;
    let mut r: Vec<u64> = Vec::new();
    let mut i: usize = 0;
    while i < n
        invariant
            n == b@.len() / 8,
            b@.len() <= usize::MAX,
            i <= n,
            r@.len() == i,
            forall|k: int| 0 <= k < i ==> #[trigger] r@[k] == u64_at(b@, 8 * k),
        decreases n - i,
    {
        r.push(read_u64(b, 8 * i));
        i = i + 1;
    }
    assert(r@ =~= u64s_of(b@));
    r
}

/// Decide whether `x` is a power of two.
pub fn is_power_of_two(x: u64) -> (r: bool)
    ensures
        r == is_pow2(x as int),
{
    reveal(is_pow2);
    let mut rest: u64 = x;
    while rest > 1 && rest % 2 == 0
        invariant
            is_pow2(rest as int) == is_pow2(x as int),
        decreases rest,
    {
        reveal(is_pow2);
        rest = rest / 2;
    }
    rest == 1
}

} // verus!
