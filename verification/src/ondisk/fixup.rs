//! The NTFS update-sequence array (fixup) applied to one record buffer.
//!
//! Every record has its last two bytes per sector replaced by a sentinel
//! before it is written, and the displaced bytes are parked in an
//! update-sequence array in the record header.

use vstd::prelude::*;
use vstd::arithmetic::div_mod::*;
use vstd::arithmetic::power2::*;
use crate::bytes::{is_power_of_two, read_u16, u16_at};

verus! {

/// The smallest sector size a record may be protected with.
pub const SECTOR: usize = 512;

/// Where the update-sequence array starts.
pub open spec fn usa_offset(data: Seq<u8>) -> int {
    u16_at(data, 4) as int
}

/// How many two-byte slots the update-sequence array has, the sentinel
/// included.
pub open spec fn usa_count(data: Seq<u8>) -> int {
    u16_at(data, 6) as int
}

/// The record is whole sectors of an accepted size, and its update-sequence
/// array has one slot per sector beside the sentinel, is aligned, and lies
/// between the fixed header and the first attribute.
pub open spec fn layout_valid(data: Seq<u8>, sector_size: int) -> bool {
    &&& SECTOR <= sector_size <= 4096
    &&& is_pow2(sector_size)
    &&& data.len() >= sector_size
    &&& data.len() % (sector_size as nat) == 0
    &&& usa_offset(data) >= 42
    &&& usa_offset(data) % 2 == 0
    &&& usa_count(data) == data.len() as int / sector_size + 1
    &&& usa_offset(data) + 2 * usa_count(data) <= u16_at(data, 20)
    &&& u16_at(data, 20) < data.len()
}

/// Whether byte `i` is one of the last two of its sector.
pub open spec fn is_tail(i: int, sector_size: int) -> bool {
    i % sector_size >= sector_size - 2
}

/// The slot byte that belongs at tail position `i`.
pub open spec fn displaced(data: Seq<u8>, sector_size: int, i: int) -> u8 {
    data[usa_offset(data) + 2 * (i / sector_size + 1) + (i % sector_size - (sector_size - 2))]
}

/// The sentinel byte that belongs at tail position `i` before the fixup.
pub open spec fn sentinel(data: Seq<u8>, sector_size: int, i: int) -> u8 {
    data[usa_offset(data) + (i % sector_size - (sector_size - 2))]
}

/// Every sector of the record ends in the sentinel.
pub open spec fn sentinels_match(data: Seq<u8>, sector_size: int) -> bool {
    forall|i: int|
        0 <= i < data.len() && is_tail(i, sector_size) ==> #[trigger] data[i] == sentinel(
            data,
            sector_size,
            i,
        )
}

/// The record with its displaced bytes put back.
pub open spec fn restored(data: Seq<u8>, sector_size: int) -> Seq<u8> {
    Seq::new(
        data.len(),
        |i: int|
            if is_tail(i, sector_size) {
                displaced(data, sector_size, i)
            } else {
                data[i]
            },
    )
}

proof fn lemma_position(i: int, ss: int)
    requires
        ss >= 512,
        i >= 0,
    ensures
        i == ss * (i / ss) + i % ss,
        0 <= i % ss < ss,
        i / ss >= 0,
{
    lemma_fundamental_div_mod(i, ss);
    lemma_mod_bound(i, ss);
    lemma_div_pos_is_pos(i, ss);
}

proof fn lemma_tail_position(s: int, ss: int, b: int)
    requires
        ss >= 512,
        s >= 1,
        0 <= b < 2,
    ensures
        (s * ss - 2 + b) / ss == s - 1,
        (s * ss - 2 + b) % ss == ss - 2 + b,
        is_tail(s * ss - 2 + b, ss),
        s * ss >= ss,
{
    assert(s * ss - 2 + b == (s - 1) * ss + (ss - 2 + b)) by (nonlinear_arith);
    assert(s * ss >= ss) by (nonlinear_arith)
        requires
            s >= 1,
            ss >= 512,
    ;
    lemma_fundamental_div_mod_converse(s * ss - 2 + b, ss, s - 1, ss - 2 + b);
}

/// Apply the update-sequence array in place. Returns `false`, with the record
/// untouched, when the layout is not acceptable or a sector does not end in
/// the sentinel.
pub fn apply_fixup(data: &mut [u8], sector_size: usize) -> (ok: bool)
    ensures
        ok == (layout_valid(old(data)@, sector_size as int) && sentinels_match(
            old(data)@,
            sector_size as int,
        )),
        ok ==> final(data)@ == restored(old(data)@, sector_size as int),
        !ok ==> final(data)@ == old(data)@,
{
    let (uso, usl): (usize, usize) = match fixup_layout(data, sector_size) {
        Some(layout) => layout,
        None => {
            return false;
        },
    };
    let ghost before = data@;
    let ghost ss = sector_size as int;
    let ghost sectors = before.len() as int / ss;
    proof {
        lemma_fundamental_div_mod(before.len() as int, ss);
        assert(before.len() == ss * sectors);
    }
    let usn0: u8 = data[uso];
    let usn1: u8 = data[uso + 1];
    let mut fixups: Vec<(u8, u8)> = Vec::new();
    let mut i: usize = 1;
    while i < usl
        invariant
            1 <= i <= usl <= 0xffff,
            uso <= 0xffff,
            uso + 2 * usl <= data@.len(),
            fixups@.len() == i - 1,
            forall|k: int|
                0 <= k < i - 1 ==> #[trigger] fixups@[k] == (
                    data@[uso + 2 * (k + 1)],
                    data@[uso + 2 * (k + 1) + 1],
                ),
        decreases usl - i,
    {
        fixups.push((data[uso + 2 * i], data[uso + 2 * i + 1]));
        i = i + 1;
    }
    // Every sector is checked before any is changed, and the array was copied
    // first: an array that overlaps a sector tail cannot alter a later slot.
    let mut sector: usize = 1;
    let mut end: usize = sector_size;
    while sector < usl
        invariant
            1 <= sector <= usl,
            ss == sector_size,
            ss >= 512,
            data@ == before,
            before.len() == ss * sectors,
            usl == sectors + 1,
            uso == usa_offset(before),
            usn0 == before[uso as int],
            usn1 == before[uso + 1],
            sector < usl ==> end == sector * ss,
            sector < usl ==> end <= before.len(),
            forall|j: int|
                0 <= j < (sector - 1) * ss && is_tail(j, ss) ==> #[trigger] before[j] == sentinel(
                    before,
                    ss,
                    j,
                ),
        decreases usl - sector,
    {
        proof {
            lemma_tail_position(sector as int, ss, 0);
            lemma_tail_position(sector as int, ss, 1);
            assert(before[sector * ss - 2] == before[end - 2]);
        }
        if data[end - 2] != usn0 || data[end - 1] != usn1 {
            proof {
                assert(before[end - 2] != sentinel(before, ss, end - 2) || before[end - 1]
                    != sentinel(before, ss, end - 1));
            }
            return false;
        }
        proof {
            assert forall|j: int| 0 <= j < sector * ss && is_tail(j, ss) implies #[trigger] before[j]
                == sentinel(before, ss, j) by {
                lemma_position(j, ss);
                if j >= (sector - 1) * ss {
                    assert(j / ss == sector - 1) by (nonlinear_arith)
                        requires
                            (sector - 1) * ss <= j < sector * ss,
                            j == ss * (j / ss) + j % ss,
                            0 <= j % ss < ss,
                            ss >= 512,
                    ;
                    assert(ss * (sector - 1) == sector * ss - ss) by (nonlinear_arith);
                }
            }
            assert((sector + 1) * ss == sector * ss + ss) by (nonlinear_arith);
            if sector + 1 < usl {
                assert((sector + 1) * ss <= sectors * ss) by (nonlinear_arith)
                    requires
                        sector + 1 <= sectors,
                        ss >= 512,
                ;
                assert(sectors * ss == ss * sectors) by (nonlinear_arith);
            }
        }
        sector = sector + 1;
        if sector < usl {
            end = end + sector_size;
        }
    }
    proof {
        assert((usl - 1) * ss == ss * sectors) by (nonlinear_arith)
            requires
                usl == sectors + 1,
        ;
        assert(sentinels_match(before, ss));
    }
    let mut done: usize = 0;
    let mut tail: usize = sector_size;
    while done < fixups.len()
        invariant
            done <= fixups@.len(),
            ss == sector_size,
            ss >= 512,
            fixups@.len() == sectors,
            before.len() == ss * sectors,
            data@.len() == before.len(),
            uso == usa_offset(before),
            uso + 2 * (sectors + 1) <= before.len(),
            done < fixups@.len() ==> tail == (done + 1) * ss,
            done < fixups@.len() ==> tail <= before.len(),
            forall|k: int|
                0 <= k < sectors ==> #[trigger] fixups@[k] == (
                    before[uso + 2 * (k + 1)],
                    before[uso + 2 * (k + 1) + 1],
                ),
            forall|j: int|
                0 <= j < before.len() ==> #[trigger] data@[j] == (if j < done * ss {
                    restored(before, ss)[j]
                } else {
                    before[j]
                }),
        decreases fixups@.len() - done,
    {
        let (first, second): (u8, u8) = fixups[done];
        proof {
            lemma_tail_position(done + 1, ss, 0);
            lemma_tail_position(done + 1, ss, 1);
        }
        let ghost prior = data@;
        data[tail - 2] = first;
        data[tail - 1] = second;
        proof {
            assert((done + 1) * ss == done * ss + ss) by (nonlinear_arith);
            assert forall|j: int| 0 <= j < before.len() implies #[trigger] data@[j] == (if j < (done
                + 1) * ss {
                restored(before, ss)[j]
            } else {
                before[j]
            }) by {
                lemma_position(j, ss);
                assert(prior[j] == (if j < done * ss {
                    restored(before, ss)[j]
                } else {
                    before[j]
                }));
                if done * ss <= j < (done + 1) * ss {
                    assert(j / ss == done) by (nonlinear_arith)
                        requires
                            done * ss <= j < (done + 1) * ss,
                            j == ss * (j / ss) + j % ss,
                            0 <= j % ss < ss,
                            ss >= 512,
                    ;
                    assert(ss * done == done * ss) by (nonlinear_arith);
                    assert(fixups@[done as int] == (
                        before[uso + 2 * (done + 1)],
                        before[uso + 2 * (done + 1) + 1],
                    ));
                }
            }
            if done + 1 < sectors {
                assert((done + 2) * ss == (done + 1) * ss + ss) by (nonlinear_arith);
                assert((done + 2) * ss <= sectors * ss) by (nonlinear_arith)
                    requires
                        done + 2 <= sectors,
                        ss >= 512,
                ;
                assert(sectors * ss == ss * sectors) by (nonlinear_arith);
            }
        }
        done = done + 1;
        if done < fixups.len() {
            tail = tail + sector_size;
        }
    }
    proof {
        assert(sectors * ss == ss * sectors) by (nonlinear_arith);
        assert(data@ =~= restored(before, ss));
    }
    true
}

/// The offset and slot count of the update-sequence array, when the record's
/// layout is acceptable for `sector_size`.
pub fn fixup_layout(data: &[u8], sector_size: usize) -> (r: Option<(usize, usize)>)
    ensures
        r is Some <==> layout_valid(data@, sector_size as int),
        r matches Some(l) ==> l.0 == usa_offset(data@) && l.1 == usa_count(data@),
{
    if sector_size < SECTOR || sector_size > 4096 || !is_power_of_two(sector_size as u64)
        || data.len() < sector_size || data.len() % sector_size != 0 {
        return None;
    }
    let uso: usize = read_u16(data, 4) as usize;
    let usl: usize = read_u16(data, 6) as usize;
    proof {
        lemma_fundamental_div_mod(data@.len() as int, sector_size as int);
        assert(data@.len() / sector_size as nat <= data@.len() / 512) by (nonlinear_arith)
            requires
                data@.len() == sector_size * (data@.len() / sector_size as nat),
                sector_size >= 512,
        ;
    }
    let expected: usize = data.len() / sector_size + 1;
    let usa_end: usize = uso + usl * 2;
    let attributes_offset: usize = read_u16(data, 20) as usize;
    if uso < 42 || uso % 2 != 0 || usl != expected || usa_end > data.len() || usa_end
        > attributes_offset || attributes_offset >= data.len() {
        return None;
    }
    Some((uso, usl))
}

} // verus!
