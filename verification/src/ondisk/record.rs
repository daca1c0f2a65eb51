//! Structural validation for one fixed-up NTFS file record.
//!
//! Index construction cannot accept an attribute prefix: a prefix is not a
//! complete hard-link set, so the entire attribute chain is validated first.

use vstd::prelude::*;
use crate::bytes::{read_u16, read_u32, u16_at, u32_at};

verus! {

/// Wire size of the fixed part of a file record.
pub const FILE_RECORD_HEADER_BYTES: usize = 42;

/// Wire size of the header that all attributes share.
pub const ATTRIBUTE_HEADER_BYTES: usize = 16;

/// Wire size of a resident attribute's header.
pub const RESIDENT_HEADER_BYTES: usize = 24;

/// Wire size of a non-resident attribute's header, before its mapping pairs.
pub const NONRESIDENT_HEADER_BYTES: usize = 64;

/// Type code that ends an attribute chain.
pub const ATTRIBUTE_END: u32 = 0xFFFF_FFFF;

/// Largest attribute type code that is accepted.
pub const MAX_ATTRIBUTE_TYPE: u32 = 0x100;

/// Type code of `$STANDARD_INFORMATION`.
pub const STANDARD_INFORMATION_ATTRIBUTE: u32 = 0x10;

/// Type code of `$ATTRIBUTE_LIST`.
pub const ATTRIBUTE_LIST_ATTRIBUTE: u32 = 0x20;

/// Type code of `$FILE_NAME`.
pub const FILE_NAME_ATTRIBUTE: u32 = 0x30;

/// Where the attribute chain starts.
pub open spec fn chain_start(r: Seq<u8>) -> int {
    u16_at(r, 20) as int
}

/// How many bytes of the record are in use.
pub open spec fn used_size(r: Seq<u8>) -> int {
    u32_at(r, 24) as int
}

/// The sizes of the record agree with its buffer, and the attribute chain
/// starts aligned behind the header, inside the used bytes.
pub open spec fn header_valid(r: Seq<u8>) -> bool {
    &&& r.len() >= FILE_RECORD_HEADER_BYTES
    &&& u32_at(r, 28) == r.len()
    &&& used_size(r) <= r.len()
    &&& FILE_RECORD_HEADER_BYTES <= chain_start(r) < used_size(r)
    &&& chain_start(r) % 8 == 0
}

/// The type code of the attribute at `off`.
pub open spec fn type_at(r: Seq<u8>, off: int) -> u32 {
    u32_at(r, off)
}

/// The declared length of the attribute at `off`.
pub open spec fn length_at(r: Seq<u8>, off: int) -> int {
    u32_at(r, off + 4) as int
}

/// The instance id of the attribute at `off`.
pub open spec fn id_at(r: Seq<u8>, off: int) -> u16 {
    u16_at(r, off + 14)
}

/// The number of UTF-16 units in the name of the attribute at `off`.
pub open spec fn name_units_at(r: Seq<u8>, off: int) -> int {
    r[off + 9] as int
}

/// Where the name of the attribute at `off` starts, within the attribute.
pub open spec fn name_start_at(r: Seq<u8>, off: int) -> int {
    u16_at(r, off + 10) as int
}

/// Where the name of the attribute at `off` ends, within the attribute.
pub open spec fn name_end_at(r: Seq<u8>, off: int) -> int {
    name_start_at(r, off) + 2 * name_units_at(r, off)
}

/// A resident attribute holds its value behind its header and behind its
/// name, if it has one.
pub open spec fn resident_valid(r: Seq<u8>, off: int) -> bool {
    let value_length = u32_at(r, off + 16) as int;
    let value_offset = u16_at(r, off + 20) as int;
    &&& length_at(r, off) >= RESIDENT_HEADER_BYTES
    &&& value_offset >= RESIDENT_HEADER_BYTES
    &&& value_offset + value_length <= length_at(r, off)
    &&& name_units_at(r, off) > 0 ==> RESIDENT_HEADER_BYTES <= name_start_at(r, off)
        && name_end_at(r, off) <= value_offset
}

/// A non-resident attribute is of a type that may be, and holds its mapping
/// pairs aligned behind its header and its name, if it has one.
pub open spec fn nonresident_valid(r: Seq<u8>, off: int) -> bool {
    let mapping = u16_at(r, off + 32) as int;
    &&& type_at(r, off) != STANDARD_INFORMATION_ATTRIBUTE
    &&& type_at(r, off) != FILE_NAME_ATTRIBUTE
    &&& length_at(r, off) >= NONRESIDENT_HEADER_BYTES
    &&& NONRESIDENT_HEADER_BYTES <= mapping < length_at(r, off)
    &&& mapping % 8 == 0
    &&& name_units_at(r, off) > 0 ==> NONRESIDENT_HEADER_BYTES <= name_start_at(r, off)
        && name_end_at(r, off) <= mapping
}

/// The attribute at `off` is well formed on its own.
pub open spec fn attribute_valid(r: Seq<u8>, off: int) -> bool {
    let type_id = type_at(r, off);
    &&& 0 < type_id <= MAX_ATTRIBUTE_TYPE
    &&& type_id % 0x10 == 0
    &&& length_at(r, off) % 8 == 0
    &&& (type_id == STANDARD_INFORMATION_ATTRIBUTE || type_id == ATTRIBUTE_LIST_ATTRIBUTE || type_id
        == FILE_NAME_ATTRIBUTE) ==> name_units_at(r, off) == 0 && u16_at(r, off + 12) == 0
    &&& name_units_at(r, off) > 0 ==> name_end_at(r, off) <= length_at(r, off)
    &&& (r[off + 8] == 0 && resident_valid(r, off)) || (r[off + 8] == 1 && nonresident_valid(r, off))
}

/// The offsets of the attributes from `off` to the end mark, or `None` when
/// the chain runs out of the first `used` bytes before its end mark.
pub open spec fn chain(r: Seq<u8>, used: int, off: int) -> Option<Seq<int>>
    decreases used - off,
{
    if off < 0 || off + 8 > used {
        None
    } else if type_at(r, off) == ATTRIBUTE_END {
        Some(Seq::empty())
    } else if off + ATTRIBUTE_HEADER_BYTES > used || length_at(r, off) < ATTRIBUTE_HEADER_BYTES
        || off + length_at(r, off) > used {
        None
    } else {
        match chain(r, used, off + length_at(r, off)) {
            Some(rest) => Some(seq![off] + rest),
            None => None,
        }
    }
}

/// The attributes at `offs` are well formed, in type order, and no two share
/// an instance id.
pub open spec fn attributes_valid(r: Seq<u8>, offs: Seq<int>) -> bool {
    &&& forall|i: int| 0 <= i < offs.len() ==> attribute_valid(r, #[trigger] offs[i])
    &&& forall|i: int, j: int|
        0 <= i < j < offs.len() ==> type_at(r, #[trigger] offs[i]) <= type_at(r, #[trigger] offs[j])
            && id_at(r, offs[i]) != id_at(r, offs[j])
}

/// The whole attribute chain of the record is bounded, terminated and valid.
pub open spec fn record_complete(r: Seq<u8>) -> bool {
    &&& header_valid(r)
    &&& match chain(r, used_size(r), chain_start(r)) {
        Some(offs) => attributes_valid(r, offs),
        None => false,
    }
}

/// The instance ids held by a bit set for the ids below 128 and a list for
/// the others.
pub open spec fn id_seen(low_ids: u128, high_ids: Seq<u16>, id: u16) -> bool {
    if id < 128 {
        low_ids & (1u128 << id) != 0
    } else {
        high_ids.contains(id)
    }
}

proof fn lemma_set_bit(low: u128, id: u16, other: u16)
    requires
        id < 128,
        other < 128,
    ensures
        (low | (1u128 << id)) & (1u128 << other) != 0 <==> (low & (1u128 << other) != 0 || id
            == other),
{
    assert((low | (1u128 << id)) & (1u128 << other) != 0 <==> (low & (1u128 << other) != 0 || id
        == other)) by (bit_vector)
        requires
            id < 128,
            other < 128,
    ;
}

/// Note an instance id; `false` when it was noted before.
fn unique_attribute_id(id: u16, low_ids: &mut u128, high_ids: &mut Vec<u16>) -> (fresh: bool)
    ensures
        fresh == !id_seen(*old(low_ids), old(high_ids)@, id),
        fresh ==> forall|other: u16|
            #[trigger] id_seen(*final(low_ids), final(high_ids)@, other) <==> id_seen(
                *old(low_ids),
                old(high_ids)@,
                other,
            ) || other == id,
        !fresh ==> *final(low_ids) == *old(low_ids) && final(high_ids)@ == old(high_ids)@,
{
    if id < 128 {
        let bit: u128 = 1u128 << id;
        if *low_ids & bit != 0 {
            return false;
        }
        let ghost before = *low_ids;
        *low_ids = *low_ids | bit;
        proof {
            assert forall|other: u16| #[trigger]
                id_seen(*low_ids, high_ids@, other) <==> id_seen(before, high_ids@, other) || other
                    == id by {
                if other < 128 {
                    lemma_set_bit(before, id, other);
                }
            }
        }
        true
    } else {
        let mut i: usize = 0;
        while i < high_ids.len()
            invariant
                i <= high_ids@.len(),
                id >= 128,
                high_ids@ == old(high_ids)@,
                *low_ids == *old(low_ids),
                forall|k: int| 0 <= k < i ==> high_ids@[k] != id,
            decreases high_ids@.len() - i,
        {
            if high_ids[i] == id {
                assert(high_ids@[i as int] == id);
                return false;
            }
            i = i + 1;
        }
        let ghost before = high_ids@;
        high_ids.push(id);
        proof {
            assert forall|other: u16| #[trigger]
                id_seen(*low_ids, high_ids@, other) <==> id_seen(*low_ids, before, other) || other
                    == id by {
                if other >= 128 {
                    assert(high_ids@[before.len() as int] == id);
                    if before.contains(other) {
                        let k = choose|k: int| 0 <= k < before.len() && before[k] == other;
                        assert(high_ids@[k] == other);
                    }
                }
            }
        }
        true
    }
}

/// `rest`, when there is one, with `visited` in front of it.
spec fn joined(visited: Seq<int>, rest: Option<Seq<int>>) -> Option<Seq<int>> {
    match rest {
        Some(tail) => Some(visited + tail),
        None => None,
    }
}

/// An attribute that is not valid, or does not fit behind the visited ones,
/// spoils every chain through it.
proof fn lemma_spoiled(r: Seq<u8>, used: int, first: int, visited: Seq<int>, off: int)
    requires
        chain(r, used, first) == joined(visited, chain(r, used, off)),
        0 <= off,
        off + 8 <= used,
        type_at(r, off) != ATTRIBUTE_END,
        !attribute_valid(r, off) || exists|i: int|
            0 <= i < visited.len() && (type_at(r, #[trigger] visited[i]) > type_at(r, off) || id_at(
                r,
                visited[i],
            ) == id_at(r, off)),
    ensures
        match chain(r, used, first) {
            Some(offs) => !attributes_valid(r, offs),
            None => true,
        },
{
    match chain(r, used, off) {
        Some(tail) => {
            let offs = visited + tail;
            assert(tail[0] == off);
            assert(offs[visited.len() as int] == off);
            if attribute_valid(r, off) {
                let i = choose|i: int|
                    0 <= i < visited.len() && (type_at(r, #[trigger] visited[i]) > type_at(r, off)
                        || id_at(r, visited[i]) == id_at(r, off));
                assert(offs[i] == visited[i]);
            }
        },
        None => {},
    }
}

/// True only when the complete attribute chain is bounded, aligned, and
/// terminated, and every attribute in it is well formed.
pub fn attributes_complete(record: &[u8]) -> (ok: bool)
    ensures
        ok == record_complete(record@),
{
    if record.len() < FILE_RECORD_HEADER_BYTES {
        return false;
    }
    let used: usize = read_u32(record, 24) as usize;
    let allocated: usize = read_u32(record, 28) as usize;
    let start: usize = read_u16(record, 20) as usize;
    let mut offset: usize = start;
    if allocated != record.len() || used > allocated || offset < FILE_RECORD_HEADER_BYTES || offset
        % 8 != 0 || offset >= used {
        return false;
    }
    let ghost r = record@;
    let mut low_ids: u128 = 0;
    let mut high_ids: Vec<u16> = Vec::new();
    let mut previous_type: u32 = 0;
    let ghost mut visited: Seq<int> = Seq::empty();
    proof {
        assert forall|id: u16| !(#[trigger] id_seen(low_ids, high_ids@, id)) by {
            assert(id < 128 ==> 0u128 & (1u128 << id) == 0) by (bit_vector);
        }
        assert(chain(r, used as int, start as int) == joined(
            visited,
            chain(r, used as int, offset as int),
        )) by {
            match chain(r, used as int, offset as int) {
                Some(tail) => {
                    assert(visited + tail =~= tail);
                },
                None => {},
            }
        }
    }
    loop
        invariant
            r == record@,
            header_valid(r),
            used == used_size(r),
            start == chain_start(r),
            offset <= used <= r.len(),
            chain(r, used as int, start as int) == joined(
                visited,
                chain(r, used as int, offset as int),
            ),
            attributes_valid(r, visited),
            visited.len() == 0 ==> previous_type == 0,
            visited.len() > 0 ==> previous_type == type_at(r, visited.last()),
            forall|id: u16| #[trigger]
                id_seen(low_ids, high_ids@, id) <==> exists|i: int|
                    0 <= i < visited.len() && id_at(r, #[trigger] visited[i]) == id,
        decreases used - offset,
    {
        if used - offset < 8 {
            return false;
        }
        let type_id: u32 = read_u32(record, offset);
        if type_id == ATTRIBUTE_END {
            proof {
                assert(visited + Seq::<int>::empty() =~= visited);
            }
            return true;
        }
        if type_id == 0 || type_id > MAX_ATTRIBUTE_TYPE || type_id % 0x10 != 0 || type_id
            < previous_type {
            proof {
                if attribute_valid(r, offset as int) {
                    assert(type_at(r, visited[visited.len() - 1]) > type_at(r, offset as int));
                }
                lemma_spoiled(r, used as int, start as int, visited, offset as int);
            }
            return false;
        }
        if used - offset < ATTRIBUTE_HEADER_BYTES {
            return false;
        }
        let length: usize = read_u32(record, offset + 4) as usize;
        if length < ATTRIBUTE_HEADER_BYTES || length > used - offset {
            return false;
        }
        if length % 8 != 0 {
            proof {
                lemma_spoiled(r, used as int, start as int, visited, offset as int);
            }
            return false;
        }
        let id: u16 = read_u16(record, offset + 14);
        if !unique_attribute_id(id, &mut low_ids, &mut high_ids) {
            proof {
                assert(id_seen(low_ids, high_ids@, id));
                lemma_spoiled(r, used as int, start as int, visited, offset as int);
            }
            return false;
        }
        if !attribute_body_valid(record, offset, used) {
            proof {
                lemma_spoiled(r, used as int, start as int, visited, offset as int);
            }
            return false;
        }
        proof {
            let next = visited.push(offset as int);
            match chain(r, used as int, offset + length) {
                Some(tail) => {
                    assert(visited + (seq![offset as int] + tail) =~= next + tail);
                },
                None => {},
            }
            assert forall|i: int, j: int| 0 <= i < j < next.len() implies type_at(
                r,
                #[trigger] next[i],
            ) <= type_at(r, #[trigger] next[j]) && id_at(r, next[i]) != id_at(r, next[j]) by {
                if j == visited.len() {
                    assert(next[i] == visited[i]);
                    assert(visited.last() == visited[visited.len() - 1]);
                }
            }
            assert forall|other: u16| #[trigger]
                id_seen(low_ids, high_ids@, other) <==> exists|i: int|
                    0 <= i < next.len() && id_at(r, #[trigger] next[i]) == other by {
                assert(next[visited.len() as int] == offset);
                if exists|i: int| 0 <= i < visited.len() && id_at(r, #[trigger] visited[i])
                    == other {
                    let i = choose|i: int|
                        0 <= i < visited.len() && id_at(r, #[trigger] visited[i]) == other;
                    assert(next[i] == visited[i]);
                }
                if exists|i: int| 0 <= i < next.len() && id_at(r, #[trigger] next[i]) == other {
                    let i = choose|i: int|
                        0 <= i < next.len() && id_at(r, #[trigger] next[i]) == other;
                    if i < visited.len() {
                        assert(next[i] == visited[i]);
                    }
                }
            }
            visited = next;
        }
        previous_type = type_id;
        offset = offset + length;
    }
}

/// The name, flags and value ranges of the attribute at `offset`, whose type
/// code and length were checked.
fn attribute_body_valid(record: &[u8], offset: usize, used: usize) -> (ok: bool)
    requires
        used <= record@.len(),
        offset + ATTRIBUTE_HEADER_BYTES <= offset + length_at(record@, offset as int) <= used,
        length_at(record@, offset as int) % 8 == 0,
        0 < type_at(record@, offset as int) <= MAX_ATTRIBUTE_TYPE,
        type_at(record@, offset as int) % 0x10 == 0,
    ensures
        ok == attribute_valid(record@, offset as int),
{
    let type_id: u32 = read_u32(record, offset);
    let length: usize = read_u32(record, offset + 4) as usize;
    let name_units: usize = record[offset + 9] as usize;
    let flags: u16 = read_u16(record, offset + 12);
    let plain: bool = type_id == STANDARD_INFORMATION_ATTRIBUTE || type_id
        == ATTRIBUTE_LIST_ATTRIBUTE || type_id == FILE_NAME_ATTRIBUTE;
    if plain && (name_units != 0 || flags != 0) {
        return false;
    }
    let name_start: usize = read_u16(record, offset + 10) as usize;
    let name_end: usize = name_start + 2 * name_units;
    if name_units > 0 && name_end > length {
        return false;
    }
    let form: u8 = record[offset + 8];
    if form == 0 {
        if length < RESIDENT_HEADER_BYTES {
            return false;
        }
        let value_length: usize = read_u32(record, offset + 16) as usize;
        let value_offset: usize = read_u16(record, offset + 20) as usize;
        value_offset >= RESIDENT_HEADER_BYTES && (name_units == 0 || (name_start
            >= RESIDENT_HEADER_BYTES && value_offset >= name_end)) && value_offset <= length
            && value_length <= length - value_offset
    } else if form == 1 {
        if type_id == STANDARD_INFORMATION_ATTRIBUTE || type_id == FILE_NAME_ATTRIBUTE || length
            < NONRESIDENT_HEADER_BYTES {
            return false;
        }
        let mapping: usize = read_u16(record, offset + 32) as usize;
        mapping >= NONRESIDENT_HEADER_BYTES && mapping % 8 == 0 && mapping < length && (name_units
            == 0 || (name_start >= NONRESIDENT_HEADER_BYTES && mapping >= name_end))
    } else {
        false
    }
}

} // verus!
