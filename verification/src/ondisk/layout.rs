//! Where the facts of a file stand in the bytes of its record.

use vstd::prelude::*;
use crate::bytes::{
    lemma_i64_is_spelled, lemma_u16_is_spelled, lemma_u32_is_spelled, lemma_u64_is_spelled,
    spelled_at,
};
use crate::mft::searchable;
use super::attribute_list::{entry_header_valid, entry_length, entry_of};
use super::ntfs::{
    attribute_decodes, attribute_header_of, boot_geometry, boot_valid, file_header_of,
    file_name_of, file_valid, nonresident_of, resident_value, standard_info_of, units_of,
    NtfsFile, NtfsAttribute, NtfsFileNameHeader, NtfsStandardInformation,
};

verus! {

/// The type, the length, the residency, the name and the number of an
/// attribute are in its first sixteen bytes, one behind the other.
pub proof fn lemma_attribute_header_layout(s: Seq<u8>)
    requires
        s.len() >= 16,
    ensures
        attribute_header_of(s).type_id == spelled_at(s, 0, 4),
        attribute_header_of(s).length == spelled_at(s, 4, 8),
        attribute_header_of(s).is_non_resident == s[8],
        attribute_header_of(s).name_length == s[9],
        attribute_header_of(s).name_offset == spelled_at(s, 10, 12),
        attribute_header_of(s).flags == spelled_at(s, 12, 14),
        attribute_header_of(s).id == spelled_at(s, 14, 16),
{
    lemma_u32_is_spelled(s, 0);
    lemma_u32_is_spelled(s, 4);
    lemma_u16_is_spelled(s, 10);
    lemma_u16_is_spelled(s, 12);
    lemma_u16_is_spelled(s, 14);
}

/// Where bytes are an attribute at all: they hold a header of the length that
/// its residency takes, the length that it declares, and its name behind the
/// header.
pub proof fn lemma_attribute_accepted(s: Seq<u8>)
    requires
        s.len() >= 16,
    ensures
        attribute_decodes(s) <==> {
            let head = if s[8] == 0 {
                24int
            } else {
                64int
            };
            let length = spelled_at(s, 4, 8);
            let name = spelled_at(s, 10, 12);
            &&& spelled_at(s, 0, 4) != 0xFFFF_FFFF
            &&& s[8] <= 1
            &&& head <= length <= s.len()
            &&& s[9] == 0 || (head <= name && name + 2 * s[9] <= length)
        },
{
    lemma_attribute_header_layout(s);
}

/// The value of a resident attribute: its length is stored at 16 and its start
/// at 20, and it lies behind the header and inside the attribute.
pub proof fn lemma_resident_layout(s: Seq<u8>)
    requires
        s.len() >= 24,
    ensures
        ({
            let n = spelled_at(s, 16, 20);
            let at = spelled_at(s, 20, 22);
            if s[8] == 0 && 24 <= at && at + n <= s.len() {
                &&& resident_value(s) is Some
                &&& resident_value(s)->0.len() == n
                &&& forall|i: int| 0 <= i < n ==> #[trigger] resident_value(s)->0[i] == s[at + i]
            } else {
                resident_value(s) is None
            }
        }),
{
    lemma_u32_is_spelled(s, 16);
    lemma_u16_is_spelled(s, 20);
}

/// The clusters that a non-resident attribute maps, where its mapping pairs
/// start, and the bytes that it holds: the size at 48, not the allocated one
/// at 40 nor the initialised one at 56.
pub proof fn lemma_nonresident_layout(s: Seq<u8>)
    requires
        s.len() >= 64,
    ensures
        nonresident_of(s) is Some <==> s[8] == 1 && 64 <= spelled_at(s, 32, 34) <= s.len(),
        nonresident_of(s) matches Some(h) ==> {
            &&& h.data_runs_offset == spelled_at(s, 32, 34)
            &&& h.data_size == spelled_at(s, 48, 56)
            &&& s[23] < 0x80 ==> h.lowest_vcn == spelled_at(s, 16, 24)
            &&& s[23] >= 0x80 ==> h.lowest_vcn == spelled_at(s, 16, 24) - 0x1_0000_0000_0000_0000
            &&& s[31] < 0x80 ==> h.highest_vcn == spelled_at(s, 24, 32)
            &&& s[31] >= 0x80 ==> h.highest_vcn == spelled_at(s, 24, 32) - 0x1_0000_0000_0000_0000
        },
{
    lemma_i64_is_spelled(s, 16);
    lemma_i64_is_spelled(s, 24);
    lemma_u16_is_spelled(s, 32);
    lemma_u64_is_spelled(s, 48);
}

/// The standard information of a file: the time of the last write is stored
/// behind the time of creation, in the eight bytes from 8 on of the value, and
/// the attributes behind all four times, in the four bytes from 32 on.
pub proof fn lemma_standard_info_layout(s: Seq<u8>)
    requires
        s.len() >= 24,
    ensures
        ({
            let n = spelled_at(s, 16, 20);
            let at = spelled_at(s, 20, 22);
            if spelled_at(s, 0, 4) == 0x10 && s[8] == 0 && 24 <= at && n >= 36 && at + n
                <= s.len() {
                &&& standard_info_of(s) is Some
                &&& standard_info_of(s)->0.modification_time == spelled_at(s, at + 8, at + 16)
                &&& standard_info_of(s)->0.file_attributes == spelled_at(s, at + 32, at + 36)
            } else {
                standard_info_of(s) is None
            }
        }),
{
    lemma_u32_is_spelled(s, 0);
    lemma_resident_layout(s);
    let n = spelled_at(s, 16, 20);
    let at = spelled_at(s, 20, 22);
    if s[8] == 0 && 24 <= at && n >= 36 && at + n <= s.len() {
        let v = resident_value(s)->0;
        assert(v.subrange(8, 16) =~= s.subrange(at + 8, at + 16));
        assert(v.subrange(32, 36) =~= s.subrange(at + 32, at + 36));
        lemma_u64_is_spelled(v, 8);
        lemma_u32_is_spelled(v, 32);
    }
}

/// Two attributes that differ in nothing but the times of creation, of the
/// change of the record and of the last access give the same information.
pub proof fn lemma_other_times_do_not_count(a: Seq<u8>, b: Seq<u8>)
    requires
        a.len() == b.len(),
        a.len() >= 24,
        forall|i: int|
            0 <= i < a.len() && !(spelled_at(a, 20, 22) <= i < spelled_at(a, 20, 22) + 8) && !(
            spelled_at(a, 20, 22) + 16 <= i < spelled_at(a, 20, 22) + 32) ==> #[trigger] a[i]
                == b[i],
        spelled_at(a, 20, 22) >= 24,
    ensures
        standard_info_of(a) == standard_info_of(b),
{
    lemma_u32_is_spelled(a, 0);
    lemma_u32_is_spelled(b, 0);
    lemma_u32_is_spelled(a, 16);
    lemma_u32_is_spelled(b, 16);
    lemma_u16_is_spelled(a, 20);
    lemma_u16_is_spelled(b, 20);
    lemma_standard_info_layout(a);
    lemma_standard_info_layout(b);
    let n = spelled_at(a, 16, 20);
    let at = spelled_at(a, 20, 22);
    if at + n <= a.len() && n >= 36 {
        assert(a.subrange(at + 8, at + 16) =~= b.subrange(at + 8, at + 16));
        assert(a.subrange(at + 32, at + 36) =~= b.subrange(at + 32, at + 36));
    }
}

/// Files written at different times, or with different attributes, give
/// different information.
pub proof fn lemma_last_write_counts(a: Seq<u8>, b: Seq<u8>)
    requires
        a.len() >= 24,
        b.len() >= 24,
        standard_info_of(a) is Some,
        standard_info_of(b) is Some,
    ensures
        ({
            let x = spelled_at(a, 20, 22);
            let y = spelled_at(b, 20, 22);
            standard_info_of(a) == standard_info_of(b) <==> a.subrange(x + 8, x + 16) == b.subrange(
                y + 8,
                y + 16,
            ) && a.subrange(x + 32, x + 36) == b.subrange(y + 32, y + 36)
        }),
{
    lemma_standard_info_layout(a);
    lemma_standard_info_layout(b);
    let x = spelled_at(a, 20, 22);
    let y = spelled_at(b, 20, 22);
    lemma_u64_is_spelled(a, x + 8);
    lemma_u64_is_spelled(b, y + 8);
    lemma_u32_is_spelled(a, x + 32);
    lemma_u32_is_spelled(b, y + 32);
    let (p, q) = (a.subrange(x + 8, x + 16), b.subrange(y + 8, y + 16));
    let (u, v) = (a.subrange(x + 32, x + 36), b.subrange(y + 32, y + 36));
    if standard_info_of(a) == standard_info_of(b) {
        crate::bytes::lemma_spelled_apart(p, q);
        crate::bytes::lemma_spelled_apart(u, v);
    }
}

/// The name of a file: its directory is in the first eight bytes of the value,
/// its length in units at 64, its namespace at 65, and the name itself is all
/// that follows.
pub proof fn lemma_file_name_layout(s: Seq<u8>)
    requires
        s.len() >= 24,
    ensures
        file_name_of(s) matches Some(name) ==> {
            let n = spelled_at(s, 16, 20);
            let at = spelled_at(s, 20, 22);
            &&& spelled_at(s, 0, 4) == 0x30
            &&& s[8] == 0
            &&& 24 <= at && at + n <= s.len()
            &&& name.0.parent_directory_reference == spelled_at(s, at, at + 8)
            &&& name.0.parent_directory_reference >= 0x1_0000_0000_0000
            &&& name.0.name_length == s[at + 64]
            &&& name.0.name_length > 0
            &&& name.0.namespace == s[at + 65]
            &&& name.0.namespace <= 3
            &&& name.1 == s.subrange(at + 66, at + n)
            &&& name.1.len() == 2 * name.0.name_length
            &&& forall|i: int|
                0 <= i < name.0.name_length ==> {
                    let unit = #[trigger] units_of(name.1)[i];
                    unit != 0 && unit != 0x2F && unit != 0x5C
                }
        },
{
    lemma_u32_is_spelled(s, 0);
    lemma_resident_layout(s);
    if file_name_of(s) is Some {
        let n = spelled_at(s, 16, 20);
        let at = spelled_at(s, 20, 22);
        let v = resident_value(s)->0;
        let name = file_name_of(s)->0;
        assert(v.subrange(0, 8) =~= s.subrange(at, at + 8));
        lemma_u64_is_spelled(v, 0);
        assert(v[64] == s[at + 64] && v[65] == s[at + 65]);
        assert(name.1 =~= s.subrange(at + 66, at + n));
        assert forall|i: int| 0 <= i < name.0.name_length implies {
            let unit = #[trigger] units_of(name.1)[i];
            unit != 0 && unit != 0x2F && unit != 0x5C
        } by {
            assert(units_of(name.1)[i] == crate::bytes::u16_at(v, 66 + 2 * i)) by {
                assert(name.1[2 * i] == v[66 + 2 * i]);
                assert(name.1[2 * i + 1] == v[66 + 2 * i + 1]);
            }
            assert(super::ntfs::name_unit_valid(crate::bytes::u16_at(v, 66 + 2 * i)));
        }
    }
}

/// Every well-formed name is accepted.
pub proof fn lemma_file_name_accepted(s: Seq<u8>)
    requires
        s.len() >= 24,
        spelled_at(s, 0, 4) == 0x30,
        s[8] == 0,
        24 <= spelled_at(s, 20, 22),
        spelled_at(s, 20, 22) + spelled_at(s, 16, 20) <= s.len(),
        spelled_at(s, 16, 20) >= 66,
        spelled_at(s, 16, 20) == 66 + 2 * s[spelled_at(s, 20, 22) + 64],
        s[spelled_at(s, 20, 22) + 64] > 0,
        s[spelled_at(s, 20, 22) + 65] <= 3,
        spelled_at(s, spelled_at(s, 20, 22), spelled_at(s, 20, 22) + 8) >= 0x1_0000_0000_0000,
        forall|i: int|
            0 <= i < s[spelled_at(s, 20, 22) + 64] ==> {
                let unit = #[trigger] spelled_at(
                    s,
                    spelled_at(s, 20, 22) + 66 + 2 * i,
                    spelled_at(s, 20, 22) + 68 + 2 * i,
                );
                unit != 0 && unit != 0x2F && unit != 0x5C
            },
    ensures
        file_name_of(s) is Some,
{
    lemma_u32_is_spelled(s, 0);
    lemma_resident_layout(s);
    let at = spelled_at(s, 20, 22);
    let v = resident_value(s)->0;
    assert(v.subrange(0, 8) =~= s.subrange(at, at + 8));
    lemma_u64_is_spelled(v, 0);
    assert(v[64] == s[at + 64] && v[65] == s[at + 65]);
    assert forall|i: int| 0 <= i < v[64] implies super::ntfs::name_unit_valid(
        #[trigger] crate::bytes::u16_at(v, super::ntfs::FILE_NAME_HEADER_BYTES + 2 * i),
    ) by {
        assert(v.subrange(66 + 2 * i, 68 + 2 * i) =~= s.subrange(
            at + 66 + 2 * i,
            at + 68 + 2 * i,
        ));
        lemma_u16_is_spelled(v, 66 + 2 * i);
        let unit = spelled_at(s, at + 66 + 2 * i, at + 68 + 2 * i);
        assert(unit != 0);
    }
}

/// The units of a name are its bytes two by two, the lower byte first.
pub proof fn lemma_units_layout(s: Seq<u8>)
    ensures
        units_of(s).len() == s.len() / 2,
        forall|i: int|
            0 <= i < s.len() / 2 ==> #[trigger] units_of(s)[i] == s[2 * i] + 0x100 * s[2 * i + 1],
{
}

/// The generation of a record, where its attributes start, whether it is in
/// use and a directory, how much of it is used, and the record that it belongs
/// to.
pub proof fn lemma_record_header_layout(s: Seq<u8>)
    requires
        s.len() >= 40,
    ensures
        file_header_of(s).sequence_value == spelled_at(s, 16, 18),
        file_header_of(s).attributes_offset == spelled_at(s, 20, 22),
        file_header_of(s).flags == spelled_at(s, 22, 24),
        file_header_of(s).used_size == spelled_at(s, 24, 28),
        file_header_of(s).allocated_size == spelled_at(s, 28, 32),
        file_header_of(s).base_reference == spelled_at(s, 32, 40),
{
    lemma_u16_is_spelled(s, 16);
    lemma_u16_is_spelled(s, 20);
    lemma_u16_is_spelled(s, 22);
    lemma_u32_is_spelled(s, 24);
    lemma_u32_is_spelled(s, 28);
    lemma_u64_is_spelled(s, 32);
}

/// A record that is accepted starts with `FILE`, fills its buffer, has one
/// saved pair of bytes for each sector and one more, keeps its attributes
/// behind those, and carries a generation where it is in use.
pub proof fn lemma_accepted_record(s: Seq<u8>, sector_size: int)
    requires
        file_valid(s, sector_size),
    ensures
        s[0] == 0x46 && s[1] == 0x49 && s[2] == 0x4C && s[3] == 0x45,
        512 <= sector_size <= 4096,
        s.len() as int % sector_size == 0,
        spelled_at(s, 6, 8) == s.len() as int / sector_size + 1,
        42 <= spelled_at(s, 4, 6),
        spelled_at(s, 4, 6) + 2 * spelled_at(s, 6, 8) <= spelled_at(s, 20, 22),
        spelled_at(s, 28, 32) == s.len(),
        spelled_at(s, 20, 22) < spelled_at(s, 24, 28) <= s.len(),
        spelled_at(s, 20, 22) % 8 == 0,
        s[22] % 2 == 1 ==> spelled_at(s, 16, 18) != 0,
        spelled_at(s, 32, 40) == 0 || spelled_at(s, 32, 40) >= 0x1_0000_0000_0000,
{
    lemma_record_header_layout(s);
    lemma_u16_is_spelled(s, 4);
    lemma_u16_is_spelled(s, 6);
    lemma_u16_is_spelled(s, 22);
    lemma_flag_bits(file_header_of(s).flags, s[22], s[23]);
}

/// The two lowest bits of a pair of bytes are those of the first.
proof fn lemma_flag_bits(flags: u16, low: u8, high: u8)
    requires
        flags == low + 0x100 * high,
    ensures
        flags & 1 != 0 <==> low % 2 == 1,
        flags & 2 != 0 <==> low / 2 % 2 == 1,
{
    let sum: u16 = (low + 0x100 * high) as u16;
    assert(flags & 1 == flags % 2) by (bit_vector);
    assert(flags & 2 == 2 * (flags / 2 % 2)) by (bit_vector);
    assert(flags as int % 2 == low as int % 2);
    assert(flags as int / 2 % 2 == low as int / 2 % 2);
}

/// A record is in use where the lowest bit of its flags is set, and a
/// directory where the next is.
pub proof fn lemma_record_flags(s: Seq<u8>)
    requires
        s.len() >= 40,
    ensures
        file_header_of(s).flags & super::ntfs::FILE_RECORD_IN_USE != 0 <==> s[22] % 2 == 1,
        file_header_of(s).flags & super::ntfs::FILE_RECORD_DIRECTORY != 0 <==> s[22] / 2 % 2 == 1,
{
    lemma_u16_is_spelled(s, 22);
    lemma_flag_bits(file_header_of(s).flags, s[22], s[23]);
}

/// What a boot sector tells: bytes per sector at 11, sectors per cluster at
/// 13, sectors of the volume at 40, and the first cluster of the table at 48.
pub proof fn lemma_boot_layout(s: Seq<u8>)
    requires
        boot_valid(s),
    ensures
        boot_geometry(s).sector_size == spelled_at(s, 11, 13),
        boot_geometry(s).cluster_size == spelled_at(s, 11, 13) * s[13],
        boot_geometry(s).volume_size == spelled_at(s, 40, 48) * spelled_at(s, 11, 13),
        boot_geometry(s).mft_position == spelled_at(s, 48, 56) * (spelled_at(s, 11, 13) * s[13]),
        boot_geometry(s).mft_position + boot_geometry(s).file_record_size <= boot_geometry(
            s,
        ).volume_size,
        s[64] < 0x80 ==> boot_geometry(s).file_record_size == s[64] * (spelled_at(s, 11, 13)
            * s[13]),
        s[64] > 0x80 ==> boot_geometry(s).file_record_size == vstd::arithmetic::power2::pow2(
            (0x100 - s[64]) as nat,
        ),
        s.subrange(3, 11) == seq![0x4Eu8, 0x54, 0x46, 0x53, 0x20, 0x20, 0x20, 0x20],
        s[510] == 0x55 && s[511] == 0xAA,
{
    lemma_u16_is_spelled(s, 11);
    lemma_u64_is_spelled(s, 40);
    lemma_u64_is_spelled(s, 48);
    assert(s.subrange(3, 11) =~= seq![0x4Eu8, 0x54, 0x46, 0x53, 0x20, 0x20, 0x20, 0x20]);
    let sector = spelled_at(s, 11, 13);
    let cluster = sector * s[13];
    assert(cluster >= 0) by (nonlinear_arith)
        requires
            sector >= 0,
            cluster == sector * s[13],
    ;
    let volume = spelled_at(s, 40, 48) * sector;
    let mft = spelled_at(s, 48, 56) * cluster;
    assert(mft >= 0) by (nonlinear_arith)
        requires
            cluster >= 0,
            spelled_at(s, 48, 56) >= 0,
            mft == spelled_at(s, 48, 56) * cluster,
    ;
}

/// What an entry of an attribute list tells: the type, the length, the first
/// cluster, the record that holds the attribute and the attribute's number.
pub proof fn lemma_list_entry_layout(s: Seq<u8>)
    requires
        s.len() >= 26,
    ensures
        entry_length(s) == spelled_at(s, 4, 6),
        entry_of(s).entry.type_id == spelled_at(s, 0, 4),
        entry_of(s).entry.name_length == s[6],
        entry_of(s).entry.starting_vcn == spelled_at(s, 8, 16),
        entry_of(s).entry.target_reference == spelled_at(s, 16, 24),
        entry_of(s).entry.id == spelled_at(s, 24, 26),
        s[6] == 0 ==> entry_of(s).name.len() == 0,
        entry_header_valid(s) && entry_length(s) <= s.len() ==> {
            &&& entry_of(s).name.len() == s[6]
            &&& forall|i: int|
                0 <= i < s[6] ==> #[trigger] entry_of(s).name[i] == s[26 + 2 * i] + 0x100 * s[27
                    + 2 * i]
        },
{
    lemma_u32_is_spelled(s, 0);
    lemma_u16_is_spelled(s, 4);
    lemma_u64_is_spelled(s, 8);
    lemma_u64_is_spelled(s, 16);
    lemma_u16_is_spelled(s, 24);
    if entry_header_valid(s) && entry_length(s) <= s.len() && s[6] > 0 {
        let name = s.subrange(s[7] as int, s[7] + 2 * s[6]);
        lemma_units_layout(name);
        assert forall|i: int| 0 <= i < s[6] implies #[trigger] entry_of(s).name[i] == s[26 + 2 * i]
            + 0x100 * s[27 + 2 * i] by {
            assert(name[2 * i] == s[26 + 2 * i]);
            assert(name[2 * i + 1] == s[27 + 2 * i]);
        }
    }
}

/// Which entries of a list are accepted.
pub proof fn lemma_list_entry_accepted(s: Seq<u8>)
    requires
        s.len() >= 26,
    ensures
        entry_header_valid(s) <==> {
            let kind = spelled_at(s, 0, 4);
            &&& spelled_at(s, 4, 6) >= 26
            &&& spelled_at(s, 4, 6) % 8 == 0
            &&& 0 < kind <= 0x100 && kind % 0x10 == 0
            &&& s[6] > 0 ==> s[7] == 26 && 26 + 2 * s[6] <= spelled_at(s, 4, 6)
            &&& kind == 0x20 || kind == 0x30 ==> s[6] == 0
            &&& kind == 0x30 ==> spelled_at(s, 8, 16) == 0
            &&& spelled_at(s, 16, 24) >= 0x1_0000_0000_0000
        },
{
    lemma_u32_is_spelled(s, 0);
    lemma_u16_is_spelled(s, 4);
    lemma_u64_is_spelled(s, 8);
    lemma_u64_is_spelled(s, 16);
}

/// Of the four namespaces, the names of the short one alone are not searched.
pub proof fn lemma_searchable(namespace: u8)
    ensures
        searchable(namespace) <==> namespace <= 3 && namespace != 2,
{
}

} // verus!
