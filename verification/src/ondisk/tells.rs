//! What decoding the bytes of a volume answers.

use vstd::prelude::*;
use crate::bytes::{
    lemma_u16_is_spelled, lemma_u32_is_spelled, lemma_u64_is_spelled, spelled_at,
};
use super::ntfs::{
    attribute_bytes, attribute_offsets, decode_boot_sector, NtfsAttribute, NtfsAttributeType,
    NtfsFile, NtfsFileName, NtfsNonResidentAttributeHeader, NtfsStandardInformation,
    VolumeGeometry,
};

verus! {

impl<'a> NtfsAttribute<'a> {
    /// What a standard information answers: the last write at byte 8 of its
    /// value and the attributes at byte 32, where the attribute is one, its
    /// value lies inside it and is long enough.
    pub proof fn lemma_standard_info_answered(&self, r: Option<NtfsStandardInformation>)
        requires
            self.wf(),
            call_ensures(NtfsAttribute::as_standard_info, (self,), r),
        ensures
            ({
                let s = self.bytes();
                let n = spelled_at(s, 16, 20);
                let at = spelled_at(s, 20, 22);
                if spelled_at(s, 0, 4) == 0x10 && s[8] == 0 && 24 <= at && at + n <= s.len() && n
                    >= 36 {
                    &&& r is Some
                    &&& r->0.modification_time == spelled_at(s, at + 8, at + 16)
                    &&& r->0.file_attributes == spelled_at(s, at + 32, at + 36)
                } else {
                    r is None
                }
            }),
    {
        let s = self.bytes();
        self.lemma_fields();
        let n = spelled_at(s, 16, 20);
        let at = spelled_at(s, 20, 22);
        if s[8] == 0 && 24 <= at && at + n <= s.len() && n >= 36 {
            let v = s.subrange(at, at + n);
            lemma_u64_is_spelled(v, 8);
            lemma_u32_is_spelled(v, 32);
            assert(v.subrange(8, 16) =~= s.subrange(at + 8, at + 16));
            assert(v.subrange(32, 36) =~= s.subrange(at + 32, at + 36));
        }
    }

    proof fn lemma_fields(&self)
        requires
            self.wf(),
        ensures
            ({
                let s = self.bytes();
                &&& s.len() >= 24
                &&& crate::bytes::u32_at(s, 0) == spelled_at(s, 0, 4)
                &&& crate::bytes::u32_at(s, 16) == spelled_at(s, 16, 20)
                &&& crate::bytes::u16_at(s, 20) == spelled_at(s, 20, 22)
                &&& s[8] <= 1
            }),
    {
        let s = self.bytes();
        lemma_u32_is_spelled(s, 0);
        lemma_u32_is_spelled(s, 16);
        lemma_u16_is_spelled(s, 20);
    }

    /// What a file name answers: the parent's reference at byte 0 of its value,
    /// the length at 64, the namespace at 65, and the units from 66 on.
    pub proof fn lemma_name_answered(&self, r: Option<NtfsFileName<'a>>)
        requires
            self.wf(),
            call_ensures(NtfsAttribute::as_name, (self,), r),
        ensures
            r matches Some(name) ==> {
                let s = self.bytes();
                let n = spelled_at(s, 16, 20);
                let at = spelled_at(s, 20, 22);
                &&& spelled_at(s, 0, 4) == 0x30
                &&& s[8] == 0 && 24 <= at && at + n <= s.len()
                &&& name.header.parent_directory_reference == spelled_at(s, at, at + 8)
                &&& name.header.name_length == s[at + 64] > 0
                &&& name.header.namespace == s[at + 65] <= 3
                &&& n == 66 + 2 * s[at + 64]
                &&& name.utf16le@ == s.subrange(at + 66, at + n)
                &&& spelled_at(s, at, at + 8) >= 0x1_0000_0000_0000
            },
    {
        let s = self.bytes();
        self.lemma_fields();
        if r is Some {
            let n = spelled_at(s, 16, 20);
            let at = spelled_at(s, 20, 22);
            let v = s.subrange(at, at + n);
            lemma_u64_is_spelled(v, 0);
            assert(v.subrange(0, 8) =~= s.subrange(at, at + 8));
            assert(v.subrange(66, v.len() as int) =~= s.subrange(at + 66, at + n));
        }
    }

    /// What the header of a nonresident attribute answers: the range of
    /// clusters at 16 and 24, where the runs begin at 32, and the size at 48.
    pub proof fn lemma_nonresident_answered(&self, r: Option<NtfsNonResidentAttributeHeader>)
        requires
            self.wf(),
            self.bytes().len() >= 64,
            call_ensures(NtfsAttribute::nonresident_header, (self,), r),
        ensures
            ({
                let s = self.bytes();
                if s[8] == 1 && 64 <= spelled_at(s, 32, 34) <= s.len() {
                    &&& r is Some
                    &&& r->0.data_runs_offset == spelled_at(s, 32, 34)
                    &&& r->0.data_size == spelled_at(s, 48, 56)
                    &&& s[23] < 0x80 ==> r->0.lowest_vcn == spelled_at(s, 16, 24)
                    &&& s[31] < 0x80 ==> r->0.highest_vcn == spelled_at(s, 24, 32)
                } else {
                    r is None
                }
            }),
    {
        let s = self.bytes();
        lemma_u16_is_spelled(s, 32);
        lemma_u64_is_spelled(s, 48);
        crate::bytes::lemma_i64_is_spelled(s, 16);
        crate::bytes::lemma_i64_is_spelled(s, 24);
    }
}

impl<'a> NtfsFile<'a> {
    /// A record answers for its number with its own sequence: both together
    /// are its reference.
    pub proof fn lemma_reference_answered(&self, r: u64)
        requires
            call_ensures(NtfsFile::reference_number, (self,), r),
        ensures
            r % 0x1_0000_0000_0000 == self.number % 0x1_0000_0000_0000,
            r / 0x1_0000_0000_0000 == self.header.sequence_value,
    {
    }

    /// The header of a record that is accepted is what its bytes spell.
    pub proof fn lemma_record_answered(
        number: u64,
        data: &'a [u8],
        sector_size: usize,
        r: Option<NtfsFile<'a>>,
    )
        requires
            call_ensures(NtfsFile::parse, (number, data, sector_size), r),
        ensures
            r matches Some(f) ==> {
                &&& f.number == number
                &&& f.data@ == data@
                &&& f.header.sequence_value == spelled_at(data@, 16, 18)
                &&& f.header.attributes_offset == spelled_at(data@, 20, 22)
                &&& f.header.flags == spelled_at(data@, 22, 24)
                &&& f.header.used_size == spelled_at(data@, 24, 28)
                &&& f.header.base_reference == spelled_at(data@, 32, 40)
                &&& data@[0] == 0x46 && data@[1] == 0x49 && data@[2] == 0x4C && data@[3] == 0x45
                &&& spelled_at(data@, 28, 32) == data@.len()
            },
    {
        if r is Some {
            let s = data@;
            lemma_u16_is_spelled(s, 16);
            lemma_u16_is_spelled(s, 20);
            lemma_u16_is_spelled(s, 22);
            lemma_u32_is_spelled(s, 24);
            lemma_u32_is_spelled(s, 28);
            lemma_u64_is_spelled(s, 32);
        }
    }

    /// Whether a record is in use, and whether it is a directory, its two
    /// lowest flags say.
    pub proof fn lemma_flags_answered(&self, used: bool, dir: bool)
        requires
            call_ensures(NtfsFile::is_used, (self,), used),
            call_ensures(NtfsFile::is_directory, (self,), dir),
        ensures
            used <==> self.header.flags % 2 == 1,
            dir <==> self.header.flags / 2 % 2 == 1,
    {
        let f = self.header.flags;
        assert((f & 1 != 0) <==> f % 2 == 1) by (bit_vector);
        assert((f & 2 != 0) <==> f / 2 % 2 == 1) by (bit_vector);
    }

    /// The attributes of a record are those of its chain, in its order.
    pub proof fn lemma_attributes_answered(&self, r: Vec<NtfsAttribute<'a>>, i: int)
        requires
            call_ensures(NtfsFile::attributes, (self,), r),
            0 <= i < r@.len(),
        ensures
            ({
                let s = self.occupied();
                let offs = attribute_offsets(s, self.header.attributes_offset as int);
                &&& offs.len() == r@.len()
                &&& offs[0] == self.header.attributes_offset
                &&& r@[i].bytes() == s.subrange(
                    offs[i],
                    offs[i] + spelled_at(s, offs[i] + 4, offs[i] + 8),
                )
            }),
    {
        let s = self.occupied();
        let off = self.header.attributes_offset as int;
        let offs = attribute_offsets(s, off);
        super::chains::lemma_attributes_follow(s, off);
        let at = offs[i];
        lemma_u32_is_spelled(s, at + 4);
        assert(r@[i].bytes() == attribute_bytes(s, offs[i]));
    }

    /// The attribute that is given for a type is the first of that type, and
    /// none is given only where there is none.
    pub proof fn lemma_attribute_answered(
        &self,
        kind: NtfsAttributeType,
        r: Option<NtfsAttribute<'a>>,
    )
        requires
            call_ensures(NtfsFile::get_attribute, (self, kind), r),
        ensures
            ({
                let s = self.occupied();
                let offs = attribute_offsets(s, self.header.attributes_offset as int);
                match r {
                    Some(a) => exists|k: int|
                        {
                            &&& 0 <= k < offs.len()
                            &&& a.bytes() == attribute_bytes(s, #[trigger] offs[k])
                            &&& spelled_at(s, offs[k], offs[k] + 4) == kind.spec_code()
                            &&& forall|j: int|
                                0 <= j < k ==> spelled_at(s, #[trigger] offs[j], offs[j] + 4)
                                    != kind.spec_code()
                        },
                    None => forall|j: int|
                        0 <= j < offs.len() ==> spelled_at(s, #[trigger] offs[j], offs[j] + 4)
                            != kind.spec_code(),
                }
            }),
            kind == NtfsAttributeType::StandardInformation ==> kind.spec_code() == 0x10,
            kind == NtfsAttributeType::AttributeList ==> kind.spec_code() == 0x20,
            kind == NtfsAttributeType::FileName ==> kind.spec_code() == 0x30,
            kind == NtfsAttributeType::Data ==> kind.spec_code() == 0x80,
    {
        let s = self.occupied();
        let off = self.header.attributes_offset as int;
        super::chains::lemma_first_of_type(s, off, kind.spec_code());
    }
}

/// What a boot sector answers: bytes per sector at 11, sectors per cluster at
/// 13, sectors of the volume at 40, and the cluster of the file table at 48.
pub proof fn lemma_boot_answered(data: &[u8], r: Option<VolumeGeometry>)
    requires
        call_ensures(decode_boot_sector, (data,), r),
    ensures
        r matches Some(g) ==> {
            let s = data@;
            &&& s.len() >= 512
            &&& g.sector_size == spelled_at(s, 11, 13)
            &&& g.cluster_size == spelled_at(s, 11, 13) * s[13]
            &&& g.volume_size == spelled_at(s, 40, 48) * spelled_at(s, 11, 13)
            &&& g.mft_position == spelled_at(s, 48, 56) * g.cluster_size
            &&& 0 < s[64] < 0x80 ==> g.file_record_size == s[64] * g.cluster_size
            &&& s[510] == 0x55 && s[511] == 0xAA
            &&& s[3] == 0x4E && s[4] == 0x54 && s[5] == 0x46 && s[6] == 0x53
        },
{
    if r is Some {
        super::layout::lemma_boot_layout(data@);
        lemma_u16_is_spelled(data@, 11);
        lemma_u64_is_spelled(data@, 40);
        lemma_u64_is_spelled(data@, 48);
    }
}

} // verus!
