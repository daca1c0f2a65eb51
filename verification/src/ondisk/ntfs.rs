//! Alignment-independent decoding of the NTFS on-disk structures used by the
//! scanner.
//!
//! Disk bytes are untrusted and may begin at any address: every multi-byte
//! field is copied into an owned integer with an explicit little-endian
//! conversion.

use vstd::prelude::*;
use vstd::arithmetic::power2::*;
use vstd::slice::slice_subrange;
use crate::bytes::{
    i64_at, is_power_of_two, le_u32, read_i64, read_u16, read_u32, read_u64, u16_at, u32_at, u64_at,
};
use super::record::{
    ATTRIBUTE_HEADER_BYTES, FILE_RECORD_HEADER_BYTES, NONRESIDENT_HEADER_BYTES,
    RESIDENT_HEADER_BYTES,
};

verus! {

/// Wire size of one `$ATTRIBUTE_LIST` entry header, before its stream name.
pub const ATTRIBUTE_LIST_ENTRY_BYTES: usize = 26;

/// Smallest `$STANDARD_INFORMATION` value that holds the decoded fields.
pub const STANDARD_INFORMATION_BYTES: usize = 36;

/// Wire size of a `$FILE_NAME` value before the name itself.
pub const FILE_NAME_HEADER_BYTES: usize = 66;

/// The low 48 bits of a file reference: the record number.
pub const FILE_RECORD_MASK: u64 = 0x0000_FFFF_FFFF_FFFF;

/// Record flag: the record is allocated.
pub const FILE_RECORD_IN_USE: u16 = 0x0001;

/// Record flag: the record describes a directory.
pub const FILE_RECORD_DIRECTORY: u16 = 0x0002;

/// Size of the boot sector.
pub const SECTOR_BYTES: usize = 512;

/// Largest cluster size that is accepted.
pub const MAX_CLUSTER_BYTES: u64 = 0x20_0000;

/// Largest file record size that is accepted.
pub const MAX_FILE_RECORD_BYTES: u64 = 0x1_0000;

/// Record number of the volume's root directory.
pub const ROOT_RECORD: u64 = 5;

/// Record number of `\$Extend`, the one metadata file that is a directory
/// with children of its own.
pub const EXTEND_RECORD: u64 = 11;

/// First record number that is not an NTFS metadata file.
pub const FIRST_NORMAL_RECORD: u64 = 24;

/// Why raw NTFS access or decoding failed.
#[derive(Debug)]
pub enum NtfsError {
    /// The raw volume handle requires privileges this process does not hold.
    Elevation,
    /// A device read or control request failed, with the reason given.
    Io(String),
    /// Record 0 lacked an attribute the scanner needs.
    MissingMftAttribute(String),
    /// The bytes on disk do not describe a structure this decoder accepts.
    InvalidData(String),
}

/// The attribute types the scanner decodes; every other type is skipped.
#[derive(Clone, Copy, Debug, PartialEq, Eq, Structural)]
pub enum NtfsAttributeType {
    /// `$STANDARD_INFORMATION`: timestamps and file attribute flags.
    StandardInformation,
    /// `$ATTRIBUTE_LIST`: pointers to attributes held in extension records.
    AttributeList,
    /// `$FILE_NAME`: one hard link (parent reference plus UTF-16 name).
    FileName,
    /// `$DATA`: the unnamed data stream.
    Data,
    /// End-of-chain sentinel that terminates a record's attribute list.
    End,
}

impl NtfsAttributeType {
    /// The wire code of the type.
    pub open spec fn spec_code(self) -> u32 {
        match self {
            NtfsAttributeType::StandardInformation => 0x10,
            NtfsAttributeType::AttributeList => 0x20,
            NtfsAttributeType::FileName => 0x30,
            NtfsAttributeType::Data => 0x80,
            NtfsAttributeType::End => 0xFFFF_FFFF,
        }
    }

    /// The wire code of the type.
    pub fn code(self) -> (r: u32)
        ensures
            r == self.spec_code(),
    {
        match self {
            NtfsAttributeType::StandardInformation => 0x10,
            NtfsAttributeType::AttributeList => 0x20,
            NtfsAttributeType::FileName => 0x30,
            NtfsAttributeType::Data => 0x80,
            NtfsAttributeType::End => 0xFFFF_FFFF,
        }
    }
}

/// Namespace of a `$FILE_NAME` link, which decides whether it is searchable.
#[derive(Clone, Copy, Debug, PartialEq, Eq, Structural)]
pub enum NtfsFileNamespace {
    /// Case-sensitive POSIX name.
    Posix,
    /// Long Win32 name.
    Win32,
    /// Short 8.3 name paired with a separate Win32 name.
    Dos,
    /// A name that is simultaneously the Win32 and the 8.3 name.
    Win32AndDos,
}

impl NtfsFileNamespace {
    /// The wire code of the namespace.
    pub open spec fn spec_code(self) -> u8 {
        match self {
            NtfsFileNamespace::Posix => 0,
            NtfsFileNamespace::Win32 => 1,
            NtfsFileNamespace::Dos => 2,
            NtfsFileNamespace::Win32AndDos => 3,
        }
    }

    /// The wire code of the namespace.
    pub fn code(self) -> (r: u8)
        ensures
            r == self.spec_code(),
    {
        match self {
            NtfsFileNamespace::Posix => 0,
            NtfsFileNamespace::Win32 => 1,
            NtfsFileNamespace::Dos => 2,
            NtfsFileNamespace::Win32AndDos => 3,
        }
    }
}

/// Decoded fixed prefix of a `FILE` record.
#[derive(Clone, Copy, Debug, PartialEq, Eq, Structural)]
pub struct NtfsFileRecordHeader {
    /// Reuse counter; combined with the record number to form a reference.
    pub sequence_value: u16,
    /// Byte offset of the first attribute within the record.
    pub attributes_offset: u16,
    /// `IN_USE` (0x1) and `DIRECTORY` (0x2) bits.
    pub flags: u16,
    /// Bytes of the record actually occupied by the attribute chain.
    pub used_size: u32,
    /// Total record size; must equal the buffer length.
    pub allocated_size: u32,
    /// Base record reference, or 0 when this record is itself a base.
    pub base_reference: u64,
}

/// Decoded common header shared by resident and non-resident attributes.
#[derive(Clone, Copy, Debug, PartialEq, Eq, Structural)]
pub struct NtfsAttributeHeader {
    /// Attribute type code (see [`NtfsAttributeType`]).
    pub type_id: u32,
    /// Total attribute length in bytes, header included.
    pub length: u32,
    /// 0 for resident, 1 for non-resident; any other value is rejected.
    pub is_non_resident: u8,
    /// UTF-16 code-unit count of the optional stream name.
    pub name_length: u8,
    /// Byte offset of the stream name within the attribute.
    pub name_offset: u16,
    /// Compression/encryption/sparse flags.
    pub flags: u16,
    /// Instance id, unique within the record.
    pub id: u16,
}

/// Decoded extra header carried only by non-resident attributes.
#[derive(Clone, Copy, Debug, PartialEq, Eq, Structural)]
pub struct NtfsNonResidentAttributeHeader {
    /// First virtual cluster this extent maps.
    pub lowest_vcn: i64,
    /// Last virtual cluster this extent maps.
    pub highest_vcn: i64,
    /// Byte offset of the mapping pairs within the attribute.
    pub data_runs_offset: u16,
    /// Logical size of the whole stream, in bytes.
    pub data_size: u64,
}

/// The two `$STANDARD_INFORMATION` fields the index stores.
#[derive(Clone, Copy, Debug, PartialEq, Eq, Structural)]
pub struct NtfsStandardInformation {
    /// Last-write time, in Windows FILETIME ticks.
    pub modification_time: u64,
    /// `FILE_ATTRIBUTE_*` bits.
    pub file_attributes: u32,
}

/// Decoded fixed prefix of a `$FILE_NAME` attribute value.
#[derive(Clone, Copy, Debug, PartialEq, Eq, Structural)]
pub struct NtfsFileNameHeader {
    /// Reference of the directory holding this link.
    pub parent_directory_reference: u64,
    /// UTF-16 code-unit count of the name.
    pub name_length: u8,
    /// Raw namespace byte (see [`NtfsFileNamespace`]).
    pub namespace: u8,
}

/// One hard link: its header plus the borrowed name bytes.
#[derive(Clone, Copy)]
pub struct NtfsFileName<'a> {
    /// Parent reference, length and namespace.
    pub header: NtfsFileNameHeader,
    /// Exact UTF-16LE bytes borrowed from the fixed-up record.
    pub utf16le: &'a [u8],
}

/// The UTF-16 units stored little-endian in `s`; an odd last byte is left out.
pub open spec fn units_of(s: Seq<u8>) -> Seq<u16> {
    Seq::new((s.len() / 2) as nat, |i: int| u16_at(s, 2 * i))
}

/// Copy little-endian bytes into UTF-16 units.
pub fn decode_units(data: &[u8]) -> (r: Vec<u16>)
    ensures
        r@ == units_of(data@),
{
    let mut units: Vec<u16> = Vec::new();
    let count: usize = data.len() / 2;
    let mut i: usize = 0;
    while i < count
        invariant
            i <= count,
            count == data@.len() / 2,
            units@ == units_of(data@).take(i as int),
        decreases count - i,
    {
        assert(2 * i + 2 <= data.len());
        units.push(read_u16(data, 2 * i));
        i = i + 1;
        assert(units@ =~= units_of(data@).take(i as int));
    }
    assert(units@ =~= units_of(data@));
    units
}

impl<'a> NtfsFileName<'a> {
    /// Copy the borrowed name into owned UTF-16 code units, unpaired
    /// surrogates included.
    pub fn to_utf16(self) -> (r: Vec<u16>)
        ensures
            r@ == units_of(self.utf16le@),
    {
        decode_units(self.utf16le)
    }
}

/// The common header stored at the start of `s`.
pub open spec fn attribute_header_of(s: Seq<u8>) -> NtfsAttributeHeader {
    NtfsAttributeHeader {
        type_id: u32_at(s, 0),
        length: u32_at(s, 4),
        is_non_resident: s[8],
        name_length: s[9],
        name_offset: u16_at(s, 10),
        flags: u16_at(s, 12),
        id: u16_at(s, 14),
    }
}

/// The wire header size that goes with an attribute's residency.
pub open spec fn wire_header_bytes(header: NtfsAttributeHeader) -> int {
    if header.is_non_resident == 0 {
        RESIDENT_HEADER_BYTES as int
    } else {
        NONRESIDENT_HEADER_BYTES as int
    }
}

/// `s` starts with an attribute whose declared length holds its header and its
/// name, and does not run past `s`.
pub open spec fn attribute_decodes(s: Seq<u8>) -> bool {
    let header = attribute_header_of(s);
    &&& s.len() >= ATTRIBUTE_HEADER_BYTES
    &&& header.type_id != NtfsAttributeType::End.spec_code()
    &&& header.is_non_resident == 0 || header.is_non_resident == 1
    &&& wire_header_bytes(header) <= header.length <= s.len()
    &&& header.name_length > 0 ==> wire_header_bytes(header) <= header.name_offset
        && header.name_offset + 2 * header.name_length <= header.length
}

/// The value of the resident attribute whose bytes are `s`.
pub open spec fn resident_value(s: Seq<u8>) -> Option<Seq<u8>> {
    let start = u16_at(s, 20) as int;
    let length = u32_at(s, 16) as int;
    if s[8] == 0 && start >= RESIDENT_HEADER_BYTES && start + length <= s.len() {
        Some(s.subrange(start, start + length))
    } else {
        None
    }
}

/// The extra header of the non-resident attribute whose bytes are `s`.
pub open spec fn nonresident_of(s: Seq<u8>) -> Option<NtfsNonResidentAttributeHeader> {
    if s[8] == 1 && NONRESIDENT_HEADER_BYTES <= u16_at(s, 32) <= s.len() {
        Some(
            NtfsNonResidentAttributeHeader {
                lowest_vcn: i64_at(s, 16),
                highest_vcn: i64_at(s, 24),
                data_runs_offset: u16_at(s, 32),
                data_size: u64_at(s, 48),
            },
        )
    } else {
        None
    }
}

/// The fields of a `$STANDARD_INFORMATION` attribute whose bytes are `s`.
pub open spec fn standard_info_of(s: Seq<u8>) -> Option<NtfsStandardInformation> {
    if u32_at(s, 0) != NtfsAttributeType::StandardInformation.spec_code() {
        None
    } else {
        match resident_value(s) {
            Some(value) => if value.len() >= STANDARD_INFORMATION_BYTES {
                Some(
                    NtfsStandardInformation {
                        modification_time: u64_at(value, 8),
                        file_attributes: u32_at(value, 32),
                    },
                )
            } else {
                None
            },
            None => None,
        }
    }
}

/// A unit that may stand in a link name: neither NUL nor a path separator.
pub open spec fn name_unit_valid(unit: u16) -> bool {
    unit != 0 && unit != 0x2F && unit != 0x5C
}

/// A `$FILE_NAME` value holds a non-empty name of exactly its declared length
/// without NUL or separators, a parent with a sequence number, and a known
/// namespace.
pub open spec fn name_value_valid(value: Seq<u8>) -> bool {
    &&& value.len() >= FILE_NAME_HEADER_BYTES
    &&& value[64] > 0
    &&& value.len() == FILE_NAME_HEADER_BYTES + 2 * value[64]
    &&& forall|i: int|
        0 <= i < value[64] ==> name_unit_valid(
            #[trigger] u16_at(value, FILE_NAME_HEADER_BYTES + 2 * i),
        )
    &&& u64_at(value, 0) >= 0x1_0000_0000_0000
    &&& value[65] <= NtfsFileNamespace::Win32AndDos.spec_code()
}

/// The header and the name bytes of a `$FILE_NAME` attribute whose bytes are
/// `s`.
pub open spec fn file_name_of(s: Seq<u8>) -> Option<(NtfsFileNameHeader, Seq<u8>)> {
    if u32_at(s, 0) != NtfsAttributeType::FileName.spec_code() {
        None
    } else {
        match resident_value(s) {
            Some(value) => if name_value_valid(value) {
                Some(
                    (
                        NtfsFileNameHeader {
                            parent_directory_reference: u64_at(value, 0),
                            name_length: value[64],
                            namespace: value[65],
                        },
                        value.subrange(FILE_NAME_HEADER_BYTES as int, value.len() as int),
                    ),
                )
            } else {
                None
            },
            None => None,
        }
    }
}

/// One bounds-checked attribute inside a fixed-up record.
pub struct NtfsAttribute<'a> {
    /// A buffer that starts with the attribute.
    pub data: &'a [u8],
    /// The decoded common header.
    pub header: NtfsAttributeHeader,
    /// The declared length.
    pub length: usize,
}

impl<'a> NtfsAttribute<'a> {
    /// The attribute's own bytes.
    pub open spec fn bytes(&self) -> Seq<u8> {
        self.data@.take(self.length as int)
    }

    /// The attribute was decoded from its bytes.
    pub open spec fn wf(&self) -> bool {
        &&& self.length <= self.data@.len()
        &&& self.header == attribute_header_of(self.bytes())
        &&& self.header.length == self.length
        &&& attribute_decodes(self.bytes())
    }

    /// Decode the attribute starting at `data[0]`, or `None` if its declared
    /// length, residency, or name range escapes the buffer.
    pub fn parse(data: &'a [u8]) -> (r: Option<Self>)
        ensures
            r is Some <==> attribute_decodes(data@),
            r matches Some(a) ==> a.wf() && a.bytes() == data@.take(
                attribute_header_of(data@).length as int,
            ) && a.header == attribute_header_of(data@),
    {
        let header: NtfsAttributeHeader = match decode_attribute_header(data) {
            Some(header) => header,
            None => {
                return None;
            },
        };
        let length: usize = header.length as usize;
        if header.type_id == NtfsAttributeType::End.code() || length < ATTRIBUTE_HEADER_BYTES
            || length > data.len() || header.is_non_resident > 1 {
            return None;
        }
        let wire_header: usize = if header.is_non_resident == 0 {
            RESIDENT_HEADER_BYTES
        } else {
            NONRESIDENT_HEADER_BYTES
        };
        if length < wire_header {
            return None;
        }
        if header.name_length > 0 {
            let name_offset: usize = header.name_offset as usize;
            let name_bytes: usize = 2 * (header.name_length as usize);
            if name_offset < wire_header || name_offset + name_bytes > length {
                return None;
            }
        }
        let r = NtfsAttribute { data, header, length };
        assert(r.bytes() =~= data@.take(length as int));
        Some(r)
    }

    /// Total attribute length in bytes, header included.
    pub fn len(&self) -> (r: usize)
        requires
            self.wf(),
        ensures
            r == self.bytes().len(),
    {
        self.length
    }

    /// The attribute's own bytes, clamped to its declared length.
    pub fn data(&self) -> (r: &'a [u8])
        requires
            self.wf(),
        ensures
            r@ == self.bytes(),
    {
        let r: &'a [u8] = slice_subrange(self.data, 0, self.length);
        assert(r@ =~= self.bytes());
        r
    }

    /// The resident value bytes, or `None` for a non-resident attribute or an
    /// offset/length pair that escapes the attribute.
    pub fn get_resident(&self) -> (r: Option<&'a [u8]>)
        requires
            self.wf(),
        ensures
            r matches Some(v) ==> resident_value(self.bytes()) == Some(v@),
            r is None ==> resident_value(self.bytes()) is None,
    {
        if self.header.is_non_resident != 0 {
            return None;
        }
        let bytes: &'a [u8] = self.data();
        let value_length: usize = read_u32(bytes, 16) as usize;
        let value_offset: usize = read_u16(bytes, 20) as usize;
        if value_offset < RESIDENT_HEADER_BYTES || value_offset > bytes.len() || value_length
            > bytes.len() - value_offset {
            return None;
        }
        Some(slice_subrange(bytes, value_offset, value_offset + value_length))
    }

    /// The declared resident value length, without slicing it out.
    pub fn resident_value_length(&self) -> (r: Option<u32>)
        requires
            self.wf(),
        ensures
            r == (if self.header.is_non_resident == 0 {
                Some(u32_at(self.bytes(), 16))
            } else {
                None
            }),
    {
        if self.header.is_non_resident != 0 {
            return None;
        }
        Some(read_u32(self.data(), 16))
    }

    /// The non-resident header, or `None` unless this is a non-resident
    /// attribute whose mapping-pair offset stays inside it.
    pub fn nonresident_header(&self) -> (r: Option<NtfsNonResidentAttributeHeader>)
        requires
            self.wf(),
        ensures
            r == nonresident_of(self.bytes()),
    {
        if self.header.is_non_resident != 1 {
            return None;
        }
        let bytes: &'a [u8] = self.data();
        let offset: u16 = read_u16(bytes, 32);
        if (offset as usize) < NONRESIDENT_HEADER_BYTES || offset as usize > self.length {
            return None;
        }
        Some(
            NtfsNonResidentAttributeHeader {
                lowest_vcn: read_i64(bytes, 16),
                highest_vcn: read_i64(bytes, 24),
                data_runs_offset: offset,
                data_size: read_u64(bytes, 48),
            },
        )
    }

    /// Decode this attribute as `$STANDARD_INFORMATION`, or `None` if it is a
    /// different type or too short.
    pub fn as_standard_info(&self) -> (r: Option<NtfsStandardInformation>)
        requires
            self.wf(),
        ensures
            r == standard_info_of(self.bytes()),
    {
        if self.header.type_id != NtfsAttributeType::StandardInformation.code() {
            return None;
        }
        match self.get_resident() {
            Some(value) => {
                if value.len() < STANDARD_INFORMATION_BYTES {
                    return None;
                }
                Some(
                    NtfsStandardInformation {
                        modification_time: read_u64(value, 8),
                        file_attributes: read_u32(value, 32),
                    },
                )
            },
            None => None,
        }
    }

    /// Decode this attribute as `$FILE_NAME`.
    ///
    /// Returns `None` for a different type, a value whose length does not
    /// match its declared name length exactly, a name containing NUL or a
    /// path separator, a link with no parent, or an unknown namespace.
    pub fn as_name(&self) -> (r: Option<NtfsFileName<'a>>)
        requires
            self.wf(),
        ensures
            r matches Some(n) ==> file_name_of(self.bytes()) == Some((n.header, n.utf16le@)),
            r is None ==> file_name_of(self.bytes()) is None,
    {
        if self.header.type_id != NtfsAttributeType::FileName.code() {
            return None;
        }
        let value: &'a [u8] = match self.get_resident() {
            Some(value) => value,
            None => {
                return None;
            },
        };
        if value.len() < FILE_NAME_HEADER_BYTES {
            return None;
        }
        let name_length: usize = value[64] as usize;
        if name_length == 0 || value.len() != FILE_NAME_HEADER_BYTES + 2 * name_length {
            return None;
        }
        let mut i: usize = 0;
        while i < name_length
            invariant
                i <= name_length,
                name_length == value@[64],
                value@.len() == FILE_NAME_HEADER_BYTES + 2 * name_length,
                resident_value(self.bytes()) == Some(value@),
                forall|k: int|
                    0 <= k < i ==> name_unit_valid(
                        #[trigger] u16_at(value@, FILE_NAME_HEADER_BYTES + 2 * k),
                    ),
            decreases name_length - i,
        {
            let unit: u16 = read_u16(value, FILE_NAME_HEADER_BYTES + 2 * i);
            if unit == 0 || unit == 0x2F || unit == 0x5C {
                assert(!name_unit_valid(u16_at(value@, FILE_NAME_HEADER_BYTES + 2 * i)));
                return None;
            }
            i = i + 1;
        }
        let parent: u64 = read_u64(value, 0);
        let namespace: u8 = value[65];
        if parent < 0x1_0000_0000_0000 || namespace > NtfsFileNamespace::Win32AndDos.code() {
            return None;
        }
        Some(
            NtfsFileName {
                header: NtfsFileNameHeader {
                    parent_directory_reference: parent,
                    name_length: value[64],
                    namespace,
                },
                utf16le: slice_subrange(value, FILE_NAME_HEADER_BYTES, value.len()),
            },
        )
    }
}

/// The record header stored at the start of `s`.
pub open spec fn file_header_of(s: Seq<u8>) -> NtfsFileRecordHeader {
    NtfsFileRecordHeader {
        sequence_value: u16_at(s, 16),
        attributes_offset: u16_at(s, 20),
        flags: u16_at(s, 22),
        used_size: u32_at(s, 24),
        allocated_size: u32_at(s, 28),
        base_reference: u64_at(s, 32),
    }
}

/// `s` starts with the four bytes of "FILE".
pub open spec fn file_signature(s: Seq<u8>) -> bool {
    s[0] == 0x46 && s[1] == 0x49 && s[2] == 0x4C && s[3] == 0x45
}

/// The signature, the update-sequence geometry and the size fields of the
/// record agree with the sector size and with the buffer.
pub open spec fn file_valid(s: Seq<u8>, sector_size: int) -> bool {
    let header = file_header_of(s);
    let usa = u16_at(s, 4) as int;
    let count = u16_at(s, 6) as int;
    &&& s.len() >= FILE_RECORD_HEADER_BYTES
    &&& file_signature(s)
    &&& SECTOR_BYTES <= sector_size <= 4096
    &&& is_pow2(sector_size)
    &&& s.len() as int % sector_size == 0
    &&& count == s.len() as int / sector_size + 1
    &&& usa >= FILE_RECORD_HEADER_BYTES
    &&& usa % 2 == 0
    &&& usa + 2 * count <= header.attributes_offset
    &&& header.allocated_size == s.len()
    &&& header.flags & FILE_RECORD_IN_USE != 0 ==> header.sequence_value != 0
    &&& header.base_reference == 0 || header.base_reference >= 0x1_0000_0000_0000
    &&& FILE_RECORD_HEADER_BYTES <= header.attributes_offset < header.used_size
    &&& header.attributes_offset % 8 == 0
    &&& header.used_size <= s.len()
}

/// The offsets of the attributes that decode in sequence from `off`, up to
/// the end mark or the first attribute that does not decode.
pub open spec fn attribute_offsets(s: Seq<u8>, off: int) -> Seq<int>
    decreases s.len() - off,
{
    if 0 <= off && off + 4 <= s.len() && attribute_decodes(s.skip(off)) {
        seq![off] + attribute_offsets(s, off + u32_at(s, off + 4) as int)
    } else {
        Seq::empty()
    }
}

/// The bytes of the attribute at `off`.
pub open spec fn attribute_bytes(s: Seq<u8>, off: int) -> Seq<u8> {
    s.subrange(off, off + u32_at(s, off + 4) as int)
}

proof fn lemma_attribute_at(s: Seq<u8>, off: int)
    requires
        0 <= off,
        off + 4 <= s.len(),
        attribute_decodes(s.skip(off)),
    ensures
        attribute_header_of(s.skip(off)).length == u32_at(s, off + 4),
        attribute_header_of(s.skip(off)).type_id == u32_at(s, off),
        off + u32_at(s, off + 4) <= s.len(),
        u32_at(s, off + 4) >= RESIDENT_HEADER_BYTES,
        s.skip(off).take(u32_at(s, off + 4) as int) == attribute_bytes(s, off),
{
    assert(s.skip(off).take(u32_at(s, off + 4) as int) =~= attribute_bytes(s, off));
}

/// The offset of the first attribute of type `code`, searched like
/// [`attribute_offsets`].
pub open spec fn first_of_type(s: Seq<u8>, off: int, code: u32) -> Option<int>
    decreases s.len() - off,
{
    if 0 <= off && off + 4 <= s.len() && attribute_decodes(s.skip(off)) {
        if u32_at(s, off) == code {
            Some(off)
        } else {
            first_of_type(s, off + u32_at(s, off + 4) as int, code)
        }
    } else {
        None
    }
}

/// One validated `FILE` record, borrowed from a fixed-up buffer.
pub struct NtfsFile<'a> {
    /// Record number this buffer was read from.
    pub number: u64,
    /// The decoded record header.
    pub header: NtfsFileRecordHeader,
    /// The whole fixed-up record buffer.
    pub data: &'a [u8],
}

impl<'a> NtfsFile<'a> {
    /// The part of the record that the attribute chain may occupy.
    pub open spec fn occupied(&self) -> Seq<u8> {
        self.data@.take(
            if self.header.used_size <= self.data@.len() {
                self.header.used_size as int
            } else {
                self.data@.len() as int
            },
        )
    }

    /// Validate `data` as record `number` and borrow it, or `None` if the
    /// signature, update-sequence geometry, or size fields disagree with
    /// `sector_size` and the buffer length.
    pub fn parse(number: u64, data: &'a [u8], sector_size: usize) -> (r: Option<Self>)
        ensures
            r is Some <==> file_valid(data@, sector_size as int),
            r matches Some(f) ==> f.number == number && f.data == data && f.header
                == file_header_of(data@),
    {
        match decode_file_header(data) {
            Some(header) => {
                if valid_file_header(data, header, sector_size) {
                    Some(NtfsFile { number, header, data })
                } else {
                    None
                }
            },
            None => None,
        }
    }

    /// The same validation as [`NtfsFile::parse`] without borrowing, for use
    /// before the fixup is applied.
    pub fn is_valid(data: &[u8], sector_size: usize) -> (r: bool)
        ensures
            r == file_valid(data@, sector_size as int),
    {
        match decode_file_header(data) {
            Some(header) => valid_file_header(data, header, sector_size),
            None => false,
        }
    }

    /// The record's reference: sequence value in the high 16 bits, record
    /// number in the low 48.
    pub fn reference_number(&self) -> (r: u64)
        ensures
            r == self.header.sequence_value * 0x1_0000_0000_0000 + self.number % 0x1_0000_0000_0000,
    {
        let high: u64 = self.header.sequence_value as u64;
        let low: u64 = self.number;
        let r: u64 = (high << 48) | (low & FILE_RECORD_MASK);
        assert(r == high * 0x1_0000_0000_0000 + low % 0x1_0000_0000_0000) by (bit_vector)
            requires
                r == (high << 48) | (low & 0x0000_FFFF_FFFF_FFFF),
                high <= 0xFFFF,
        ;
        r
    }

    /// The bytes that [`NtfsFile::occupied`] describes.
    fn bounded(&self) -> (r: &'a [u8])
        ensures
            r@ == self.occupied(),
    {
        let used: usize = self.header.used_size as usize;
        let end: usize = if used <= self.data.len() {
            used
        } else {
            self.data.len()
        };
        let r: &'a [u8] = slice_subrange(self.data, 0, end);
        assert(r@ =~= self.occupied());
        r
    }

    /// Every decodable attribute in chain order, up to the first terminator,
    /// malformed attribute, or overrun of the used region.
    pub fn attributes(&self) -> (r: Vec<NtfsAttribute<'a>>)
        ensures
            ({
                let offs = attribute_offsets(self.occupied(), self.header.attributes_offset as int);
                &&& r@.len() == offs.len()
                &&& forall|i: int|
                    0 <= i < offs.len() ==> (#[trigger] r@[i]).wf() && r@[i].bytes()
                        == attribute_bytes(self.occupied(), offs[i])
            }),
    {
        let bounded: &'a [u8] = self.bounded();
        let ghost s = bounded@;
        let ghost all = attribute_offsets(s, self.header.attributes_offset as int);
        let mut found: Vec<NtfsAttribute<'a>> = Vec::new();
        let mut offset: usize = self.header.attributes_offset as usize;
        let ghost mut taken: Seq<int> = Seq::empty();
        assert(taken + attribute_offsets(s, offset as int) =~= all);
        loop
            invariant
                s == bounded@,
                s == self.occupied(),
                all == attribute_offsets(s, self.header.attributes_offset as int),
                all == taken + attribute_offsets(s, offset as int),
                found@.len() == taken.len(),
                forall|i: int|
                    0 <= i < taken.len() ==> (#[trigger] found@[i]).wf() && found@[i].bytes()
                        == attribute_bytes(s, taken[i]),
            decreases s.len() - offset,
        {
            match le_u32(bounded, offset) {
                Some(_) => {},
                None => {
                    assert(all =~= taken);
                    return found;
                },
            }
            let rest: &'a [u8] = slice_subrange(bounded, offset, bounded.len());
            assert(rest@ =~= s.skip(offset as int));
            match NtfsAttribute::parse(rest) {
                Some(attribute) => {
                    proof {
                        lemma_attribute_at(s, offset as int);
                        assert(s.len() == bounded.len());
                    }
                    let length: usize = attribute.len();
                    proof {
                        let tail = attribute_offsets(s, offset + length);
                        assert(taken + (seq![offset as int] + tail) =~= taken.push(offset as int)
                            + tail);
                        taken = taken.push(offset as int);
                    }
                    found.push(attribute);
                    offset = offset + length;
                },
                None => {
                    assert(all =~= taken);
                    return found;
                },
            }
        }
    }

    /// The first attribute of `attribute_type` in chain order, if any.
    pub fn get_attribute(&self, attribute_type: NtfsAttributeType) -> (r: Option<NtfsAttribute<'a>>)
        ensures
            ({
                let off = first_of_type(
                    self.occupied(),
                    self.header.attributes_offset as int,
                    attribute_type.spec_code(),
                );
                &&& r is Some <==> off is Some
                &&& r matches Some(a) ==> a.wf() && a.bytes() == attribute_bytes(
                    self.occupied(),
                    off->0,
                )
            }),
    {
        let bounded: &'a [u8] = self.bounded();
        let ghost s = bounded@;
        let code: u32 = attribute_type.code();
        let mut offset: usize = self.header.attributes_offset as usize;
        loop
            invariant
                s == bounded@,
                s == self.occupied(),
                code == attribute_type.spec_code(),
                first_of_type(s, self.header.attributes_offset as int, code) == first_of_type(
                    s,
                    offset as int,
                    code,
                ),
            decreases s.len() - offset,
        {
            let type_id: u32 = match le_u32(bounded, offset) {
                Some(type_id) => type_id,
                None => {
                    return None;
                },
            };
            let rest: &'a [u8] = slice_subrange(bounded, offset, bounded.len());
            assert(rest@ =~= s.skip(offset as int));
            match NtfsAttribute::parse(rest) {
                Some(attribute) => {
                    proof {
                        lemma_attribute_at(s, offset as int);
                        assert(s.len() == bounded.len());
                    }
                    if type_id == code {
                        return Some(attribute);
                    }
                    let length: usize = attribute.len();
                    offset = offset + length;
                },
                None => {
                    return None;
                },
            }
        }
    }

    /// True when the record is allocated rather than a deleted remnant.
    pub fn is_used(&self) -> (r: bool)
        ensures
            r == (self.header.flags & FILE_RECORD_IN_USE != 0),
    {
        self.header.flags & FILE_RECORD_IN_USE != 0
    }

    /// True when the record describes a directory.
    pub fn is_directory(&self) -> (r: bool)
        ensures
            r == (self.header.flags & FILE_RECORD_DIRECTORY != 0),
    {
        self.header.flags & FILE_RECORD_DIRECTORY != 0
    }
}

/// Volume layout as declared by the NTFS boot sector.
#[derive(Clone, Copy, Debug, PartialEq, Eq, Structural)]
pub struct VolumeGeometry {
    /// Bytes per sector (512 to 4096, power of two).
    pub sector_size: u64,
    /// Bytes per cluster.
    pub cluster_size: u64,
    /// Total volume size in bytes.
    pub volume_size: u64,
    /// Bytes per file record.
    pub file_record_size: u64,
    /// Byte offset of the first cluster of the file table.
    pub mft_position: u64,
}

/// `s` carries the NTFS name and the boot mark where a boot sector has them.
pub open spec fn boot_signature(s: Seq<u8>) -> bool {
    &&& s.len() >= SECTOR_BYTES
    &&& s[3] == 0x4E && s[4] == 0x54 && s[5] == 0x46 && s[6] == 0x53
    &&& s[7] == 0x20 && s[8] == 0x20 && s[9] == 0x20 && s[10] == 0x20
    &&& s[510] == 0x55 && s[511] == 0xAA
}

/// The cluster size that a boot sector declares.
pub open spec fn boot_cluster_size(s: Seq<u8>) -> int {
    u16_at(s, 11) * s[13]
}

/// The file record size that a boot sector declares: a cluster count when its
/// code is positive, else the power of two of the code's magnitude.
pub open spec fn boot_record_size(s: Seq<u8>) -> int {
    if 0 < s[64] < 0x80 {
        s[64] * boot_cluster_size(s)
    } else if s[64] == 0 {
        1
    } else {
        pow2((0x100 - s[64]) as nat) as int
    }
}

/// Every quantity of the boot sector is in range, and the first record of the
/// file table lies inside the volume.
pub open spec fn boot_valid(s: Seq<u8>) -> bool {
    let sector = u16_at(s, 11) as int;
    let cluster = boot_cluster_size(s);
    let volume = u64_at(s, 40) * sector;
    let mft = u64_at(s, 48) * cluster;
    let record = boot_record_size(s);
    &&& boot_signature(s)
    &&& 512 <= sector <= 4096 && is_pow2(sector)
    &&& is_pow2(s[13] as int)
    &&& cluster <= MAX_CLUSTER_BYTES
    &&& 0 < volume <= u64::MAX
    &&& sector <= record <= MAX_FILE_RECORD_BYTES && is_pow2(record) && record % sector == 0
    &&& mft + record <= volume
}

/// The layout that a valid boot sector declares.
pub open spec fn boot_geometry(s: Seq<u8>) -> VolumeGeometry {
    VolumeGeometry {
        sector_size: u16_at(s, 11) as u64,
        cluster_size: boot_cluster_size(s) as u64,
        volume_size: (u64_at(s, 40) * u16_at(s, 11)) as u64,
        file_record_size: boot_record_size(s) as u64,
        mft_position: (u64_at(s, 48) * boot_cluster_size(s)) as u64,
    }
}

/// Decode and sanity-check the NTFS boot sector.
///
/// Every derived quantity is range- and overflow-checked against the others:
/// the file table must start inside the volume and one record must fit after
/// it.
pub fn decode_boot_sector(data: &[u8]) -> (r: Option<VolumeGeometry>)
    ensures
        r == (if boot_valid(data@) {
            Some(boot_geometry(data@))
        } else {
            None
        }),
{
    if data.len() < SECTOR_BYTES || !boot_name(data) || data[510] != 0x55 || data[511] != 0xAA {
        return None;
    }
    let sector_size: u64 = read_u16(data, 11) as u64;
    let sectors_per_cluster: u64 = data[13] as u64;
    reveal(is_pow2);
    if sector_size < 512 || sector_size > 4096 || !is_power_of_two(sector_size)
        || !is_power_of_two(sectors_per_cluster) {
        return None;
    }
    assert(sector_size * sectors_per_cluster <= 4096 * 255) by (nonlinear_arith)
        requires
            sector_size <= 4096,
            sectors_per_cluster <= 255,
    ;
    assert(sector_size * sectors_per_cluster >= 512) by (nonlinear_arith)
        requires
            sector_size >= 512,
            sectors_per_cluster >= 1,
    ;
    let cluster_size: u64 = sector_size * sectors_per_cluster;
    if cluster_size > MAX_CLUSTER_BYTES {
        return None;
    }
    let volume_size: u64 = match read_u64(data, 40).checked_mul(sector_size) {
        Some(size) => size,
        None => {
            return None;
        },
    };
    let mft_position: u64 = match read_u64(data, 48).checked_mul(cluster_size) {
        Some(position) => position,
        None => {
            return None;
        },
    };
    let file_record_size: u64 = match record_size(data[64], cluster_size) {
        Some(size) => size,
        None => {
            return None;
        },
    };
    if volume_size == 0 || file_record_size < sector_size || file_record_size
        > MAX_FILE_RECORD_BYTES || !is_power_of_two(file_record_size) || file_record_size
        % sector_size != 0 || mft_position > volume_size || file_record_size > volume_size
        - mft_position {
        return None;
    }
    Some(VolumeGeometry { sector_size, cluster_size, volume_size, file_record_size, mft_position })
}

/// Whether the eight bytes at offset 3 are the NTFS name.
fn boot_name(data: &[u8]) -> (r: bool)
    requires
        data@.len() >= SECTOR_BYTES,
    ensures
        r == (data@[3] == 0x4E && data@[4] == 0x54 && data@[5] == 0x46 && data@[6] == 0x53
            && data@[7] == 0x20 && data@[8] == 0x20 && data@[9] == 0x20 && data@[10] == 0x20),
{
    data[3] == 0x4E && data[4] == 0x54 && data[5] == 0x46 && data[6] == 0x53 && data[7] == 0x20
        && data[8] == 0x20 && data[9] == 0x20 && data[10] == 0x20
}

/// The record size for a boot-sector code, or `None` where it cannot be
/// within the accepted sizes.
fn record_size(code: u8, cluster_size: u64) -> (r: Option<u64>)
    requires
        512 <= cluster_size <= MAX_CLUSTER_BYTES,
    ensures
        ({
            let size: int = if 0 < code < 0x80 {
                code * cluster_size
            } else if code == 0 {
                1
            } else {
                pow2((0x100 - code) as nat) as int
            };
            &&& r matches Some(v) ==> v == size
            &&& r is None ==> size > MAX_FILE_RECORD_BYTES
        }),
{
    if code == 0 {
        return Some(1);
    }
    if code < 0x80 {
        assert(code * cluster_size <= 0x80 * 0x20_0000) by (nonlinear_arith)
            requires
                code <= 0x80,
                cluster_size <= 0x20_0000,
        ;
        return Some(code as u64 * cluster_size);
    }
    let shift: u64 = 0x100 - code as u64;
    if shift >= 64 {
        proof {
            lemma_pow2_strictly_increases(16, shift as nat);
            lemma2_to64();
        }
        return None;
    }
    proof {
        vstd::bits::lemma_u64_pow2_no_overflow(shift as nat);
        vstd::bits::lemma_u64_shl_is_mul(1, shift);
    }
    Some(1u64 << shift)
}

/// The record header, when the buffer is long enough and carries the
/// signature.
fn decode_file_header(data: &[u8]) -> (r: Option<NtfsFileRecordHeader>)
    ensures
        r == (if data@.len() >= FILE_RECORD_HEADER_BYTES && file_signature(data@) {
            Some(file_header_of(data@))
        } else {
            None
        }),
{
    if data.len() < FILE_RECORD_HEADER_BYTES || data[0] != 0x46 || data[1] != 0x49 || data[2]
        != 0x4C || data[3] != 0x45 {
        return None;
    }
    Some(
        NtfsFileRecordHeader {
            sequence_value: read_u16(data, 16),
            attributes_offset: read_u16(data, 20),
            flags: read_u16(data, 22),
            used_size: read_u32(data, 24),
            allocated_size: read_u32(data, 28),
            base_reference: read_u64(data, 32),
        },
    )
}

/// The geometry and the size fields of a decoded record header.
fn valid_file_header(data: &[u8], header: NtfsFileRecordHeader, sector_size: usize) -> (r: bool)
    requires
        data@.len() >= FILE_RECORD_HEADER_BYTES,
        file_signature(data@),
        header == file_header_of(data@),
    ensures
        r == file_valid(data@, sector_size as int),
{
    let usa: usize = read_u16(data, 4) as usize;
    let count: usize = read_u16(data, 6) as usize;
    let usa_end: usize = usa + 2 * count;
    let used: usize = header.used_size as usize;
    let attributes_offset: usize = header.attributes_offset as usize;
    let in_use: bool = header.flags & FILE_RECORD_IN_USE != 0;
    if sector_size < SECTOR_BYTES || sector_size > 4096 || !is_power_of_two(sector_size as u64) {
        return false;
    }
    usa >= FILE_RECORD_HEADER_BYTES && usa % 2 == 0 && usa_end <= attributes_offset && data.len()
        % sector_size == 0 && count >= 1 && count - 1 == data.len() / sector_size
        && header.allocated_size as usize == data.len() && (!in_use || header.sequence_value != 0)
        && (header.base_reference == 0 || header.base_reference >= 0x1_0000_0000_0000) && used
        <= data.len() && attributes_offset >= FILE_RECORD_HEADER_BYTES && attributes_offset % 8 == 0
        && attributes_offset < used
}

/// The common attribute header, when the buffer is long enough.
fn decode_attribute_header(data: &[u8]) -> (r: Option<NtfsAttributeHeader>)
    ensures
        r == (if data@.len() >= ATTRIBUTE_HEADER_BYTES {
            Some(attribute_header_of(data@))
        } else {
            None
        }),
{
    if data.len() < ATTRIBUTE_HEADER_BYTES {
        return None;
    }
    Some(
        NtfsAttributeHeader {
            type_id: read_u32(data, 0),
            length: read_u32(data, 4),
            is_non_resident: data[8],
            name_length: data[9],
            name_offset: read_u16(data, 10),
            flags: read_u16(data, 12),
            id: read_u16(data, 14),
        },
    )
}

} // verus!
