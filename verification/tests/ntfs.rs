//! Boot sectors, file records and attributes.

use fmf_core::ondisk::ntfs::{
    decode_boot_sector, NtfsAttribute, NtfsAttributeType, NtfsFile, NtfsFileNamespace,
    NtfsNonResidentAttributeHeader, VolumeGeometry,
};

const SECTOR_BYTES: usize = 512;
const ATTRIBUTE_HEADER_BYTES: usize = 16;
const RESIDENT_HEADER_BYTES: usize = 24;
const NONRESIDENT_HEADER_BYTES: usize = 64;
const FILE_RECORD_HEADER_BYTES: usize = 42;
const FILE_RECORD_SIGNATURE: &[u8; 4] = b"FILE";

fn put_u16(data: &mut [u8], offset: usize, value: u16) {
    data[offset..offset + 2].copy_from_slice(&value.to_le_bytes());
}

fn put_u32(data: &mut [u8], offset: usize, value: u32) {
    data[offset..offset + 4].copy_from_slice(&value.to_le_bytes());
}

fn put_u64(data: &mut [u8], offset: usize, value: u64) {
    data[offset..offset + 8].copy_from_slice(&value.to_le_bytes());
}

#[test]
fn boot_sector_decode_is_checked_and_alignment_independent() {
    let mut bytes = vec![0xA5; SECTOR_BYTES + 1];
    let boot = &mut bytes[1..];
    boot[3..11].copy_from_slice(b"NTFS    ");
    boot[510..512].copy_from_slice(&[0x55, 0xAA]);
    put_u16(boot, 11, 512);
    boot[13] = 8;
    put_u64(boot, 40, 2_000_000);
    put_u64(boot, 48, 4);
    boot[64] = (-10i8) as u8;

    assert_eq!(
        decode_boot_sector(boot),
        Some(VolumeGeometry {
            sector_size: 512,
            cluster_size: 4096,
            volume_size: 1_024_000_000,
            file_record_size: 1024,
            mft_position: 16_384,
        })
    );
    boot[13] = 3;
    assert!(decode_boot_sector(boot).is_none());
}

#[test]
fn attribute_decode_never_requires_aligned_storage() {
    // The attribute must start at an odd address whatever the stack layout
    // is: the decoder may never rely on 2/8-byte aligned storage. A `[u8;
    // N]` is only 1-byte aligned, so derive the skew from the real address
    // instead of assuming the buffer itself starts aligned.
    let mut storage = [0x5A; NONRESIDENT_HEADER_BYTES + 2];
    let skew = 1 + (storage.as_ptr().addr() & 1);
    let attribute = &mut storage[skew..skew + NONRESIDENT_HEADER_BYTES];
    assert_eq!(
        attribute.as_ptr().addr() & 1,
        1,
        "storage must be unaligned"
    );
    attribute.fill(0);
    put_u32(attribute, 0, NtfsAttributeType::Data.code());
    put_u32(attribute, 4, NONRESIDENT_HEADER_BYTES as u32);
    attribute[8] = 1;
    put_u64(attribute, 16, 7);
    put_u64(attribute, 24, 9);
    put_u16(attribute, 32, NONRESIDENT_HEADER_BYTES as u16);
    put_u64(attribute, 48, 0x0123_4567_89AB_CDEF);

    let parsed = NtfsAttribute::parse(attribute).expect("valid non-resident attribute");
    assert_eq!(
        parsed.nonresident_header(),
        Some(NtfsNonResidentAttributeHeader {
            lowest_vcn: 7,
            highest_vcn: 9,
            data_runs_offset: NONRESIDENT_HEADER_BYTES as u16,
            data_size: 0x0123_4567_89AB_CDEF,
        })
    );
}

#[test]
fn file_record_allocation_must_match_exact_record_buffer() {
    let mut record = vec![0u8; 1024];
    record[..4].copy_from_slice(FILE_RECORD_SIGNATURE);
    put_u16(&mut record, 4, FILE_RECORD_HEADER_BYTES as u16);
    put_u16(&mut record, 6, 3);
    put_u16(&mut record, 20, 48);
    put_u32(&mut record, 24, 52);
    put_u32(&mut record, 28, 1024);
    assert!(NtfsFile::is_valid(&record, 512));

    put_u32(&mut record, 28, 2048);
    assert!(!NtfsFile::is_valid(&record, 512));
}

#[test]
fn file_name_borrows_only_the_exact_utf16le_payload() {
    let mut attribute = vec![0u8; 120];
    put_u32(&mut attribute, 0, NtfsAttributeType::FileName.code());
    put_u32(&mut attribute, 4, 96);
    put_u32(&mut attribute, 16, 70);
    put_u16(&mut attribute, 20, RESIDENT_HEADER_BYTES as u16);
    put_u64(&mut attribute, RESIDENT_HEADER_BYTES, (1u64 << 48) | 0x1234);
    attribute[RESIDENT_HEADER_BYTES + 64] = 2;
    attribute[RESIDENT_HEADER_BYTES + 65] = NtfsFileNamespace::Win32.code();
    attribute[RESIDENT_HEADER_BYTES + 66..RESIDENT_HEADER_BYTES + 70]
        .copy_from_slice(&[b'A', 0, 0x00, 0xD8]);

    let name = NtfsAttribute::parse(&attribute)
        .and_then(|attribute| attribute.as_name())
        .expect("valid resident FILE_NAME");
    assert_eq!(name.utf16le, [b'A', 0, 0x00, 0xD8]);
    assert_eq!(name.to_utf16(), [b'A' as u16, 0xD800]);
}

#[test]
fn truncated_structures_fail_closed() {
    for length in 0..ATTRIBUTE_HEADER_BYTES {
        assert!(NtfsAttribute::parse(&vec![0; length]).is_none());
    }
    for length in 0..SECTOR_BYTES {
        assert!(decode_boot_sector(&vec![0; length]).is_none());
    }
}
