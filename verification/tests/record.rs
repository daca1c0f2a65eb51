//! Whole attribute chains of a record.

use fmf_core::ondisk::record::attributes_complete;

const STANDARD_INFORMATION_ATTRIBUTE: u32 = 0x10;
const ATTRIBUTE_LIST_ATTRIBUTE: u32 = 0x20;
const FILE_NAME_ATTRIBUTE: u32 = 0x30;
const ATTRIBUTE_END: u32 = 0xFFFF_FFFF;
const MAX_ATTRIBUTE_TYPE: u32 = 0x100;

fn put_u16(data: &mut [u8], offset: usize, value: u16) {
    data[offset..offset + 2].copy_from_slice(&value.to_le_bytes());
}

fn put_u32(data: &mut [u8], offset: usize, value: u32) {
    data[offset..offset + 4].copy_from_slice(&value.to_le_bytes());
}

fn resident_record() -> Vec<u8> {
    let mut record = vec![0u8; 128];
    let allocated = record.len() as u32;
    put_u16(&mut record, 20, 48);
    put_u32(&mut record, 24, 88);
    put_u32(&mut record, 28, allocated);
    put_u32(&mut record, 48, FILE_NAME_ATTRIBUTE);
    put_u32(&mut record, 52, 32);
    put_u32(&mut record, 64, 4);
    put_u16(&mut record, 68, 24);
    put_u32(&mut record, 80, ATTRIBUTE_END);
    record
}

fn two_resident_attributes(first_type: u32, second_type: u32) -> Vec<u8> {
    let mut record = vec![0u8; 160];
    put_u16(&mut record, 20, 48);
    put_u32(&mut record, 24, 120);
    put_u32(&mut record, 28, 160);
    for (offset, type_id, id) in [(48usize, first_type, 7u16), (80, second_type, 8)] {
        put_u32(&mut record, offset, type_id);
        put_u32(&mut record, offset + 4, 32);
        put_u16(&mut record, offset + 14, id);
        put_u32(&mut record, offset + 16, 4);
        put_u16(&mut record, offset + 20, 24);
    }
    put_u32(&mut record, 112, ATTRIBUTE_END);
    record
}

fn named_resident_attribute(type_id: u32) -> Vec<u8> {
    let mut record = vec![0u8; 128];
    put_u16(&mut record, 20, 48);
    put_u32(&mut record, 24, 96);
    put_u32(&mut record, 28, 128);
    put_u32(&mut record, 48, type_id);
    put_u32(&mut record, 52, 40);
    record[57] = 1;
    put_u16(&mut record, 58, 24);
    put_u16(&mut record, 62, 1);
    put_u32(&mut record, 64, 4);
    put_u16(&mut record, 68, 32);
    put_u16(&mut record, 72, b'x' as u16);
    put_u32(&mut record, 88, ATTRIBUTE_END);
    record
}

#[test]
fn accepts_a_complete_resident_chain() {
    assert!(attributes_complete(&resident_record()));
}

#[test]
fn rejects_an_unterminated_or_truncated_attribute_chain() {
    let mut unterminated = resident_record();
    put_u32(&mut unterminated, 80, 0);
    assert!(!attributes_complete(&unterminated));

    let mut escaping_value = resident_record();
    put_u32(&mut escaping_value, 64, 9);
    assert!(!attributes_complete(&escaping_value));

    let mut short_end = resident_record();
    put_u32(&mut short_end, 24, 84);
    assert!(!attributes_complete(&short_end));
}

#[test]
fn rejects_nonresident_file_names_and_invalid_mapping_offsets() {
    let mut nonresident_name = resident_record();
    nonresident_name[56] = 1;
    put_u32(&mut nonresident_name, 52, 64);
    put_u16(&mut nonresident_name, 80, 64);
    put_u32(&mut nonresident_name, 112, ATTRIBUTE_END);
    put_u32(&mut nonresident_name, 24, 116);
    assert!(!attributes_complete(&nonresident_name));
}

#[test]
fn rejects_allocated_size_mismatch_and_duplicate_attribute_ids() {
    let mut wrong_allocation = resident_record();
    put_u32(&mut wrong_allocation, 28, 64);
    assert!(!attributes_complete(&wrong_allocation));

    let mut duplicate = vec![0u8; 160];
    put_u16(&mut duplicate, 20, 48);
    put_u32(&mut duplicate, 24, 120);
    put_u32(&mut duplicate, 28, 160);
    for offset in [48usize, 80] {
        put_u32(&mut duplicate, offset, FILE_NAME_ATTRIBUTE);
        put_u32(&mut duplicate, offset + 4, 32);
        put_u16(&mut duplicate, offset + 14, 7);
        put_u32(&mut duplicate, offset + 16, 4);
        put_u16(&mut duplicate, offset + 20, 24);
    }
    put_u32(&mut duplicate, 112, ATTRIBUTE_END);
    assert!(!attributes_complete(&duplicate));
}

#[test]
fn rejects_invalid_or_descending_attribute_types() {
    for invalid in [0, 0x11, MAX_ATTRIBUTE_TYPE + 0x10] {
        let mut record = resident_record();
        put_u32(&mut record, 48, invalid);
        assert!(!attributes_complete(&record));
    }
    assert!(!attributes_complete(&two_resident_attributes(
        0x80,
        FILE_NAME_ATTRIBUTE,
    )));
}

#[test]
fn equal_types_remain_valid_for_hard_links_and_split_extents() {
    // FILE_NAME legitimately repeats for hard links. ATTRIBUTE_LIST can
    // also describe split extents despite the Microsoft prose saying
    // there is at most one unnamed attribute per type; identity/VCN
    // uniqueness is therefore enforced by the list parser, not by making
    // the record's type order artificially strict.
    assert!(attributes_complete(&two_resident_attributes(
        FILE_NAME_ATTRIBUTE,
        FILE_NAME_ATTRIBUTE,
    )));
    assert!(attributes_complete(&two_resident_attributes(
        ATTRIBUTE_LIST_ATTRIBUTE,
        ATTRIBUTE_LIST_ATTRIBUTE,
    )));
}

#[test]
fn relevant_system_attributes_are_unnamed_unflagged_and_resident_when_required() {
    for type_id in [
        STANDARD_INFORMATION_ATTRIBUTE,
        ATTRIBUTE_LIST_ATTRIBUTE,
        FILE_NAME_ATTRIBUTE,
    ] {
        assert!(!attributes_complete(&named_resident_attribute(type_id)));

        let mut flagged = resident_record();
        put_u32(&mut flagged, 48, type_id);
        put_u16(&mut flagged, 60, 1);
        assert!(!attributes_complete(&flagged));
    }

    let mut nonresident_standard = resident_record();
    put_u32(
        &mut nonresident_standard,
        48,
        STANDARD_INFORMATION_ATTRIBUTE,
    );
    nonresident_standard[56] = 1;
    put_u32(&mut nonresident_standard, 52, 64);
    put_u16(&mut nonresident_standard, 80, 64);
    put_u32(&mut nonresident_standard, 112, ATTRIBUTE_END);
    put_u32(&mut nonresident_standard, 24, 120);
    assert!(!attributes_complete(&nonresident_standard));
}

#[test]
fn nonresident_mapping_offset_must_leave_a_terminator_byte() {
    let mut record = vec![0u8; 160];
    put_u16(&mut record, 20, 48);
    put_u32(&mut record, 24, 120);
    put_u32(&mut record, 28, 160);
    put_u32(&mut record, 48, 0x80);
    put_u32(&mut record, 52, 64);
    record[56] = 1;
    put_u16(&mut record, 80, 64);
    put_u32(&mut record, 112, ATTRIBUTE_END);
    assert!(!attributes_complete(&record));
}
