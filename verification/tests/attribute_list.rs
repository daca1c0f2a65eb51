//! Attribute lists: entries, runs, streams and extents.

use std::cell::RefCell;
use std::mem::{size_of, size_of_val};
use std::sync::atomic::{AtomicBool, Ordering};

use fmf_core::ondisk::attribute_list::{
    complete_runs_are_valid, covered_prefix, parse_list_entries, partial_runs_are_valid,
    ListEntry, StreamRun, MAX_FILE_NAME_ENTRIES, MAX_LIST_BYTES, MAX_LIST_ENTRIES, MAX_LIST_RUNS,
};
use fmf_core::ondisk::closure::{ExtentClosure, NextPass, MAX_CLOSURE_PASSES};
use fmf_core::ondisk::extents::decode_extent_runs;
use fmf_core::ondisk::list_stream::ListStreamError;
use fmf_core::ondisk::ntfs::{NtfsAttribute, NtfsAttributeType};

const ATTRIBUTE_LIST_ENTRY_BYTES: usize = 26;
const NONRESIDENT_HEADER_BYTES: usize = 64;

/// Visit the entries of a list whose volume is in memory.
fn visit_list_stream(
    image: &mut std::io::Cursor<Vec<u8>>,
    runs: &[StreamRun],
    data_size: u64,
    stop: &AtomicBool,
    prefix: bool,
    mut each: impl FnMut(ListEntry),
) -> Result<(), ListStreamError> {
    let visit = fmf_core::ondisk::list_stream::visit_list_stream(
        image.get_ref(),
        runs,
        data_size,
        stop.load(Ordering::Relaxed),
        prefix,
    );
    for entry in visit.entries {
        each(entry);
    }
    visit.outcome
}

/// Close extents with closures that keep state.
fn close_extent_runs(
    runs: Vec<StreamRun>,
    data_size: u64,
    base: ListEntry,
    discover: impl FnMut(&[StreamRun], u64) -> Option<Vec<ListEntry>>,
    decode: impl FnMut(ListEntry) -> Option<Vec<StreamRun>>,
) -> Option<Vec<StreamRun>> {
    let discover = RefCell::new(discover);
    let decode = RefCell::new(decode);
    fmf_core::ondisk::closure::close_extent_runs(
        runs,
        data_size,
        base,
        |known: &[StreamRun], prefix: u64| (discover.borrow_mut())(known, prefix),
        |entry: ListEntry| (decode.borrow_mut())(entry),
    )
}

#[test]
fn runs_may_extend_past_the_stream_because_ntfs_allocates_whole_clusters() {
    // Mapping pairs describe the ALLOCATED extent. NTFS allocates whole
    // clusters and does not release the tail when a stream shrinks, so a
    // 96-byte $ATTRIBUTE_LIST holding two 4KiB clusters is ordinary. The
    // tail run is never read — `RunReader` bounds itself by `data_size` —
    // but rejecting it failed a real C: outright.
    let runs = vec![
        StreamRun {
            logical: 0,
            physical: Some(1 << 20),
            len: 4096,
        },
        StreamRun {
            logical: 4096,
            physical: Some(2 << 20),
            len: 4096,
        },
    ];
    assert!(partial_runs_are_valid(&runs, 96));
    assert!(complete_runs_are_valid(&runs, 96));
    // A gap before the stream is covered is still a rejection.
    let holed = vec![StreamRun {
        logical: 4096,
        physical: Some(1 << 20),
        len: 4096,
    }];
    assert!(!partial_runs_are_valid(&holed, 96));
}

fn put_u16(data: &mut [u8], off: usize, value: u16) {
    data[off..off + 2].copy_from_slice(&value.to_le_bytes());
}

fn put_u32(data: &mut [u8], off: usize, value: u32) {
    data[off..off + 4].copy_from_slice(&value.to_le_bytes());
}

fn put_u64(data: &mut [u8], off: usize, value: u64) {
    data[off..off + 8].copy_from_slice(&value.to_le_bytes());
}

fn frn(record: u64) -> u64 {
    (1u64 << 48) | record
}

fn list_entry_named(type_id: u32, name: &[u16], vcn: u64, target: u64, id: u16) -> Vec<u8> {
    let record_len = (ATTRIBUTE_LIST_ENTRY_BYTES + size_of_val(name)).next_multiple_of(8);
    let mut data = vec![0u8; record_len];
    put_u32(&mut data, 0, type_id);
    put_u16(&mut data, 4, record_len as u16);
    data[6] = name.len() as u8;
    if !name.is_empty() {
        data[7] = ATTRIBUTE_LIST_ENTRY_BYTES as u8;
        for (index, unit) in name.iter().enumerate() {
            put_u16(
                &mut data,
                ATTRIBUTE_LIST_ENTRY_BYTES + index * size_of::<u16>(),
                *unit,
            );
        }
    }
    put_u64(&mut data, 8, vcn);
    let target = if target >> 48 == 0 {
        frn(target)
    } else {
        target
    };
    put_u64(&mut data, 16, target);
    put_u16(&mut data, 24, id);
    data
}

fn list_entry(type_id: u32, vcn: u64, target: u64, id: u16) -> Vec<u8> {
    list_entry_named(type_id, &[], vcn, target, id)
}

fn nonresident_attr(lowest: u64, highest: u64, data_size: u64, mapping: &[u8]) -> Vec<u8> {
    let header = NONRESIDENT_HEADER_BYTES;
    let attr_len = (header + mapping.len()).next_multiple_of(8);
    let mut attr = vec![0u8; attr_len];
    put_u32(&mut attr, 0, NtfsAttributeType::AttributeList.code());
    put_u32(&mut attr, 4, attr_len as u32);
    attr[8] = 1;
    put_u64(&mut attr, 16, lowest);
    put_u64(&mut attr, 24, highest);
    put_u16(&mut attr, 32, header as u16);
    put_u64(&mut attr, 40, highest.saturating_add(1).saturating_mul(4));
    put_u64(&mut attr, 48, data_size);
    put_u64(&mut attr, 56, data_size);
    attr[header..header + mapping.len()].copy_from_slice(mapping);
    attr
}

#[test]
fn complete_and_prefix_entry_parsing_fail_closed() {
    let first = list_entry(0x20, 0, (3u64 << 48) | 0x2A, 7);
    let second = list_entry(0x30, 0, (4u64 << 48) | 0x63, 8);
    let mut all = first;
    all.extend_from_slice(&second);
    let parsed = parse_list_entries(&all, false).unwrap();
    assert_eq!(parsed.len(), 2);
    assert_eq!(parsed[0].target_record(), 42);
    assert_eq!(parsed[1].target_reference, (4u64 << 48) | 0x63);

    let cut = &all[..all.len() - 3];
    assert!(parse_list_entries(cut, false).is_none());
    assert_eq!(parse_list_entries(cut, true).unwrap().len(), 1);

    let mut bad_name =
        list_entry_named(NtfsAttributeType::Data.code(), &[b'x' as u16], 0, 7, 3);
    bad_name[7] = 31;
    assert!(parse_list_entries(&bad_name, false).is_none());
}

#[test]
fn record_length_is_aligned_and_is_the_exact_advance() {
    let entry = list_entry(NtfsAttributeType::AttributeList.code(), 0, 1, 1);

    let mut unaligned = entry.clone();
    put_u16(&mut unaligned, 4, 30);
    assert!(parse_list_entries(&unaligned, false).is_none());
    assert!(parse_list_entries(&unaligned, true).is_none());

    let mut declared_past_end = entry.clone();
    put_u16(&mut declared_past_end, 4, 40);
    assert!(parse_list_entries(&declared_past_end, false).is_none());
    assert!(
        parse_list_entries(&declared_past_end, true)
            .unwrap()
            .is_empty()
    );

    let mut zero_tail = entry;
    zero_tail.extend_from_slice(&[0; 8]);
    assert!(parse_list_entries(&zero_tail, false).is_none());
    assert_eq!(parse_list_entries(&zero_tail, true).unwrap().len(), 1);
    assert!(parse_list_entries(&[], false).is_none());
}

#[test]
fn relevant_entries_are_unnamed_and_file_name_vcn_is_zero() {
    let named_list = list_entry_named(
        NtfsAttributeType::AttributeList.code(),
        &[b'x' as u16],
        0,
        1,
        1,
    );
    assert!(parse_list_entries(&named_list, false).is_none());

    let named_file =
        list_entry_named(NtfsAttributeType::FileName.code(), &[b'x' as u16], 0, 2, 2);
    assert!(parse_list_entries(&named_file, false).is_none());

    let continuation_name = list_entry(NtfsAttributeType::FileName.code(), 1, 3, 3);
    assert!(parse_list_entries(&continuation_name, false).is_none());

    let named_data = list_entry_named(
        NtfsAttributeType::Data.code(),
        &[b'a' as u16, b'd' as u16, b's' as u16],
        0,
        4,
        4,
    );
    let parsed = parse_list_entries(&named_data, false).unwrap();
    assert_eq!(parsed[0].name_length, 3);

    for invalid_type in [0, NtfsAttributeType::End.code(), 0x11, 0x110] {
        let invalid = list_entry(invalid_type, 0, 5, 5);
        assert!(parse_list_entries(&invalid, false).is_none());
    }

    let mut zero_sequence = list_entry(NtfsAttributeType::AttributeList.code(), 0, 5, 5);
    put_u64(&mut zero_sequence, 16, 5);
    assert!(parse_list_entries(&zero_sequence, false).is_none());
}

#[test]
fn provable_ordering_and_both_uniqueness_keys_are_strict() {
    let mut descending_type = list_entry(NtfsAttributeType::Data.code(), 0, 1, 1);
    descending_type.extend_from_slice(&list_entry(NtfsAttributeType::FileName.code(), 0, 2, 2));
    assert!(parse_list_entries(&descending_type, false).is_none());

    let mut raw_descending_name =
        list_entry_named(NtfsAttributeType::Data.code(), &[b'b' as u16], 0, 1, 1);
    raw_descending_name.extend_from_slice(&list_entry_named(
        NtfsAttributeType::Data.code(),
        &[b'a' as u16],
        0,
        2,
        2,
    ));
    assert_eq!(
        parse_list_entries(&raw_descending_name, false)
            .unwrap()
            .len(),
        2
    );

    let mut descending_vcn_for_same_raw_name =
        list_entry_named(NtfsAttributeType::Data.code(), &[b'x' as u16], 2, 1, 1);
    descending_vcn_for_same_raw_name.extend_from_slice(&list_entry_named(
        NtfsAttributeType::Data.code(),
        &[b'y' as u16],
        0,
        3,
        3,
    ));
    descending_vcn_for_same_raw_name.extend_from_slice(&list_entry_named(
        NtfsAttributeType::Data.code(),
        &[b'x' as u16],
        1,
        2,
        2,
    ));
    assert!(parse_list_entries(&descending_vcn_for_same_raw_name, false).is_none());

    let mut duplicate_key =
        list_entry_named(NtfsAttributeType::Data.code(), &[b'x' as u16], 1, 1, 1);
    duplicate_key.extend_from_slice(&list_entry_named(
        NtfsAttributeType::Data.code(),
        &[b'x' as u16],
        1,
        2,
        2,
    ));
    assert!(parse_list_entries(&duplicate_key, false).is_none());

    let mut duplicate_target_instance =
        list_entry(NtfsAttributeType::AttributeList.code(), 0, 7, 3);
    duplicate_target_instance.extend_from_slice(&list_entry(
        NtfsAttributeType::FileName.code(),
        0,
        7,
        3,
    ));
    assert!(parse_list_entries(&duplicate_target_instance, false).is_none());
}

/// Replay the same bytes through the streaming entry point, which shares
/// `EntrySequence` with `parse_list_entries`. Both callers must agree.
fn stream_entries(bytes: &[u8]) -> Option<Vec<ListEntry>> {
    let runs = [StreamRun {
        logical: 0,
        physical: Some(0),
        len: bytes.len() as u64,
    }];
    let stop = AtomicBool::new(false);
    let mut cursor = std::io::Cursor::new(bytes.to_vec());
    let mut visited = Vec::new();
    visit_list_stream(&mut cursor, &runs, runs[0].len, &stop, false, |entry| {
        visited.push(entry);
    })
    .ok()
    .map(|()| visited)
}

#[test]
fn several_hard_links_keep_every_file_name_entry() {
    // One file, three links living in three different extension records.
    // Instance ids only have to be unique inside their own record, so two
    // of them deliberately collide across records.
    let mut list = list_entry(NtfsAttributeType::FileName.code(), 0, frn(30), 1);
    list.extend_from_slice(&list_entry(
        NtfsAttributeType::FileName.code(),
        0,
        frn(31),
        1,
    ));
    list.extend_from_slice(&list_entry(
        NtfsAttributeType::FileName.code(),
        0,
        frn(32),
        4,
    ));

    for parsed in [
        parse_list_entries(&list, false).expect("hard links must parse"),
        stream_entries(&list).expect("hard links must stream"),
    ] {
        assert_eq!(
            parsed
                .iter()
                .map(|entry| (entry.target_record(), entry.id))
                .collect::<Vec<_>>(),
            vec![(30, 1), (31, 1), (32, 4)],
        );
    }
}

#[test]
fn a_long_name_and_its_dos_pair_share_one_record() {
    // The WinSxS steady state: both `$FILE_NAME` attributes sit in the same
    // target record and are told apart only by their instance id.
    let mut list = list_entry(NtfsAttributeType::FileName.code(), 0, frn(30), 2);
    list.extend_from_slice(&list_entry(
        NtfsAttributeType::FileName.code(),
        0,
        frn(30),
        3,
    ));

    for parsed in [
        parse_list_entries(&list, false).expect("a DOS pair must parse"),
        stream_entries(&list).expect("a DOS pair must stream"),
    ] {
        assert_eq!(parsed.len(), 2);
        assert_eq!(parsed[0].target_reference, parsed[1].target_reference);
        assert_eq!((parsed[0].id, parsed[1].id), (2, 3));
    }
}

#[test]
fn file_name_entries_stay_bounded_by_identity_and_by_fan_out() {
    let mut identical = list_entry(NtfsAttributeType::FileName.code(), 0, frn(30), 2);
    identical.extend_from_slice(&list_entry(
        NtfsAttributeType::FileName.code(),
        0,
        frn(30),
        2,
    ));
    assert!(parse_list_entries(&identical, false).is_none());
    assert!(stream_entries(&identical).is_none());

    let mut budgeted = Vec::new();
    for index in 0..MAX_FILE_NAME_ENTRIES {
        budgeted.extend_from_slice(&list_entry(
            NtfsAttributeType::FileName.code(),
            0,
            frn(index as u64 + 1),
            1,
        ));
    }
    assert_eq!(
        parse_list_entries(&budgeted, false).map(|entries| entries.len()),
        Some(MAX_FILE_NAME_ENTRIES),
    );

    budgeted.extend_from_slice(&list_entry(
        NtfsAttributeType::FileName.code(),
        0,
        frn(MAX_FILE_NAME_ENTRIES as u64 + 1),
        1,
    ));
    assert!(parse_list_entries(&budgeted, false).is_none());
    assert!(stream_entries(&budgeted).is_none());
}

#[test]
fn split_extents_still_require_strictly_increasing_vcns() {
    // Unnamed entries take the same `(type, name)` key `$FILE_NAME` would
    // have taken, so this is the exact rule the relaxation must not touch.
    let ascending = |first: u64, second: u64| {
        let mut list = list_entry(NtfsAttributeType::Data.code(), first, frn(40), 1);
        list.extend_from_slice(&list_entry(
            NtfsAttributeType::Data.code(),
            second,
            frn(41),
            2,
        ));
        list
    };

    assert_eq!(
        parse_list_entries(&ascending(0, 4), false).map(|entries| entries.len()),
        Some(2),
    );

    for reversed_or_repeated in [ascending(4, 0), ascending(4, 4)] {
        assert!(parse_list_entries(&reversed_or_repeated, false).is_none());
        assert!(stream_entries(&reversed_or_repeated).is_none());
    }

    let mut interleaved_named = list_entry_named(
        NtfsAttributeType::Data.code(),
        &[b'x' as u16],
        2,
        frn(40),
        1,
    );
    interleaved_named.extend_from_slice(&list_entry(
        NtfsAttributeType::Data.code(),
        0,
        frn(41),
        2,
    ));
    interleaved_named.extend_from_slice(&list_entry_named(
        NtfsAttributeType::Data.code(),
        &[b'x' as u16],
        1,
        frn(42),
        3,
    ));
    assert!(parse_list_entries(&interleaved_named, false).is_none());
}

#[test]
fn run_decoder_handles_relative_and_negative_lcn_deltas() {
    // 2 clusters at LCN 10, one at LCN 12, then one at LCN 8
    // (delta -4 from the previous physical LCN).
    let mapping = [0x11, 2, 10, 0x11, 1, 2, 0x11, 1, 0xFC, 0];
    let bytes = nonresident_attr(0, 3, 13, &mapping);
    let attr = NtfsAttribute::parse(&bytes).unwrap();
    let (size, runs) = decode_extent_runs(&attr, 4, 1024).unwrap();
    assert_eq!(size, 13);
    assert_eq!(
        runs,
        vec![
            StreamRun {
                logical: 0,
                physical: Some(40),
                len: 8,
            },
            StreamRun {
                logical: 8,
                physical: Some(48),
                len: 4,
            },
            StreamRun {
                logical: 12,
                physical: Some(32),
                len: 4,
            },
        ]
    );
}

#[test]
fn run_decoder_rejects_sparse_unterminated_mismatched_and_out_of_volume_runs() {
    let sparse = nonresident_attr(0, 0, 4, &[0x01, 1, 0]);
    assert!(decode_extent_runs(&NtfsAttribute::parse(&sparse).unwrap(), 4, 1024).is_none());

    let unterminated = nonresident_attr(0, 2, 12, &[0x11, 1, 1, 0x11, 1, 1, 0x11, 1]);
    assert!(
        decode_extent_runs(&NtfsAttribute::parse(&unterminated).unwrap(), 4, 1024).is_none()
    );

    let wrong_vcn_span = nonresident_attr(0, 2, 4, &[0x11, 1, 1, 0]);
    assert!(
        decode_extent_runs(&NtfsAttribute::parse(&wrong_vcn_span).unwrap(), 4, 1024).is_none()
    );

    let outside = nonresident_attr(0, 0, 4, &[0x11, 1, 0x7F, 0]);
    assert!(decode_extent_runs(&NtfsAttribute::parse(&outside).unwrap(), 4, 64).is_none());

    let aliased = nonresident_attr(0, 2, 12, &[0x11, 2, 10, 0x11, 1, 1, 0]);
    assert!(decode_extent_runs(&NtfsAttribute::parse(&aliased).unwrap(), 4, 1024).is_none());
}

#[test]
fn run_decoder_rejects_invalid_system_stream_metadata() {
    let valid = nonresident_attr(0, 0, 4, &[0x11, 1, 1, 0]);
    let parsed = NtfsAttribute::parse(&valid).unwrap();
    assert!(decode_extent_runs(&parsed, 0, 1024).is_none());
    assert!(decode_extent_runs(&parsed, 3, 1024).is_none());
    assert!(decode_extent_runs(&parsed, 4, 0).is_none());

    let mut named = valid.clone();
    named[9] = 1;
    put_u16(&mut named, 10, NONRESIDENT_HEADER_BYTES as u16);
    assert!(decode_extent_runs(&NtfsAttribute::parse(&named).unwrap(), 4, 1024).is_none());

    for flags in [0x0001, 0x4000, 0x8000] {
        let mut flagged = valid.clone();
        put_u16(&mut flagged, 12, flags);
        assert!(
            decode_extent_runs(&NtfsAttribute::parse(&flagged).unwrap(), 4, 1024).is_none()
        );
    }

    let mut wrong_type = valid.clone();
    put_u32(&mut wrong_type, 0, NtfsAttributeType::FileName.code());
    assert!(decode_extent_runs(&NtfsAttribute::parse(&wrong_type).unwrap(), 4, 1024).is_none());

    let mut unaligned_record = valid.clone();
    put_u32(&mut unaligned_record, 4, (valid.len() - 1) as u32);
    assert!(
        decode_extent_runs(&NtfsAttribute::parse(&unaligned_record).unwrap(), 4, 1024,)
            .is_none()
    );

    let mut reserved = valid.clone();
    reserved[34] = 1;
    assert!(decode_extent_runs(&NtfsAttribute::parse(&reserved).unwrap(), 4, 1024).is_none());

    let mut zero_allocation = valid.clone();
    put_u64(&mut zero_allocation, 40, 0);
    assert!(
        decode_extent_runs(&NtfsAttribute::parse(&zero_allocation).unwrap(), 4, 1024).is_none()
    );

    let mut zero_data = valid.clone();
    put_u64(&mut zero_data, 48, 0);
    put_u64(&mut zero_data, 56, 0);
    assert!(decode_extent_runs(&NtfsAttribute::parse(&zero_data).unwrap(), 4, 1024).is_none());

    let mut unaligned_allocation = valid.clone();
    put_u64(&mut unaligned_allocation, 40, 5);
    assert!(
        decode_extent_runs(
            &NtfsAttribute::parse(&unaligned_allocation).unwrap(),
            4,
            1024,
        )
        .is_none()
    );

    let mut allocation_past_volume = valid.clone();
    put_u64(&mut allocation_past_volume, 40, 2048);
    assert!(
        decode_extent_runs(
            &NtfsAttribute::parse(&allocation_past_volume).unwrap(),
            4,
            1024,
        )
        .is_none()
    );

    let mut extent_past_allocation = nonresident_attr(0, 1, 4, &[0x11, 2, 1, 0]);
    put_u64(&mut extent_past_allocation, 40, 4);
    assert!(
        decode_extent_runs(
            &NtfsAttribute::parse(&extent_past_allocation).unwrap(),
            4,
            1024,
        )
        .is_none()
    );

    let mut oversized_data = valid.clone();
    put_u64(&mut oversized_data, 48, 5);
    put_u64(&mut oversized_data, 56, 5);
    assert!(
        decode_extent_runs(&NtfsAttribute::parse(&oversized_data).unwrap(), 4, 1024).is_none()
    );

    let mut initialized_past_data = valid.clone();
    put_u64(&mut initialized_past_data, 56, 5);
    assert!(
        decode_extent_runs(
            &NtfsAttribute::parse(&initialized_past_data).unwrap(),
            4,
            1024,
        )
        .is_none()
    );

    let mut shifted_mapping = valid.clone();
    put_u16(
        &mut shifted_mapping,
        32,
        (NONRESIDENT_HEADER_BYTES + 1) as u16,
    );
    assert!(
        decode_extent_runs(&NtfsAttribute::parse(&shifted_mapping).unwrap(), 4, 1024).is_none()
    );

    let lcn_zero = nonresident_attr(0, 0, 4, &[0x11, 1, 0, 0]);
    assert!(decode_extent_runs(&NtfsAttribute::parse(&lcn_zero).unwrap(), 4, 1024).is_none());

    let mut oversized_list = valid.clone();
    put_u64(&mut oversized_list, 40, MAX_LIST_BYTES + 4);
    put_u64(&mut oversized_list, 48, MAX_LIST_BYTES + 1);
    put_u64(&mut oversized_list, 56, MAX_LIST_BYTES + 1);
    assert!(
        decode_extent_runs(
            &NtfsAttribute::parse(&oversized_list).unwrap(),
            4,
            MAX_LIST_BYTES + 8,
        )
        .is_none()
    );

    put_u32(&mut oversized_list, 0, NtfsAttributeType::Data.code());
    assert!(
        decode_extent_runs(
            &NtfsAttribute::parse(&oversized_list).unwrap(),
            4,
            MAX_LIST_BYTES + 8,
        )
        .is_some(),
        "the list budget must not cap the machine-wide $MFT stream"
    );
}

#[test]
fn stream_parser_crosses_fragmented_runs_and_rejects_zero_tail() {
    let first = list_entry(0x20, 0, (1u64 << 48) | 0x1E, 1);
    let second = list_entry(0x30, 0, (1u64 << 48) | 0x1F, 2);
    assert_eq!((first.len(), second.len()), (32, 32));
    let mut physical = vec![0u8; 96];
    physical[64..96].copy_from_slice(&first);
    physical[0..32].copy_from_slice(&second);
    let mut backing = std::io::Cursor::new(physical);
    let runs = vec![
        StreamRun {
            logical: 0,
            physical: Some(64),
            len: 32,
        },
        StreamRun {
            logical: 32,
            physical: Some(0),
            len: 32,
        },
        StreamRun {
            logical: 64,
            physical: Some(32),
            len: 8,
        },
    ];
    let stop = AtomicBool::new(false);
    let mut got = Vec::new();
    // The list is exactly the first two (out-of-order, non-adjacent) runs:
    // 64 bytes of stream covered by 64 bytes of runs. The third run is the
    // zero tail exercised below, and a run may not start at or past
    // `data_size`, so it is not part of the well-formed case.
    visit_list_stream(&mut backing, &runs[..2], 64, &stop, false, |entry| {
        got.push(entry);
    })
    .unwrap();
    assert_eq!(got.len(), 2);
    assert_eq!(got[0].target_record(), 30);
    assert_eq!(got[1].target_record(), 31);

    assert!(matches!(
        visit_list_stream(&mut backing, &runs, 72, &stop, false, |_| {}),
        Err(ListStreamError::Invalid)
    ));
    stop.store(true, Ordering::Relaxed);
    assert!(matches!(
        visit_list_stream(&mut backing, &runs, 72, &stop, false, |_| {}),
        Err(ListStreamError::Cancelled)
    ));
}

#[test]
fn stream_parser_enforces_prefix_and_sequence_rules_too() {
    let first = list_entry(NtfsAttributeType::AttributeList.code(), 0, 1, 1);
    let second = list_entry(NtfsAttributeType::AttributeList.code(), 1, 2, 2);
    let mut valid = first.clone();
    valid.extend_from_slice(&second);
    let cut_len = valid.len() - 3;
    let runs = [StreamRun {
        logical: 0,
        physical: Some(0),
        len: valid.len() as u64,
    }];
    let stop = AtomicBool::new(false);
    let mut cursor = std::io::Cursor::new(valid);
    let mut visited = Vec::new();
    visit_list_stream(&mut cursor, &runs, cut_len as u64, &stop, true, |entry| {
        visited.push(entry);
    })
    .unwrap();
    assert_eq!(visited, vec![parse_list_entries(&first, false).unwrap()[0]]);

    let mut duplicate = first;
    duplicate.extend_from_slice(&list_entry(NtfsAttributeType::FileName.code(), 0, 1, 1));
    let duplicate_runs = [StreamRun {
        logical: 0,
        physical: Some(0),
        len: duplicate.len() as u64,
    }];
    let mut duplicate_cursor = std::io::Cursor::new(duplicate);
    assert!(matches!(
        visit_list_stream(
            &mut duplicate_cursor,
            &duplicate_runs,
            duplicate_runs[0].len,
            &stop,
            false,
            |_| {},
        ),
        Err(ListStreamError::Invalid)
    ));

    let aliased_runs = [
        StreamRun {
            logical: 0,
            physical: Some(0),
            len: 32,
        },
        StreamRun {
            logical: 32,
            physical: Some(16),
            len: 32,
        },
    ];
    let mut aliased_cursor = std::io::Cursor::new(vec![0; 64]);
    assert!(matches!(
        visit_list_stream(&mut aliased_cursor, &aliased_runs, 64, &stop, false, |_| {},),
        Err(ListStreamError::Invalid)
    ));

    let extra_logical_run = [
        StreamRun {
            logical: 0,
            physical: Some(0),
            len: 32,
        },
        StreamRun {
            logical: 32,
            physical: Some(32),
            len: 32,
        },
    ];
    let mut extra_cursor = std::io::Cursor::new(vec![0; 64]);
    assert!(matches!(
        visit_list_stream(
            &mut extra_cursor,
            &extra_logical_run,
            32,
            &stop,
            false,
            |_| {},
        ),
        Err(ListStreamError::Invalid)
    ));
}

#[test]
fn stream_parser_supports_large_lists_within_the_explicit_budget() {
    let entry = list_entry(NtfsAttributeType::AttributeList.code(), 0, 1, 1);
    let count = ((4usize << 20) / entry.len()) + 2;
    let mut bytes = Vec::with_capacity(count * entry.len());
    for index in 0..count {
        bytes.extend_from_slice(&list_entry(
            NtfsAttributeType::AttributeList.code(),
            index as u64,
            index as u64 + 1,
            1,
        ));
    }
    assert!(bytes.len() > 4usize << 20);
    let data_size = bytes.len() as u64;
    let runs = [StreamRun {
        logical: 0,
        physical: Some(0),
        len: data_size,
    }];
    let stop = AtomicBool::new(false);
    let mut cursor = std::io::Cursor::new(bytes);
    let mut visited = 0usize;
    visit_list_stream(&mut cursor, &runs, data_size, &stop, false, |_| {
        visited += 1;
    })
    .unwrap();
    assert_eq!(visited, count);
}

#[test]
fn parser_resource_limits_fail_before_unbounded_growth() {
    let oversized = vec![0u8; MAX_LIST_BYTES as usize + 1];
    assert!(parse_list_entries(&oversized, false).is_none());

    let entry = list_entry(NtfsAttributeType::AttributeList.code(), 0, 1, 1);
    let mut too_many = Vec::with_capacity((MAX_LIST_ENTRIES + 1) * entry.len());
    for index in 0..=MAX_LIST_ENTRIES {
        too_many.extend_from_slice(&list_entry(
            NtfsAttributeType::AttributeList.code(),
            index as u64,
            index as u64 + 1,
            1,
        ));
    }
    assert!(parse_list_entries(&too_many, false).is_none());

    let too_many_runs: Vec<_> = (0..=MAX_LIST_RUNS)
        .map(|index| StreamRun {
            logical: index as u64,
            physical: Some(index as u64),
            len: 1,
        })
        .collect();
    let mut cursor = std::io::Cursor::new(vec![0; MAX_LIST_RUNS + 1]);
    let stop = AtomicBool::new(false);
    assert!(matches!(
        visit_list_stream(
            &mut cursor,
            &too_many_runs,
            (MAX_LIST_RUNS + 1) as u64,
            &stop,
            false,
            |_| {},
        ),
        Err(ListStreamError::Invalid)
    ));
}

#[test]
fn extent_closure_discovers_continuations_revealed_by_later_extents() {
    let base = ListEntry::unnamed(NtfsAttributeType::AttributeList.code(), 0, frn(10), 1);
    let second = list_entry(NtfsAttributeType::AttributeList.code(), 1, 11, 2);
    let third = list_entry(NtfsAttributeType::AttributeList.code(), 2, 12, 3);
    let tail = list_entry(NtfsAttributeType::FileName.code(), 0, 13, 4);
    let mut bytes = second;
    bytes.extend_from_slice(&third);
    bytes.extend_from_slice(&tail);
    let mut backing = std::io::Cursor::new(bytes);
    let stop = AtomicBool::new(false);
    let initial = vec![StreamRun {
        logical: 0,
        physical: Some(0),
        len: 32,
    }];
    let mut discoveries = 0;
    let runs = close_extent_runs(
        initial,
        96,
        base,
        |runs, prefix| {
            discoveries += 1;
            let mut entries = Vec::new();
            visit_list_stream(&mut backing, runs, prefix, &stop, true, |entry| {
                if entry.type_id == NtfsAttributeType::AttributeList.code() {
                    entries.push(entry);
                }
            })
            .ok()?;
            Some(entries)
        },
        |entry| {
            let logical = entry.starting_vcn.checked_mul(32)?;
            Some(vec![StreamRun {
                logical,
                physical: Some(logical),
                len: 32,
            }])
        },
    )
    .unwrap();
    assert_eq!(discoveries, 2);
    assert_eq!(covered_prefix(&runs), 96);
}

#[test]
fn extent_closure_fails_when_a_prefix_cannot_reveal_its_successor() {
    let base = ListEntry::unnamed(NtfsAttributeType::AttributeList.code(), 0, frn(10), 1);
    let initial = vec![StreamRun {
        logical: 0,
        physical: Some(100),
        len: 32,
    }];
    assert!(close_extent_runs(initial, 64, base, |_, _| Some(vec![base]), |_| None).is_none());
}

#[test]
fn extent_closure_rejects_target_instance_aliases() {
    let base = ListEntry::unnamed(NtfsAttributeType::AttributeList.code(), 0, frn(10), 1);
    let alias = ListEntry::unnamed(NtfsAttributeType::AttributeList.code(), 1, frn(10), 1);
    let initial = vec![StreamRun {
        logical: 0,
        physical: Some(100),
        len: 32,
    }];
    let mut decoded_alias = false;
    assert!(
        close_extent_runs(
            initial,
            64,
            base,
            |_, _| Some(vec![alias]),
            |_| {
                decoded_alias = true;
                Some(vec![])
            },
        )
        .is_none()
    );
    assert!(!decoded_alias);
}

#[test]
fn extent_closure_rejects_cross_extent_physical_aliases() {
    let base = ListEntry::unnamed(NtfsAttributeType::AttributeList.code(), 0, frn(10), 1);
    let continuation =
        ListEntry::unnamed(NtfsAttributeType::AttributeList.code(), 1, frn(11), 2);
    let initial = vec![StreamRun {
        logical: 0,
        physical: Some(100),
        len: 32,
    }];
    assert!(
        close_extent_runs(
            initial,
            64,
            base,
            |_, _| Some(vec![continuation]),
            |_| Some(vec![StreamRun {
                logical: 32,
                physical: Some(116),
                len: 32,
            }]),
        )
        .is_none()
    );
}

#[test]
fn extent_closure_has_explicit_pass_and_scan_work_budgets() {
    const MIB: u64 = 1 << 20;

    let base = ListEntry::unnamed(NtfsAttributeType::AttributeList.code(), 0, frn(10), 1);
    let initial = vec![StreamRun {
        logical: 0,
        physical: Some(0),
        len: 32,
    }];
    let mut next = 1u64;
    let mut discoveries = 0usize;
    assert!(
        close_extent_runs(
            initial,
            (MAX_CLOSURE_PASSES as u64 + 2) * 32,
            base,
            |_, _| {
                discoveries += 1;
                let entry = ListEntry::unnamed(
                    NtfsAttributeType::AttributeList.code(),
                    next,
                    frn(next + 10),
                    u16::try_from(next).ok()?,
                );
                next += 1;
                Some(vec![entry])
            },
            |entry| Some(vec![StreamRun {
                logical: entry.starting_vcn * 32,
                physical: Some(10_000 + entry.starting_vcn * 32),
                len: 32,
            }]),
        )
        .is_none()
    );
    assert_eq!(discoveries, MAX_CLOSURE_PASSES);

    let next_extent = std::cell::Cell::new(1u64);
    let large_initial = vec![StreamRun {
        logical: 0,
        physical: Some(0),
        len: 8 * MIB,
    }];
    assert!(
        close_extent_runs(
            large_initial,
            MAX_LIST_BYTES,
            base,
            |_, _| {
                let index = next_extent.get();
                next_extent.set(index + 1);
                Some(vec![ListEntry::unnamed(
                    NtfsAttributeType::AttributeList.code(),
                    index,
                    frn(index + 100),
                    u16::try_from(index).ok()?,
                )])
            },
            |entry| Some(vec![StreamRun {
                logical: 8 * MIB + (entry.starting_vcn - 1) * MIB,
                physical: Some(32 * MIB + entry.starting_vcn * MIB),
                len: MIB,
            }]),
        )
        .is_none()
    );
}

#[test]
fn a_list_that_reaches_past_its_volume_cannot_be_read() {
    let bytes = list_entry(NtfsAttributeType::FileName.code(), 0, frn(30), 1);
    let len = bytes.len() as u64;
    let runs = [StreamRun { logical: 0, physical: Some(0), len }];
    let stop = AtomicBool::new(false);
    for cut in [bytes.len() - 1, ATTRIBUTE_LIST_ENTRY_BYTES - 1, 0] {
        let mut cursor = std::io::Cursor::new(bytes[..cut].to_vec());
        assert!(matches!(
            visit_list_stream(&mut cursor, &runs, len, &stop, false, |_| {}),
            Err(ListStreamError::Io(_))
        ));
    }
}

#[test]
fn a_pass_takes_new_extents_and_fails_closed() {
    let code = NtfsAttributeType::AttributeList.code();
    let base = ListEntry::unnamed(code, 0, frn(10), 1);
    let next = ListEntry::unnamed(code, 1, frn(11), 2);
    let run = |at: u64| StreamRun { logical: at, physical: Some(1000 + at), len: 32 };
    let begin = || {
        let mut c = ExtentClosure::begin(vec![run(0)], 64, base).unwrap();
        assert_eq!(c.next_pass(), NextPass::Read(32));
        c
    };

    // The extent collected before is not decoded again, the new one is added.
    let mut c = begin();
    assert!(c.take_pass(32, &[base, next], &[None, Some(vec![run(32)])]));
    assert_eq!(c.runs, vec![run(0), run(32)]);
    assert_eq!((c.scanned_prefix, c.scanned_bytes, c.passes), (32, 32, 1));
    assert_eq!(c.next_pass(), NextPass::Covered);

    // No new extent, no runs, overlapping runs, another attribute, an alias,
    // and more entries than a list may have.
    let other = ListEntry::unnamed(NtfsAttributeType::FileName.code(), 1, frn(11), 2);
    let alias = ListEntry::unnamed(code, 1, frn(10), 1);
    assert!(!begin().take_pass(32, &[base], &[None]));
    assert!(!begin().take_pass(32, &[next], &[None]));
    assert!(!begin().take_pass(32, &[next], &[Some(vec![])]));
    assert!(!begin().take_pass(32, &[next], &[Some(vec![run(16)])]));
    assert!(!begin().take_pass(32, &[other], &[Some(vec![run(32)])]));
    assert!(!begin().take_pass(32, &[alias], &[Some(vec![run(32)])]));
    let many = vec![base; MAX_LIST_ENTRIES + 1];
    assert!(!begin().take_pass(32, &many, &vec![None; MAX_LIST_ENTRIES + 1]));

    // A gap keeps the prefix where it was: the next pass is not made.
    let mut c = begin();
    assert!(c.take_pass(32, &[next], &[Some(vec![run(64)])]));
    assert_eq!(c.next_pass(), NextPass::Stuck);
}

#[test]
fn extent_closure_asks_for_the_covered_prefix_of_the_known_runs() {
    let code = NtfsAttributeType::AttributeList.code();
    let base = ListEntry::unnamed(code, 0, frn(10), 1);
    let run = |at: u64| StreamRun { logical: at, physical: Some(1000 + at), len: 32 };
    let mut asked = Vec::new();
    let mut decoded = Vec::new();
    let runs = close_extent_runs(
        vec![run(0)],
        96,
        base,
        |known, prefix| {
            asked.push((known.len(), prefix));
            let n = known.len() as u64;
            Some(vec![base, ListEntry::unnamed(code, n, frn(10 + n), 1)])
        },
        |entry| {
            decoded.push(entry.starting_vcn);
            Some(vec![run(entry.starting_vcn * 32)])
        },
    );
    assert_eq!(runs, Some(vec![run(0), run(32), run(64)]));
    assert_eq!(asked, vec![(1, 32), (2, 64)]);
    assert_eq!(decoded, vec![1, 2]);
}
