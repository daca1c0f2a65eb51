//! Paths and orders.

use fmf_core::index::builder::VolumeIndexBuilder;
use fmf_core::index::{Frn, PathBuildError, RawEntry, VolumeIndex};

fn raw(
    record: u64,
    parent: u64,
    name: &[u16],
    is_dir: bool,
    size: u64,
    mtime: i64,
) -> RawEntry<'_> {
    RawEntry {
        parent_frn: Frn(parent),
        frn: Frn((1u64 << 48) | record),
        name_utf16: name,
        is_dir,
        is_reparse: false,
        is_hidden: false,
        is_system: false,
        size,
        mtime,
    }
}

fn u16s(s: &str) -> Vec<u16> {
    s.encode_utf16().collect()
}

/// `docs` comes after its child in scan order.
fn build_sample() -> VolumeIndex {
    let mut b = VolumeIndexBuilder::new_synthetic("C:", 5);
    let note = u16s("Note.TXT");
    let docs = u16s("docs");
    let big = u16s("big.bin");
    b.push(raw(100, 50, &note, false, 10, 300));
    b.push(raw(50, 5, &docs, true, 0, 100));
    b.push(raw(60, 5, &big, false, 99_999, 200));
    b.finish()
}

#[test]
fn core_full_path_builds_lazily() {
    let idx = build_sample();
    let note = idx.entry_by_record(100).unwrap();
    let mut p = Vec::new();
    idx.append_path(note, &mut p).unwrap();
    assert_eq!(p, b"C:\\docs\\Note.TXT");

    let mut pp = Vec::new();
    idx.append_parent_path(note, &mut pp).unwrap();
    assert_eq!(pp, b"C:\\docs\\");
}

#[test]
fn parent_path_has_no_fixed_depth_truncation() {
    let mut builder = VolumeIndexBuilder::new_synthetic("C:", 5);
    let mut parent = 5;
    let mut expected = String::from("C:\\");
    for depth in 0..130u64 {
        let record = 10 + depth;
        let name = format!("d{depth:03}");
        let units = u16s(&name);
        builder.push(raw(record, parent, &units, true, 0, 0));
        expected.push_str(&name);
        expected.push('\\');
        parent = record;
    }
    let leaf = u16s("leaf.txt");
    builder.push(raw(1_000, parent, &leaf, false, 0, 0));
    expected.push_str("leaf.txt");
    let index = builder.finish();
    let id = index.entry_by_record(1_000).unwrap();

    let mut path = Vec::new();
    index.append_path(id, &mut path).unwrap();

    assert_eq!(path, expected.as_bytes());
}

#[test]
fn parent_cycle_is_an_explicit_error_before_output_changes() {
    let mut builder = VolumeIndexBuilder::new_synthetic("C:", 5);
    let a = u16s("a");
    let b = u16s("b");
    builder.push(raw(10, 11, &a, true, 0, 0));
    builder.push(raw(11, 10, &b, true, 0, 0));
    let index = builder.finish();
    let id = index.entry_by_record(10).unwrap();
    let mut path = b"unchanged".to_vec();

    assert_eq!(
        index.append_parent_path(id, &mut path),
        Err(PathBuildError::ParentCycle { entry: id })
    );
    assert_eq!(path, b"unchanged");
}

#[test]
fn corrupt_acyclic_path_above_the_nt_limit_is_bounded_before_output_changes() {
    let mut builder = VolumeIndexBuilder::new_synthetic("C:", 5);
    let component = vec![b'x' as u16; 255];
    let mut parent = 5;
    for record in 10..400 {
        builder.push(raw(record, parent, &component, true, 0, 0));
        parent = record;
    }
    let leaf = u16s("leaf.txt");
    builder.push(raw(1_000, parent, &leaf, false, 0, 0));
    let index = builder.finish();
    let id = index.entry_by_record(1_000).unwrap();
    let mut path = b"unchanged".to_vec();

    assert!(matches!(
        index.append_path(id, &mut path),
        Err(PathBuildError::PathTooLong { entry, .. }) if entry == id
    ));
    assert_eq!(path, b"unchanged");
}

#[test]
fn invalid_entry_is_an_error_instead_of_an_index_panic() {
    let index = build_sample();
    let mut path = b"unchanged".to_vec();
    let invalid = index.len() as u32;

    assert_eq!(
        index.append_path(invalid, &mut path),
        Err(PathBuildError::EntryOutOfRange {
            entry: invalid,
            entries: index.len(),
        })
    );
    assert_eq!(path, b"unchanged");
}

#[test]
fn name_permutation_is_sorted() {
    let idx = build_sample();
    let by_name: Vec<&[u8]> = idx
        .name_permutation()
        .iter()
        .map(|&id| idx.lower_name(id))
        .collect();
    let mut expect = by_name.clone();
    expect.sort();
    assert_eq!(by_name, expect);
}
