//! An index as a whole.

use fmf_core::index::builder::VolumeIndexBuilder;
use fmf_core::index::{Frn, RawEntry, SortKey, VolumeIndex};

fn tombstone_ratio(idx: &VolumeIndex) -> f64 {
    let (dead, all) = idx.tombstone_share();
    dead as f64 / all as f64
}

fn raw<'a>(
    record: u64,
    parent: u64,
    name: &'a [u16],
    is_dir: bool,
    size: u64,
    mtime: i64,
) -> RawEntry<'a> {
    RawEntry {
        parent_frn: Frn(parent),
        frn: Frn((1u64 << 48) | record),
        name_utf16: name,
        is_dir,
        is_reparse: false,
        is_hidden: false,
        is_system: false,
        size,
        mtime,
    }
}

fn u16s(s: &str) -> Vec<u16> {
    s.encode_utf16().collect()
}

/// C:\ ├─ docs\ ├─ note.txt   docs comes *after* its child in scan order.
fn build_sample() -> VolumeIndex {
    let mut b = VolumeIndexBuilder::new_synthetic("C:", 5);
    let note = u16s("Note.TXT");
    let docs = u16s("docs");
    let big = u16s("big.bin");
    b.push(raw(100, 50, &note, false, 10, 300)); // parent not yet pushed
    b.push(raw(50, 5, &docs, true, 0, 100));
    b.push(raw(60, 5, &big, false, 99_999, 200));
    b.finish()
}

#[test]
fn index_parents_resolve_across_scan_order() {
    let idx = build_sample();
    let note = idx.entry_by_record(100).unwrap();
    let docs = idx.entry_by_record(50).unwrap();
    assert_eq!(idx.parent(note), docs);
    assert_eq!(idx.parent(docs), VolumeIndex::ROOT);
}

#[test]
fn index_full_path_builds_lazily() {
    let idx = build_sample();
    let note = idx.entry_by_record(100).unwrap();
    let mut p = Vec::new();
    idx.append_path(note, &mut p).unwrap();
    assert_eq!(p, b"C:\\docs\\Note.TXT");

    let mut pp = Vec::new();
    idx.append_parent_path(note, &mut pp).unwrap();
    assert_eq!(pp, b"C:\\docs\\");
}

#[test]
fn index_orphan_attaches_to_root() {
    let mut b = VolumeIndexBuilder::new_synthetic("C:", 5);
    let name = u16s("lost.txt");
    b.push(raw(7, 999_999, &name, false, 1, 1));
    let idx = b.finish();
    let id = idx.entry_by_record(7).unwrap();
    assert_eq!(idx.parent(id), VolumeIndex::ROOT);
}

#[test]
fn permutations_are_sorted() {
    let idx = build_sample();
    let by_name: Vec<&[u8]> = idx
        .permutation(SortKey::Name)
        .iter()
        .map(|&id| idx.lower_name(id))
        .collect();
    let mut expect = by_name.clone();
    expect.sort();
    assert_eq!(by_name, expect);

    let sizes: Vec<u64> = idx
        .permutation(SortKey::Size)
        .iter()
        .map(|&id| idx.size(id))
        .collect();
    assert!(sizes.windows(2).all(|w| w[0] <= w[1]));
}

#[test]
fn index_rename_is_tombstone_plus_new_entry() {
    let mut idx = build_sample();
    let old = idx.entry_by_record(100).unwrap();
    let first_new = idx.len() as u32;
    let renamed = u16s("renamed.txt");
    let mut e = raw(100, 50, &renamed, false, 10, 300);
    e.frn = idx.frn(old); // same FRN, new name
    let new_id = idx.upsert_synthetic(&e);
    idx.merge_new_into_permutations(first_new).unwrap();

    assert!(!idx.is_live(old));
    assert!(idx.is_live(new_id));
    assert_eq!(idx.entry_by_record(100), Some(new_id));
    assert_eq!(idx.name(new_id), b"renamed.txt");
    // Permutations contain the new id in sorted position.
    let pos = idx
        .permutation(SortKey::Name)
        .iter()
        .position(|&i| i == new_id)
        .unwrap();
    let perm = idx.permutation(SortKey::Name);
    if pos > 0 {
        assert!(idx.lower_name(perm[pos - 1]) <= idx.lower_name(new_id));
    }
    if pos + 1 < perm.len() {
        assert!(idx.lower_name(new_id) <= idx.lower_name(perm[pos + 1]));
    }
}

#[test]
fn index_delete_and_reparent() {
    let mut idx = build_sample();
    let big = idx.entry_by_record(60).unwrap();
    idx.reparent_synthetic(60, 50);
    let docs = idx.entry_by_record(50).unwrap();
    assert_eq!(idx.parent(big), docs);

    idx.delete(60);
    assert!(!idx.is_live(big));
    assert_eq!(idx.entry_by_record(60), None);
    assert!(tombstone_ratio(&idx) > 0.0);
}
