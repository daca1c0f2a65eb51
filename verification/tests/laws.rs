//! What holds across several operations, on concrete values.

use fmf_core::dates::{mtime_secs_to_ticks, mtime_ticks_to_secs};
use fmf_core::index::builder::VolumeIndexBuilder;
use fmf_core::index::reconcile::LinkReconcileStats;
use fmf_core::index::topology::IndexMutationError;
use fmf_core::index::{masked, EntryId, Frn, RawEntry, SortKey, VolumeIndex};
use fmf_core::wtf8::{push_wtf8_pair, wtf8_to_utf16};

fn u16s(s: &str) -> Vec<u16> {
    s.encode_utf16().collect()
}

fn full(record: u64) -> Frn {
    Frn((1u64 << 48) | record)
}

fn link(record: u64, parent: u64, name: &[u16], size: u64) -> RawEntry<'_> {
    RawEntry {
        parent_frn: full(parent),
        frn: full(record),
        name_utf16: name,
        is_dir: false,
        is_reparse: false,
        is_hidden: false,
        is_system: false,
        size,
        mtime: 116_444_736_000_000_000,
    }
}

fn dir(record: u64, parent: u64, name: &[u16]) -> RawEntry<'_> {
    RawEntry { is_dir: true, size: 0, ..link(record, parent, name, 0) }
}

/// Directories `a` and `a\b`, and a file `a\file.txt`.
fn sample() -> VolumeIndex {
    let mut builder = VolumeIndexBuilder::new_strict("C:", full(5)).unwrap();
    let (a, b, file) = (u16s("a"), u16s("b"), u16s("file.txt"));
    builder.push(dir(10, 5, &a));
    builder.push(dir(20, 10, &b));
    builder.push(link(100, 10, &file, 1));
    builder.finish_strict().unwrap()
}

fn links(idx: &VolumeIndex, frn: Frn) -> Vec<(EntryId, Vec<u8>, u64)> {
    let mut all: Vec<_> = idx
        .entries_by_frn(frn)
        .into_iter()
        .map(|id| (idx.parent(id), idx.name(id).to_vec(), idx.size(id)))
        .collect();
    all.sort();
    all
}

#[test]
fn an_accepted_set_of_links_becomes_the_links_of_the_file() {
    let mut idx = sample();
    let (x, y, file) = (u16s("x.txt"), u16s("y.txt"), u16s("file.txt"));
    let set = [link(100, 20, &x, 7), link(100, 10, &file, 7), link(100, 5, &y, 7)];
    let done = idx.reconcile_file_links_usn(full(100), &set).unwrap();
    assert_eq!(
        done,
        LinkReconcileStats { added: 2, removed: 0, retained: 1, metadata_changed: true }
    );
    let b = idx.entry_by_frn(full(20)).unwrap();
    let a = idx.entry_by_frn(full(10)).unwrap();
    let want = vec![
        (VolumeIndex::ROOT, b"y.txt".to_vec(), 7),
        (a, b"file.txt".to_vec(), 7),
        (b, b"x.txt".to_vec(), 7),
    ];
    assert_eq!(links(&idx, full(100)), want);

    // Once more: accepted, and nothing changes.
    let (len, live) = (idx.len(), idx.live_len());
    let done = idx.reconcile_file_links_usn(full(100), &set).unwrap();
    assert_eq!(
        done,
        LinkReconcileStats { added: 0, removed: 0, retained: 3, metadata_changed: false }
    );
    assert_eq!((idx.len(), idx.live_len()), (len, live));
    assert_eq!(links(&idx, full(100)), want);

    // Another set drops what it does not name.
    let done = idx.reconcile_file_links_usn(full(100), &set[..1]).unwrap();
    assert_eq!((done.removed, done.retained), (2, 1));
    assert_eq!(links(&idx, full(100)), vec![(b, b"x.txt".to_vec(), 7)]);
}

#[test]
fn another_generation_of_the_record_goes() {
    let mut idx = sample();
    let name = u16s("new.txt");
    let newer = Frn((2u64 << 48) | 100);
    let entry = RawEntry { frn: newer, ..link(100, 20, &name, 3) };
    let done = idx.reconcile_file_links_usn(newer, &[entry]).unwrap();
    assert_eq!((done.added, done.removed), (1, 1));
    assert!(idx.entries_by_frn(full(100)).is_empty());
    assert_eq!(idx.entries_by_record(100).len(), 1);
}

#[test]
fn sets_of_links_are_refused_for_what_is_wrong_with_them() {
    let mut idx = sample();
    let (x, none) = (u16s("x.txt"), Vec::new());
    let object = full(100);
    let good = || link(100, 20, &x, 7);
    assert_eq!(
        idx.reconcile_file_links_usn(object, &[]),
        Err(IndexMutationError::EmptyLinkSnapshot { object })
    );
    assert_eq!(
        idx.reconcile_file_links_usn(Frn(100), &[good()]),
        Err(IndexMutationError::InvalidReference { reference: Frn(100) })
    );
    assert_eq!(
        idx.reconcile_file_links_usn(object, &[RawEntry { is_dir: true, ..good() }]),
        Err(IndexMutationError::ObjectKind { object })
    );
    assert_eq!(
        idx.reconcile_file_links_usn(object, &[good(), link(100, 20, &none, 7)]),
        Err(IndexMutationError::EmptyName { object })
    );
    assert_eq!(
        idx.reconcile_file_links_usn(object, &[good(), link(100, 10, &x, 8)]),
        Err(IndexMutationError::InconsistentLinkMetadata { object })
    );
    assert_eq!(
        idx.reconcile_file_links_usn(object, &[link(100, 77, &x, 7)]),
        Err(IndexMutationError::UnresolvedParent { object, parent: full(77) })
    );
    assert_eq!(
        idx.reconcile_file_links_usn(full(200), &[link(200, 100, &x, 7)]),
        Err(IndexMutationError::ParentNotDirectory { object: full(200), parent: object })
    );
    assert_eq!(
        idx.reconcile_file_links_usn(object, &[link(100, 100, &x, 7)]),
        Err(IndexMutationError::SelfParent { object })
    );
    assert_eq!(idx.len(), 4);
}

#[test]
fn what_was_inserted_is_found() {
    let mut idx = sample();
    let c = u16s("c");
    let id = idx.upsert_usn(&dir(30, 20, &c)).unwrap();
    assert_eq!(idx.entries_by_frn(full(30)), vec![id]);
    assert_eq!(idx.entries_by_record(30), vec![id]);
    assert_eq!(idx.entry_by_record(masked(full(30).0)), Some(id));
    assert_eq!(idx.name(id), b"c");
    // Replacing it leaves one entry.
    let d = u16s("d");
    let again = idx.upsert_usn(&dir(30, 10, &d)).unwrap();
    assert_eq!(idx.entries_by_record(30), vec![again]);
    assert!(!idx.is_live(id));
    // A directory cannot go below itself.
    let e = u16s("e");
    assert_eq!(
        idx.upsert_usn(&dir(10, 20, &e)),
        Err(IndexMutationError::ParentCycle { object: full(10), parent: full(20) })
    );
}

#[test]
fn a_link_that_was_inserted_is_the_one_found() {
    let mut idx = sample();
    let (file, other) = (u16s("file.txt"), u16s("other.txt"));
    let first = idx.entry_by_link(full(100), full(10), &file).unwrap();
    let second = idx.upsert_link_usn(&link(100, 20, &other, 5)).unwrap();
    assert_eq!(idx.entry_by_link(full(100), full(20), &other), Some(second));
    assert_eq!(idx.entry_by_link(full(100), full(10), &file), Some(first));
    // Refreshing a link replaces its entry.
    let third = idx.upsert_link_usn(&link(100, 10, &file, 9)).unwrap();
    assert_eq!(idx.entry_by_link(full(100), full(10), &file), Some(third));
    assert_eq!(idx.entries_by_frn(full(100)).len(), 2);
    // Removing one leaves the other.
    assert_eq!(idx.delete_link_frn(full(100), full(20), &other), Some(second));
    assert_eq!(idx.entry_by_link(full(100), full(20), &other), None);
    assert_eq!(idx.entries_by_frn(full(100)), vec![third]);
    assert_eq!(idx.delete_link_frn(full(100), full(20), &other), None);
    assert_eq!(idx.delete_frn(full(100)), Some(third));
    assert!(idx.entries_by_frn(full(100)).is_empty());
}

#[test]
fn names_are_folded_and_come_back() {
    let names = [
        u16s("README.Md"),
        u16s("日本語"),
        u16s("ÅÉ"),
        vec![0xD83D, 0xDE00],
        vec![0xD800, b'A' as u16, 0xDC00],
        Vec::new(),
    ];
    for units in names {
        let (mut name, mut lower) = (Vec::new(), Vec::new());
        push_wtf8_pair(&units, &mut name, &mut lower);
        assert_eq!(name.len(), lower.len());
        let mut back = Vec::new();
        wtf8_to_utf16(&name, &mut back);
        assert_eq!(back, units);
    }
    let (mut name, mut lower) = (Vec::new(), Vec::new());
    push_wtf8_pair(&u16s("README.Å"), &mut name, &mut lower);
    assert_eq!(name, "README.Å".as_bytes());
    assert_eq!(lower, "readme.å".as_bytes());
}

#[test]
fn whole_seconds_come_back() {
    for secs in [0, 1, 1_782_790_496, u32::MAX] {
        assert_eq!(mtime_ticks_to_secs(mtime_secs_to_ticks(secs)), secs);
    }
    assert_eq!(mtime_secs_to_ticks(1), 116_444_736_010_000_000);
    assert_eq!(mtime_ticks_to_secs(0), 0);
    assert_eq!(mtime_ticks_to_secs(i64::MAX), u32::MAX);
}

#[test]
fn a_strict_build_passes_every_later_check_of_its_topology() {
    let mut idx = sample();
    let n = idx.len() as EntryId;
    idx.merge_new_into_permutations(n).unwrap();
    assert_eq!(idx.permutation(SortKey::Name).len(), 4);
}

#[test]
fn many_entries_sort_like_few() {
    // Enough of them that the sort runs on several threads.
    let n: u64 = 70_000;
    let mut builder = VolumeIndexBuilder::new_synthetic("C:", 5);
    for i in 0..n {
        let name = u16s(&format!("f{:05}", (i * 7919) % n));
        builder.push(RawEntry { size: (i * 31) % 1000, ..link(100 + i, 5, &name, 0) });
    }
    let idx = builder.finish();
    let by_name = idx.permutation(SortKey::Name);
    assert!(by_name.windows(2).all(|w| idx.lower_name(w[0]) <= idx.lower_name(w[1])));
    let by_size = idx.permutation(SortKey::Size);
    assert_eq!(by_size.len(), idx.len());
    assert!(by_size.windows(2).all(|w| (idx.size(w[0]), w[0]) < (idx.size(w[1]), w[1])));
}

#[test]
fn wanted_links_are_appended_or_stay() {
    let (x, y, file) = (u16s("x.txt"), u16s("y.txt"), u16s("file.txt"));
    let all = [link(100, 20, &x, 7), link(100, 10, &file, 7), link(100, 5, &y, 7)];
    for n in 1..=all.len() {
        let mut idx = sample();
        let names = idx.dict_appends_since_dedup;
        let done = idx.reconcile_file_links_usn(full(100), &all[..n]).unwrap();
        assert_eq!((done.added + done.retained) as usize, n);
        assert_eq!(done.retained, u32::from(n > 1));
        assert_eq!(idx.dict_appends_since_dedup, names + done.added);
        let again = idx.reconcile_file_links_usn(full(100), &all[..n]).unwrap();
        assert_eq!((again.added, again.retained as usize), (0, n));
        assert_eq!(idx.dict_appends_since_dedup, names + done.added);
    }
}

#[test]
fn each_name_that_is_given_counts_as_churn() {
    let mut idx = sample();
    let (p, q) = (u16s("P"), u16s("q"));
    let (churn, names, lower) =
        (idx.dict_appends_since_dedup, idx.dict_off.len(), idx.dict_pool.len());
    let spelled = idx.orig_pool.len();
    idx.rename_dir_frn_in_place(full(20), &p, full(10)).unwrap().unwrap();
    assert_eq!(idx.dict_appends_since_dedup, churn + 1);
    assert_eq!((idx.dict_off.len(), idx.dict_pool.len()), (names + 1, lower + 1));
    assert_eq!(idx.orig_pool.len(), spelled + 1);
    idx.upsert_link_usn(&link(200, 20, &q, 3)).unwrap();
    assert_eq!(idx.dict_appends_since_dedup, churn + 2);
    assert_eq!((idx.dict_off.len(), idx.dict_pool.len()), (names + 2, lower + 2));
    assert_eq!(idx.orig_pool.len(), spelled + 1);
    idx.upsert_usn(&dir(300, 20, &p)).unwrap();
    assert_eq!(idx.dict_appends_since_dedup, churn + 3);
    assert_eq!(idx.orig_pool.len(), spelled + 2);
    assert!(idx.rename_dir_frn_in_place(full(20), &[], full(10)).is_err());
    assert_eq!(idx.dict_appends_since_dedup, churn + 3);
}

#[test]
fn a_copy_is_made_between_batches_only() {
    let mut idx = sample();
    assert!(idx.can_compact());
    let q = u16s("q");
    let first = idx.upsert_link_usn(&link(200, 20, &q, 3)).unwrap();
    assert!(!idx.can_compact());
    idx.merge_new_into_permutations(first).unwrap();
    assert!(idx.can_compact());
    assert_eq!(idx.compacted().len(), 5);
}
