//! Building an index from the entries of a scan.

use std::sync::atomic::AtomicBool;

use fmf_core::index::builder::{IndexBuildError, VolumeIndexBuilder};
use fmf_core::index::{EntryId, Frn, RawEntry, SortKey, VolumeIndex};
use fmf_core::order::Order;

fn raw(
    record: u64,
    parent: u64,
    name: &[u16],
    is_dir: bool,
    size: u64,
    mtime: i64,
) -> RawEntry<'_> {
    RawEntry {
        parent_frn: Frn(parent),
        frn: Frn((1u64 << 48) | record),
        name_utf16: name,
        is_dir,
        is_reparse: false,
        is_hidden: false,
        is_system: false,
        size,
        mtime,
    }
}

fn u16s(s: &str) -> Vec<u16> {
    s.encode_utf16().collect()
}

/// `docs` comes after its child in scan order.
fn build_sample() -> VolumeIndex {
    let mut b = VolumeIndexBuilder::new_synthetic("C:", 5);
    let note = u16s("Note.TXT");
    let docs = u16s("docs");
    let big = u16s("big.bin");
    b.push(raw(100, 50, &note, false, 10, 300));
    b.push(raw(50, 5, &docs, true, 0, 100));
    b.push(raw(60, 5, &big, false, 99_999, 200));
    b.finish()
}

fn raw_attr(
    record: u64,
    parent: u64,
    name: &[u16],
    is_dir: bool,
    is_hidden: bool,
    is_system: bool,
) -> RawEntry<'_> {
    RawEntry { is_hidden, is_system, ..raw(record, parent, name, is_dir, 0, 0) }
}

fn full(record: u64) -> Frn {
    Frn((1u64 << 48) | record)
}

/// The same MFT record as [`full`] under a different NTFS sequence number:
/// a reference to a since-recycled generation of that record.
fn stale_generation(record: u64) -> Frn {
    Frn((2u64 << 48) | record)
}

fn strict_entry(record: u64, parent: Frn, name: &[u16], is_dir: bool) -> RawEntry<'_> {
    RawEntry {
        parent_frn: parent,
        frn: full(record),
        name_utf16: name,
        is_dir,
        is_reparse: false,
        is_hidden: false,
        is_system: false,
        size: 0,
        mtime: 0,
    }
}

/// 1A build-rank (ADR-0033) must produce a permutation byte-identical to a
/// full `cmp_by(SortKey::Name)` sort: the packed `(rank, id)` key has to
/// reproduce the (folded-name, id) order exactly. Repeated folded names
/// (so `D < n`), case variants that fold together, and a multibyte name
/// exercise the dictionary-rank path and the id tie-break inside an
/// equal-name run.
#[test]
fn name_permutation_matches_cmp_by_oracle() {
    let mut b = VolumeIndexBuilder::new_synthetic("C:", 5);
    let names = [
        "report.log",
        "report.log",
        "report.log",
        ".gitignore",
        ".gitignore",
        "README",
        "readme",
        "ReadMe",
        "日本語.txt",
        "日本語.txt",
        "alpha",
        "zulu",
        "mike",
        "a.bin",
    ];
    for (i, name) in names.iter().enumerate() {
        let units = u16s(name);
        b.push(raw(100 + i as u64, 5, &units, false, i as u64, i as i64));
    }
    let idx = b.finish();

    // Independent oracle: the one definition of name order, applied by a
    // plain comparator sort over every id.
    let mut oracle: Vec<EntryId> = (0..idx.len() as u32).collect();
    oracle.sort_by(|&a, &b| match idx.order_by(SortKey::Name, a, b) {
        Order::Less => std::cmp::Ordering::Less,
        Order::Same => std::cmp::Ordering::Equal,
        Order::Greater => std::cmp::Ordering::Greater,
    });
    assert_eq!(
        idx.name_permutation(),
        oracle.as_slice(),
        "build-rank permutation diverged from the cmp_by(Name) oracle"
    );
}

#[test]
fn cancelled_finalization_never_returns_a_partial_index() {
    let b = VolumeIndexBuilder::new_synthetic("C:", 5);
    let stop = AtomicBool::new(true);
    assert!(
        b.finish_timed_cancellable(&stop)
            .expect("synthetic finalization")
            .is_none()
    );
}

#[test]
fn strict_builder_requires_the_exact_root_generation() {
    assert!(matches!(
        VolumeIndexBuilder::new_strict("C:", Frn(5)),
        Err(IndexBuildError::InvalidRootReference { root: Frn(5) })
    ));
    assert!(matches!(
        VolumeIndexBuilder::new_strict("C:", full(6)),
        Err(IndexBuildError::InvalidRootReference { root }) if root == full(6)
    ));
}

#[test]
fn strict_builder_resolves_out_of_order_exact_parents() {
    let mut builder = VolumeIndexBuilder::new_strict("C:", full(5)).expect("exact NTFS root");
    let child = u16s("child.txt");
    let directory = u16s("dir");
    builder.push(strict_entry(20, full(10), &child, false));
    builder.push(strict_entry(10, full(5), &directory, true));

    let index = builder.finish_strict().expect("complete rooted forest");
    let child = index.entry_by_frn(full(20)).expect("child");
    let directory = index.entry_by_frn(full(10)).expect("directory");
    assert_eq!(index.frn(VolumeIndex::ROOT), full(5));
    assert_eq!(index.parent(child), directory);
    assert_eq!(index.parent(directory), VolumeIndex::ROOT);
}

#[test]
fn strict_builder_rejects_missing_stale_and_non_directory_parents() {
    let name = u16s("child");

    let mut missing = VolumeIndexBuilder::new_strict("C:", full(5)).expect("exact NTFS root");
    missing.push(strict_entry(20, full(999), &name, false));
    assert!(matches!(
        missing.finish_strict(),
        Err(IndexBuildError::UnresolvedParent { .. })
    ));

    let mut stale = VolumeIndexBuilder::new_strict("C:", full(5)).expect("exact NTFS root");
    let directory = u16s("dir");
    stale.push(strict_entry(10, full(5), &directory, true));
    stale.push(strict_entry(20, stale_generation(10), &name, false));
    assert!(matches!(
        stale.finish_strict(),
        Err(IndexBuildError::UnresolvedParent { .. })
    ));

    let mut file_parent =
        VolumeIndexBuilder::new_strict("C:", full(5)).expect("exact NTFS root");
    let file = u16s("file");
    file_parent.push(strict_entry(10, full(5), &file, false));
    file_parent.push(strict_entry(20, full(10), &name, false));
    assert!(matches!(
        file_parent.finish_strict(),
        Err(IndexBuildError::ParentNotDirectory { .. })
    ));
}

#[test]
fn strict_builder_rejects_self_cycles_and_duplicate_links() {
    let a = u16s("a");
    let b = u16s("b");

    let mut self_parent =
        VolumeIndexBuilder::new_strict("C:", full(5)).expect("exact NTFS root");
    self_parent.push(strict_entry(10, full(10), &a, true));
    assert!(matches!(
        self_parent.finish_strict(),
        Err(IndexBuildError::SelfParent { .. })
    ));

    let mut cycle = VolumeIndexBuilder::new_strict("C:", full(5)).expect("exact NTFS root");
    cycle.push(strict_entry(10, full(20), &a, true));
    cycle.push(strict_entry(20, full(10), &b, true));
    assert!(matches!(
        cycle.finish_strict(),
        Err(IndexBuildError::ParentCycle { .. })
    ));

    let mut duplicate = VolumeIndexBuilder::new_strict("C:", full(5)).expect("exact NTFS root");
    duplicate.push(strict_entry(10, full(5), &a, false));
    duplicate.push(strict_entry(10, full(5), &a, false));
    assert!(matches!(
        duplicate.finish_strict(),
        Err(IndexBuildError::DuplicateLink { .. })
    ));
}

#[test]
fn builder_parents_resolve_across_scan_order() {
    let idx = build_sample();
    let note = idx.entry_by_record(100).unwrap();
    let docs = idx.entry_by_record(50).unwrap();
    assert_eq!(idx.parent(note), docs);
    assert_eq!(idx.parent(docs), VolumeIndex::ROOT);
}

#[test]
fn builder_orphan_attaches_to_root() {
    let mut b = VolumeIndexBuilder::new_synthetic("C:", 5);
    let name = u16s("lost.txt");
    b.push(raw(7, 999_999, &name, false, 1, 1));
    let idx = b.finish();
    let id = idx.entry_by_record(7).unwrap();
    assert_eq!(idx.parent(id), VolumeIndex::ROOT);
}

#[test]
fn file_record_can_never_be_selected_as_a_parent() {
    let mut b = VolumeIndexBuilder::new_synthetic("C:", 5);
    let file = u16s("not-a-directory");
    let exact_child = u16s("exact.txt");
    let bare_child = u16s("bare.txt");
    b.push(raw(10, 5, &file, false, 1, 1));
    b.push(raw(20, 10, &exact_child, false, 1, 1));
    b.push(RawEntry {
        parent_frn: Frn(10),
        frn: Frn((1u64 << 48) | 0x15),
        name_utf16: &bare_child,
        is_dir: false,
        is_reparse: false,
        is_hidden: false,
        is_system: false,
        size: 1,
        mtime: 1,
    });

    let idx = b.finish();
    for record in [20, 21] {
        let child = idx.entry_by_record(record).unwrap();
        assert_eq!(
            idx.parent(child),
            VolumeIndex::ROOT,
            "both exact and sequence-zero parent lookup must reject files"
        );
    }
}

#[test]
fn exact_duplicate_link_identity_is_published_once() {
    let mut b = VolumeIndexBuilder::new_synthetic("C:", 5);
    let name = u16s("once.txt");
    b.push(raw(10, 5, &name, false, 1, 1));
    b.push(RawEntry {
        parent_frn: Frn((1u64 << 48) | 5),
        frn: Frn((1u64 << 48) | 0x0A),
        name_utf16: &name,
        is_dir: false,
        is_reparse: false,
        is_hidden: false,
        is_system: false,
        size: 1,
        mtime: 1,
    });

    let idx = b.finish();

    assert_eq!(idx.len(), 2, "root plus one unique link row");
    assert_eq!(idx.live_len(), 2);
    assert_eq!(idx.entries_by_frn(Frn((1u64 << 48) | 0x0A)).len(), 1);
}

#[test]
fn excluded_propagates_down_branches() {
    // C:\ ├─ $Recycle.Bin\(system dir) │ └─ sub\ │   └─ ghost.txt(plain)
    //     ├─ .git(hidden file)  └─ normal.txt
    let bin = u16s("$Recycle.Bin");
    let sub = u16s("sub");
    let ghost = u16s("ghost.txt");
    let git = u16s(".git");
    let normal = u16s("normal.txt");
    let mut b = VolumeIndexBuilder::new_synthetic("C:", 5);
    // Push the deep child FIRST so propagation must survive scan order.
    b.push(raw_attr(30, 20, &ghost, false, false, false));
    b.push(raw_attr(20, 10, &sub, true, false, false));
    b.push(raw_attr(10, 5, &bin, true, false, true)); // system
    b.push(raw_attr(40, 5, &git, false, true, false)); // hidden
    b.push(raw_attr(50, 5, &normal, false, false, false));
    let idx = b.finish();

    for (rec, want) in [(10, true), (20, true), (30, true), (40, true), (50, false)] {
        let id = idx.entry_by_record(rec).unwrap();
        assert_eq!(idx.is_excluded(id), want, "record {rec}");
    }
}
