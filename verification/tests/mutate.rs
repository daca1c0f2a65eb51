//! Changes of an index.

use fmf_core::dates::{FILETIME_UNIX_EPOCH, TICKS_PER_SECOND};
use fmf_core::index::builder::VolumeIndexBuilder;
use fmf_core::index::reconcile::LinkReconcileStats;
use fmf_core::index::topology::IndexMutationError;
use fmf_core::index::{EntryId, Frn, RawEntry, SortKey, VolumeIndex};
use fmf_core::order::Order;
use fmf_core::wtf8::wtf8_to_utf16;

fn raw(
    record: u64,
    parent: u64,
    name: &[u16],
    is_dir: bool,
    size: u64,
    mtime: i64,
) -> RawEntry<'_> {
    RawEntry {
        parent_frn: Frn(parent),
        frn: Frn((1u64 << 48) | record),
        name_utf16: name,
        is_dir,
        is_reparse: false,
        is_hidden: false,
        is_system: false,
        size,
        mtime,
    }
}

fn u16s(s: &str) -> Vec<u16> {
    s.encode_utf16().collect()
}

/// `docs` comes after its child in scan order.
fn build_sample() -> VolumeIndex {
    let mut b = VolumeIndexBuilder::new_synthetic("C:", 5);
    let note = u16s("Note.TXT");
    let docs = u16s("docs");
    let big = u16s("big.bin");
    b.push(raw(100, 50, &note, false, 10, 300));
    b.push(raw(50, 5, &docs, true, 0, 100));
    b.push(raw(60, 5, &big, false, 99_999, 200));
    b.finish()
}

/// One object with a link in each of two directories.
fn build_hardlink_sample() -> VolumeIndex {
    let mut b = VolumeIndexBuilder::new_synthetic("C:", 5);
    let (a, bb) = (u16s("a"), u16s("b"));
    let (shared, alias) = (u16s("shared.txt"), u16s("alias.txt"));
    b.push(raw(10, 5, &a, true, 0, 1));
    b.push(raw(20, 5, &bb, true, 0, 1));
    b.push(raw(100, 10, &shared, false, 42, 1));
    b.push(raw(100, 20, &alias, false, 42, 1));
    b.finish()
}

fn raw_attr(
    record: u64,
    parent: u64,
    name: &[u16],
    is_dir: bool,
    is_hidden: bool,
    is_system: bool,
) -> RawEntry<'_> {
    RawEntry { is_hidden, is_system, ..raw(record, parent, name, is_dir, 0, 0) }
}

fn tombstone_ratio(idx: &VolumeIndex) -> f64 {
    let (dead, all) = idx.tombstone_share();
    dead as f64 / all as f64
}

fn full(record: u64) -> Frn {
    Frn((1u64 << 48) | record)
}

/// The same MFT record as [`full`] under a different NTFS sequence number:
/// a reference to a since-recycled generation of that record.
fn stale_generation(record: u64) -> Frn {
    Frn((2u64 << 48) | record)
}

fn strict_index() -> VolumeIndex {
    let mut builder = VolumeIndexBuilder::new_strict("C:", full(5)).expect("exact NTFS root");
    let a = u16s("a");
    let b = u16s("b");
    let file = u16s("file.txt");
    builder.push(RawEntry {
        parent_frn: full(5),
        frn: full(10),
        name_utf16: &a,
        is_dir: true,
        is_reparse: false,
        is_hidden: false,
        is_system: false,
        size: 0,
        mtime: 0,
    });
    builder.push(RawEntry {
        parent_frn: full(10),
        frn: full(20),
        name_utf16: &b,
        is_dir: true,
        is_reparse: false,
        is_hidden: false,
        is_system: false,
        size: 0,
        mtime: 0,
    });
    builder.push(RawEntry {
        parent_frn: full(10),
        frn: full(100),
        name_utf16: &file,
        is_dir: false,
        is_reparse: false,
        is_hidden: false,
        is_system: false,
        size: 1,
        mtime: 1,
    });
    builder.finish_strict().expect("strict fixture is rooted")
}

#[test]
fn production_upsert_rejects_unknown_or_stale_parent_without_mutating() {
    let mut index = strict_index();
    let before_len = index.len();
    let before_live = index.live_len();
    let name = u16s("new.txt");
    let unknown = RawEntry {
        parent_frn: full(999),
        frn: full(200),
        name_utf16: &name,
        is_dir: false,
        is_reparse: false,
        is_hidden: false,
        is_system: false,
        size: 1,
        mtime: 1,
    };
    assert!(matches!(
        index.upsert_link_usn(&unknown),
        Err(IndexMutationError::UnresolvedParent { .. })
    ));

    let stale = RawEntry {
        parent_frn: stale_generation(10),
        ..unknown
    };
    assert!(matches!(
        index.upsert_link_usn(&stale),
        Err(IndexMutationError::UnresolvedParent { .. })
    ));
    assert_eq!(index.len(), before_len);
    assert_eq!(index.live_len(), before_live);
    assert!(index.entry_by_frn(full(200)).is_none());
}

#[test]
fn production_directory_move_rejects_cycles_before_changing_the_row() {
    let mut index = strict_index();
    let directory = index.entry_by_frn(full(10)).expect("directory a");
    let old_parent = index.parent(directory);
    let old_name = index.name(directory).to_vec();

    assert!(matches!(
        index.rename_dir_frn_in_place(full(10), &u16s("moved"), full(20)),
        Err(IndexMutationError::ParentCycle { .. })
    ));
    assert_eq!(index.parent(directory), old_parent);
    assert_eq!(index.name(directory), old_name);
}

#[test]
fn production_link_snapshot_rejects_duplicates_atomically() {
    let mut index = strict_index();
    let before_len = index.len();
    let before_live = index.live_len();
    let name = u16s("duplicate.txt");
    let duplicate = || RawEntry {
        parent_frn: full(10),
        frn: full(200),
        name_utf16: &name,
        is_dir: false,
        is_reparse: false,
        is_hidden: false,
        is_system: false,
        size: 7,
        mtime: 9,
    };
    assert!(matches!(
        index.reconcile_file_links_usn(full(200), &[duplicate(), duplicate()]),
        Err(IndexMutationError::DuplicateLink { .. })
    ));
    assert_eq!(index.len(), before_len);
    assert_eq!(index.live_len(), before_live);
}

#[test]
fn production_batch_boundary_rejects_a_live_child_of_a_dead_parent() {
    let mut index = strict_index();
    let parent = index.entry_by_frn(full(10)).expect("directory a");
    index.tombstone_id(parent);
    assert!(matches!(
        index.merge_new_into_permutations(index.len() as EntryId),
        Err(IndexMutationError::InvalidTopology { .. })
    ));
}

/// Rejecting a batch is a message to the caller, not a licence to leave
/// the index half-merged. A short `perm_name` makes the name order omit
/// live rows, and an unbumped generation makes every derived cache keep
/// answering for an index that no longer exists — both of them for the
/// tens of seconds a rescan takes. `snapshot.rs` refuses to *load* an
/// incomplete permutation; the live index must never hold one either.
#[test]
fn a_rejected_batch_boundary_still_leaves_one_complete_permutation() {
    let mut index = strict_index();
    let generation = index.content_generation();
    let first_new = index.len() as EntryId;

    let name = u16s("appended.txt");
    index
        .upsert_link_usn(&RawEntry {
            parent_frn: full(20),
            frn: full(200),
            name_utf16: &name,
            is_dir: false,
            is_reparse: false,
            is_hidden: false,
            is_system: false,
            size: 4,
            mtime: 5,
        })
        .expect("the fixture parent is exact");
    // Now break the topology the boundary validates: `b` keeps a live
    // child while it is itself dead.
    let directory = index.entry_by_frn(full(20)).expect("directory b");
    index.tombstone_id(directory);

    assert!(matches!(
        index.merge_new_into_permutations(first_new),
        Err(IndexMutationError::InvalidTopology { .. })
    ));

    let permutation = index.name_permutation();
    assert_eq!(
        permutation.len(),
        index.len(),
        "every appended row reached the name permutation"
    );
    let mut seen: Vec<EntryId> = permutation.to_vec();
    seen.sort_unstable();
    assert_eq!(seen, (0..index.len() as EntryId).collect::<Vec<_>>());
    for pair in permutation.windows(2) {
        assert!(index.order_by(SortKey::Name, pair[0], pair[1]) == Order::Less);
    }
    assert_eq!(
        index.content_generation(),
        generation + 1,
        "derived caches must be told the rows changed"
    );
}

#[test]
fn link_mutations_preserve_siblings_and_object_updates_reach_all_links() {
    let mut idx = build_hardlink_sample();
    let object = Frn((1u64 << 48) | 0x64);
    let parent_a = Frn((1u64 << 48) | 0x0A);
    let parent_b = Frn((1u64 << 48) | 0x14);
    let updated_mtime =
        FILETIME_UNIX_EPOCH + 77 * TICKS_PER_SECOND;

    let first_new = idx.len() as u32;
    let refreshed_name = u16s("shared.txt");
    let refreshed = RawEntry {
        parent_frn: parent_a,
        frn: object,
        name_utf16: &refreshed_name,
        is_dir: false,
        is_reparse: false,
        is_hidden: false,
        is_system: false,
        size: 99,
        mtime: 9,
    };
    idx.upsert_link_usn(&refreshed)
        .expect("fixture parent is exact");
    idx.merge_new_into_permutations(first_new)
        .expect("fixture topology remains valid");
    assert_eq!(idx.entries_by_frn(object).len(), 2);
    assert!(
        idx.entry_by_link(object, parent_b, &u16s("alias.txt"))
            .is_some(),
        "refreshing one link must retain its sibling"
    );

    idx.update_stat_frn(object, 1234, updated_mtime).unwrap();
    idx.update_object_attrs_frn(object, false, true, false)
        .unwrap();
    for id in idx.entries_by_frn(object) {
        assert_eq!(idx.size(id), 1234);
        assert_eq!(idx.mtime(id), updated_mtime);
        assert!(idx.is_excluded(id));
    }

    assert!(
        idx.delete_link_frn(object, parent_a, &refreshed_name)
            .is_some()
    );
    let remaining: Vec<_> = idx.entries_by_frn(object);
    assert_eq!(remaining.len(), 1);
    assert_eq!(idx.name(remaining[0]), b"alias.txt");

    idx.delete_frn(object).unwrap();
    assert_eq!(idx.entries_by_frn(object).len(), 0);
}

#[test]
fn record_reuse_retires_every_link_of_the_old_sequence() {
    let mut idx = build_hardlink_sample();
    let old = Frn((1u64 << 48) | 0x64);
    assert_eq!(idx.entries_by_frn(old).len(), 2);

    let name = u16s("reused.txt");
    let new = RawEntry {
        parent_frn: Frn((1u64 << 48) | 0x0A),
        frn: Frn((2u64 << 48) | 0x64),
        name_utf16: &name,
        is_dir: false,
        is_reparse: false,
        is_hidden: false,
        is_system: false,
        size: 1,
        mtime: 1,
    };
    idx.upsert_link_usn(&new).expect("fixture parent is exact");

    assert_eq!(idx.entries_by_frn(old).len(), 0);
    assert_eq!(idx.entries_by_frn(new.frn).len(), 1);
}

#[test]
fn complete_link_snapshot_is_reconciled_by_exact_parent_and_name() {
    let mut idx = build_hardlink_sample();
    let object = Frn((1u64 << 48) | 0x64);
    let parent_a = Frn((1u64 << 48) | 0x0A);
    let parent_b = Frn((1u64 << 48) | 0x14);
    let shared = u16s("shared.txt");
    let third = u16s("third.txt");
    let retained_before = idx
        .entry_by_link(object, parent_a, &shared)
        .expect("existing link");
    let metadata_time =
        FILETIME_UNIX_EPOCH + 9 * TICKS_PER_SECOND;
    let desired = [
        RawEntry {
            parent_frn: parent_a,
            frn: object,
            name_utf16: &shared,
            is_dir: false,
            is_reparse: false,
            is_hidden: false,
            is_system: false,
            size: 500,
            mtime: metadata_time,
        },
        RawEntry {
            parent_frn: parent_b,
            frn: object,
            name_utf16: &third,
            is_dir: false,
            is_reparse: false,
            is_hidden: false,
            is_system: false,
            size: 500,
            mtime: metadata_time,
        },
    ];

    let first_new = idx.len() as u32;
    let changed = idx
        .reconcile_file_links_usn(object, &desired)
        .expect("fixture snapshot is complete");
    idx.merge_new_into_permutations(first_new)
        .expect("fixture topology remains valid");
    assert_eq!(
        changed,
        LinkReconcileStats {
            added: 1,
            removed: 1,
            retained: 1,
            metadata_changed: true,
        }
    );
    assert_eq!(
        idx.entry_by_link(object, parent_a, &shared),
        Some(retained_before),
        "an unchanged link keeps its EntryId"
    );
    assert!(
        idx.entry_by_link(object, parent_b, &u16s("alias.txt"))
            .is_none()
    );
    assert!(
        idx.entry_by_link(object, parent_b, &third).is_some(),
        "the authoritative new link is appended"
    );
    for id in idx.entries_by_frn(object) {
        assert_eq!((idx.size(id), idx.mtime(id)), (500, metadata_time));
    }
}

#[test]
fn mutate_rename_is_tombstone_plus_new_entry() {
    let mut idx = build_sample();
    let old = idx.entry_by_record(100).unwrap();
    let first_new = idx.len() as u32;
    let renamed = u16s("renamed.txt");
    let mut e = raw(100, 50, &renamed, false, 10, 300);
    e.frn = idx.frn(old); // same FRN, new name
    let new_id = idx.upsert_synthetic(&e);
    idx.merge_new_into_permutations(first_new)
        .expect("fixture topology remains valid");
    assert!(!idx.is_live(old));
    assert!(idx.is_live(new_id));
    assert_eq!(idx.entry_by_record(100), Some(new_id));
    assert_eq!(idx.name(new_id), b"renamed.txt");
    // The name permutation contains the new id in sorted position.
    let pos = idx
        .name_permutation()
        .iter()
        .position(|&i| i == new_id)
        .unwrap();
    let perm = idx.name_permutation();
    if pos > 0 {
        assert!(idx.lower_name(perm[pos - 1]) <= idx.lower_name(new_id));
    }
    if pos + 1 < perm.len() {
        assert!(idx.lower_name(new_id) <= idx.lower_name(perm[pos + 1]));
    }
}

#[test]
fn mutate_delete_and_reparent() {
    let mut idx = build_sample();
    let big = idx.entry_by_record(60).unwrap();
    idx.reparent_synthetic(60, 50);
    let docs = idx.entry_by_record(50).unwrap();
    assert_eq!(idx.parent(big), docs);

    idx.delete(60);
    assert!(!idx.is_live(big));
    assert_eq!(idx.entry_by_record(60), None);
    assert!(tombstone_ratio(&idx) > 0.0);
}

#[test]
fn usn_insert_and_moves_track_exclusion() {
    let sysdir = u16s("sysdir");
    let normal = u16s("docs");
    let mut b = VolumeIndexBuilder::new_synthetic("C:", 5);
    b.push(raw_attr(10, 5, &sysdir, true, false, true));
    b.push(raw_attr(20, 5, &normal, true, false, false));
    let mut idx = b.finish();

    // New plain file created under the system dir → inherits.
    let name = u16s("payload.tmp");
    let first_new = idx.len() as u32;
    let id = idx.upsert_synthetic(&raw_attr(30, 10, &name, false, false, false));
    idx.merge_new_into_permutations(first_new)
        .expect("fixture topology remains valid");
    assert!(idx.is_excluded(id));

    // Moved out into a normal dir → bit clears.
    idx.reparent_synthetic(30, 20);
    assert!(!idx.is_excluded(id));

    // Attribute change marks it hidden → re-excluded.
    idx.update_attrs(30, true, false);
    assert!(idx.is_excluded(id));
}

/// `perm_name` must stay a sorted permutation of every entry id.
fn assert_perm_name_sorted(idx: &VolumeIndex) {
    let perm = idx.name_permutation();
    assert_eq!(perm.len(), idx.len(), "perm_name must cover every entry");
    let mut seen: Vec<EntryId> = perm.to_vec();
    seen.sort_unstable();
    assert_eq!(seen, (0..idx.len() as u32).collect::<Vec<_>>());
    for w in perm.windows(2) {
        assert!(
            idx.order_by(SortKey::Name, w[0], w[1]) == Order::Less,
            "perm_name out of order at {w:?}"
        );
    }
}

#[test]
fn rename_dir_in_place_keeps_permutation_sorted() {
    let mut b = VolumeIndexBuilder::new_synthetic("C:", 5);
    let (alpha, mike, zulu, child) = (u16s("alpha"), u16s("mike"), u16s("zulu"), u16s("a.txt"));
    b.push(raw(10, 5, &alpha, true, 0, 1));
    b.push(raw(20, 5, &mike, true, 0, 2));
    b.push(raw(30, 5, &zulu, true, 0, 3));
    b.push(raw(11, 10, &child, false, 1, 4));
    let mut idx = b.finish();
    let dir = idx.entry_by_record(10).unwrap();

    // Move toward the end of the name order, then to the front.
    let zz = u16s("zz_renamed");
    assert_eq!(idx.rename_dir_synthetic_in_place(10, &zz, 5), Some(dir));
    assert_eq!(idx.name(dir), b"zz_renamed");
    assert_perm_name_sorted(&idx);
    let first = u16s("0_first");
    assert_eq!(idx.rename_dir_synthetic_in_place(10, &first, 5), Some(dir));
    assert_perm_name_sorted(&idx);

    // In place: same EntryId, no tombstone, children follow lazily.
    assert_eq!(idx.entry_by_record(10), Some(dir));
    assert_eq!(idx.len(), 5);
    assert_eq!(idx.live_len(), 5);
    let c = idx.entry_by_record(11).unwrap();
    let mut p = Vec::new();
    idx.append_path(c, &mut p).unwrap();
    assert_eq!(p, b"C:\\0_first\\a.txt");
    // Name renames never touch sizes/mtimes, so the lazy size/mtime
    // orders (query::memo) stay valid without any signal from here.
}

#[test]
fn mutations_on_unknown_records_are_safe_noops() {
    let mut idx = build_sample();
    let generation = idx.content_generation();
    let perm_before = idx.name_permutation().to_vec();
    let ghost = u16s("ghost");
    assert_eq!(idx.rename_dir_synthetic_in_place(9999, &ghost, 5), None);
    assert_eq!(idx.delete(9999), None);
    assert_eq!(idx.update_stat(9999, 1, 1), None);
    assert_eq!(idx.update_attrs(9999, true, true), None);
    assert_eq!(idx.reparent_synthetic(9999, 5), None);
    assert_eq!(idx.len(), 4);
    assert_eq!(idx.live_len(), 4);
    assert_eq!(idx.name_permutation(), perm_before.as_slice());
    assert_eq!(idx.content_generation(), generation);
}

#[test]
fn rename_dir_with_itself_as_parent_keeps_current_parent() {
    let mut b = VolumeIndexBuilder::new_synthetic("C:", 5);
    let (top, sub) = (u16s("top"), u16s("sub"));
    b.push(raw(10, 5, &top, true, 0, 1));
    b.push(raw(20, 10, &sub, true, 0, 2));
    let mut idx = b.finish();
    let top_id = idx.entry_by_record(10).unwrap();
    let sub_id = idx.entry_by_record(20).unwrap();

    // new_parent_record == own record: the parent write is guarded, no
    // self-cycle is created and the path chain still terminates.
    let renamed = u16s("renamed");
    assert_eq!(
        idx.rename_dir_synthetic_in_place(20, &renamed, 20),
        Some(sub_id)
    );
    assert_eq!(idx.parent(sub_id), top_id);
    let mut p = Vec::new();
    idx.append_path(sub_id, &mut p).unwrap();
    assert_eq!(p, b"C:\\top\\renamed");
    assert_perm_name_sorted(&idx);

    // Unknown new parent attaches to the root (current pinned behavior,
    // same as push_raw's orphan handling).
    let renamed2 = u16s("renamed2");
    assert_eq!(
        idx.rename_dir_synthetic_in_place(20, &renamed2, 424_242),
        Some(sub_id)
    );
    assert_eq!(idx.parent(sub_id), VolumeIndex::ROOT);
}

#[test]
fn reparent_to_self_keeps_current_parent() {
    // A corrupt USN record whose parent FRN equals its own FRN must not
    // create a self-cycle (same guard as rename_dir_in_place).
    let mut idx = build_sample();
    let docs = idx.entry_by_record(50).unwrap();
    let before = idx.parent(docs);
    assert_eq!(idx.reparent_synthetic(50, 50), Some(docs));
    assert_eq!(idx.parent(docs), before);
}

#[test]
fn update_attrs_recomputes_excluded_from_own_and_inherited_bits() {
    let mut b = VolumeIndexBuilder::new_synthetic("C:", 5);
    let (sysdir, plain, f, g) = (u16s("sysdir"), u16s("plain"), u16s("f.txt"), u16s("g.txt"));
    b.push(raw_attr(10, 5, &sysdir, true, false, true));
    b.push(raw_attr(20, 5, &plain, true, false, false));
    b.push(raw_attr(30, 20, &f, false, false, false));
    b.push(raw_attr(40, 20, &g, false, false, false));
    let mut idx = b.finish();
    let f_id = idx.entry_by_record(30).unwrap();
    let g_id = idx.entry_by_record(40).unwrap();
    assert!(!idx.is_excluded(f_id));

    // Own hidden bit set → excluded; cleared again → plain.
    idx.update_attrs(30, true, false).unwrap();
    assert!(idx.is_excluded(f_id));
    idx.update_attrs(30, false, false).unwrap();
    assert!(!idx.is_excluded(f_id));

    // Under an excluded parent, clearing own bits keeps the inherited bit.
    idx.reparent_synthetic(30, 10).unwrap();
    assert!(idx.is_excluded(f_id));
    idx.update_attrs(30, false, false).unwrap();
    assert!(idx.is_excluded(f_id));

    // Marking a dir hidden updates it immediately and propagates through
    // every existing descendant exactly once at the batch boundary.
    let plain_id = idx.entry_by_record(20).unwrap();
    idx.update_attrs(20, true, false).unwrap();
    assert!(idx.is_excluded(plain_id));
    idx.merge_new_into_permutations(idx.len() as u32)
        .expect("fixture topology remains valid");
    assert!(idx.is_excluded(g_id));

    // New entries created under it inherit immediately.
    let h = u16s("h.txt");
    let first_new = idx.len() as u32;
    let h_id = idx.upsert_synthetic(&raw_attr(50, 20, &h, false, false, false));
    idx.merge_new_into_permutations(first_new)
        .expect("fixture topology remains valid");
    assert!(idx.is_excluded(h_id));

    // Clearing the directory attribute clears inherited exclusion from
    // both old and newly-created descendants at the next boundary.
    idx.update_attrs(20, false, false).unwrap();
    idx.merge_new_into_permutations(idx.len() as u32)
        .expect("fixture topology remains valid");
    assert!(!idx.is_excluded(g_id));
    assert!(!idx.is_excluded(h_id));
}

struct Rng(u64);
impl Rng {
    fn next(&mut self) -> u64 {
        let mut x = self.0;
        x ^= x << 13;
        x ^= x >> 7;
        x ^= x << 17;
        self.0 = x;
        x
    }
}

/// Random create/rename/delete/stat batches through the in-place merge:
/// every permutation stays a complete permutation, `perm_name` stays
/// strictly sorted (names are never mutated in place), and every record
/// resolves per a side model — both mid-batch (tail scan) and after the
/// merge (sorted lookup).
#[test]
fn random_batches_keep_permutations_canonical_and_lookups_model_true() {
    let mut rng = Rng(0x5EED_CAFE_D00D);
    let mut idx = build_sample();
    // record → the live entry's expected name (None = deleted).
    let mut model: std::collections::HashMap<u64, Option<Vec<u8>>> =
        std::collections::HashMap::new();
    for record in [50u64, 60, 100] {
        let id = idx.entry_by_record(record).unwrap();
        model.insert(record, Some(idx.name(id).to_vec()));
    }
    let check = |idx: &VolumeIndex, record: u64, expect: &Option<Vec<u8>>| match (
        idx.entry_by_record(record),
        expect,
    ) {
        (Some(id), Some(name)) => assert_eq!(idx.name(id), &name[..]),
        (None, None) => {}
        (got, want) => panic!("record {record}: got {got:?}, want live={}", want.is_some()),
    };

    for _ in 0..100 {
        let first_new = idx.len() as u32;
        for _ in 0..=(rng.next() % 8) {
            let record = 100 + rng.next() % 30;
            match rng.next() % 4 {
                0 | 1 => {
                    let name = format!("n{}_{}.txt", record, rng.next() % 100);
                    let units = u16s(&name);
                    idx.upsert_synthetic(&raw(
                        record,
                        50,
                        &units,
                        false,
                        rng.next() % 1000,
                        (rng.next() % 1000) as i64,
                    ));
                    model.insert(record, Some(name.into_bytes()));
                }
                2 => {
                    idx.delete(record);
                    model.insert(record, None);
                }
                _ => {
                    // In-place stat update: never repositions an entry
                    // (pinned behavior); names unaffected. Mix sizes on
                    // both sides of the u32 overflow sentinel.
                    let size = if rng.next() % 8 == 0 {
                        (4u64 << 30) + rng.next() % 1000
                    } else {
                        rng.next() % 5000
                    };
                    idx.update_stat(record, size, (rng.next() % 5000) as i64);
                }
            }
            if let Some(expect) = model.get(&record) {
                check(&idx, record, expect); // unmerged-tail resolution
            }
        }
        idx.merge_new_into_permutations(first_new)
            .expect("fixture topology remains valid");
        // Permutation property: every id exactly once, strictly sorted
        // (names are never mutated in place). The lazy size/mtime
        // orders are covered by query::memo's SortPerm oracle.
        let mut seen: Vec<EntryId> = idx.name_permutation().to_vec();
        seen.sort_unstable();
        assert_eq!(seen, (0..idx.len() as u32).collect::<Vec<_>>());
        assert_perm_name_sorted(&idx);
        for (record, expect) in &model {
            check(&idx, *record, expect);
        }
    }
}

/// `name()` must return the exact WTF-8 input bytes through every write
/// path and a snapshot roundtrip — the fold-overflow layout (originals
/// stored only where they differ) must be invisible to readers.
#[test]
fn names_roundtrip_byte_exact_through_fold_overflow_layout() {
    let cases: &[&str] = &[
        "lowercase.txt",
        "File.TXT",
        "ALLCAPS",
        "日本語ファイル.txt",
        "ΣΟΦΟΣ.doc",
        "İstanbul.log",
        "Mixed日本語Name.TXT",
        "𠮷野家🦀.txt",
    ];
    let mut b = VolumeIndexBuilder::new_synthetic("C:", 5);
    for (i, name) in cases.iter().enumerate() {
        let units = u16s(name);
        b.push(raw(100 + i as u64, 5, &units, false, 1, 1));
    }
    let mut idx = b.finish();
    // Lone surrogate through the USN write path.
    let first_new = idx.len() as u32;
    idx.upsert_synthetic(&raw(900, 5, &[0x0041, 0xD800, 0x0042], false, 1, 1));
    idx.merge_new_into_permutations(first_new)
        .expect("fixture topology remains valid");
    let check = |idx: &VolumeIndex| {
        for (i, name) in cases.iter().enumerate() {
            let id = idx.entry_by_record(100 + i as u64).unwrap();
            assert_eq!(idx.name(id), name.as_bytes(), "{name}");
            assert_eq!(idx.name(id).len(), idx.lower_name(id).len(), "{name}");
        }
        let id = idx.entry_by_record(900).unwrap();
        let mut units = Vec::new();
        wtf8_to_utf16(idx.name(id), &mut units);
        assert_eq!(units, vec![0x0041, 0xD800, 0x0042]);
    };
    check(&idx);

    let mut buf = Vec::new();
    buf.extend(idx.write_snapshot(1, 1));
    let (loaded, _, _) = VolumeIndex::read_snapshot(&buf).unwrap();
    check(&loaded);
}

/// `dedup_orig` (ADR-0033 Lever 1) stores each distinct original once: a
/// volume full of repeated capitalized names keeps a single `orig_pool`
/// copy of each, while every entry's `name()` still reads back its exact
/// original bytes and fold-identical names own no copy at all.
#[test]
fn dedup_orig_stores_each_original_once() {
    let mut b = VolumeIndexBuilder::new_synthetic("C:", 5);
    // 3×README + 2×Makefile differ from their fold; the two lowercase
    // names are fold-identical and own no original copy.
    let names = [
        "README",
        "README",
        "README",
        "Makefile",
        "Makefile",
        "notes.txt",
        "data.bin",
    ];
    for (i, name) in names.iter().enumerate() {
        let units = u16s(name);
        b.push(raw(100 + i as u64, 5, &units, false, 1, 1));
    }
    let idx = b.finish();

    // Every entry reads back its exact original through the shared copy.
    for (i, name) in names.iter().enumerate() {
        let id = idx.entry_by_record(100 + i as u64).unwrap();
        assert_eq!(idx.name(id), name.as_bytes(), "{name}");
    }
    // The differing originals are deduped to one copy each: root "C:"
    // (folds to "c:") + "README" + "Makefile" = 2 + 6 + 8 = 16 bytes, not
    // the un-deduped 2 + 6*3 + 8*2 = 36. The fold-identical names add none.
    assert_eq!(idx.orig_pool.len(), 16);
}

/// In-place dir renames cross the fold-identity boundary in both
/// directions: gaining an original copy and dropping back to the
/// shared folded bytes.
#[test]
fn dir_rename_crosses_fold_identity_both_ways() {
    let mut b = VolumeIndexBuilder::new_synthetic("C:", 5);
    let plain = u16s("plain");
    b.push(raw(10, 5, &plain, true, 0, 1));
    let mut idx = b.finish();
    let id = idx.entry_by_record(10).unwrap();
    assert_eq!(idx.name(id), b"plain");
    assert_eq!(idx.lower_name(id), b"plain");

    let upper = u16s("Upper");
    idx.rename_dir_synthetic_in_place(10, &upper, 5).unwrap();
    idx.merge_new_into_permutations(idx.len() as u32)
        .expect("fixture topology remains valid");
    assert_eq!(idx.name(id), b"Upper");
    assert_eq!(idx.lower_name(id), b"upper");

    let back = u16s("back_to_lower");
    idx.rename_dir_synthetic_in_place(10, &back, 5).unwrap();
    idx.merge_new_into_permutations(idx.len() as u32)
        .expect("fixture topology remains valid");
    assert_eq!(idx.name(id), b"back_to_lower");
    assert_eq!(idx.lower_name(id), b"back_to_lower");
    assert_perm_name_sorted(&idx);
}

/// Sizes round-trip across the u32 column + overflow map in both
/// directions (grow past the sentinel, shrink back under it).
#[test]
fn size_overflow_roundtrips_through_updates() {
    let mut idx = build_sample();
    let first_new = idx.len() as u32;
    let name = u16s("huge.vhdx");
    let id = idx.upsert_synthetic(&raw(900, 50, &name, false, (6u64 << 30) + 7, 1));
    idx.merge_new_into_permutations(first_new)
        .expect("fixture topology remains valid");
    assert_eq!(idx.size(id), (6u64 << 30) + 7);

    // Shrink under the sentinel: the overflow slot must be reclaimed.
    idx.update_stat(900, 1234, 2).unwrap();
    assert_eq!(idx.size(id), 1234);

    // Grow back over it; exactly u32::MAX must overflow too (sentinel).
    idx.update_stat(900, u32::MAX as u64, 3).unwrap();
    assert_eq!(idx.size(id), u32::MAX as u64);
    idx.update_stat(900, u64::MAX, 4).unwrap();
    assert_eq!(idx.size(id), u64::MAX);
}

/// `dead_name_bytes` follows the reclaimable original-spelling copies a
/// rebuild drops (ADR-0032): folded bytes are shared in the dictionary, so
/// only a non-fold-identical entry ("Note.TXT") owns reclaimable bytes —
/// the all-lowercase names own none. Snapshot restore recomputes the
/// tombstone share (rename gaps are a lost lower bound).
#[test]
fn dead_name_bytes_tracks_pool_garbage() {
    let owned = |idx: &VolumeIndex, record: u64| {
        let id = idx.entry_by_record(record).unwrap();
        if idx.name(id) == idx.lower_name(id) {
            0 // fold-identical: nothing owned (folded bytes are shared)
        } else {
            idx.name(id).len() as u64 // only the original copy is owned
        }
    };
    let mut idx = build_sample();
    assert_eq!(idx.stats("C:").dead_name_bytes, 0);

    let note = owned(&idx, 100); // "Note.TXT": its original copy
    assert_eq!(note, 8);
    let first_new = idx.len() as u32;
    let renamed = u16s("renamed.txt");
    idx.upsert_synthetic(&raw(100, 50, &renamed, false, 1, 1));
    idx.merge_new_into_permutations(first_new)
        .expect("fixture topology remains valid");
    assert_eq!(idx.stats("C:").dead_name_bytes, note);

    let big = owned(&idx, 60); // "big.bin": fold-identical, owns nothing
    assert_eq!(big, 0);
    idx.delete(60);
    assert_eq!(idx.stats("C:").dead_name_bytes, note + big);

    let docs = owned(&idx, 50);
    let dir2 = u16s("docs2");
    idx.rename_dir_synthetic_in_place(50, &dir2, 5);
    let s = idx.stats("C:");
    assert_eq!(s.dead_name_bytes, note + big + docs);
    assert!(s.dead_name_bytes as f64 / (s.name_pool_bytes + s.lower_pool_bytes) as f64 > 0.0);

    let mut buf = Vec::new();
    buf.extend(idx.write_snapshot(1, 1));
    let (loaded, _, _) = VolumeIndex::read_snapshot(&buf).unwrap();
    assert_eq!(loaded.stats("C:").dead_name_bytes, note + big);
}

#[test]
fn no_op_batches_keep_content_generation_monotonic() {
    let mut idx = build_sample();
    let g0 = idx.content_generation();
    let s0 = idx.structural_generation();
    let perm_before = idx.name_permutation().to_vec();

    // Empty batch (e.g. a dir-rename-only USN batch): generation still
    // moves so derived caches invalidate, permutations stay put.
    idx.merge_new_into_permutations(idx.len() as u32)
        .expect("fixture topology remains valid");
    assert_eq!(idx.content_generation(), g0 + 1);
    assert_eq!(idx.name_permutation(), perm_before.as_slice());

    // Tombstone-only batch: ids stay in the permutations (flag-only).
    idx.delete(60);
    idx.merge_new_into_permutations(idx.len() as u32)
        .expect("fixture topology remains valid");
    assert_eq!(idx.content_generation(), g0 + 2);
    assert_eq!(idx.name_permutation(), perm_before.as_slice());

    // Individual mutations between batches never bump on their own.
    idx.update_stat(100, 1, 1).unwrap();
    idx.update_attrs(100, true, false).unwrap();
    assert_eq!(idx.content_generation(), g0 + 2);
    // Content batches never touch the structural generation.
    assert_eq!(idx.structural_generation(), s0);
}
