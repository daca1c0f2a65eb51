//! Compaction.

use fmf_core::index::builder::VolumeIndexBuilder;
use fmf_core::index::compact::COMPACT_DEAD_NAME_BYTES;
use fmf_core::index::{EntryId, Frn, RawEntry, SortKey, VolumeIndex};
use fmf_core::order::Order;

fn raw(
    record: u64,
    parent: u64,
    name: &[u16],
    is_dir: bool,
    size: u64,
    mtime: i64,
) -> RawEntry<'_> {
    RawEntry {
        parent_frn: Frn(parent),
        frn: Frn((1u64 << 48) | record),
        name_utf16: name,
        is_dir,
        is_reparse: false,
        is_hidden: false,
        is_system: false,
        size,
        mtime,
    }
}

fn u16s(s: &str) -> Vec<u16> {
    s.encode_utf16().collect()
}

/// `docs` comes after its child in scan order.
fn build_sample() -> VolumeIndex {
    let mut b = VolumeIndexBuilder::new_synthetic("C:", 5);
    let note = u16s("Note.TXT");
    let docs = u16s("docs");
    let big = u16s("big.bin");
    b.push(raw(100, 50, &note, false, 10, 300));
    b.push(raw(50, 5, &docs, true, 0, 100));
    b.push(raw(60, 5, &big, false, 99_999, 200));
    b.finish()
}

/// One object with a link in each of two directories.
fn build_hardlink_sample() -> VolumeIndex {
    let mut b = VolumeIndexBuilder::new_synthetic("C:", 5);
    let (a, bb) = (u16s("a"), u16s("b"));
    let (shared, alias) = (u16s("shared.txt"), u16s("alias.txt"));
    b.push(raw(10, 5, &a, true, 0, 1));
    b.push(raw(20, 5, &bb, true, 0, 1));
    b.push(raw(100, 10, &shared, false, 42, 1));
    b.push(raw(100, 20, &alias, false, 42, 1));
    b.finish()
}

fn tombstone_ratio(idx: &VolumeIndex) -> f64 {
    let (dead, all) = idx.tombstone_share();
    dead as f64 / all as f64
}

#[test]
fn compaction_preserves_distinct_paths_that_share_one_frn() {
    let idx = build_hardlink_sample();
    let object = Frn((1u64 << 48) | 0x64);
    let mut before: Vec<Vec<u8>> = idx
        .entries_by_frn(object)
        .into_iter()
        .map(|id| {
            let mut path = Vec::new();
            idx.append_path(id, &mut path).unwrap();
            path
        })
        .collect();
    before.sort();

    let compacted = idx.compacted();
    let mut after: Vec<Vec<u8>> = compacted
        .entries_by_frn(object)
        .into_iter()
        .map(|id| {
            let mut path = Vec::new();
            compacted.append_path(id, &mut path).unwrap();
            path
        })
        .collect();
    after.sort();

    assert_eq!(after, before);
    assert_eq!(
        after,
        [b"C:\\a\\shared.txt".to_vec(), b"C:\\b\\alias.txt".to_vec()]
    );
}

/// Garbage from renames + deletes, then compact: every live record
/// resolves identically, paths and names byte-match, sorted structures
/// hold without re-sorting, counters reset.
#[test]
fn compaction_drops_garbage_and_preserves_live_entries() {
    let mut idx = build_sample();
    // Rename storm on 100 (tombstone churn + pool garbage), one delete,
    // one in-place dir rename (pool garbage without a tombstone), one
    // ≥4GiB file (size-overflow remap), one cased name (orig pool).
    for i in 0..4u64 {
        let first_new = idx.len() as u32;
        let name = u16s(&format!("storm_{i}.TXT"));
        idx.upsert_synthetic(&raw(100, 50, &name, false, i, i as i64));
        idx.merge_new_into_permutations(first_new)
            .expect("fixture topology remains valid");
    }
    let first_new = idx.len() as u32;
    let huge = u16s("Huge.ISO");
    idx.upsert_synthetic(&raw(700, 50, &huge, false, (7u64 << 30) + 5, 9));
    idx.merge_new_into_permutations(first_new)
        .expect("fixture topology remains valid");
    idx.delete(60);
    let dir2 = u16s("docs_v2");
    idx.rename_dir_synthetic_in_place(50, &dir2, 5);
    idx.merge_new_into_permutations(idx.len() as u32)
        .expect("fixture topology remains valid");
    let live_before = idx.live_len();
    let expect: Vec<(u64, Vec<u8>, Vec<u8>, u64)> = [5u64, 50, 100, 700]
        .iter()
        .map(|&rec| {
            let id = idx.entry_by_record(rec).unwrap();
            let mut p = Vec::new();
            idx.append_path(id, &mut p).unwrap();
            (rec, idx.name(id).to_vec(), p, idx.size(id))
        })
        .collect();

    let c = idx.compacted();
    assert_eq!(c.len(), live_before);
    assert_eq!(c.live_len(), live_before);
    // After compaction tombstones == 0, so the ratio is exactly 0.0.
    {
        assert_eq!(tombstone_ratio(&c), 0.0);
    }
    assert_eq!(c.stats("C:").dead_name_bytes, 0);
    // Pools shrank: the storm's abandoned bytes are gone.
    assert!(c.stats("C:").lower_pool_bytes < idx.stats("C:").lower_pool_bytes);

    for (rec, name, path, size) in &expect {
        let id = c.entry_by_record(*rec).unwrap_or_else(|| {
            panic!("record {rec} lost in compaction");
        });
        assert_eq!(c.name(id), &name[..], "record {rec}");
        let mut p = Vec::new();
        c.append_path(id, &mut p).unwrap();
        assert_eq!(&p, path, "record {rec}");
        assert_eq!(c.size(id), *size, "record {rec}");
    }
    assert_eq!(c.entry_by_record(60), None, "deleted record stays gone");

    // perm_name is a strictly sorted complete permutation — without
    // having been re-sorted.
    let perm = c.name_permutation();
    assert_eq!(perm.len(), c.len());
    let mut seen: Vec<EntryId> = perm.to_vec();
    seen.sort_unstable();
    assert_eq!(seen, (0..c.len() as u32).collect::<Vec<_>>());
    for w in perm.windows(2) {
        assert!(c.order_by(SortKey::Name, w[0], w[1]) == Order::Less);
    }

    // Round-trips through a snapshot like any other index.
    let mut buf = Vec::new();
    buf.extend(c.write_snapshot(1, 2));
    let (loaded, _, _) = VolumeIndex::read_snapshot(&buf).unwrap();
    assert_eq!(loaded.len(), c.len());
}

/// Children of a tombstoned directory attach to the root (`push_raw`'s
/// orphan policy) instead of dangling.
#[test]
fn compaction_reattaches_orphans_of_dead_dirs() {
    let mut idx = build_sample();
    let note_before = idx.entry_by_record(100).unwrap();
    idx.update_attrs(50, true, false).unwrap();
    idx.merge_new_into_permutations(idx.len() as u32)
        .expect("fixture topology remains valid");
    assert!(idx.is_excluded(note_before));
    idx.delete(50); // "docs", parent of record 100
    idx.merge_new_into_permutations(idx.len() as u32)
        .expect("fixture topology remains valid");
    let c = idx.compacted();
    let note = c.entry_by_record(100).unwrap();
    assert_eq!(c.parent(note), VolumeIndex::ROOT);
    assert!(
        !c.is_excluded(note),
        "root reattachment clears dead-parent inheritance"
    );
    let mut p = Vec::new();
    c.append_path(note, &mut p).unwrap();
    assert_eq!(p, b"C:\\Note.TXT");
}

#[test]
fn compaction_policy_thresholds() {
    let mut idx = build_sample();
    assert!(
        !idx.compaction_due_past(1),
        "clean index must not trigger on garbage thresholds"
    );
    idx.delete(60);
    // 1 of 4 entries dead = 25% > 12.5%.
    assert!(idx.compaction_due_past(1));
    assert!(
        !idx.compaction_due(),
        "a tiny volume with only one cheap tombstone stays below the row-capacity floor"
    );
}

#[test]
fn small_volume_directory_rename_churn_stays_bounded() {
    let mut idx = build_sample();
    let live = idx.live_len();
    let mut compactions = 0;
    let mut max_pool_bytes = 0;

    // This volume never approaches 100k rows. Production's per-batch
    // policy still has to dedup abandoned directory names, or a long-lived
    // removable/small volume leaks forever.
    for i in 0..256 {
        let renamed = u16s(&format!("docs_{i:03}"));
        idx.rename_dir_synthetic_in_place(50, &renamed, 5).unwrap();
        idx.merge_new_into_permutations(idx.len() as u32)
            .expect("fixture topology remains valid");
        max_pool_bytes = max_pool_bytes.max(idx.stats("C:").lower_pool_bytes);
        if idx.compaction_due() {
            idx = idx.compacted();
            compactions += 1;
        }
    }

    assert!(compactions > 0, "small-volume dict churn must trigger");
    assert_eq!(idx.len(), live);
    assert_eq!(idx.live_len(), live);
    assert!(
        idx.dict_appends_since_dedup as usize <= idx.live_len() / 4,
        "the production trigger keeps post-dedup churn bounded"
    );
    assert!(
        max_pool_bytes < 1024,
        "the pool stayed bounded instead of growing with all 256 renames"
    );
}

#[test]
fn absolute_pool_garbage_bypasses_small_volume_row_floor() {
    let mut idx = build_sample();
    idx.dead_name_bytes = COMPACT_DEAD_NAME_BYTES + 1;
    assert!(idx.compaction_due());
}
