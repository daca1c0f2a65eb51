//! Lookup by record number and reference.

use fmf_core::index::builder::VolumeIndexBuilder;
use fmf_core::index::{EntryId, Frn, RawEntry, VolumeIndex};

type RecordNo = u64;

fn raw(
    record: u64,
    parent: u64,
    name: &[u16],
    is_dir: bool,
    size: u64,
    mtime: i64,
) -> RawEntry<'_> {
    RawEntry {
        parent_frn: Frn((1u64 << 48) | parent),
        frn: Frn((1u64 << 48) | record),
        name_utf16: name,
        is_dir,
        is_reparse: false,
        is_hidden: false,
        is_system: false,
        size,
        mtime,
    }
}

fn u16s(s: &str) -> Vec<u16> {
    s.encode_utf16().collect()
}

/// `docs` comes after its child in scan order.
fn build_sample() -> VolumeIndex {
    let mut b = VolumeIndexBuilder::new_synthetic("C:", 5);
    let note = u16s("Note.TXT");
    let docs = u16s("docs");
    let big = u16s("big.bin");
    b.push(raw(100, 50, &note, false, 10, 300));
    b.push(raw(50, 5, &docs, true, 0, 100));
    b.push(raw(60, 5, &big, false, 99_999, 200));
    b.finish()
}

/// One object with a link in each of two directories.
fn build_hardlink_sample() -> VolumeIndex {
    let mut b = VolumeIndexBuilder::new_synthetic("C:", 5);
    let (a, bb) = (u16s("a"), u16s("b"));
    let (shared, alias) = (u16s("shared.txt"), u16s("alias.txt"));
    b.push(raw(10, 5, &a, true, 0, 1));
    b.push(raw(20, 5, &bb, true, 0, 1));
    b.push(raw(100, 10, &shared, false, 42, 1));
    b.push(raw(100, 20, &alias, false, 42, 1));
    b.finish()
}

/// A plain merge of everything, forwards: equal keys take the
/// old pair first.
fn forward_merge_reference(
    keys: &mut Vec<RecordNo>,
    ids: &mut Vec<EntryId>,
    batch: &[(RecordNo, EntryId)],
) {
    let mut nk = Vec::with_capacity(keys.len() + batch.len());
    let mut ni = Vec::with_capacity(ids.len() + batch.len());
    let (mut i, mut j) = (0, 0);
    while i < keys.len() && j < batch.len() {
        if keys[i] <= batch[j].0 {
            nk.push(keys[i]);
            ni.push(ids[i]);
            i += 1;
        } else {
            nk.push(batch[j].0);
            ni.push(batch[j].1);
            j += 1;
        }
    }
    nk.extend_from_slice(&keys[i..]);
    ni.extend_from_slice(&ids[i..]);
    for &(k, id) in &batch[j..] {
        nk.push(k);
        ni.push(id);
    }
    *keys = nk;
    *ids = ni;
}

/// Random rename/delete storms: the in-place merge must produce the
/// byte-identical id array the forward reference does, batch after
/// batch (record keys are never mutated in place, so both orders stay
/// truly sorted and the sorted stable merge is unique). The reference
/// carries explicit key/id pairs — the production array dropped the
/// key copy and reads keys through the id indirection, so the derived
/// key sequence is asserted too.
#[test]
fn in_place_merge_is_byte_identical_to_the_forward_reference() {
    let mut idx = build_sample();
    let mut ref_ids = idx.frn_index.ids.clone();
    let mut ref_keys: Vec<RecordNo> = ref_ids.iter().map(|&id| idx.frn(id).record().0).collect();
    let mut state = 0x1234_5678_9ABC_DEF0u64;
    let mut rng = move || {
        state ^= state << 13;
        state ^= state >> 7;
        state ^= state << 17;
        state
    };

    for _ in 0..100 {
        let first_new = idx.len() as u32;
        for _ in 0..=(rng() % 8) {
            let record = 100 + rng() % 40;
            if rng() % 3 < 2 {
                let name = u16s(&format!("f{}.txt", rng() % 1000));
                idx.upsert_synthetic(&raw(record, 50, &name, false, 1, 1));
            } else {
                idx.delete(record);
            }
        }
        // Mirror merge_appended's batch input exactly (live tail only).
        let mut batch: Vec<(RecordNo, EntryId)> = (first_new..idx.len() as u32)
            .filter(|&id| idx.is_live(id))
            .map(|id| (idx.frn(id).record().0, id))
            .collect();
        batch.sort_unstable();
        forward_merge_reference(&mut ref_keys, &mut ref_ids, &batch);

        idx.merge_new_into_permutations(first_new)
            .expect("fixture topology remains valid");
        assert_eq!(idx.frn_index.ids, ref_ids);
        let derived_keys: Vec<RecordNo> = idx
            .frn_index
            .ids
            .iter()
            .map(|&id| idx.frn(id).record().0)
            .collect();
        assert_eq!(derived_keys, ref_keys);
    }
}

/// The latest upsert of a record must win — found via the unmerged
/// tail during the batch and via the sorted arrays after the merge,
/// with identical results.
#[test]
fn rename_storm_resolves_to_the_latest_before_and_after_merge() {
    let mut idx = build_sample();
    let live_before = idx.live_len();
    let first_new = idx.len() as u32;
    let mut last = None;
    for i in 0..5u64 {
        let name = u16s(&format!("storm_{i}.txt"));
        last = Some(idx.upsert_synthetic(&raw(100, 50, &name, false, 1, i as i64)));
    }
    let tail_hit = idx.entry_by_record(100).unwrap();
    assert_eq!(Some(tail_hit), last, "tail scan must see the newest");
    assert_eq!(idx.name(tail_hit), b"storm_4.txt");

    idx.merge_new_into_permutations(first_new)
        .expect("fixture topology remains valid");
    assert_eq!(idx.entry_by_record(100), last, "sorted lookup agrees");
    assert_eq!(idx.live_len(), live_before, "storm nets zero live change");
}

/// NTFS reuses record numbers: a delete followed by a create of the
/// same record must resolve to the new entry, never the tombstone.
#[test]
fn record_reuse_after_delete_resolves_to_the_new_entry() {
    let mut idx = build_sample();
    idx.delete(60).unwrap();
    idx.merge_new_into_permutations(idx.len() as u32)
        .expect("fixture topology remains valid");
    assert_eq!(idx.entry_by_record(60), None, "deleted record misses");

    let first_new = idx.len() as u32;
    let name = u16s("reborn.txt");
    let id = idx.upsert_synthetic(&raw(60, 50, &name, false, 7, 7));
    assert_eq!(idx.entry_by_record(60), Some(id), "tail finds the rebirth");
    idx.merge_new_into_permutations(first_new)
        .expect("fixture topology remains valid");
    assert_eq!(idx.entry_by_record(60), Some(id), "merge keeps it");
    assert_eq!(idx.name(id), b"reborn.txt");
}

/// An entry created and deleted within one batch never surfaces, and
/// the merge does not resurrect it.
#[test]
fn create_then_delete_within_a_batch_stays_gone() {
    let mut idx = build_sample();
    let first_new = idx.len() as u32;
    let name = u16s("flash.tmp");
    idx.upsert_synthetic(&raw(777, 50, &name, false, 1, 1));
    assert!(idx.entry_by_record(777).is_some());
    idx.delete(777).unwrap();
    assert_eq!(idx.entry_by_record(777), None, "gone in the tail");
    idx.merge_new_into_permutations(first_new)
        .expect("fixture topology remains valid");
    assert_eq!(idx.entry_by_record(777), None, "gone after the merge");
}

#[test]
fn duplicate_frn_range_preserves_every_hard_link_before_and_after_merge() {
    let mut idx = build_hardlink_sample();
    let object = Frn((1u64 << 48) | 0x64);
    let mut names: Vec<_> = idx
        .entries_by_frn(object)
        .into_iter()
        .map(|id| idx.name(id).to_vec())
        .collect();
    names.sort();
    assert_eq!(names, [b"alias.txt".to_vec(), b"shared.txt".to_vec()]);

    let third = u16s("third.txt");
    let entry = raw(100, 10, &third, false, 42, 3);
    let first_new = idx.len() as u32;
    idx.upsert_link_usn(&entry)
        .expect("fixture parent is exact");
    assert_eq!(
        idx.entries_by_frn(object).len(),
        3,
        "the unmerged tail participates in the same FRN range"
    );

    idx.merge_new_into_permutations(first_new)
        .expect("fixture topology remains valid");
    let mut names: Vec<_> = idx
        .entries_by_frn(object)
        .into_iter()
        .map(|id| idx.name(id).to_vec())
        .collect();
    names.sort();
    assert_eq!(
        names,
        [
            b"alias.txt".to_vec(),
            b"shared.txt".to_vec(),
            b"third.txt".to_vec()
        ]
    );
}
