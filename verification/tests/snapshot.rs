//! Snapshots.

use fmf_core::index::builder::VolumeIndexBuilder;
use fmf_core::index::snapshot::SnapshotError;
use fmf_core::index::{Frn, RawEntry, VolumeIndex};

const SNAPSHOT_MAGIC: &[u8; 8] = b"FMFIDX07";

fn raw(
    record: u64,
    parent: u64,
    name: &[u16],
    is_dir: bool,
    size: u64,
    mtime: i64,
) -> RawEntry<'_> {
    RawEntry {
        parent_frn: Frn(parent),
        frn: Frn((1u64 << 48) | record),
        name_utf16: name,
        is_dir,
        is_reparse: false,
        is_hidden: false,
        is_system: false,
        size,
        mtime,
    }
}

fn u16s(s: &str) -> Vec<u16> {
    s.encode_utf16().collect()
}

/// `docs` comes after its child in scan order.
fn build_sample() -> VolumeIndex {
    let mut b = VolumeIndexBuilder::new_synthetic("C:", 5);
    let note = u16s("Note.TXT");
    let docs = u16s("docs");
    let big = u16s("big.bin");
    b.push(raw(100, 50, &note, false, 10, 300));
    b.push(raw(50, 5, &docs, true, 0, 100));
    b.push(raw(60, 5, &big, false, 99_999, 200));
    b.finish()
}

#[test]
fn snapshot_roundtrip_preserves_everything() {
    let mut idx = build_sample();
    idx.delete(60); // include a tombstone
    // A ≥4GiB file exercises the size-overflow sections.
    let first_new = idx.len() as u32;
    let huge = u16s("huge.iso");
    let huge_id = idx.upsert_synthetic(&raw(
        777,
        50,
        &huge,
        false,
        (5u64 << 30) + 123,
        1,
    ));
    idx.merge_new_into_permutations(first_new).unwrap();

    let mut buf = Vec::new();
    buf.extend(idx.write_snapshot(0xDEAD_BEEF_u64, 12345));
    let (loaded, journal_id, next_usn) =
        VolumeIndex::read_snapshot(&buf).unwrap();

    assert_eq!(journal_id, 0xDEAD_BEEF_u64);
    assert_eq!(next_usn, 12345);
    assert_eq!(loaded.len(), idx.len());
    assert_eq!(loaded.live_len(), idx.live_len());
    // Deleted record stays deleted; live lookups and paths survive.
    assert_eq!(loaded.entry_by_record(60), None);
    let note = loaded.entry_by_record(100).unwrap();
    let mut p = Vec::new();
    loaded.append_path(note, &mut p).unwrap();
    assert_eq!(p, b"C:\\docs\\Note.TXT");
    assert_eq!(loaded.name_permutation(), idx.name_permutation());
    assert_eq!(loaded.size(huge_id), (5u64 << 30) + 123);
}

#[test]
fn snapshot_size_overflow_inconsistencies_are_rejected() {
    // An overflow pair pointing at a non-sentinel slot.
    let mut sections = valid_sections();
    sections[7] = vec![0u8; 4]; // ovf id 0, but size_lo[0] != MAX
    sections[8] = 0x00FF_FFFF_FFFF_u64.to_le_bytes().to_vec();
    let err = read_crafted(sections);
    assert!(err.message().contains("sentinel mismatch"), "{err:?}");

    // A sentinel slot without its overflow pair.
    let mut sections = valid_sections();
    sections[6] = u32::MAX.to_le_bytes().to_vec();
    let err = read_crafted(sections);
    assert!(err.message().contains("sentinel mismatch"), "{err:?}");

    // Pair present but the stored size doesn't need the overflow.
    let mut sections = valid_sections();
    sections[6] = u32::MAX.to_le_bytes().to_vec();
    sections[7] = vec![0u8; 4];
    sections[8] = 42u64.to_le_bytes().to_vec();
    let err = read_crafted(sections);
    assert!(err.message().contains("pair invalid"), "{err:?}");

    // Mismatched ids/sizes section lengths.
    let mut sections = valid_sections();
    sections[6] = u32::MAX.to_le_bytes().to_vec();
    sections[7] = vec![0u8; 4];
    let err = read_crafted(sections);
    assert!(err.message().contains("length mismatch"), "{err:?}");
}

#[test]
fn snapshot_corruption_is_detected() {
    let idx = build_sample();
    let mut buf = Vec::new();
    buf.extend(idx.write_snapshot(1, 1));
    let mid = buf.len() / 2;
    buf[mid] ^= 0xFF;
    assert!(VolumeIndex::read_snapshot(&buf).is_err());

    let mut truncated = Vec::new();
    truncated.extend(idx.write_snapshot(1, 1));
    truncated.truncate(truncated.len() - 3);
    assert!(VolumeIndex::read_snapshot(&truncated).is_err());
}

/// Checksum-valid stream built from raw section bytes, so structural
/// validation (not the digest) is what must reject it.
fn craft_stream(count: u64, sections: &[&[u8]]) -> Vec<u8> {
    let mut h = xxhash_rust::xxh64::Xxh64::new(0);
    let mut buf = Vec::new();
    buf.extend_from_slice(SNAPSHOT_MAGIC);
    buf.extend_from_slice(&1u64.to_le_bytes());
    buf.extend_from_slice(&2i64.to_le_bytes());
    buf.extend_from_slice(&count.to_le_bytes());
    h.update(&buf);
    for s in sections {
        let start = buf.len();
        buf.extend_from_slice(&(s.len() as u64).to_le_bytes());
        buf.extend_from_slice(s);
        h.update(&buf[start..]);
    }
    let digest = h.digest().to_le_bytes();
    buf.extend_from_slice(&digest);
    buf
}

/// Section byte sizes for a structurally valid count=1 snapshot, in read
/// order (ADR-0033 / FMFIDX07): `dict_pool`, `dict_off`, `name_id`,
/// `orig_pool` (empty), `orig_off` (sentinel), parent, `size_lo`,
/// size-overflow ids/sizes (empty), mtime, frn, flag, `perm_name`.
fn valid_sections() -> Vec<Vec<u8>> {
    vec![
        b"a".to_vec(),                   // dict_pool (one distinct name "a", len 1)
        0u32.to_le_bytes().to_vec(),     // dict_off [0] (gapless; len = pool end − 0)
        0u32.to_le_bytes().to_vec(),     // name_id [0] (entry 0 → name 0)
        Vec::new(),                      // orig_pool (fold-identical)
        u32::MAX.to_le_bytes().to_vec(), // orig_off (sentinel)
        vec![0u8; 4],                    // parent
        vec![0u8; 4],                    // size_lo (1 × u32)
        Vec::new(),                      // size overflow ids (none)
        Vec::new(),                      // size overflow sizes (none)
        vec![0u8; 4],                    // mtime (1 × u32)
        vec![0u8; 8],                    // frn
        vec![0u8; 1],                    // flag
        vec![0u8; 4],                    // perm_name
    ]
}

/// `unwrap_err` needs `Debug` on the Ok side; `VolumeIndex` has none.
fn expect_load_err(buf: &[u8]) -> SnapshotError {
    match VolumeIndex::read_snapshot(buf) {
        Ok(_) => panic!("corrupted snapshot must not load"),
        Err(e) => e,
    }
}

fn read_crafted(sections: Vec<Vec<u8>>) -> SnapshotError {
    let refs: Vec<&[u8]> = sections.iter().map(Vec::as_slice).collect();
    expect_load_err(&craft_stream(1, &refs))
}

#[test]
fn snapshot_wrong_magic_is_rejected() {
    let idx = build_sample();
    let mut buf = Vec::new();
    buf.extend(idx.write_snapshot(1, 1));
    buf[..8].copy_from_slice(b"FMFIDX01"); // previous format version
    let err = expect_load_err(&buf);
    assert!(err.message().contains("magic"), "{err:?}");
}

#[test]
fn snapshot_crafted_stream_sanity_loads() {
    // Control: the crafted-stream helper itself round-trips, so the
    // corruption tests below fail for the corruption, not the harness.
    let refs: Vec<Vec<u8>> = valid_sections();
    let refs: Vec<&[u8]> = refs.iter().map(Vec::as_slice).collect();
    let buf = craft_stream(1, &refs);
    let (idx, journal_id, next_usn) = VolumeIndex::read_snapshot(&buf).unwrap();
    assert_eq!((journal_id, next_usn), (1, 2));
    assert_eq!(idx.len(), 1);
}

#[test]
fn snapshot_column_count_mismatch_is_rejected_not_panic() {
    // name_id carries 2 entries while the header says count=1.
    let mut sections = valid_sections();
    sections[2] = vec![0u8; 8];
    let err = read_crafted(sections);
    assert!(err.message().contains("column length"), "{err:?}");
}

#[test]
fn snapshot_misaligned_section_is_rejected_not_panic() {
    // 7 bytes cannot be a u32 column.
    let mut sections = valid_sections();
    sections[2] = vec![0u8; 7];
    let err = read_crafted(sections);
    assert!(err.message().contains("section size"), "{err:?}");
}

#[test]
fn snapshot_out_of_bounds_name_slices_are_rejected() {
    // A dict offset past the (1-byte) dict pool — the gapless validator
    // rejects it before any slice (ADR-0033).
    let mut sections = valid_sections();
    sections[1] = 5u32.to_le_bytes().to_vec();
    let err = read_crafted(sections);
    assert!(err.message().contains("out of pool bounds"), "{err:?}");

    // A non-sentinel orig_off pointing past the (empty) orig pool.
    let mut sections = valid_sections();
    sections[4] = 0u32.to_le_bytes().to_vec();
    let err = read_crafted(sections);
    assert!(err.message().contains("out of pool bounds"), "{err:?}");

    // Control: a real orig byte at offset 0 loads fine and reads back.
    let mut sections = valid_sections();
    sections[3] = b"A".to_vec();
    sections[4] = 0u32.to_le_bytes().to_vec();
    let refs: Vec<&[u8]> = sections.iter().map(Vec::as_slice).collect();
    let buf = craft_stream(1, &refs);
    let (idx, _, _) = VolumeIndex::read_snapshot(&buf).unwrap();
    assert_eq!(idx.name(0), b"A");
    assert_eq!(idx.lower_name(0), b"a");
}

#[test]
fn snapshot_lying_length_prefix_errors_without_huge_allocation() {
    // A corrupt section length (here 2^60) must come back as Err, not
    // allocate the claimed size and abort the process.
    let idx = build_sample();
    let mut buf = Vec::new();
    buf.extend(idx.write_snapshot(1, 1));
    buf[32..40].copy_from_slice(&(1u64 << 60).to_le_bytes());
    assert!(VolumeIndex::read_snapshot(&buf).is_err());
}

#[test]
fn truncated_snapshot_errors_at_every_cut_point() {
    let mut idx = build_sample();
    idx.delete(60); // include a tombstone for variety
    let mut buf = Vec::new();
    buf.extend(idx.write_snapshot(1, 1));
    assert!(VolumeIndex::read_snapshot(&buf).is_ok());
    for cut in 0..buf.len() {
        assert!(
            VolumeIndex::read_snapshot(&buf[..cut]).is_err(),
            "cut at {cut} must error, not panic or succeed"
        );
    }
}

struct Ent {
    name: String,
    is_dir: bool,
    size: u64,
    mtime: i64,
}

/// Build an index whose records are `10, 11, …`, all under the root.
fn build(entries: &[Ent]) -> VolumeIndex {
    let mut b = VolumeIndexBuilder::new_synthetic("C:", 5);
    for (i, e) in entries.iter().enumerate() {
        let units: Vec<u16> = e.name.encode_utf16().collect();
        let record = i as u64 + 10;
        b.push(RawEntry {
            parent_frn: Frn(5),
            frn: Frn((1u64 << 48) | record),
            name_utf16: &units,
            is_dir: e.is_dir,
            is_reparse: false,
            is_hidden: false,
            is_system: false,
            size: e.size,
            mtime: e.mtime,
        });
    }
    b.finish()
}

/// Concrete vacuity companion: a ≥ 4 GiB size really does survive the
/// `size_ovf` side-map path (so the property above is not green merely
/// because every generated size stayed in the u32 column).
#[test]
fn overflow_size_survives_the_round_trip() {
    let idx = build(&[Ent {
        name: "huge.iso".into(),
        is_dir: false,
        size: (7u64 << 30) + 123,
        mtime: 0,
    }]);
    let mut buf = Vec::new();
    buf.extend(idx.write_snapshot(1, 2));
    let (loaded, _, _) = VolumeIndex::read_snapshot(&buf).unwrap();
    let id = loaded.entry_by_record(10).unwrap();
    assert_eq!(loaded.size(id), (7u64 << 30) + 123);
}
