//! Queries over several volumes, and the pages of their results.

use fmf_core::engine::results::{FmfRow, FMF_ROW_LEN};
use fmf_core::engine::search::{
    check_query_length, conclude, may_refine, merge_hits, validate_merge_index, SearchMetrics,
    SearchedAt, SortOrder, VolumeHits,
};
use fmf_core::engine::volume::{
    drive_labels, is_fixed_ntfs, is_valid_volume_label, labels_to_add, snapshot_path, status,
    validate_index_start_volumes, IndexStartError, JournalCheckpoint, VolumeSlot,
};
use fmf_core::engine::{
    ContractLimits, EngineCreateError, EngineError, EngineEvent, EventKind, QueryCancellation,
    ResultSet, Row, VolumeState,
};
use fmf_core::index::builder::VolumeIndexBuilder;
use fmf_core::index::{EntryId, Frn, PathBuildError, RawEntry, SortKey, VolumeIndex};
use fmf_core::metrics::{Counters, QueryTrace};

const LIMITS: ContractLimits = ContractLimits {
    max_query_bytes: 4096,
    max_page_rows: 1000,
    max_payload_len: 1 << 20,
};

fn vol(label: &str, names: &[(&str, u64)]) -> VolumeIndex {
    let mut b = VolumeIndexBuilder::new_synthetic(label, 5);
    for (i, (name, size)) in names.iter().enumerate() {
        let units: Vec<u16> = name.encode_utf16().collect();
        b.push(RawEntry {
            parent_frn: Frn(5),
            frn: Frn((1 << 48) | (100 + i as u64)),
            name_utf16: &units,
            is_dir: false,
            is_reparse: false,
            is_hidden: false,
            is_system: false,
            size: *size,
            mtime: i as i64,
        });
    }
    b.finish()
}

/// Volumes that are searched by a part of the folded name.
struct Volumes {
    slots: Vec<VolumeSlot>,
    queries: Vec<String>,
}

const NO_COST: SearchMetrics = SearchMetrics {
    memo_us: 1,
    scan_us: 2,
    materialize_us: 3,
    entries_scanned: 4,
    excluded_skipped: 5,
};

impl Volumes {
    fn new() -> Self {
        Volumes { slots: Vec::new(), queries: Vec::new() }
    }

    fn insert_ready_volume(&mut self, label: &str, idx: VolumeIndex) {
        self.slots.push(VolumeSlot::ready(label.to_string(), idx));
        self.queries.push(String::new());
    }

    fn replace_ready_volume(&mut self, label: &str, idx: VolumeIndex) {
        self.slots.iter_mut().find(|s| s.label == label).unwrap().replace_ready(idx);
    }

    fn indexes(&self) -> Vec<Option<&VolumeIndex>> {
        self.slots.iter().map(|s| s.index.as_ref()).collect()
    }

    fn hits(&mut self, text: &str, opt: SortOrder) -> Vec<VolumeHits> {
        let mut all = Vec::new();
        for (at, slot) in self.slots.iter_mut().enumerate() {
            let idx = slot.index.as_ref().unwrap();
            let mut ids: Vec<EntryId> = idx.permutation(opt.sort);
            if opt.desc {
                ids.reverse();
            }
            ids.retain(|&id| {
                id != VolumeIndex::ROOT
                    && idx.is_live(id)
                    && text.split(' ').all(|part| {
                        String::from_utf8_lossy(idx.lower_name(id)).contains(part)
                    })
            });
            let narrows = text.starts_with(self.queries[at].as_str());
            let refined = may_refine(true, slot.searched, narrows, idx);
            slot.searched = Some(SearchedAt {
                content: idx.content_generation(),
                structural: idx.structural_generation(),
            });
            self.queries[at] = text.to_string();
            all.push(VolumeHits {
                slot: 1 + at as u64,
                structural: idx.structural_generation(),
                ids,
                refined,
                metrics: NO_COST,
            });
        }
        all
    }

    fn query_with(
        &mut self,
        text: &str,
        opt: SortOrder,
        cancellation: Option<&QueryCancellation>,
        basis: Option<&ResultSet>,
    ) -> Result<(ResultSet, QueryTrace), EngineError> {
        check_query_length(text, &LIMITS)?;
        let hits = self.hits(text, opt);
        let indexes = self.indexes();
        let basis = basis.map(|b| (b, indexes.as_slice()));
        let trace = QueryTrace { query: text.to_string(), ..Default::default() };
        conclude(&hits, &indexes, opt, cancellation, basis, trace)
    }

    fn query(&mut self, text: &str, opt: SortOrder) -> Result<(ResultSet, QueryTrace), EngineError> {
        self.query_with(text, opt, None, None)
    }

    fn page(&self, r: &ResultSet, offset: usize, count: usize) -> Result<Vec<Row>, EngineError> {
        r.page(&self.indexes(), offset, count)
    }

    fn fill_page(
        &self,
        r: &ResultSet,
        offset: usize,
        count: usize,
    ) -> Result<(Vec<FmfRow>, Vec<u8>), EngineError> {
        r.fill_page(&self.indexes(), offset, count, &LIMITS)
    }
}

fn by_name() -> SortOrder {
    SortOrder { sort: SortKey::Name, desc: false }
}

fn two_volumes() -> Volumes {
    let mut e = Volumes::new();
    e.insert_ready_volume("C:", vol("C:", &[("alpha.txt", 10), ("gamma.txt", 30)]));
    e.insert_ready_volume("D:", vol("D:", &[("beta.txt", 20), ("delta.txt", 40)]));
    e
}

fn names(rows: &[Row]) -> Vec<String> {
    rows.iter().map(|r| String::from_utf8_lossy(&r.name).into_owned()).collect()
}

fn check_merge_in_name_order() {
    let mut e = two_volumes();
    let r = e.query("txt", by_name()).unwrap().0;
    let rows = e.page(&r, 0, 10).unwrap();
    assert_eq!(names(&rows), vec!["alpha.txt", "beta.txt", "delta.txt", "gamma.txt"]);
    // entry_ref carries the volume ordinal in the high half.
    assert_eq!(rows[0].entry_ref >> 32, 0);
    assert_eq!(rows[1].entry_ref >> 32, 1);
}

#[test]
fn engine_query_merges_volumes_in_name_order() {
    check_merge_in_name_order();
}

#[test]
fn tests_query_merges_volumes_in_name_order() {
    check_merge_in_name_order();
}

#[test]
fn query_rejects_utf8_over_the_explicit_work_budget() {
    let query = "あ".repeat(LIMITS.max_query_bytes as usize / "あ".len() + 1);
    assert!(matches!(
        check_query_length(&query, &LIMITS),
        Err(EngineError::QueryTooLong { actual, maximum })
            if actual == query.len() && maximum == LIMITS.max_query_bytes
    ));
    let longest = "a".repeat(LIMITS.max_query_bytes as usize);
    assert!(check_query_length(&longest, &LIMITS).is_ok());
}

#[test]
fn fill_page_rejects_before_crossing_the_encoded_payload_budget() {
    let mut e = two_volumes();
    let result = e.query("alpha", by_name()).unwrap().0;
    let (rows, blob) = e.fill_page(&result, 0, 1).unwrap();
    let encoded_len = 8 + rows.len() * FMF_ROW_LEN + blob.len();

    assert!(matches!(
        result.fill_page_with_limit(&e.indexes(), 0, 1, 1000, encoded_len - 1),
        Err(EngineError::PageEncoding("encoded page exceeds the maximum payload length"))
    ));
    assert!(result.fill_page_with_limit(&e.indexes(), 0, 1, 1000, encoded_len).is_ok());
}

#[test]
fn fill_page_preserves_a_valid_parent_path_longer_than_u16() {
    let mut builder = VolumeIndexBuilder::new_synthetic("C:", 5);
    let component = vec![b'x' as u16; 255];
    let mut parent = 5;
    for record in 10..270 {
        builder.push(RawEntry {
            parent_frn: Frn(parent),
            frn: Frn((1 << 48) | record),
            name_utf16: &component,
            is_dir: true,
            is_reparse: false,
            is_hidden: false,
            is_system: false,
            size: 0,
            mtime: 0,
        });
        parent = record;
    }
    let leaf = "leaf.txt".encode_utf16().collect::<Vec<_>>();
    builder.push(RawEntry {
        parent_frn: Frn(parent),
        frn: Frn((1 << 48) | 0x03E8),
        name_utf16: &leaf,
        is_dir: false,
        is_reparse: false,
        is_hidden: false,
        is_system: false,
        size: 1,
        mtime: 0,
    });

    let mut e = Volumes::new();
    e.insert_ready_volume("C:", builder.finish());
    let result = e.query("leaf", by_name()).unwrap().0;
    let (rows, blob) = e.fill_page(&result, 0, 1).unwrap();
    let row = rows[0];

    assert!(row.parent_path_len > u16::MAX as u32);
    let start = row.parent_path_off as usize;
    let end = start + row.parent_path_len as usize;
    assert_eq!(end, blob.len());
    assert!(blob[start..end].starts_with(b"C:\\"));
}

#[test]
fn index_start_skips_an_already_indexed_volume() {
    let present = ["C:".to_string()];
    assert!(labels_to_add(&["C:".to_string()], &present).is_empty());
    assert_eq!(
        labels_to_add(&["C:".to_string(), "D:".to_string(), "D:".to_string()], &present),
        vec![1]
    );
}

#[test]
fn volume_label_validation_is_exactly_letter_colon() {
    for good in ["C:", "c:", "D:", "z:", "A:"] {
        assert!(is_valid_volume_label(good), "{good:?} should be valid");
    }
    for bad in [
        "",                  // empty
        "C",                 // missing colon
        ":",                 // missing letter
        "1:",                // not a letter
        "CC:",               // two letters
        "C:\\",              // trailing separator
        "C:\\x",             // path under the volume
        "..\\evil",          // traversal
        "C:..\\..\\windows", // colon present but escapes
        "\\\\?\\C:",         // device path prefix
    ] {
        assert!(!is_valid_volume_label(bad), "{bad:?} should be rejected");
    }
}

#[test]
fn index_start_rejects_malformed_volume_labels() {
    let error = validate_index_start_volumes(
        &[
            "..\\evil".to_string(),
            "C:\\windows".to_string(),
            "C".to_string(),
            String::new(),
            "CC:".to_string(),
            "1:".to_string(),
        ],
        &["C:".to_string()],
    )
    .expect_err("malformed request must be rejected synchronously");
    assert_eq!(error, IndexStartError::MalformedLabel { position: 0 });
}

#[test]
fn index_start_validation_is_canonical_unique_and_fixed_ntfs_only() {
    let available = ["C:".to_string(), "D:".to_string()];
    assert_eq!(
        validate_index_start_volumes(&["c:".to_string(), "D:".to_string()], &available),
        Ok(vec!["C:".to_string(), "D:".to_string()])
    );
    assert_eq!(
        validate_index_start_volumes(&["C:".to_string(), "c:".to_string()], &available),
        Err(IndexStartError::DuplicateLabel { label: "C:".to_string() })
    );
    assert_eq!(
        validate_index_start_volumes(&["E:".to_string()], &available),
        Err(IndexStartError::UnavailableVolume { label: "E:".to_string() })
    );
}

fn check_paging() {
    let mut e = two_volumes();
    let r = e.query("txt", SortOrder { sort: SortKey::Size, desc: true }).unwrap().0;
    assert_eq!(r.len(), 4);
    assert!(!r.is_empty());
    let page = e.page(&r, 1, 2).unwrap();
    let sizes: Vec<u64> = page.iter().map(|r| r.size).collect();
    assert_eq!(sizes, vec![30, 20]);
    // Out-of-range page is empty, not an error.
    assert!(e.page(&r, 99, 5).unwrap().is_empty());
    assert_eq!(e.page(&r, 3, usize::MAX).unwrap().len(), 1);
}

#[test]
fn engine_paging_is_a_slice_and_size_sort_descends() {
    check_paging();
}

#[test]
fn tests_paging_is_a_slice_and_size_sort_descends() {
    check_paging();
}

fn check_parent_paths() {
    let mut e = two_volumes();
    let r = e.query("beta", by_name()).unwrap().0;
    let rows = e.page(&r, 0, 1).unwrap();
    assert_eq!(rows[0].parent_path, b"D:\\");
}

#[test]
fn engine_parent_paths_come_back_per_volume() {
    check_parent_paths();
}

#[test]
fn tests_parent_paths_come_back_per_volume() {
    check_parent_paths();
}

#[test]
fn rebuilt_volume_hard_stales_open_results() {
    let mut e = two_volumes();
    let r = e.query("txt", by_name()).unwrap().0;
    assert_eq!(e.page(&r, 0, 10).unwrap().len(), 4);

    e.replace_ready_volume("C:", vol("C:", &[("omega.txt", 1), ("zeta.txt", 2)]));

    assert!(matches!(e.page(&r, 0, 10), Err(EngineError::Stale)));
    assert!(matches!(e.fill_page(&r, 0, 10), Err(EngineError::Stale)));
    assert!(!r.is_current(&e.indexes()));
}

#[test]
fn typing_refines_cached_results_and_invalidation_goes_cold() {
    let mut e = two_volumes();
    let opt = by_name();

    let (_, t1) = e.query("a", opt).unwrap();
    assert_eq!(t1.cache, "miss");
    let (r2, t2) = e.query("al", opt).unwrap();
    assert_eq!(t2.cache, "refine");
    assert_eq!(names(&e.page(&r2, 0, 10).unwrap()), vec!["alpha.txt"]);

    // Widening goes cold but stays correct.
    let (r3, t3) = e.query("a", opt).unwrap();
    assert_eq!(t3.cache, "miss");
    assert_eq!(r3.len(), 4);

    // Structural replacement invalidates the cache (and clears it).
    e.replace_ready_volume("C:", vol("C:", &[("omega.txt", 1)]));
    let (_, t4) = e.query("a t", opt).unwrap();
    assert_eq!(t4.cache, "partial", "D: refines, rebuilt C: goes cold");
    let (_, t5) = e.query("a tx", opt).unwrap();
    assert_eq!(t5.cache, "refine");
}

#[test]
fn idle_requery_of_identical_results_reports_unchanged() {
    let mut e = two_volumes();
    let opt = by_name();
    let (basis, t1) = e.query("txt", opt).unwrap();
    assert!(!t1.unchanged, "first run has no previous result");

    // A no-op batch: the generation bumps, ids stay identical.
    for slot in &mut e.slots {
        let idx = slot.index.as_mut().unwrap();
        let n = idx.len() as u32;
        idx.merge_new_into_permutations(n).unwrap();
    }
    let cancellation = QueryCancellation::new();
    let (same, t2) = e.query_with("txt", opt, Some(&cancellation), Some(&basis)).unwrap();
    assert!(t2.unchanged, "same query, same ids");
    assert_eq!(t2.cache, "miss", "the generation moved, so the cache was cold");

    // A real change to the result set flips it off.
    let units: Vec<u16> = "epsilon.txt".encode_utf16().collect();
    let idx = e.slots[0].index.as_mut().unwrap();
    let first_new = idx.len() as u32;
    idx.upsert_synthetic(&RawEntry {
        parent_frn: Frn(5),
        frn: Frn((1 << 48) | 0x3E7),
        name_utf16: &units,
        is_dir: false,
        is_reparse: false,
        is_hidden: false,
        is_system: false,
        size: 5,
        mtime: 5,
    });
    idx.merge_new_into_permutations(first_new).unwrap();
    let (r3, t3) = e.query_with("txt", opt, Some(&cancellation), Some(&same)).unwrap();
    assert!(!t3.unchanged, "a new hit must repaint");
    assert_eq!(r3.len(), 5);

    // Query text is irrelevant to presentation identity.
    let (_, t4) = e.query_with("tx", opt, Some(&cancellation), Some(&r3)).unwrap();
    assert!(t4.unchanged);
    let (_, t5) = e.query("tx", opt).unwrap();
    assert!(!t5.unchanged, "no explicit basis means no identity claim");
}

#[test]
fn cancelled_query_publishes_no_refine_cache_or_served_metric() {
    let mut e = two_volumes();
    let cancellation = QueryCancellation::new();
    assert!(cancellation.check().is_ok());
    cancellation.cancel();
    assert!(matches!(cancellation.check(), Err(EngineError::Cancelled)));
    assert!(matches!(
        e.query_with("al", by_name(), Some(&cancellation), None),
        Err(EngineError::Cancelled)
    ));
}

#[test]
fn flush_saves_dirty_volumes_and_skips_clean_ones() {
    let checkpoint = JournalCheckpoint { journal_id: 0, next_usn: 0 };
    let mut slot = VolumeSlot::ready("C:".to_string(), vol("C:", &[("alpha.txt", 10)]));
    // The first flush writes the snapshot, an unchanged volume is skipped.
    assert_eq!(slot.flush_due(), Some(checkpoint));
    let idx = slot.index.as_ref().unwrap();
    let (content, structural) = (idx.content_generation(), idx.structural_generation());
    let mut counters = Counters::default();
    slot.save_finished(content, structural, true, &mut counters);
    assert_eq!(slot.flush_due(), None);
    assert_eq!(counters, Counters::default());
    // A structural replacement is dirty.
    slot.replace_ready(vol("C:", &[("alpha.txt", 10), ("beta.txt", 20)]));
    assert_eq!(slot.index.as_ref().unwrap().structural_generation(), 1);
    assert_eq!(slot.flush_due(), Some(checkpoint));
    // A write that failed is counted, and the volume stays to be written.
    slot.save_finished(content, 1, false, &mut counters);
    assert_eq!(slot.flush_due(), Some(checkpoint));
    assert_eq!(counters.snapshot_save_failures, 1);
    // Neither a volume that is rescanned nor one without a position is written.
    slot.phase = VolumeState::Rescanning;
    assert_eq!(slot.flush_due(), None);
    slot.phase = VolumeState::Ready;
    slot.checkpoint = None;
    assert_eq!(slot.flush_due(), None);
}

#[test]
fn a_first_index_keeps_its_generation() {
    let mut slot = VolumeSlot::scanning("D:".to_string());
    assert_eq!(slot.flush_due(), None);
    slot.install_index(vol("D:", &[("alpha.txt", 10)]));
    assert_eq!(slot.index.as_ref().unwrap().structural_generation(), 0);
    slot.install_index(vol("D:", &[]));
    assert_eq!(slot.index.as_ref().unwrap().structural_generation(), 1);
    assert_eq!(slot.scanned, 0);
}

fn check_status() {
    let e = two_volumes();
    let st = status(&e.slots);
    assert_eq!(st.len(), 2);
    assert!(st.iter().all(|(_, p, n)| *p == VolumeState::Ready && *n > 0));
}

#[test]
fn engine_status_reports_ready_volumes() {
    check_status();
}

#[test]
fn tests_status_reports_ready_volumes() {
    check_status();
}

#[test]
fn ready_volumes_with_an_index_answer() {
    let mut slot = VolumeSlot::scanning("D:".to_string());
    assert!(!slot.answers());
    slot.phase = VolumeState::Ready;
    assert!(!slot.answers());
    slot.index = Some(vol("D:", &[]));
    assert!(slot.answers());
    slot.phase = VolumeState::Rescanning;
    assert!(!slot.answers());
}

#[test]
fn status_tells_every_volume() {
    let slots = [
        VolumeSlot::ready("C:".to_string(), vol("C:", &[("alpha.txt", 10)])),
        VolumeSlot::scanning("D:".to_string()),
    ];
    assert_eq!(
        status(&slots),
        vec![
            ("C:".to_string(), VolumeState::Ready, 2),
            ("D:".to_string(), VolumeState::Scanning, 0),
        ]
    );
}

#[test]
fn merge_rejects_a_rebuilt_index_before_dereferencing_old_ids() {
    let old = vol("C:", &[("old.txt", 1)]);
    let captured_structural = old.structural_generation();
    let old_id = old.len() as EntryId - 1;

    let mut replacement = VolumeIndexBuilder::new_synthetic("C:", 5).finish();
    replacement.bump_structural_from(captured_structural);
    assert!(
        old_id as usize >= replacement.len(),
        "the captured id would index past this replacement"
    );

    assert!(matches!(
        validate_merge_index(&replacement, captured_structural),
        Err(EngineError::Stale)
    ));
    assert!(validate_merge_index(&old, captured_structural).is_ok());
}

#[test]
fn a_merge_is_stale_where_an_index_is_gone_or_replaced() {
    let mut e = two_volumes();
    let hits = e.hits("txt", by_name());
    let gone = [e.slots[0].index.as_ref(), None];
    assert!(matches!(merge_hits(&hits, &gone, by_name(), None), Err(EngineError::Stale)));

    let mut newer = vol("D:", &[]);
    newer.bump_structural_from(0);
    let replaced = [e.slots[0].index.as_ref(), Some(&newer)];
    assert!(matches!(merge_hits(&hits, &replaced, by_name(), None), Err(EngineError::Stale)));

    // One volume alone is copied as it is.
    let alone = merge_hits(&hits[..1], &[None], by_name(), None).unwrap();
    assert_eq!(alone, vec![(0, hits[0].ids[0]), (0, hits[0].ids[1])]);
    assert!(merge_hits(&[], &[], by_name(), None).unwrap().is_empty());
}

#[test]
fn a_merge_keeps_every_hit_in_order_and_the_first_volume_first() {
    let mut e = Volumes::new();
    e.insert_ready_volume("C:", vol("C:", &[("same.txt", 1), ("b.txt", 7)]));
    e.insert_ready_volume("D:", vol("D:", &[("same.txt", 9), ("a.txt", 7)]));
    let r = e.query("txt", by_name()).unwrap().0;
    let rows = e.page(&r, 0, 10).unwrap();
    assert_eq!(names(&rows), vec!["a.txt", "b.txt", "same.txt", "same.txt"]);
    let volumes: Vec<u64> = rows.iter().map(|r| r.entry_ref >> 32).collect();
    assert_eq!(volumes, vec![1, 0, 0, 1], "of equal names the first volume's comes first");

    let r = e.query("txt", SortOrder { sort: SortKey::Size, desc: false }).unwrap().0;
    let sizes: Vec<u64> = e.page(&r, 0, 10).unwrap().iter().map(|r| r.size).collect();
    assert_eq!(sizes, vec![1, 7, 7, 9]);
    let r = e.query("txt", SortOrder { sort: SortKey::Mtime, desc: false }).unwrap().0;
    assert_eq!(r.len(), 4);
}

#[test]
fn the_trace_sums_up_what_the_volumes_cost() {
    let mut e = two_volumes();
    let (_, t) = e.query("txt", by_name()).unwrap();
    assert_eq!((t.memo_us, t.scan_us, t.materialize_us), (2, 4, 6));
    assert_eq!((t.entries_scanned, t.excluded_skipped), (8, 10));
    assert_eq!((t.volumes, t.hits), (2, 4));
    assert_eq!(t.query, "txt");
}

#[test]
fn a_page_names_every_field_of_its_rows() {
    let mut e = Volumes::new();
    let mut b = VolumeIndexBuilder::new_synthetic("C:", 5);
    let (dir, file) = ("Dir".encode_utf16().collect::<Vec<_>>(), [b'f' as u16]);
    b.push(RawEntry {
        parent_frn: Frn(5),
        frn: Frn((1 << 48) | 10),
        name_utf16: &dir,
        is_dir: true,
        is_reparse: false,
        is_hidden: false,
        is_system: false,
        size: 0,
        mtime: 0,
    });
    b.push(RawEntry {
        parent_frn: Frn((1 << 48) | 10),
        frn: Frn((3 << 48) | 11),
        name_utf16: &file,
        is_dir: false,
        is_reparse: false,
        is_hidden: false,
        is_system: false,
        size: 77,
        mtime: 116_444_736_010_000_000,
    });
    e.insert_ready_volume("C:", b.finish());
    let r = e.query("", by_name()).unwrap().0;
    let (rows, blob) = e.fill_page(&r, 0, 5).unwrap();
    assert_eq!(
        rows,
        vec![
            FmfRow {
                entry_ref: 1,
                frn: (1 << 48) | 10,
                size: 0,
                mtime: 0,
                name_off: 0,
                parent_path_off: 3,
                flags: 1,
                name_len: 3,
                parent_path_len: 3,
            },
            FmfRow {
                entry_ref: 2,
                frn: (3 << 48) | 11,
                size: 77,
                mtime: 116_444_736_010_000_000,
                name_off: 6,
                parent_path_off: 7,
                flags: 0,
                name_len: 1,
                parent_path_len: 7,
            },
        ]
    );
    assert_eq!(blob, b"DirC:\\fC:\\Dir\\");
    assert!(matches!(
        r.fill_page(&e.indexes(), 0, 1001, &LIMITS),
        Err(EngineError::PageTooLarge { requested: 1001, maximum: 1000 })
    ));
    assert!(matches!(
        r.fill_page_with_limit(&e.indexes(), 0, 2, 10, 100),
        Err(EngineError::PageEncoding("encoded page exceeds the maximum payload length"))
    ));
    // A deleted row makes its page stale, and only its page.
    e.slots[0].index.as_mut().unwrap().delete(11);
    assert!(matches!(e.page(&r, 1, 1), Err(EngineError::Stale)));
    assert_eq!(e.page(&r, 0, 1).unwrap().len(), 1);
}

#[test]
fn a_row_whose_parents_form_a_cycle_fails_its_page() {
    let mut b = VolumeIndexBuilder::new_synthetic("C:", 5);
    let (x, y) = ([b'x' as u16], [b'y' as u16]);
    for (record, parent, name) in [(10, 11, &x), (11, 10, &y)] {
        b.push(RawEntry {
            parent_frn: Frn(parent),
            frn: Frn((1 << 48) | record),
            name_utf16: name,
            is_dir: true,
            is_reparse: false,
            is_hidden: false,
            is_system: false,
            size: 0,
            mtime: 0,
        });
    }
    let mut e = Volumes::new();
    e.insert_ready_volume("C:", b.finish());
    let r = e.query("x", by_name()).unwrap().0;
    let fault = PathBuildError::ParentCycle { entry: 1 };
    assert!(matches!(e.page(&r, 0, 1), Err(EngineError::Path(f)) if f == fault));
    assert_eq!(
        EngineError::Path(fault).message(),
        "row path: the parents of entry 1 form a cycle"
    );
}

#[test]
fn results_are_the_same_only_with_the_same_slots() {
    let mut e = two_volumes();
    let (a, _) = e.query("txt", by_name()).unwrap();
    let (mut b, _) = e.query("txt", by_name()).unwrap();
    assert!(a.same_ordered_ids(&e.indexes(), &b, &e.indexes()));
    b.slots[0] = 99;
    assert!(!a.same_ordered_ids(&e.indexes(), &b, &e.indexes()));
}

#[test]
fn snapshot_files_are_named_by_the_lower_case_letter() {
    let dir = std::path::Path::new("index");
    assert_eq!(snapshot_path(dir, "C:"), dir.join("c.fmfidx"));
    assert_eq!(snapshot_path(dir, "z"), dir.join("z.fmfidx"));
    assert_eq!(snapshot_path(dir, "Q::"), dir.join("q.fmfidx"));
}

#[test]
fn drives_come_from_the_mask_and_must_be_fixed_ntfs() {
    assert_eq!(drive_labels(0b1100), vec!["C:".to_string(), "D:".to_string()]);
    assert_eq!(drive_labels(1 << 25), vec!["Z:".to_string()]);
    assert!(drive_labels(1 << 26).is_empty());
    let mut fs = [0u16; 32];
    for (i, u) in "NTFS".encode_utf16().enumerate() {
        fs[i] = u;
    }
    assert!(is_fixed_ntfs(3, &fs));
    assert!(!is_fixed_ntfs(2, &fs));
    assert!(!is_fixed_ntfs(3, &fs[..4]), "without a terminator there is no name");
    fs[4] = b'X' as u16;
    assert!(!is_fixed_ntfs(3, &fs));
    assert!(!is_fixed_ntfs(3, &[]));
}

#[test]
fn events_carry_a_kind_a_number_and_a_label() {
    let volume = "C:".to_string();
    let cases = [
        (EngineEvent::Progress { volume: volume.clone(), entries: 3 }, EventKind::Progress, 3),
        (EngineEvent::VolumeReady { volume: volume.clone(), entries: 4 }, EventKind::VolumeReady, 4),
        (EngineEvent::IndexChanged { volume: volume.clone() }, EventKind::IndexChanged, 0),
        (EngineEvent::RescanStarted { volume: volume.clone() }, EventKind::RescanStarted, 0),
        (
            EngineEvent::VolumeFailed { volume: volume.clone(), message: "no".to_string() },
            EventKind::VolumeFailed,
            0,
        ),
        (EngineEvent::EngineError { severity: 2, volume }, EventKind::EngineError, 2),
    ];
    for (event, kind, number) in cases {
        let wire = event.to_wire();
        assert_eq!((wire.kind, wire.entries, wire.volume), (kind, number, "C:"));
    }
}

#[test]
fn engine_errors_have_their_texts() {
    assert_eq!(EngineError::Stale.message(), "result is stale (index was rebuilt)");
    assert_eq!(EngineError::Parse("x".to_string()).message(), "query parse: x");
    assert_eq!(EngineError::Compile("y".to_string()).message(), "query compile: y");
    assert_eq!(
        EngineCreateError::Locked(None).message(),
        "index directory is locked by another engine process (holder pid: unknown)"
    );
    assert_eq!(
        EngineCreateError::Locked(Some(42)).message(),
        "index directory is locked by another engine process (holder pid: 42)"
    );
    assert_eq!(
        EngineCreateError::Io("denied".to_string()).message(),
        "index directory: denied"
    );
}
