//! Histograms, rings and counters.

use fmf_core::index::derived::DerivedSlot;
use fmf_core::index::stats::Capacities;
use fmf_core::index::builder::VolumeIndexBuilder;
use fmf_core::metrics::{
    Counters, Histogram, MetricsHub, QueryTrace, ScanTrace, Stage, UsnTrace, RING, SCAN_RING,
    USN_RING,
};

fn percentile_us(h: &Histogram, p: f64) -> u64 {
    h.percentile_us((h.count as f64 * p).ceil() as u64)
}

#[test]
fn histogram_buckets_and_percentiles() {
    let mut h = Histogram::new();
    for us in [1u64, 2, 3, 100, 1000, 10_000] {
        h.record(us);
    }
    assert_eq!(h.count, 6);
    assert_eq!(h.max_us, 10_000);
    // p50 lands in a small bucket, p99 near the max bucket.
    assert!(percentile_us(&h, 0.5) <= 8);
    assert!(percentile_us(&h, 0.99) >= 8192);
    assert_eq!(h.sum_us, 11_106);
    assert_eq!((h.buckets[0], h.buckets[1], h.buckets[6]), (1, 2, 1));
    assert_eq!((percentile_us(&h, 0.5), percentile_us(&h, 0.99)), (4, 16_384));
    assert_eq!(Histogram::new().percentile_us(1), 0);
    assert_eq!(h.percentile_us(7), 10_000);
}

#[test]
fn the_last_bucket_takes_the_largest_values() {
    let mut h = Histogram::new();
    h.record(0);
    h.record(1 << 31);
    h.record(1 << 40);
    assert_eq!((h.buckets[0], h.buckets[31]), (1, 2));
}

#[test]
fn nothing_is_counted_at_first() {
    let hub = MetricsHub::new();
    let c = &hub.counters;
    let counts = [
        c.stat_fetch_failures,
        c.usn_batches_truncated,
        c.snapshot_load_failures,
        c.snapshot_save_failures,
        c.deferred_names_unresolved,
        c.corrupt_mft_records,
        c.journal_rescans,
        c.scan_pipeline_fallbacks,
        c.offset_table_rebuild_fallbacks,
        c.lazy_perm_rebuild_fallbacks,
        c.compaction_aborts,
        c.pipe_malformed_frames,
        c.pipe_events_dropped,
        c.pipe_connections_rejected,
        c.deferred_name_cache_overflow,
        c.deferred_name_read_failures,
        c.pipe_results_evicted,
        c.trace_serialize_failures,
        c.walk_read_errors,
        c.walk_depth_truncated,
    ];
    assert!(counts.iter().all(|n| *n == 0));
    assert!(hub.histogram.buckets.iter().all(|n| *n == 0));
}

#[test]
fn ring_buffer_caps() {
    let mut hub = MetricsHub::new();
    for i in 0..300 {
        hub.record_query(QueryTrace { total_us: i, ..Default::default() });
        hub.record_scan(ScanTrace { total_ms: i, ..Default::default() });
    }
    let snap = hub.snapshot(16, Vec::new(), Vec::new());
    assert_eq!(snap.query_histogram.count, 300);
    assert_eq!(snap.recent_queries.len(), 16);
    // Newest last.
    assert_eq!(snap.recent_queries.last().unwrap().total_us, 299);
    // Scans are a ring too.
    assert_eq!(snap.scans.len(), SCAN_RING);
    assert_eq!(snap.scans.last().unwrap().total_ms, 299);
    assert_eq!(hub.queries.len(), RING);
    assert_eq!(hub.last_query().unwrap().total_us, 299);
    assert!(MetricsHub::new().last_query().is_none());
    assert_eq!((snap.p50_us, snap.p99_us), (256, 512));
    for i in 0..USN_RING as u64 + 1 {
        hub.record_usn(UsnTrace {
            volume: "C:".to_string(),
            records: i,
            upserted: 0,
            deleted: 0,
            stat_updated: 0,
            stat_failures: 0,
            apply_us: 0,
        });
    }
    assert_eq!(hub.usn.len(), USN_RING);
    assert_eq!(hub.usn[0].records, 1);
}

#[test]
fn counters_count_and_wrap() {
    let mut c = Counters::default();
    Counters::bump(&mut c.journal_rescans);
    Counters::add(&mut c.corrupt_mft_records, 5);
    let shown = c.snapshot();
    assert_eq!((shown.journal_rescans, shown.corrupt_mft_records), (1, 5));
    assert_eq!(shown.walk_read_errors, 0);
    c.journal_rescans = u64::MAX;
    Counters::bump(&mut c.journal_rescans);
    assert_eq!(c.journal_rescans, 0);
}

#[test]
fn a_stopwatch_goes_on() {
    let mut stage = Stage::start();
    let first = stage.elapsed_us();
    assert!(stage.elapsed_us() >= first);
    let lap = stage.lap();
    assert!(lap >= first);
}

#[test]
fn an_index_is_accounted_column_by_column() {
    let idx = VolumeIndexBuilder::new_synthetic("C:", 5).finish();
    let c = Capacities {
        orig_pool: 1,
        dict_pool: 2,
        name_id: 3,
        dict_off: 4,
        orig_off: 5,
        parent: 6,
        size_lo: 7,
        size_ovf: 8,
        mtime: 9,
        frn: 10,
        flag: 11,
        perm_name: 12,
        frn_index: 13,
    };
    let mut s = idx.account("C:", c);
    assert_eq!((s.name_pool_bytes, s.lower_pool_bytes, s.offsets_bytes), (1, 2, 48));
    assert_eq!((s.parent_bytes, s.size_bytes, s.mtime_bytes), (24, 164, 36));
    assert_eq!((s.frn_bytes, s.flag_bytes), (80, 11));
    assert_eq!((s.permutations_bytes, s.frn_map_bytes), (48, 52));
    assert_eq!(s.total_bytes, 466);
    s.add_derived_bytes(34);
    assert_eq!((s.derived_cache_bytes, s.total_bytes), (34, 500));
    let real = idx.stats("C:");
    assert_eq!((real.entries, real.live_entries, real.tombstones), (1, 1, 0));
    assert_eq!(real.volume, "C:");
    assert!(real.lower_pool_bytes >= 2 && real.flag_bytes >= 1);
}

#[test]
fn a_derived_value_is_kept_until_the_contents_change() {
    let mut slot: DerivedSlot<u32> = DerivedSlot::new(4);
    assert_eq!(slot.basis(), None);
    slot.publish(40);
    assert_eq!((slot.probe(4), slot.probe(5)), (Some(&40), None));
    slot.roll(5);
    assert_eq!((slot.probe(5), slot.basis()), (None, Some(&40)));
    // A build that failed publishes nothing and can be tried again.
    slot.roll(5);
    assert_eq!(slot.basis(), Some(&40));
    slot.publish(50);
    assert_eq!((slot.probe(5), slot.prev), (Some(&50), None));
}
