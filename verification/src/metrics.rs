//! What the engine measures: a trace per operation, rings of the most recent
//! ones, a histogram of latencies, and counters of degraded paths.

use vstd::prelude::*;
use std::collections::VecDeque;
use std::time::Instant;
use crate::clock::{present, shows, shows_since, us_since};
use crate::diag::ErrorEvent;

verus! {

/// How many query traces are kept.
pub const RING: usize = 256;

/// How many traces of applied batches are kept.
pub const USN_RING: usize = 64;

/// How many scan traces are kept.
pub const SCAN_RING: usize = 64;

/// How many buckets a histogram has.
pub const BUCKETS: usize = 32;

/// The stages of one query, in microseconds.
#[derive(Debug)]
pub struct QueryTrace {
    /// The query text.
    pub query: String,
    /// The strategy that drove candidate generation.
    pub driver: String,
    /// What became of the previous result: "miss", "refine" or "partial".
    pub cache: String,
    /// The result is the one that is presented already.
    pub unchanged: bool,
    /// Parsing.
    pub parse_us: u64,
    /// Compiling.
    pub compile_us: u64,
    /// The memo of directory paths; 0 where it was warm.
    pub memo_us: u64,
    /// Scanning.
    pub scan_us: u64,
    /// Materializing rows.
    pub materialize_us: u64,
    /// Merging the volumes.
    pub merge_us: u64,
    /// From end to end.
    pub total_us: u64,
    /// How many entries were examined.
    pub entries_scanned: u64,
    /// How many entries were skipped as excluded.
    pub excluded_skipped: u64,
    /// How many entries matched.
    pub hits: u64,
    /// How many volumes were asked.
    pub volumes: u32,
}

impl Default for QueryTrace {
    fn default() -> (r: QueryTrace)
        ensures
            r.query@ == Seq::<char>::empty(),
            r.driver@ == Seq::<char>::empty(),
            r.cache@ == Seq::<char>::empty(),
            !r.unchanged,
            r.parse_us == 0 && r.compile_us == 0 && r.memo_us == 0 && r.scan_us == 0,
            r.materialize_us == 0 && r.merge_us == 0 && r.total_us == 0,
            r.entries_scanned == 0 && r.excluded_skipped == 0 && r.hits == 0 && r.volumes == 0,
    {
        QueryTrace {
            query: String::new(),
            driver: String::new(),
            cache: String::new(),
            unchanged: false,
            parse_us: 0,
            compile_us: 0,
            memo_us: 0,
            scan_us: 0,
            materialize_us: 0,
            merge_us: 0,
            total_us: 0,
            entries_scanned: 0,
            excluded_skipped: 0,
            hits: 0,
            volumes: 0,
        }
    }
}

impl Clone for QueryTrace {
    fn clone(&self) -> (r: QueryTrace)
        ensures
            r == *self,
    {
        QueryTrace {
            query: self.query.clone(),
            driver: self.driver.clone(),
            cache: self.cache.clone(),
            unchanged: self.unchanged,
            parse_us: self.parse_us,
            compile_us: self.compile_us,
            memo_us: self.memo_us,
            scan_us: self.scan_us,
            materialize_us: self.materialize_us,
            merge_us: self.merge_us,
            total_us: self.total_us,
            entries_scanned: self.entries_scanned,
            excluded_skipped: self.excluded_skipped,
            hits: self.hits,
            volumes: self.volumes,
        }
    }
}

/// One initial scan of a volume. The throughput is the quotient of
/// `read_bytes` and `read_ms`.
#[derive(Debug)]
pub struct ScanTrace {
    /// The volume's label.
    pub volume: String,
    /// Where the entries came from: "snapshot", "scan" or "walk".
    pub source: String,
    /// How many bytes were read.
    pub read_bytes: u64,
    /// Reading.
    pub read_ms: u64,
    /// Parsing.
    pub parse_ms: u64,
    /// Resolving deferred names.
    pub deferred_ms: u64,
    /// Building columns.
    pub build_ms: u64,
    /// Sorting.
    pub sort_ms: u64,
    /// From end to end.
    pub total_ms: u64,
    /// How many entries were indexed.
    pub entries: u64,
    /// The peak working set in bytes.
    pub peak_ws_bytes: u64,
}

impl Default for ScanTrace {
    fn default() -> (r: ScanTrace)
        ensures
            r.volume@ == Seq::<char>::empty(),
            r.source@ == Seq::<char>::empty(),
            r.read_bytes == 0 && r.read_ms == 0 && r.parse_ms == 0 && r.deferred_ms == 0,
            r.build_ms == 0 && r.sort_ms == 0 && r.total_ms == 0 && r.entries == 0,
            r.peak_ws_bytes == 0,
    {
        ScanTrace {
            volume: String::new(),
            source: String::new(),
            read_bytes: 0,
            read_ms: 0,
            parse_ms: 0,
            deferred_ms: 0,
            build_ms: 0,
            sort_ms: 0,
            total_ms: 0,
            entries: 0,
            peak_ws_bytes: 0,
        }
    }
}

impl Clone for ScanTrace {
    fn clone(&self) -> (r: ScanTrace)
        ensures
            r == *self,
    {
        ScanTrace {
            volume: self.volume.clone(),
            source: self.source.clone(),
            read_bytes: self.read_bytes,
            read_ms: self.read_ms,
            parse_ms: self.parse_ms,
            deferred_ms: self.deferred_ms,
            build_ms: self.build_ms,
            sort_ms: self.sort_ms,
            total_ms: self.total_ms,
            entries: self.entries,
            peak_ws_bytes: self.peak_ws_bytes,
        }
    }
}

/// One applied batch of journal records.
#[derive(Debug)]
pub struct UsnTrace {
    /// The volume's label.
    pub volume: String,
    /// How many records the batch had.
    pub records: u64,
    /// How many entries were created or renamed.
    pub upserted: u64,
    /// How many entries were deleted.
    pub deleted: u64,
    /// How many entries got a new size or time.
    pub stat_updated: u64,
    /// How many sizes and times could not be fetched.
    pub stat_failures: u64,
    /// Applying, in microseconds.
    pub apply_us: u64,
}

impl Clone for UsnTrace {
    fn clone(&self) -> (r: UsnTrace)
        ensures
            r == *self,
    {
        UsnTrace {
            volume: self.volume.clone(),
            records: self.records,
            upserted: self.upserted,
            deleted: self.deleted,
            stat_updated: self.stat_updated,
            stat_failures: self.stat_failures,
            apply_us: self.apply_us,
        }
    }
}

/// The largest `k` for which two to the `k` is at most `n`, and 0 for `n` of 0.
pub open spec fn floor_log2(n: u64) -> nat
    decreases n,
{
    if n < 2 {
        0
    } else {
        1 + floor_log2(n / 2)
    }
}

/// The bucket of a value: bucket `i` counts those from two to the `i` to
/// below two to the `i + 1`, the last one those above too.
pub open spec fn bucket_of(us: u64) -> int {
    if floor_log2(us) < BUCKETS {
        floor_log2(us) as int
    } else {
        BUCKETS - 1
    }
}

/// The values of a bucket below the last lie between its two bounds.
pub proof fn lemma_floor_log2(n: u64)
    requires
        n >= 1,
    ensures
        vstd::arithmetic::power2::pow2(floor_log2(n)) <= n,
        n < vstd::arithmetic::power2::pow2(floor_log2(n) + 1),
    decreases n,
{
    vstd::arithmetic::power2::lemma2_to64();
    if n >= 2 {
        lemma_floor_log2(n / 2);
        vstd::arithmetic::power2::lemma_pow2_unfold(floor_log2(n));
        vstd::arithmetic::power2::lemma_pow2_unfold(floor_log2(n) + 1);
    }
}

/// How many values the first `n` buckets hold.
pub open spec fn held(buckets: Seq<u64>, n: int) -> int
    decreases n,
{
    if n <= 0 {
        0
    } else {
        held(buckets, n - 1) + buckets[n - 1]
    }
}

proof fn lemma_held_grows(buckets: Seq<u64>, m: int, n: int)
    requires
        0 <= m <= n <= buckets.len(),
    ensures
        0 <= held(buckets, m) <= held(buckets, n),
    decreases n,
{
    if n > m {
        lemma_held_grows(buckets, m, n - 1);
    } else if n > 0 {
        lemma_held_grows(buckets, m - 1, n - 1);
    }
}

proof fn lemma_held_update(buckets: Seq<u64>, b: int, n: int)
    requires
        0 <= b < buckets.len(),
        0 <= n <= buckets.len(),
        buckets[b] < u64::MAX,
    ensures
        held(buckets.update(b, (buckets[b] + 1) as u64), n) == held(buckets, n) + if b < n {
            1int
        } else {
            0
        },
    decreases n,
{
    if n > 0 {
        lemma_held_update(buckets, b, n - 1);
    }
}

/// Microseconds in buckets that double in width.
#[derive(Debug)]
pub struct Histogram {
    /// How many values fell into each bucket.
    pub buckets: Vec<u64>,
    /// How many values were recorded.
    pub count: u64,
    /// Their sum.
    pub sum_us: u64,
    /// The largest of them.
    pub max_us: u64,
}

impl Clone for Histogram {
    fn clone(&self) -> (r: Histogram)
        ensures
            r.buckets@ == self.buckets@,
            r.count == self.count,
            r.sum_us == self.sum_us,
            r.max_us == self.max_us,
    {
        let mut buckets: Vec<u64> = Vec::new();
        let mut i: usize = 0;
        while i < self.buckets.len()
            invariant
                i <= self.buckets@.len(),
                buckets@ == self.buckets@.take(i as int),
            decreases self.buckets@.len() - i,
        {
            buckets.push(self.buckets[i]);
            i = i + 1;
            assert(buckets@ =~= self.buckets@.take(i as int));
        }
        assert(self.buckets@.take(i as int) =~= self.buckets@);
        Histogram { buckets, count: self.count, sum_us: self.sum_us, max_us: self.max_us }
    }
}

impl Histogram {
    /// The buckets hold what was counted.
    pub open spec fn wf(&self) -> bool {
        self.buckets@.len() == BUCKETS && held(self.buckets@, BUCKETS as int) == self.count
    }

    /// A histogram of nothing.
    pub fn new() -> (r: Histogram)
        ensures
            r.wf(),
            r.buckets@ == Seq::new(BUCKETS as nat, |i: int| 0u64),
            r.count == 0,
            r.sum_us == 0,
            r.max_us == 0,
    {
        let mut buckets: Vec<u64> = Vec::new();
        let mut i: usize = 0;
        while i < BUCKETS
            invariant
                i <= BUCKETS,
                buckets@.len() == i,
                forall|k: int| 0 <= k < i ==> buckets@[k] == 0,
                held(buckets@, i as int) == 0,
            decreases BUCKETS - i,
        {
            let ghost before = buckets@;
            buckets.push(0);
            proof {
                lemma_held_same(before, buckets@, i as int);
            }
            i = i + 1;
        }
        assert(buckets@ =~= Seq::new(BUCKETS as nat, |i: int| 0u64));
        Histogram { buckets, count: 0, sum_us: 0, max_us: 0 }
    }

    /// Count one value.
    pub fn record(&mut self, us: u64)
        requires
            old(self).wf(),
            old(self).count < u64::MAX,
            old(self).sum_us + us <= u64::MAX,
        ensures
            final(self).wf(),
            final(self).buckets@ == old(self).buckets@.update(
                bucket_of(us),
                (old(self).buckets@[bucket_of(us)] + 1) as u64,
            ),
            final(self).count == old(self).count + 1,
            final(self).sum_us == old(self).sum_us + us,
            final(self).max_us == if us > old(self).max_us {
                us
            } else {
                old(self).max_us
            },
    {
        let mut left: u64 = us;
        let mut b: usize = 0;
        while left >= 2 && b < BUCKETS - 1
            invariant
                b <= BUCKETS - 1,
                floor_log2(us) == b + floor_log2(left),
            decreases BUCKETS - b,
        {
            left = left / 2;
            b = b + 1;
        }
        assert(b == bucket_of(us));
        proof {
            lemma_held_grows(self.buckets@, b as int, b + 1);
            lemma_held_grows(self.buckets@, b + 1, BUCKETS as int);
            lemma_held_update(self.buckets@, b as int, BUCKETS as int);
        }
        let n: u64 = self.buckets[b];
        self.buckets[b] = n + 1;
        self.count = self.count + 1;
        self.sum_us = self.sum_us + us;
        if us > self.max_us {
            self.max_us = us;
        }
    }

    /// Bucket `i` is the first with which at least `target` values are held.
    pub open spec fn reaches(&self, target: u64, i: int) -> bool {
        &&& 0 <= i < BUCKETS
        &&& held(self.buckets@, i + 1) >= target
        &&& i > 0 ==> held(self.buckets@, i) < target
    }

    /// `us` is the end of the bucket of the `target`-th smallest value, or the
    /// largest value where fewer were recorded.
    pub open spec fn bounds(&self, target: u64, us: u64) -> bool {
        if self.count == 0 {
            us == 0
        } else if target <= self.count {
            exists|i: int| #[trigger]
                self.reaches(target, i) && us == vstd::arithmetic::power2::pow2((i + 1) as nat)
        } else {
            us == self.max_us
        }
    }

    /// Half of the values, rounded up.
    pub open spec fn half(&self) -> u64 {
        ((self.count + 1) / 2) as u64
    }

    /// Ninety-nine of a hundred values, rounded up.
    pub open spec fn most(&self) -> u64 {
        ((99 * self.count + 99) / 100) as u64
    }

    /// An upper bound of the `target`-th smallest value: the end of its
    /// bucket, or the largest value where fewer were recorded.
    pub fn percentile_us(&self, target: u64) -> (r: u64)
        requires
            self.wf(),
        ensures
            self.bounds(target, r),
    {
        if self.count == 0 {
            return 0;
        }
        let mut seen: u64 = 0;
        let mut bound: u64 = 1;
        let mut i: usize = 0;
        proof {
            vstd::arithmetic::power2::lemma2_to64();
        }
        while i < self.buckets.len()
            invariant
                self.wf(),
                i <= BUCKETS,
                seen == held(self.buckets@, i as int),
                i > 0 ==> seen < target,
                bound == vstd::arithmetic::power2::pow2(i as nat),
                self.count > 0,
            decreases self.buckets@.len() - i,
        {
            proof {
                lemma_held_grows(self.buckets@, i as int, i + 1);
                lemma_held_grows(self.buckets@, i + 1, BUCKETS as int);
                vstd::arithmetic::power2::lemma_pow2_unfold((i + 1) as nat);
                vstd::arithmetic::power2::lemma2_to64();
                if i + 1 < BUCKETS {
                    vstd::arithmetic::power2::lemma_pow2_strictly_increases(
                        (i + 1) as nat,
                        BUCKETS as nat,
                    );
                }
            }
            seen = seen + self.buckets[i];
            bound = bound * 2;
            if seen >= target {
                assert(self.reaches(target, i as int));
                return bound;
            }
            i = i + 1;
        }
        self.max_us
    }
}

proof fn lemma_held_same(a: Seq<u64>, b: Seq<u64>, n: int)
    requires
        0 <= n <= a.len(),
        n <= b.len(),
        forall|k: int| 0 <= k < n ==> a[k] == b[k],
    ensures
        held(a, n) == held(b, n),
    decreases n,
{
    if n > 0 {
        lemma_held_same(a, b, n - 1);
    }
}

/// How often each degraded path was taken.
#[derive(Clone, Copy, Debug, PartialEq, Eq, Structural)]
pub struct Counters {
    /// Sizes and times that could not be fetched.
    pub stat_fetch_failures: u64,
    /// Batches with a tail that is no record.
    pub usn_batches_truncated: u64,
    /// Snapshots that could not be loaded.
    pub snapshot_load_failures: u64,
    /// Snapshots that could not be written.
    pub snapshot_save_failures: u64,
    /// Names that were never found.
    pub deferred_names_unresolved: u64,
    /// Corrupt records.
    pub corrupt_mft_records: u64,
    /// Scans because the journal was gone.
    pub journal_rescans: u64,
    /// Fallbacks to the slower scan.
    pub scan_pipeline_fallbacks: u64,
    /// Offset tables that were rebuilt.
    pub offset_table_rebuild_fallbacks: u64,
    /// Permutations that were rebuilt.
    pub lazy_perm_rebuild_fallbacks: u64,
    /// Compacted copies that were discarded.
    pub compaction_aborts: u64,
    /// Malformed messages of clients.
    pub pipe_malformed_frames: u64,
    /// Events that a client did not take in time.
    pub pipe_events_dropped: u64,
    /// Connections that were refused.
    pub pipe_connections_rejected: u64,
    /// Names that did not fit the cache.
    pub deferred_name_cache_overflow: u64,
    /// Names whose records could not be read.
    pub deferred_name_read_failures: u64,
    /// Results that made room for others.
    pub pipe_results_evicted: u64,
    /// Traces that could not be encoded.
    pub trace_serialize_failures: u64,
    /// Paths that a walk could not read.
    pub walk_read_errors: u64,
    /// Directories that lie too deep for a walk.
    pub walk_depth_truncated: u64,
}

/// The counters at one time.
#[derive(Clone, Copy, Debug, PartialEq, Eq, Structural)]
pub struct CountersSnapshot {
    /// Sizes and times that could not be fetched.
    pub stat_fetch_failures: u64,
    /// Batches with a tail that is no record.
    pub usn_batches_truncated: u64,
    /// Snapshots that could not be loaded.
    pub snapshot_load_failures: u64,
    /// Snapshots that could not be written.
    pub snapshot_save_failures: u64,
    /// Names that were never found.
    pub deferred_names_unresolved: u64,
    /// Corrupt records.
    pub corrupt_mft_records: u64,
    /// Scans because the journal was gone.
    pub journal_rescans: u64,
    /// Fallbacks to the slower scan.
    pub scan_pipeline_fallbacks: u64,
    /// Offset tables that were rebuilt.
    pub offset_table_rebuild_fallbacks: u64,
    /// Permutations that were rebuilt.
    pub lazy_perm_rebuild_fallbacks: u64,
    /// Compacted copies that were discarded.
    pub compaction_aborts: u64,
    /// Malformed messages of clients.
    pub pipe_malformed_frames: u64,
    /// Events that a client did not take in time.
    pub pipe_events_dropped: u64,
    /// Connections that were refused.
    pub pipe_connections_rejected: u64,
    /// Names that did not fit the cache.
    pub deferred_name_cache_overflow: u64,
    /// Names whose records could not be read.
    pub deferred_name_read_failures: u64,
    /// Results that made room for others.
    pub pipe_results_evicted: u64,
    /// Traces that could not be encoded.
    pub trace_serialize_failures: u64,
    /// Paths that a walk could not read.
    pub walk_read_errors: u64,
    /// Directories that lie too deep for a walk.
    pub walk_depth_truncated: u64,
}

impl Default for Counters {
    fn default() -> (r: Counters)
        ensures
            r.none_counted(),
    {
        Counters {
            stat_fetch_failures: 0,
            usn_batches_truncated: 0,
            snapshot_load_failures: 0,
            snapshot_save_failures: 0,
            deferred_names_unresolved: 0,
            corrupt_mft_records: 0,
            journal_rescans: 0,
            scan_pipeline_fallbacks: 0,
            offset_table_rebuild_fallbacks: 0,
            lazy_perm_rebuild_fallbacks: 0,
            compaction_aborts: 0,
            pipe_malformed_frames: 0,
            pipe_events_dropped: 0,
            pipe_connections_rejected: 0,
            deferred_name_cache_overflow: 0,
            deferred_name_read_failures: 0,
            pipe_results_evicted: 0,
            trace_serialize_failures: 0,
            walk_read_errors: 0,
            walk_depth_truncated: 0,
        }
    }
}

impl Counters {
    /// Nothing was counted.
    pub open spec fn none_counted(&self) -> bool {
        &&& self.stat_fetch_failures == 0
        &&& self.usn_batches_truncated == 0
        &&& self.snapshot_load_failures == 0
        &&& self.snapshot_save_failures == 0
        &&& self.deferred_names_unresolved == 0
        &&& self.corrupt_mft_records == 0
        &&& self.journal_rescans == 0
        &&& self.scan_pipeline_fallbacks == 0
        &&& self.offset_table_rebuild_fallbacks == 0
        &&& self.lazy_perm_rebuild_fallbacks == 0
        &&& self.compaction_aborts == 0
        &&& self.pipe_malformed_frames == 0
        &&& self.pipe_events_dropped == 0
        &&& self.pipe_connections_rejected == 0
        &&& self.deferred_name_cache_overflow == 0
        &&& self.deferred_name_read_failures == 0
        &&& self.pipe_results_evicted == 0
        &&& self.trace_serialize_failures == 0
        &&& self.walk_read_errors == 0
        &&& self.walk_depth_truncated == 0
    }

    /// Count one; the count wraps round at its end.
    pub fn bump(counter: &mut u64)
        ensures
            *final(counter) == (*old(counter) + 1) % 0x1_0000_0000_0000_0000,
    {
        Self::add(counter, 1);
    }

    /// Count `n`; the count wraps round at its end.
    pub fn add(counter: &mut u64, n: u64)
        ensures
            *final(counter) == (*old(counter) + n) % 0x1_0000_0000_0000_0000,
    {
        let sum: u128 = *counter as u128 + n as u128;
        *counter = (sum % 0x1_0000_0000_0000_0000) as u64;
    }

    /// The counters as they are now.
    pub open spec fn shown(&self) -> CountersSnapshot {
        CountersSnapshot {
            stat_fetch_failures: self.stat_fetch_failures,
            usn_batches_truncated: self.usn_batches_truncated,
            snapshot_load_failures: self.snapshot_load_failures,
            snapshot_save_failures: self.snapshot_save_failures,
            deferred_names_unresolved: self.deferred_names_unresolved,
            corrupt_mft_records: self.corrupt_mft_records,
            journal_rescans: self.journal_rescans,
            scan_pipeline_fallbacks: self.scan_pipeline_fallbacks,
            offset_table_rebuild_fallbacks: self.offset_table_rebuild_fallbacks,
            lazy_perm_rebuild_fallbacks: self.lazy_perm_rebuild_fallbacks,
            compaction_aborts: self.compaction_aborts,
            pipe_malformed_frames: self.pipe_malformed_frames,
            pipe_events_dropped: self.pipe_events_dropped,
            pipe_connections_rejected: self.pipe_connections_rejected,
            deferred_name_cache_overflow: self.deferred_name_cache_overflow,
            deferred_name_read_failures: self.deferred_name_read_failures,
            pipe_results_evicted: self.pipe_results_evicted,
            trace_serialize_failures: self.trace_serialize_failures,
            walk_read_errors: self.walk_read_errors,
            walk_depth_truncated: self.walk_depth_truncated,
        }
    }

    /// The counters as they are now.
    pub fn snapshot(&self) -> (r: CountersSnapshot)
        ensures
            r == self.shown(),
    {
        CountersSnapshot {
            stat_fetch_failures: self.stat_fetch_failures,
            usn_batches_truncated: self.usn_batches_truncated,
            snapshot_load_failures: self.snapshot_load_failures,
            snapshot_save_failures: self.snapshot_save_failures,
            deferred_names_unresolved: self.deferred_names_unresolved,
            corrupt_mft_records: self.corrupt_mft_records,
            journal_rescans: self.journal_rescans,
            scan_pipeline_fallbacks: self.scan_pipeline_fallbacks,
            offset_table_rebuild_fallbacks: self.offset_table_rebuild_fallbacks,
            lazy_perm_rebuild_fallbacks: self.lazy_perm_rebuild_fallbacks,
            compaction_aborts: self.compaction_aborts,
            pipe_malformed_frames: self.pipe_malformed_frames,
            pipe_events_dropped: self.pipe_events_dropped,
            pipe_connections_rejected: self.pipe_connections_rejected,
            deferred_name_cache_overflow: self.deferred_name_cache_overflow,
            deferred_name_read_failures: self.deferred_name_read_failures,
            pipe_results_evicted: self.pipe_results_evicted,
            trace_serialize_failures: self.trace_serialize_failures,
            walk_read_errors: self.walk_read_errors,
            walk_depth_truncated: self.walk_depth_truncated,
        }
    }
}

/// What an index takes in memory, in bytes. The share of garbage is the
/// quotient of `dead_name_bytes` and the two pools, the bytes per entry the
/// quotient of `total_bytes` and `entries`.
#[derive(Debug)]
pub struct IndexStats {
    /// The volume's label.
    pub volume: String,
    /// All entries.
    pub entries: u64,
    /// The entries that are not tombstoned.
    pub live_entries: u64,
    /// The entries that are.
    pub tombstones: u64,
    /// The pool of original spellings.
    pub name_pool_bytes: u64,
    /// The pool of folded names.
    pub lower_pool_bytes: u64,
    /// Where names start.
    pub offsets_bytes: u64,
    /// Parents.
    pub parent_bytes: u64,
    /// Sizes.
    pub size_bytes: u64,
    /// Modification times.
    pub mtime_bytes: u64,
    /// References.
    pub frn_bytes: u64,
    /// Flags.
    pub flag_bytes: u64,
    /// The name permutation.
    pub permutations_bytes: u64,
    /// The index by record number.
    pub frn_map_bytes: u64,
    /// Bytes of names that are no longer used.
    pub dead_name_bytes: u64,
    /// What queries have cached.
    pub derived_cache_bytes: u64,
    /// All of it.
    pub total_bytes: u64,
    /// The content generation.
    pub content_generation: u64,
    /// The structural generation.
    pub structural_generation: u64,
}

impl Clone for IndexStats {
    fn clone(&self) -> (r: IndexStats)
        ensures
            r == *self,
    {
        IndexStats {
            volume: self.volume.clone(),
            entries: self.entries,
            live_entries: self.live_entries,
            tombstones: self.tombstones,
            name_pool_bytes: self.name_pool_bytes,
            lower_pool_bytes: self.lower_pool_bytes,
            offsets_bytes: self.offsets_bytes,
            parent_bytes: self.parent_bytes,
            size_bytes: self.size_bytes,
            mtime_bytes: self.mtime_bytes,
            frn_bytes: self.frn_bytes,
            flag_bytes: self.flag_bytes,
            permutations_bytes: self.permutations_bytes,
            frn_map_bytes: self.frn_map_bytes,
            dead_name_bytes: self.dead_name_bytes,
            derived_cache_bytes: self.derived_cache_bytes,
            total_bytes: self.total_bytes,
            content_generation: self.content_generation,
            structural_generation: self.structural_generation,
        }
    }
}

impl IndexStats {
    /// Add what queries have cached for the index.
    pub fn add_derived_bytes(&mut self, bytes: u64)
        requires
            old(self).total_bytes + bytes <= u64::MAX,
        ensures
            *final(self) == (IndexStats {
                derived_cache_bytes: bytes,
                total_bytes: (old(self).total_bytes + bytes) as u64,
                ..*old(self)
            }),
    {
        self.derived_cache_bytes = bytes;
        self.total_bytes = self.total_bytes + bytes;
    }
}

/// A ring of at most `cap` items with one more: the oldest makes room.
pub open spec fn ringed<T>(ring: Seq<T>, cap: int, item: T) -> Seq<T> {
    if ring.len() == cap {
        ring.drop_first().push(item)
    } else {
        ring.push(item)
    }
}

fn push_ring<T>(ring: &mut VecDeque<T>, cap: usize, item: T)
    requires
        cap >= 1,
        old(ring)@.len() <= cap,
    ensures
        final(ring)@ == ringed(old(ring)@, cap as int, item),
        final(ring)@.len() <= cap,
{
    let ghost before = ring@;
    if ring.len() == cap {
        ring.pop_front();
        assert(ring@ =~= before.drop_first());
    }
    ring.push_back(item);
}

/// Everything that is measured, at one time.
pub struct MetricsSnapshot {
    /// The most recent queries, the newest last.
    pub recent_queries: Vec<QueryTrace>,
    /// The latencies of all queries.
    pub query_histogram: Histogram,
    /// A bound of the faster half of the queries.
    pub p50_us: u64,
    /// A bound of the fastest 99 of a hundred queries.
    pub p99_us: u64,
    /// The most recent batches.
    pub recent_usn: Vec<UsnTrace>,
    /// The most recent scans.
    pub scans: Vec<ScanTrace>,
    /// What the indexes take.
    pub indexes: Vec<IndexStats>,
    /// The counters.
    pub counters: CountersSnapshot,
    /// The most recent diagnostics.
    pub recent_errors: Vec<ErrorEvent>,
}

/// What the engine measures.
pub struct MetricsHub {
    /// The recent queries.
    pub queries: VecDeque<QueryTrace>,
    /// The latencies of all queries.
    pub histogram: Histogram,
    /// The recent batches.
    pub usn: VecDeque<UsnTrace>,
    /// The recent scans.
    pub scans: VecDeque<ScanTrace>,
    /// The counters.
    pub counters: Counters,
}

impl MetricsHub {
    /// No ring is longer than its bound.
    pub open spec fn wf(&self) -> bool {
        &&& self.queries@.len() <= RING
        &&& self.usn@.len() <= USN_RING
        &&& self.scans@.len() <= SCAN_RING
        &&& self.histogram.wf()
    }

    /// Nothing measured yet.
    pub fn new() -> (r: MetricsHub)
        ensures
            r.wf(),
            r.queries@ == Seq::<QueryTrace>::empty(),
            r.usn@ == Seq::<UsnTrace>::empty(),
            r.scans@ == Seq::<ScanTrace>::empty(),
            r.histogram.buckets@ == Seq::new(BUCKETS as nat, |i: int| 0u64),
            r.histogram.count == 0,
            r.histogram.sum_us == 0,
            r.histogram.max_us == 0,
            r.counters.none_counted(),
    {
        MetricsHub {
            queries: VecDeque::new(),
            histogram: Histogram::new(),
            usn: VecDeque::new(),
            scans: VecDeque::new(),
            counters: Counters::default(),
        }
    }

    /// Record a query.
    pub fn record_query(&mut self, trace: QueryTrace)
        requires
            old(self).wf(),
            old(self).histogram.count < u64::MAX,
            old(self).histogram.sum_us + trace.total_us <= u64::MAX,
        ensures
            final(self).wf(),
            final(self).queries@ == ringed(old(self).queries@, RING as int, trace),
            final(self).histogram.buckets@ == old(self).histogram.buckets@.update(
                bucket_of(trace.total_us),
                (old(self).histogram.buckets@[bucket_of(trace.total_us)] + 1) as u64,
            ),
            final(self).histogram.count == old(self).histogram.count + 1,
            final(self).histogram.sum_us == old(self).histogram.sum_us + trace.total_us,
            final(self).histogram.max_us == if trace.total_us > old(self).histogram.max_us {
                trace.total_us
            } else {
                old(self).histogram.max_us
            },
            final(self).usn@ == old(self).usn@,
            final(self).scans@ == old(self).scans@,
            final(self).counters == old(self).counters,
    {
        self.histogram.record(trace.total_us);
        push_ring(&mut self.queries, RING, trace);
    }

    /// Record an applied batch.
    pub fn record_usn(&mut self, trace: UsnTrace)
        requires
            old(self).wf(),
        ensures
            final(self).wf(),
            final(self).usn@ == ringed(old(self).usn@, USN_RING as int, trace),
            final(self).queries@ == old(self).queries@,
            final(self).scans@ == old(self).scans@,
            final(self).histogram == old(self).histogram,
            final(self).counters == old(self).counters,
    {
        push_ring(&mut self.usn, USN_RING, trace);
    }

    /// Record a scan.
    pub fn record_scan(&mut self, trace: ScanTrace)
        requires
            old(self).wf(),
        ensures
            final(self).wf(),
            final(self).scans@ == ringed(old(self).scans@, SCAN_RING as int, trace),
            final(self).queries@ == old(self).queries@,
            final(self).usn@ == old(self).usn@,
            final(self).histogram == old(self).histogram,
            final(self).counters == old(self).counters,
    {
        push_ring(&mut self.scans, SCAN_RING, trace);
    }

    /// The last query.
    pub fn last_query(&self) -> (r: Option<QueryTrace>)
        ensures
            r == if self.queries@.len() == 0 {
                None
            } else {
                Some(self.queries@.last())
            },
    {
        let n: usize = self.queries.len();
        if n == 0 {
            None
        } else {
            Some(self.queries[n - 1].clone())
        }
    }

    /// Everything that is measured, with the `recent` last queries.
    pub fn snapshot(
        &self,
        recent: usize,
        indexes: Vec<IndexStats>,
        recent_errors: Vec<ErrorEvent>,
    ) -> (r: MetricsSnapshot)
        requires
            self.wf(),
        ensures
            r.recent_queries@ == self.queries@.skip(
                if recent < self.queries@.len() {
                    self.queries@.len() - recent
                } else {
                    0
                },
            ),
            r.query_histogram.buckets@ == self.histogram.buckets@,
            r.query_histogram.count == self.histogram.count,
            r.query_histogram.sum_us == self.histogram.sum_us,
            r.query_histogram.max_us == self.histogram.max_us,
            self.histogram.bounds(self.histogram.half(), r.p50_us),
            self.histogram.bounds(self.histogram.most(), r.p99_us),
            r.recent_usn@ == self.usn@,
            r.scans@ == self.scans@,
            r.indexes == indexes,
            r.recent_errors == recent_errors,
            r.counters == self.counters.shown(),
    {
        let n: usize = self.queries.len();
        let start: usize = if recent < n {
            n - recent
        } else {
            0
        };
        let mut recent_queries: Vec<QueryTrace> = Vec::new();
        let mut i: usize = start;
        while i < n
            invariant
                start <= i <= n,
                n == self.queries@.len(),
                recent_queries@ == self.queries@.subrange(start as int, i as int),
            decreases n - i,
        {
            recent_queries.push(self.queries[i].clone());
            i = i + 1;
            assert(recent_queries@ =~= self.queries@.subrange(start as int, i as int));
        }
        assert(self.queries@.subrange(start as int, n as int) =~= self.queries@.skip(start as int));
        let mut recent_usn: Vec<UsnTrace> = Vec::new();
        i = 0;
        while i < self.usn.len()
            invariant
                i <= self.usn@.len(),
                recent_usn@ == self.usn@.take(i as int),
            decreases self.usn@.len() - i,
        {
            recent_usn.push(self.usn[i].clone());
            i = i + 1;
            assert(recent_usn@ =~= self.usn@.take(i as int));
        }
        assert(self.usn@.take(i as int) =~= self.usn@);
        let mut scans: Vec<ScanTrace> = Vec::new();
        i = 0;
        while i < self.scans.len()
            invariant
                i <= self.scans@.len(),
                scans@ == self.scans@.take(i as int),
            decreases self.scans@.len() - i,
        {
            scans.push(self.scans[i].clone());
            i = i + 1;
            assert(scans@ =~= self.scans@.take(i as int));
        }
        assert(self.scans@.take(i as int) =~= self.scans@);
        let count: u64 = self.histogram.count;
        MetricsSnapshot {
            recent_queries,
            query_histogram: self.histogram.clone(),
            p50_us: self.histogram.percentile_us(count / 2 + count % 2),
            p99_us: self.histogram.percentile_us(count - count / 100),
            recent_usn,
            scans,
            indexes,
            counters: self.counters.snapshot(),
            recent_errors,
        }
    }
}

/// A stopwatch.
pub struct Stage(Instant);

/// A stopwatch that was started at the present shows `us` microseconds.
pub open spec fn timed_us(us: u64) -> bool {
    exists|stage: Stage| #[trigger] stage.started() && stage.shows(us)
}

/// A stopwatch that was started at the present shows `ms` whole milliseconds.
pub open spec fn timed_ms(ms: u64) -> bool {
    exists|us: u64| #[trigger] timed_us(us) && ms == us / 1000
}

impl Stage {
    /// `us` may be the time since it was started, or lapped last.
    pub closed spec fn shows(&self, us: u64) -> bool {
        shows_since(self.0, us)
    }

    /// It started at what the clock gave as the present.
    pub closed spec fn started(&self) -> bool {
        shows(self.0)
    }

    /// Start a stopwatch at the present. What that is, the clock decides.
    pub fn start() -> (r: Stage)
        ensures
            r.started(),
    {
        Stage(present())
    }

    /// The time since the start or the last lap, in microseconds, and start
    /// anew at the present. What it shows, the clock decides.
    pub fn lap(&mut self) -> (r: u64)
        ensures
            old(self).shows(r),
            final(self).started(),
    {
        let us: u64 = us_since(&self.0);
        self.0 = present();
        us
    }

    /// The time since the start or the last lap, in microseconds. What it
    /// shows, the clock decides.
    pub fn elapsed_us(&self) -> (r: u64)
        ensures
            self.shows(r),
    {
        us_since(&self.0)
    }
}

/// A duration falls into the bucket of its power of two: nothing below two
/// microseconds into any but the first, everything from the 31st power on
/// into the last.
pub proof fn lemma_bucket_bounds(us: u64)
    ensures
        0 <= bucket_of(us) < 32,
        us < 2 ==> bucket_of(us) == 0,
        us >= 2 && bucket_of(us) < 31 ==> vstd::arithmetic::power2::pow2(bucket_of(us) as nat) <= us
            < vstd::arithmetic::power2::pow2((bucket_of(us) + 1) as nat),
        bucket_of(us) == 31 ==> us >= vstd::arithmetic::power2::pow2(31),
{
    if us >= 2 {
        lemma_floor_log2(us);
        if floor_log2(us) > 31 {
            vstd::arithmetic::power2::lemma_pow2_strictly_increases(31, floor_log2(us));
        }
    }
}

/// A longer duration never falls into a lower bucket.
pub proof fn lemma_buckets_keep_order(a: u64, b: u64)
    requires
        a <= b,
    ensures
        bucket_of(a) <= bucket_of(b),
{
    lemma_logs_keep_order(a, b);
}

proof fn lemma_logs_keep_order(a: u64, b: u64)
    requires
        a <= b,
    ensures
        floor_log2(a) <= floor_log2(b),
    decreases b,
{
    if a >= 2 {
        lemma_logs_keep_order(a / 2, b / 2);
    }
}

impl Histogram {
    /// The median is reached by half of what was recorded and no fewer, the
    /// last percentile by 99 of a hundred.
    pub proof fn lemma_targets(&self)
        requires
            self.count > 0,
        ensures
            1 <= self.half() <= self.count,
            2 * self.half() >= self.count,
            2 * (self.half() - 1) < self.count,
            1 <= self.most() <= self.count,
            100 * self.most() >= 99 * self.count,
            100 * (self.most() - 1) < 99 * self.count,
    {
    }

    /// Where a bound is given for a target that was reached, at least that
    /// many recorded durations lie in the buckets below it, and fewer below
    /// half of it.
    pub proof fn lemma_bound_covers(&self, target: u64, us: u64)
        requires
            self.wf(),
            0 < target <= self.count,
            self.bounds(target, us),
        ensures
            exists|i: int|
                {
                    &&& 0 <= i < 32
                    &&& us == #[trigger] vstd::arithmetic::power2::pow2((i + 1) as nat)
                    &&& held(self.buckets@, i + 1) >= target
                    &&& i > 0 ==> held(self.buckets@, i) < target
                },
    {
        let i = choose|i: int| #[trigger]
            self.reaches(target, i) && us == vstd::arithmetic::power2::pow2((i + 1) as nat);
        assert(us == vstd::arithmetic::power2::pow2((i + 1) as nat));
    }
}

/// A full ring forgets its oldest item and no other; what is added comes
/// last, and what was there keeps its order.
pub proof fn lemma_ring_keeps_newest<T>(ring: Seq<T>, cap: int, item: T)
    requires
        0 < cap,
        ring.len() <= cap,
    ensures
        ringed(ring, cap, item).len() <= cap,
        ringed(ring, cap, item).last() == item,
        ring.len() < cap ==> ringed(ring, cap, item).len() == ring.len() + 1,
        ring.len() == cap ==> ringed(ring, cap, item).len() == cap,
        ring.len() < cap ==> forall|i: int|
            0 <= i < ring.len() ==> #[trigger] ringed(ring, cap, item)[i] == ring[i],
        ring.len() == cap ==> forall|i: int|
            0 <= i < cap - 1 ==> #[trigger] ringed(ring, cap, item)[i] == ring[i + 1],
{
}

impl Counters {
    /// Every counter is shown under its own name.
    pub proof fn lemma_shown_as_counted(&self)
        ensures
            self.shown().stat_fetch_failures == self.stat_fetch_failures,
            self.shown().usn_batches_truncated == self.usn_batches_truncated,
            self.shown().snapshot_load_failures == self.snapshot_load_failures,
            self.shown().snapshot_save_failures == self.snapshot_save_failures,
            self.shown().deferred_names_unresolved == self.deferred_names_unresolved,
            self.shown().corrupt_mft_records == self.corrupt_mft_records,
            self.shown().journal_rescans == self.journal_rescans,
            self.shown().scan_pipeline_fallbacks == self.scan_pipeline_fallbacks,
            self.shown().offset_table_rebuild_fallbacks == self.offset_table_rebuild_fallbacks,
            self.shown().lazy_perm_rebuild_fallbacks == self.lazy_perm_rebuild_fallbacks,
            self.shown().compaction_aborts == self.compaction_aborts,
            self.shown().pipe_malformed_frames == self.pipe_malformed_frames,
            self.shown().pipe_events_dropped == self.pipe_events_dropped,
            self.shown().pipe_connections_rejected == self.pipe_connections_rejected,
            self.shown().deferred_name_cache_overflow == self.deferred_name_cache_overflow,
            self.shown().deferred_name_read_failures == self.deferred_name_read_failures,
            self.shown().pipe_results_evicted == self.pipe_results_evicted,
            self.shown().trace_serialize_failures == self.trace_serialize_failures,
            self.shown().walk_read_errors == self.walk_read_errors,
            self.shown().walk_depth_truncated == self.walk_depth_truncated,
    {
    }
}

impl MetricsHub {
    /// A snapshot shows the newest queries, as many as asked for or as there
    /// are, in their order.
    pub proof fn lemma_snapshot_answered(
        &self,
        recent: usize,
        indexes: Vec<IndexStats>,
        recent_errors: Vec<ErrorEvent>,
        r: MetricsSnapshot,
    )
        requires
            call_ensures(MetricsHub::snapshot, (self, recent, indexes, recent_errors), r),
        ensures
            r.recent_queries@.len() == if recent < self.queries@.len() {
                recent as int
            } else {
                self.queries@.len() as int
            },
            forall|i: int|
                0 <= i < r.recent_queries@.len() ==> #[trigger] r.recent_queries@[i]
                    == self.queries@[self.queries@.len() - r.recent_queries@.len() + i],
            r.counters.journal_rescans == self.counters.journal_rescans,
            r.counters.corrupt_mft_records == self.counters.corrupt_mft_records,
            r.query_histogram.count == self.histogram.count,
            r.recent_usn@ == self.usn@,
            r.scans@ == self.scans@,
    {
    }

    /// The last query is the newest that was recorded.
    pub proof fn lemma_last_query_answered(&self, r: Option<QueryTrace>)
        requires
            call_ensures(MetricsHub::last_query, (self,), r),
        ensures
            r is None <==> self.queries@.len() == 0,
            r matches Some(t) ==> t == self.queries@[self.queries@.len() - 1],
    {
    }
}

} // verus!
