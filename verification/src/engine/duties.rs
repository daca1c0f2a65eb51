//! What the worker of a volume owes, whatever happens to it.

use vstd::prelude::*;
use crate::metrics::Counters;
use super::worker::{
    actions, awaits, decided, decision_actions, degradations, degraded, established, given_up,
    next_state, rejected, wrapped, CounterKind, FullScanReason, JournalGone, JournalView,
    ScanDegradations, ScanSource, SnapshotDecision, SnapshotLoadError, WorkerAction, WorkerEvent,
    WorkerNotice, WorkerState,
};
use super::VolumeState;

verus! {

/// A worker that is told to stop while it follows the journal writes its
/// snapshot, whether or not it announced changes, and then ends.
pub proof fn lemma_stop_saves(announced: bool)
    ensures
        actions(WorkerState::Tailing(announced), WorkerEvent::Stop(true)).contains(
            WorkerAction::SaveSnapshot,
        ),
        actions(WorkerState::Tailing(announced), WorkerEvent::Stop(true)).len() == 1,
        next_state(WorkerState::Tailing(announced), WorkerEvent::Stop(true))
            == WorkerState::Finished,
{
    assert(actions(WorkerState::Tailing(announced), WorkerEvent::Stop(true))[0]
        == WorkerAction::SaveSnapshot);
}

/// A worker ends in three ways and no other: told to stop before it opened
/// anything, where there is nothing to do; told to stop while it follows the
/// journal, with its snapshot written; or with a failure that is announced.
pub proof fn lemma_how_it_ends(state: WorkerState, event: WorkerEvent)
    requires
        awaits(state, event),
        next_state(state, event) == WorkerState::Finished,
    ensures
        ({
            let a = actions(state, event);
            ||| state == WorkerState::Starting && event == WorkerEvent::Stop(true) && a.len() == 0
            ||| state is Tailing && event == WorkerEvent::Stop(true) && a.contains(
                WorkerAction::SaveSnapshot,
            )
            ||| a.contains(WorkerAction::EmitFailed)
        }),
{
    let a = actions(state, event);
    match (state, event) {
        (WorkerState::Tailing(_), WorkerEvent::Stop(_)) => {
            assert(a[0] == WorkerAction::SaveSnapshot);
        },
        (WorkerState::Starting, _) => {},
        (WorkerState::OpeningStats, _) => {
            assert(a[0] == WorkerAction::EmitFailed);
        },
        (WorkerState::Loading, WorkerEvent::Loaded(_)) => {},
        (WorkerState::Validating(_, _), WorkerEvent::Viewed(_)) => {},
        (WorkerState::Applied(_), WorkerEvent::Quiet(_)) => {},
        _ => {
            assert(a =~= given_up());
            assert(a[1] == WorkerAction::EmitFailed);
        },
    }
}

/// A worker that ends with an index installed and without a failure has
/// written its snapshot.
pub proof fn lemma_installed_index_is_saved(state: WorkerState, event: WorkerEvent)
    requires
        awaits(state, event),
        next_state(state, event) == WorkerState::Finished,
        state is OpeningStats || state is Tailing || state is Reading || state is Applied,
        !actions(state, event).contains(WorkerAction::EmitFailed),
    ensures
        actions(state, event).contains(WorkerAction::SaveSnapshot),
{
    lemma_how_it_ends(state, event);
}

/// A worker that is not told to stop goes on, and one that is ends.
pub proof fn lemma_stop_is_heeded(state: WorkerState, stop: bool)
    requires
        awaits(state, WorkerEvent::Stop(stop)),
    ensures
        next_state(state, WorkerEvent::Stop(stop)) == WorkerState::Finished <==> stop,
        !stop ==> actions(state, WorkerEvent::Stop(stop)).len() == 1,
        state == WorkerState::Starting && !stop ==> actions(
            state,
            WorkerEvent::Stop(stop),
        ).contains(WorkerAction::OpenJournal),
        state is Tailing && !stop ==> actions(state, WorkerEvent::Stop(stop)).contains(
            WorkerAction::ReadJournal,
        ),
{
    let a = actions(state, WorkerEvent::Stop(stop));
    if !stop {
        assert(a[0] == WorkerAction::OpenJournal || a[0] == WorkerAction::ReadJournal);
    }
}

proof fn lemma_degradations_shape(s: ScanDegradations, i: int)
    requires
        0 <= i < degradations(s).len(),
    ensures
        degradations(s)[i] is Report || degradations(s)[i] is Count || degradations(s)[i]
            == WorkerAction::ShrinkIndex,
{
}

proof fn lemma_decision_shape(d: SnapshotDecision, next_usn: i64, i: int)
    requires
        0 <= i < decision_actions(d, next_usn).len(),
    ensures
        !(decision_actions(d, next_usn)[i] is SaveSnapshot),
        !(decision_actions(d, next_usn)[i] is RemoveSnapshot),
{
}

/// The snapshot is written and removed at one place each: when the worker is
/// told to stop, and when the journal is gone.
#[verifier::spinoff_prover]
#[verifier::rlimit(40)]
pub proof fn lemma_snapshot_is_kept(state: WorkerState, event: WorkerEvent, i: int)
    requires
        awaits(state, event),
        0 <= i < actions(state, event).len(),
    ensures
        actions(state, event)[i] == WorkerAction::SaveSnapshot ==> state is Tailing && event
            == WorkerEvent::Stop(true),
        actions(state, event)[i] == WorkerAction::RemoveSnapshot ==> event is Gone,
{
    let a = actions(state, event);
    match (state, event) {
        (WorkerState::Scanning, WorkerEvent::Scanned(scan)) => {
            match scan {
                Some(s) => {
                    let n = degradations(s).len() as int;
                    if i < n {
                        assert(a[i] == degradations(s)[i]);
                        lemma_degradations_shape(s, i);
                    } else if i > n {
                        assert(a[i] == established()[i - n - 1]);
                    }
                },
                None => {},
            }
        },
        (WorkerState::Validating(journal_id, next_usn), WorkerEvent::Viewed(view)) => {
            lemma_decision_shape(decided(Ok((journal_id, next_usn)), view), next_usn, i);
        },
        (WorkerState::Loading, WorkerEvent::Loaded(load)) => {
            if load is Err {
                lemma_decision_shape(decided(load, None), 0, i);
            }
        },
        _ => {},
    }
}


/// A snapshot is restored exactly where it was loaded, the journal of its
/// checkpoint is the live one, and that still reaches back to it.
pub proof fn lemma_when_restored(
    load: Result<(u64, i64), SnapshotLoadError>,
    journal: Option<JournalView>,
)
    ensures
        decided(load, journal) == SnapshotDecision::Restore <==> (load matches Ok(at)
            && journal matches Some(view) && at.0 == view.journal_id && view.first_usn <= at.1),
        load == Err::<(u64, i64), SnapshotLoadError>(SnapshotLoadError::NotFound) ==> decided(
            load,
            journal,
        ) == SnapshotDecision::FullScan(FullScanReason::FirstRun),
        load == Err::<(u64, i64), SnapshotLoadError>(SnapshotLoadError::Unusable) ==> decided(
            load,
            journal,
        ) == SnapshotDecision::FullScan(FullScanReason::SnapshotUnusable),
{
}

/// A snapshot that fits the journal is installed and the journal read on from
/// its own checkpoint; any other is dropped unread and the volume scanned.
#[verifier::spinoff_prover]
#[verifier::rlimit(40)]
pub proof fn lemma_restored_or_scanned(journal_id: u64, next_usn: i64, view: Option<JournalView>)
    ensures
        ({
            let s = WorkerState::Validating(journal_id, next_usn);
            let e = WorkerEvent::Viewed(view);
            let a = actions(s, e);
            if view matches Some(v) && v.journal_id == journal_id && v.first_usn <= next_usn {
                &&& a[0] == WorkerAction::SeekJournal(next_usn)
                &&& a.contains(WorkerAction::InstallIndex)
                &&& a.contains(WorkerAction::RecordScan(ScanSource::Snapshot))
                &&& !a.contains(WorkerAction::ScanVolume)
                &&& next_state(s, e) == WorkerState::OpeningStats
            } else {
                &&& a.contains(WorkerAction::DropSnapshot)
                &&& a.last() == WorkerAction::ScanVolume
                &&& !a.contains(WorkerAction::InstallIndex)
                &&& !a.contains(WorkerAction::PublishCheckpoint)
                &&& next_state(s, e) == WorkerState::Scanning
            }
        }),
{
    let s = WorkerState::Validating(journal_id, next_usn);
    let e = WorkerEvent::Viewed(view);
    let a = actions(s, e);
    if view matches Some(v) && v.journal_id == journal_id && v.first_usn <= next_usn {
        assert(a[2] == WorkerAction::RecordScan(ScanSource::Snapshot));
        assert(a[4] == WorkerAction::InstallIndex);
    } else {
        assert(a[a.len() - 2] == WorkerAction::DropSnapshot);
    }
}

/// A new index is counted, installed, given a checkpoint and made ready, in
/// this order, before it is announced.
pub proof fn lemma_index_goes_live_in_order()
    ensures
        established()[0] == WorkerAction::PublishScanned,
        established()[1] == WorkerAction::InstallIndex,
        established()[2] == WorkerAction::PublishCheckpoint,
        established()[3] == WorkerAction::SetState(VolumeState::Ready),
        established()[4] == WorkerAction::EmitReady,
{
}

/// A scan that succeeded makes its index live, and one that failed gives the
/// volume up.
#[verifier::spinoff_prover]
#[verifier::rlimit(40)]
pub proof fn lemma_scan_outcome(scan: Option<ScanDegradations>)
    ensures
        ({
            let e = WorkerEvent::Scanned(scan);
            let a = actions(WorkerState::Scanning, e);
            if scan is Some {
                &&& a.contains(WorkerAction::InstallIndex)
                &&& a.contains(WorkerAction::EmitReady)
                &&& a.contains(WorkerAction::RecordScan(ScanSource::Scan))
                &&& !a.contains(WorkerAction::EmitFailed)
                &&& next_state(WorkerState::Scanning, e) == WorkerState::OpeningStats
            } else {
                &&& a.contains(WorkerAction::SetState(VolumeState::Failed))
                &&& a.contains(WorkerAction::EmitFailed)
                &&& !a.contains(WorkerAction::InstallIndex)
                &&& next_state(WorkerState::Scanning, e) == WorkerState::Finished
            }
        }),
{
    let a = actions(WorkerState::Scanning, WorkerEvent::Scanned(scan));
    match scan {
        Some(s) => {
            let n = degradations(s).len() as int;
            assert(a[n] == WorkerAction::RecordScan(ScanSource::Scan));
            assert(a[n + 2] == WorkerAction::InstallIndex);
            assert(a[n + 5] == WorkerAction::EmitReady);
            assert forall|i: int| 0 <= i < a.len() implies a[i] != WorkerAction::EmitFailed by {
                if i < n {
                    assert(a[i] == degradations(s)[i]);
                } else if i > n {
                    assert(a[i] == established()[i - n - 1]);
                }
            }
        },
        None => {
            assert(a[0] == WorkerAction::SetState(VolumeState::Failed));
            assert(a[1] == WorkerAction::EmitFailed);
        },
    }
}

/// A batch with records is applied before its position is published; one
/// without records changes nothing.
#[verifier::spinoff_prover]
#[verifier::rlimit(40)]
pub proof fn lemma_batch_is_applied(announced: bool, n: usize, truncated: bool)
    ensures
        ({
            let s = WorkerState::Reading(announced);
            let e = WorkerEvent::Batch(n, truncated);
            let a = actions(s, e);
            &&& a.contains(WorkerAction::ApplyBatch) <==> n > 0
            &&& a.contains(WorkerAction::PublishCheckpoint) <==> n > 0
            &&& a.contains(WorkerAction::Report(WorkerNotice::MalformedTail)) <==> truncated
            &&& n > 0 ==> next_state(s, e) == WorkerState::Applied(announced)
            &&& n == 0 ==> next_state(s, e) == WorkerState::Tailing(announced)
            &&& forall|i: int, j: int|
                0 <= i < a.len() && 0 <= j < a.len() && #[trigger] a[i] == WorkerAction::ApplyBatch
                    && #[trigger] a[j] == WorkerAction::PublishCheckpoint ==> i < j
        }),
{
    let s = WorkerState::Reading(announced);
    let a = actions(s, WorkerEvent::Batch(n, truncated));
    let k = if truncated {
        2int
    } else {
        0int
    };
    if truncated {
        assert(a[1] == WorkerAction::Report(WorkerNotice::MalformedTail));
    }
    if n > 0 {
        assert(a[k] == WorkerAction::ApplyBatch);
        assert(a[k + 1] == WorkerAction::PublishCheckpoint);
    }
}

/// Applied changes are announced at once the first time, and then again as
/// soon as a fifth of a second has passed since the last announcement.
pub proof fn lemma_changes_are_announced(announced: bool, quiet_ms: u64)
    ensures
        ({
            let s = WorkerState::Applied(announced);
            let e = WorkerEvent::Quiet(quiet_ms);
            &&& actions(s, e).contains(WorkerAction::EmitIndexChanged) <==> !announced || quiet_ms
                >= 200
            &&& next_state(s, e) == WorkerState::Tailing(true)
        }),
{
    let a = actions(WorkerState::Applied(announced), WorkerEvent::Quiet(quiet_ms));
    if !announced || quiet_ms >= 200 {
        assert(a[0] == WorkerAction::EmitIndexChanged);
    }
}

/// How much the actions add to a counter.
pub open spec fn tallied(a: Seq<WorkerAction>, kind: CounterKind) -> int
    decreases a.len(),
{
    if a.len() == 0 {
        0
    } else {
        tallied(a.drop_last(), kind) + match a.last() {
            WorkerAction::Count(k, n) => if k == kind {
                n as int
            } else {
                0
            },
            _ => 0,
        }
    }
}

proof fn lemma_tallied_add(a: Seq<WorkerAction>, b: Seq<WorkerAction>, kind: CounterKind)
    ensures
        tallied(a + b, kind) == tallied(a, kind) + tallied(b, kind),
    decreases b.len(),
{
    if b.len() == 0 {
        assert(a + b =~= a);
    } else {
        assert((a + b).drop_last() =~= a + b.drop_last());
        assert((a + b).last() == b.last());
        lemma_tallied_add(a, b.drop_last(), kind);
    }
}

proof fn lemma_tallied_none(a: Seq<WorkerAction>, kind: CounterKind)
    requires
        forall|i: int| 0 <= i < a.len() ==> !(#[trigger] a[i] is Count),
    ensures
        tallied(a, kind) == 0,
    decreases a.len(),
{
    if a.len() > 0 {
        lemma_tallied_none(a.drop_last(), kind);
    }
}

proof fn lemma_tallied_degraded(kind: CounterKind, n: u64, notice: WorkerNotice, other: CounterKind)
    ensures
        tallied(degraded(kind, n, notice), other) == if kind == other {
            n as int
        } else {
            0
        },
{
    let a = degraded(kind, n, notice);
    reveal_with_fuel(tallied, 3);
    if n > 0 {
        assert(a.drop_last() =~= seq![WorkerAction::Count(kind, n)]);
        assert(a.drop_last().drop_last() =~= Seq::empty());
    }
}

/// What a scan could not do is counted in full, each in its own counter, and
/// nothing else is.
#[verifier::spinoff_prover]
#[verifier::rlimit(60)]
pub proof fn lemma_degradations_are_counted(s: ScanDegradations, kind: CounterKind)
    ensures
        tallied(
            actions(WorkerState::Scanning, WorkerEvent::Scanned(Some(s))),
            kind,
        ) == match kind {
            CounterKind::CorruptMftRecords => s.corrupt_records as int,
            CounterKind::DeferredNamesUnresolved => s.deferred_unresolved as int,
            CounterKind::ScanPipelineFallbacks => s.pipeline_fallbacks as int,
            CounterKind::DeferredNameCacheOverflow => s.ext_name_cache_skipped as int,
            CounterKind::DeferredNameReadFailures => s.deferred_name_read_failures as int,
            CounterKind::WalkReadErrors => s.walk_read_errors as int,
            CounterKind::WalkDepthTruncated => s.walk_depth_truncated as int,
            _ => 0,
        },
{
    let head = seq![
        WorkerAction::Report(WorkerNotice::FullScanComplete),
        WorkerAction::ShrinkIndex,
        WorkerAction::Count(CounterKind::CorruptMftRecords, s.corrupt_records),
        WorkerAction::Count(CounterKind::DeferredNamesUnresolved, s.deferred_unresolved),
        WorkerAction::Count(CounterKind::ScanPipelineFallbacks, s.pipeline_fallbacks),
    ];
    let d1 = degraded(
        CounterKind::DeferredNameCacheOverflow,
        s.ext_name_cache_skipped,
        WorkerNotice::NameCacheFull,
    );
    let d2 = degraded(
        CounterKind::DeferredNameReadFailures,
        s.deferred_name_read_failures,
        WorkerNotice::NameReadsFailed,
    );
    let d3 = degraded(
        CounterKind::WalkReadErrors,
        s.walk_read_errors,
        WorkerNotice::WalkPathsSkipped,
    );
    let d4 = degraded(
        CounterKind::WalkDepthTruncated,
        s.walk_depth_truncated,
        WorkerNotice::WalkDepthCapped,
    );
    let tail = seq![WorkerAction::RecordScan(ScanSource::Scan)];
    lemma_tallied_head(head, s, kind);
    lemma_tallied_degraded(
        CounterKind::DeferredNameCacheOverflow,
        s.ext_name_cache_skipped,
        WorkerNotice::NameCacheFull,
        kind,
    );
    lemma_tallied_degraded(
        CounterKind::DeferredNameReadFailures,
        s.deferred_name_read_failures,
        WorkerNotice::NameReadsFailed,
        kind,
    );
    lemma_tallied_degraded(
        CounterKind::WalkReadErrors,
        s.walk_read_errors,
        WorkerNotice::WalkPathsSkipped,
        kind,
    );
    lemma_tallied_degraded(
        CounterKind::WalkDepthTruncated,
        s.walk_depth_truncated,
        WorkerNotice::WalkDepthCapped,
        kind,
    );
    lemma_tallied_none(tail, kind);
    lemma_tallied_none(established(), kind);
    lemma_tallied_add(head, d1, kind);
    lemma_tallied_add(head + d1, d2, kind);
    lemma_tallied_add(head + d1 + d2, d3, kind);
    lemma_tallied_add(head + d1 + d2 + d3, d4, kind);
    lemma_tallied_add(head + d1 + d2 + d3 + d4, tail, kind);
    lemma_tallied_add(head + d1 + d2 + d3 + d4 + tail, established(), kind);
    assert(degradations(s) =~= head + d1 + d2 + d3 + d4);
}

proof fn lemma_tallied_head(head: Seq<WorkerAction>, s: ScanDegradations, kind: CounterKind)
    requires
        head == seq![
            WorkerAction::Report(WorkerNotice::FullScanComplete),
            WorkerAction::ShrinkIndex,
            WorkerAction::Count(CounterKind::CorruptMftRecords, s.corrupt_records),
            WorkerAction::Count(CounterKind::DeferredNamesUnresolved, s.deferred_unresolved),
            WorkerAction::Count(CounterKind::ScanPipelineFallbacks, s.pipeline_fallbacks),
        ],
    ensures
        tallied(head, kind) == match kind {
            CounterKind::CorruptMftRecords => s.corrupt_records as int,
            CounterKind::DeferredNamesUnresolved => s.deferred_unresolved as int,
            CounterKind::ScanPipelineFallbacks => s.pipeline_fallbacks as int,
            _ => 0,
        },
{
    let h4 = head.drop_last();
    let h3 = h4.drop_last();
    let h2 = h3.drop_last();
    assert(h4.last() == head[3] && h3.last() == head[2] && h2.last() == head[1]);
    assert(h2.drop_last().last() == head[0]);
    assert(h2.drop_last().drop_last() =~= Seq::empty());
    reveal_with_fuel(tallied, 6);
}

/// A snapshot that is there and cannot be read is counted once; none that is
/// merely missing is.
pub proof fn lemma_unusable_snapshot_is_counted(load: SnapshotLoadError)
    ensures
        tallied(
            actions(
                WorkerState::Loading,
                WorkerEvent::Loaded(Err::<(u64, i64), SnapshotLoadError>(load)),
            ),
            CounterKind::SnapshotLoadFailures,
        ) == if load == SnapshotLoadError::Unusable {
            1int
        } else {
            0
        },
        next_state(
            WorkerState::Loading,
            WorkerEvent::Loaded(Err::<(u64, i64), SnapshotLoadError>(load)),
        ) == WorkerState::Scanning,
{
    let kind = CounterKind::SnapshotLoadFailures;
    let tail = seq![WorkerAction::DropSnapshot, WorkerAction::ScanVolume];
    lemma_tallied_none(tail, kind);
    if load == SnapshotLoadError::Unusable {
        lemma_tallied_degraded(kind, 1, WorkerNotice::SnapshotUnusable, kind);
        let front = degraded(kind, 1, WorkerNotice::SnapshotUnusable);
        lemma_tallied_add(front, tail, kind);
        assert(rejected(FullScanReason::SnapshotUnusable) =~= front + tail);
    } else {
        assert(rejected(FullScanReason::FirstRun) =~= tail);
    }
}

/// A journal that is gone counts as one scan again.
pub proof fn lemma_gone_is_counted(announced: bool, gone: JournalGone)
    ensures
        tallied(
            actions(WorkerState::Reading(announced), WorkerEvent::Gone(gone)),
            CounterKind::JournalRescans,
        ) == 1,
{
    let kind = CounterKind::JournalRescans;
    let a = actions(WorkerState::Reading(announced), WorkerEvent::Gone(gone));
    let front = seq![a[0]];
    let rest = a.skip(1);
    assert(a =~= front + rest);
    lemma_tallied_none(rest, kind);
    lemma_tallied_add(front, rest, kind);
    assert(front.drop_last() =~= Seq::empty());
    reveal_with_fuel(tallied, 2);
}

/// What `n` of a kind adds to the counter of another.
pub open spec fn share(kind: CounterKind, of: CounterKind, n: u64) -> int {
    if kind == of {
        n as int
    } else {
        0
    }
}

proof fn lemma_wrapped_small(c: u64, n: u64)
    requires
        c + n <= u64::MAX,
    ensures
        wrapped(c, n) == c + n,
{
}

/// A kind of degradation adds to its own counter, and to no other.
#[verifier::spinoff_prover]
#[verifier::rlimit(40)]
pub proof fn lemma_kinds_count_apart(kind: CounterKind, c: Counters, n: u64)
    requires
        c.snapshot_load_failures + n <= u64::MAX,
        c.corrupt_mft_records + n <= u64::MAX,
        c.deferred_names_unresolved + n <= u64::MAX,
        c.scan_pipeline_fallbacks + n <= u64::MAX,
        c.deferred_name_cache_overflow + n <= u64::MAX,
        c.deferred_name_read_failures + n <= u64::MAX,
        c.walk_read_errors + n <= u64::MAX,
        c.walk_depth_truncated + n <= u64::MAX,
        c.usn_batches_truncated + n <= u64::MAX,
        c.journal_rescans + n <= u64::MAX,
    ensures
        kind.counted(c, n).snapshot_load_failures == c.snapshot_load_failures + share(
            kind,
            CounterKind::SnapshotLoadFailures,
            n,
        ),
        kind.counted(c, n).corrupt_mft_records == c.corrupt_mft_records + share(
            kind,
            CounterKind::CorruptMftRecords,
            n,
        ),
        kind.counted(c, n).deferred_names_unresolved == c.deferred_names_unresolved + share(
            kind,
            CounterKind::DeferredNamesUnresolved,
            n,
        ),
        kind.counted(c, n).scan_pipeline_fallbacks == c.scan_pipeline_fallbacks + share(
            kind,
            CounterKind::ScanPipelineFallbacks,
            n,
        ),
        kind.counted(c, n).deferred_name_cache_overflow == c.deferred_name_cache_overflow + share(
            kind,
            CounterKind::DeferredNameCacheOverflow,
            n,
        ),
        kind.counted(c, n).deferred_name_read_failures == c.deferred_name_read_failures + share(
            kind,
            CounterKind::DeferredNameReadFailures,
            n,
        ),
        kind.counted(c, n).walk_read_errors == c.walk_read_errors + share(
            kind,
            CounterKind::WalkReadErrors,
            n,
        ),
        kind.counted(c, n).walk_depth_truncated == c.walk_depth_truncated + share(
            kind,
            CounterKind::WalkDepthTruncated,
            n,
        ),
        kind.counted(c, n).usn_batches_truncated == c.usn_batches_truncated + share(
            kind,
            CounterKind::UsnBatchesTruncated,
            n,
        ),
        kind.counted(c, n).journal_rescans == c.journal_rescans + share(
            kind,
            CounterKind::JournalRescans,
            n,
        ),
        kind.counted(c, n).stat_fetch_failures == c.stat_fetch_failures,
        kind.counted(c, n).snapshot_save_failures == c.snapshot_save_failures,
        kind.counted(c, n).compaction_aborts == c.compaction_aborts,
{
    match kind {
        CounterKind::SnapshotLoadFailures => {
            lemma_wrapped_small(c.snapshot_load_failures, n);
        },
        CounterKind::CorruptMftRecords => {
            lemma_wrapped_small(c.corrupt_mft_records, n);
        },
        CounterKind::DeferredNamesUnresolved => {
            lemma_wrapped_small(c.deferred_names_unresolved, n);
        },
        CounterKind::ScanPipelineFallbacks => {
            lemma_wrapped_small(c.scan_pipeline_fallbacks, n);
        },
        CounterKind::DeferredNameCacheOverflow => {
            lemma_wrapped_small(c.deferred_name_cache_overflow, n);
        },
        CounterKind::DeferredNameReadFailures => {
            lemma_wrapped_small(c.deferred_name_read_failures, n);
        },
        CounterKind::WalkReadErrors => {
            lemma_wrapped_small(c.walk_read_errors, n);
        },
        CounterKind::WalkDepthTruncated => {
            lemma_wrapped_small(c.walk_depth_truncated, n);
        },
        CounterKind::UsnBatchesTruncated => {
            lemma_wrapped_small(c.usn_batches_truncated, n);
        },
        CounterKind::JournalRescans => {
            lemma_wrapped_small(c.journal_rescans, n);
        },
    }
}

/// A journal that is gone takes the checkpoint and the snapshot with it, and
/// is announced as a scan again.
pub proof fn lemma_gone_in_full(announced: bool, gone: JournalGone)
    ensures
        ({
            let a = actions(WorkerState::Reading(announced), WorkerEvent::Gone(gone));
            &&& a.contains(WorkerAction::Report(WorkerNotice::JournalGone(gone)))
            &&& a.contains(WorkerAction::ClearCheckpoint)
            &&& a.contains(WorkerAction::SetState(VolumeState::Rescanning))
            &&& a.contains(WorkerAction::EmitRescanStarted)
            &&& a.contains(WorkerAction::RemoveSnapshot)
            &&& !a.contains(WorkerAction::SaveSnapshot)
            &&& !a.contains(WorkerAction::EmitFailed)
        }),
{
    let a = actions(WorkerState::Reading(announced), WorkerEvent::Gone(gone));
    assert(a[1] == WorkerAction::Report(WorkerNotice::JournalGone(gone)));
    assert(a[2] == WorkerAction::ClearCheckpoint);
    assert(a[3] == WorkerAction::SetState(VolumeState::Rescanning));
    assert(a[4] == WorkerAction::EmitRescanStarted);
    assert(a[5] == WorkerAction::RemoveSnapshot);
}

/// A snapshot is reported as unusable where it cannot be read and as stale
/// where the journal has left it behind, and no other way.
pub proof fn lemma_rejection_reported(reason: FullScanReason)
    ensures
        rejected(reason).contains(WorkerAction::Report(WorkerNotice::SnapshotUnusable)) <==> reason
            == FullScanReason::SnapshotUnusable,
        rejected(reason).contains(WorkerAction::Report(WorkerNotice::CheckpointStale)) <==> reason
            == FullScanReason::CheckpointStale,
        rejected(reason).last() == WorkerAction::ScanVolume,
        rejected(reason)[rejected(reason).len() - 2] == WorkerAction::DropSnapshot,
{
    let a = rejected(reason);
    if reason == FullScanReason::SnapshotUnusable {
        assert(a[1] == WorkerAction::Report(WorkerNotice::SnapshotUnusable));
    }
    if reason == FullScanReason::CheckpointStale {
        assert(a[0] == WorkerAction::Report(WorkerNotice::CheckpointStale));
    }
}

proof fn lemma_reported_within(
    a: Seq<WorkerAction>,
    kind: CounterKind,
    n: u64,
    notice: WorkerNotice,
    b: Seq<WorkerAction>,
)
    requires
        n > 0,
    ensures
        (a + degraded(kind, n, notice) + b).contains(WorkerAction::Report(notice)),
{
    let s = a + degraded(kind, n, notice) + b;
    assert(s[a.len() as int + 1] == WorkerAction::Report(notice));
}

/// What a scan could not do is reported, each by its own words, wherever there
/// is any of it.
pub proof fn lemma_degradations_reported(s: ScanDegradations)
    ensures
        s.ext_name_cache_skipped > 0 ==> degradations(s).contains(
            WorkerAction::Report(WorkerNotice::NameCacheFull),
        ),
        s.deferred_name_read_failures > 0 ==> degradations(s).contains(
            WorkerAction::Report(WorkerNotice::NameReadsFailed),
        ),
        s.walk_read_errors > 0 ==> degradations(s).contains(
            WorkerAction::Report(WorkerNotice::WalkPathsSkipped),
        ),
        s.walk_depth_truncated > 0 ==> degradations(s).contains(
            WorkerAction::Report(WorkerNotice::WalkDepthCapped),
        ),
{
    let head = degradations(s).take(5);
    let d1 = degraded(
        CounterKind::DeferredNameCacheOverflow,
        s.ext_name_cache_skipped,
        WorkerNotice::NameCacheFull,
    );
    let d2 = degraded(
        CounterKind::DeferredNameReadFailures,
        s.deferred_name_read_failures,
        WorkerNotice::NameReadsFailed,
    );
    let d3 = degraded(
        CounterKind::WalkReadErrors,
        s.walk_read_errors,
        WorkerNotice::WalkPathsSkipped,
    );
    let d4 = degraded(
        CounterKind::WalkDepthTruncated,
        s.walk_depth_truncated,
        WorkerNotice::WalkDepthCapped,
    );
    let all = degradations(s);
    let none = Seq::<WorkerAction>::empty();
    assert(all =~= head + d1 + (d2 + d3 + d4));
    assert(all =~= head + d1 + d2 + (d3 + d4));
    assert(all =~= head + d1 + d2 + d3 + d4);
    assert(all =~= head + d1 + d2 + d3 + d4 + none);
    if s.ext_name_cache_skipped > 0 {
        lemma_reported_within(
            head,
            CounterKind::DeferredNameCacheOverflow,
            s.ext_name_cache_skipped,
            WorkerNotice::NameCacheFull,
            d2 + d3 + d4,
        );
    }
    if s.deferred_name_read_failures > 0 {
        lemma_reported_within(
            head + d1,
            CounterKind::DeferredNameReadFailures,
            s.deferred_name_read_failures,
            WorkerNotice::NameReadsFailed,
            d3 + d4,
        );
    }
    if s.walk_read_errors > 0 {
        lemma_reported_within(
            head + d1 + d2,
            CounterKind::WalkReadErrors,
            s.walk_read_errors,
            WorkerNotice::WalkPathsSkipped,
            d4,
        );
    }
    if s.walk_depth_truncated > 0 {
        lemma_reported_within(
            head + d1 + d2 + d3,
            CounterKind::WalkDepthTruncated,
            s.walk_depth_truncated,
            WorkerNotice::WalkDepthCapped,
            none,
        );
    }
}

/// Whether changes were announced is remembered from one read of the journal
/// to the next, set by an announcement, and forgotten with the index.
pub proof fn lemma_announcement_remembered(announced: bool, n: usize, truncated: bool, ms: u64)
    ensures
        next_state(WorkerState::Tailing(announced), WorkerEvent::Stop(false))
            == WorkerState::Reading(announced),
        n == 0 ==> next_state(WorkerState::Reading(announced), WorkerEvent::Batch(n, truncated))
            == WorkerState::Tailing(announced),
        n > 0 ==> next_state(WorkerState::Reading(announced), WorkerEvent::Batch(n, truncated))
            == WorkerState::Applied(announced),
        next_state(WorkerState::Applied(announced), WorkerEvent::Quiet(ms))
            == WorkerState::Tailing(true),
        next_state(WorkerState::OpeningStats, WorkerEvent::StatsOpened(true))
            == WorkerState::Tailing(false),
{
}

/// The checkpoint that was loaded is the one that the journal is held against.
pub proof fn lemma_checkpoint_carried(journal_id: u64, next_usn: i64)
    ensures
        next_state(
            WorkerState::Loading,
            WorkerEvent::Loaded(Ok::<(u64, i64), SnapshotLoadError>((journal_id, next_usn))),
        ) == WorkerState::Validating(journal_id, next_usn),
        next_state(WorkerState::Starting, WorkerEvent::Stop(false)) == WorkerState::Opening,
        next_state(WorkerState::Opening, WorkerEvent::Opened(true)) == WorkerState::Loading,
{
}

/// A new index is warmed up and its statistics opened once it is announced,
/// and what it does not use is given back before it is installed.
pub proof fn lemma_new_index_is_tended(s: ScanDegradations)
    ensures
        ({
            let a = actions(WorkerState::Scanning, WorkerEvent::Scanned(Some(s)));
            &&& a[0] == WorkerAction::Report(WorkerNotice::FullScanComplete)
            &&& a[1] == WorkerAction::ShrinkIndex
            &&& a.last() == WorkerAction::OpenStats
            &&& a[a.len() - 2] == WorkerAction::Prewarm
            &&& a[a.len() - 3] == WorkerAction::EmitReady
            &&& a[a.len() - 6] == WorkerAction::InstallIndex
        }),
{
    let a = actions(WorkerState::Scanning, WorkerEvent::Scanned(Some(s)));
    let n = degradations(s).len() as int;
    assert(a.len() == n + 8);
    assert(a[0] == degradations(s)[0]);
    assert(a[1] == degradations(s)[1]);
}

/// After a batch is applied the index is compacted where that is due, and the
/// worker waits to announce it; a restored snapshot is reported.
pub proof fn lemma_batch_is_followed_up(announced: bool, n: usize, truncated: bool)
    requires
        n > 0,
    ensures
        ({
            let a = actions(WorkerState::Reading(announced), WorkerEvent::Batch(n, truncated));
            &&& a.last() == WorkerAction::AskQuiet
            &&& a[a.len() - 2] == WorkerAction::MaybeCompact
            &&& a[a.len() - 3] == WorkerAction::PublishCheckpoint
            &&& a[a.len() - 4] == WorkerAction::ApplyBatch
        }),
        forall|usn: i64|
            (#[trigger] decision_actions(SnapshotDecision::Restore, usn)).contains(
                WorkerAction::Report(WorkerNotice::SnapshotRestored),
            ),
{
    assert forall|usn: i64|
        (#[trigger] decision_actions(SnapshotDecision::Restore, usn)).contains(
            WorkerAction::Report(WorkerNotice::SnapshotRestored),
        ) by {
        assert(decision_actions(SnapshotDecision::Restore, usn)[1] == WorkerAction::Report(
            WorkerNotice::SnapshotRestored,
        ));
    }
}

} // verus!
