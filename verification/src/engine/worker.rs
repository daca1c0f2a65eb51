//! The worker of one volume: restore or scan, then follow the journal, and
//! start over where the journal is gone.
//!
//! The worker is a machine of states and events. Its caller performs the
//! actions it is told, in their order; the last of them asks for the next
//! event. What the actions do (locks, files, the journal) is the caller's.

use vstd::prelude::*;
use crate::metrics::Counters;
use super::VolumeState;

verus! {

/// How long after an announcement of changes the next one may follow.
pub const INDEX_CHANGED_DEBOUNCE_MS: u64 = 200;

/// How long a source without a journal sleeps between two empty batches.
pub const IDLE_PARK_MS: u64 = 250;

/// The journal of a volume that is walked instead of scanned.
pub const WALK_JOURNAL_ID: u64 = 0;

/// How a volume gets its index.
#[derive(Clone, Copy, Debug, PartialEq, Eq, Structural)]
pub enum SnapshotDecision {
    /// From the snapshot, with the journal read on from its checkpoint.
    Restore,
    /// From a full scan.
    FullScan(FullScanReason),
}

/// Why a volume is scanned.
#[derive(Clone, Copy, Debug, PartialEq, Eq, Structural)]
pub enum FullScanReason {
    /// There is no snapshot: the normal first run.
    FirstRun,
    /// The snapshot cannot be read.
    SnapshotUnusable,
    /// The journal does not reach back to the snapshot's checkpoint.
    CheckpointStale,
    /// The journal could not be queried.
    JournalQueryFailed,
}

/// Why no snapshot was loaded.
#[derive(Clone, Copy, Debug, PartialEq, Eq, Structural)]
pub enum SnapshotLoadError {
    /// There is none.
    NotFound,
    /// There is one that cannot be read.
    Unusable,
}

/// What is known of a live journal.
#[derive(Clone, Copy, Debug, PartialEq, Eq, Structural)]
pub struct JournalView {
    /// The journal.
    pub journal_id: u64,
    /// The oldest position that can still be read from.
    pub first_usn: i64,
}

impl JournalView {
    /// The journal of a volume that is walked: it has no positions that
    /// could be lost.
    pub fn scope() -> (r: JournalView)
        ensures
            r == (JournalView { journal_id: WALK_JOURNAL_ID, first_usn: i64::MIN }),
    {
        JournalView { journal_id: WALK_JOURNAL_ID, first_usn: i64::MIN }
    }
}

/// What is decided from how loading went and what the journal says.
pub open spec fn decided(
    load: Result<(u64, i64), SnapshotLoadError>,
    journal: Option<JournalView>,
) -> SnapshotDecision {
    match load {
        Err(SnapshotLoadError::NotFound) => SnapshotDecision::FullScan(FullScanReason::FirstRun),
        Err(SnapshotLoadError::Unusable) => SnapshotDecision::FullScan(
            FullScanReason::SnapshotUnusable,
        ),
        Ok((journal_id, next_usn)) => match journal {
            None => SnapshotDecision::FullScan(FullScanReason::JournalQueryFailed),
            Some(view) => if journal_id == view.journal_id && next_usn >= view.first_usn {
                SnapshotDecision::Restore
            } else {
                SnapshotDecision::FullScan(FullScanReason::CheckpointStale)
            },
        },
    }
}

/// Whether a snapshot is restored: where it was loaded, and the live journal
/// is the one of its checkpoint and reaches back to it.
pub fn snapshot_decision(
    load: Result<(u64, i64), SnapshotLoadError>,
    journal: Option<JournalView>,
) -> (r: SnapshotDecision)
    ensures
        r == decided(load, journal),
{
    match load {
        Err(SnapshotLoadError::NotFound) => SnapshotDecision::FullScan(FullScanReason::FirstRun),
        Err(SnapshotLoadError::Unusable) => SnapshotDecision::FullScan(
            FullScanReason::SnapshotUnusable,
        ),
        Ok((journal_id, next_usn)) => match journal {
            Some(view) => {
                if journal_id == view.journal_id && next_usn >= view.first_usn {
                    SnapshotDecision::Restore
                } else {
                    SnapshotDecision::FullScan(FullScanReason::CheckpointStale)
                }
            },
            None => SnapshotDecision::FullScan(FullScanReason::JournalQueryFailed),
        },
    }
}

/// The snapshot of a walked volume is always restored.
pub proof fn lemma_walk_restores(next_usn: i64)
    ensures
        decided(
            Ok((WALK_JOURNAL_ID, next_usn)),
            Some(JournalView { journal_id: WALK_JOURNAL_ID, first_usn: i64::MIN }),
        ) == SnapshotDecision::Restore,
{
}

/// How a journal can be gone.
#[derive(Clone, Copy, Debug, PartialEq, Eq, Structural)]
pub enum JournalGone {
    /// The position that was asked for was purged.
    EntryDeleted,
    /// The journal is being deleted.
    DeleteInProgress,
    /// The journal is not active.
    NotActive,
    /// The journal is another one.
    IdMismatch,
}

/// A failed request to the journal.
#[derive(Clone, Copy, Debug, PartialEq, Eq, Structural)]
pub enum UsnError {
    /// The control request failed with this code.
    Fsctl(u32),
}

/// One record of the journal.
#[derive(Clone, Debug, PartialEq, Eq)]
pub struct UsnRecord {
    /// Its position.
    pub usn: i64,
    /// The object's full reference.
    pub frn: u64,
    /// The parent's full reference.
    pub parent_frn: u64,
    /// What happened.
    pub reason: u32,
    /// The object's attributes.
    pub attributes: u32,
    /// The object's name as UTF-16 units.
    pub name: Vec<u16>,
}

/// What a read of the journal gives.
pub enum ReadOutcome {
    /// The next batch.
    Records {
        /// The records; none where the reader was only woken.
        records: Vec<UsnRecord>,
        /// The batch had a tail that is no record.
        truncated: bool,
    },
    /// The journal is gone.
    Gone(JournalGone),
}

/// What a read of the journal means.
pub enum TailStep {
    /// Apply the records, then publish the new checkpoint.
    Apply {
        /// The records.
        records: Vec<UsnRecord>,
        /// The batch had a tail that is no record.
        truncated: bool,
    },
    /// Start over with a full scan.
    Rescan(JournalGone),
    /// Give the volume up.
    Fail(UsnError),
}

/// What a read of the journal means: a journal that is gone cannot be
/// followed again in place, and a failed request is final.
pub fn journal_gone_action(outcome: Result<ReadOutcome, UsnError>) -> (r: TailStep)
    ensures
        r == match outcome {
            Ok(ReadOutcome::Records { records, truncated }) => TailStep::Apply { records, truncated },
            Ok(ReadOutcome::Gone(gone)) => TailStep::Rescan(gone),
            Err(e) => TailStep::Fail(e),
        },
{
    match outcome {
        Ok(ReadOutcome::Records { records, truncated }) => TailStep::Apply { records, truncated },
        Ok(ReadOutcome::Gone(gone)) => TailStep::Rescan(gone),
        Err(e) => TailStep::Fail(e),
    }
}

/// Whether a compacted copy may be installed.
#[derive(Clone, Copy, Debug, PartialEq, Eq, Structural)]
pub enum CompactionVerdict {
    /// Nothing changed since it was copied.
    Install,
    /// The index changed: installing the copy would lose that.
    Abort,
}

/// A copy made at content generation `copied_at` may be installed only where
/// that is the generation still.
pub fn compact_recheck(copied_at: u64, current: Option<u64>) -> (r: CompactionVerdict)
    ensures
        r == if current == Some(copied_at) {
            CompactionVerdict::Install
        } else {
            CompactionVerdict::Abort
        },
{
    match current {
        Some(generation) => {
            if generation == copied_at {
                CompactionVerdict::Install
            } else {
                CompactionVerdict::Abort
            }
        },
        None => CompactionVerdict::Abort,
    }
}

/// What a scan could not do.
#[derive(Clone, Copy, Debug, PartialEq, Eq, Structural)]
pub struct ScanDegradations {
    /// Records that are corrupt.
    pub corrupt_records: u64,
    /// Names that were never found.
    pub deferred_unresolved: u64,
    /// Fallbacks to the slower pipeline.
    pub pipeline_fallbacks: u64,
    /// Names that did not fit the cache.
    pub ext_name_cache_skipped: u64,
    /// Names whose records could not be read.
    pub deferred_name_read_failures: u64,
    /// Paths that could not be read.
    pub walk_read_errors: u64,
    /// Directories that lie too deep.
    pub walk_depth_truncated: u64,
}

/// A counter of degraded paths.
#[derive(Clone, Copy, Debug, PartialEq, Eq, Structural)]
pub enum CounterKind {
    /// Snapshots that could not be loaded.
    SnapshotLoadFailures,
    /// Corrupt records.
    CorruptMftRecords,
    /// Names that were never found.
    DeferredNamesUnresolved,
    /// Fallbacks to the slower pipeline.
    ScanPipelineFallbacks,
    /// Names that did not fit the cache.
    DeferredNameCacheOverflow,
    /// Names whose records could not be read.
    DeferredNameReadFailures,
    /// Paths that could not be read.
    WalkReadErrors,
    /// Directories that lie too deep.
    WalkDepthTruncated,
    /// Batches with a tail that is no record.
    UsnBatchesTruncated,
    /// Scans because the journal was gone.
    JournalRescans,
}

/// A count with `n` more; it wraps round at its end.
pub open spec fn wrapped(counter: u64, n: u64) -> u64 {
    ((counter + n) % 0x1_0000_0000_0000_0000) as u64
}

impl CounterKind {
    /// The counters with `n` more of this kind.
    pub open spec fn counted(&self, c: Counters, n: u64) -> Counters {
        match self {
            CounterKind::SnapshotLoadFailures => Counters {
                snapshot_load_failures: wrapped(c.snapshot_load_failures, n),
                ..c
            },
            CounterKind::CorruptMftRecords => Counters {
                corrupt_mft_records: wrapped(c.corrupt_mft_records, n),
                ..c
            },
            CounterKind::DeferredNamesUnresolved => Counters {
                deferred_names_unresolved: wrapped(c.deferred_names_unresolved, n),
                ..c
            },
            CounterKind::ScanPipelineFallbacks => Counters {
                scan_pipeline_fallbacks: wrapped(c.scan_pipeline_fallbacks, n),
                ..c
            },
            CounterKind::DeferredNameCacheOverflow => Counters {
                deferred_name_cache_overflow: wrapped(c.deferred_name_cache_overflow, n),
                ..c
            },
            CounterKind::DeferredNameReadFailures => Counters {
                deferred_name_read_failures: wrapped(c.deferred_name_read_failures, n),
                ..c
            },
            CounterKind::WalkReadErrors => Counters {
                walk_read_errors: wrapped(c.walk_read_errors, n),
                ..c
            },
            CounterKind::WalkDepthTruncated => Counters {
                walk_depth_truncated: wrapped(c.walk_depth_truncated, n),
                ..c
            },
            CounterKind::UsnBatchesTruncated => Counters {
                usn_batches_truncated: wrapped(c.usn_batches_truncated, n),
                ..c
            },
            CounterKind::JournalRescans => Counters {
                journal_rescans: wrapped(c.journal_rescans, n),
                ..c
            },
        }
    }

    /// Add to the counter of this kind.
    pub fn count(&self, counters: &mut Counters, n: u64)
        ensures
            *final(counters) == self.counted(*old(counters), n),
    {
        match self {
            CounterKind::SnapshotLoadFailures => Counters::add(&mut counters.snapshot_load_failures, n),
            CounterKind::CorruptMftRecords => Counters::add(&mut counters.corrupt_mft_records, n),
            CounterKind::DeferredNamesUnresolved => Counters::add(&mut counters.deferred_names_unresolved, n),
            CounterKind::ScanPipelineFallbacks => Counters::add(&mut counters.scan_pipeline_fallbacks, n),
            CounterKind::DeferredNameCacheOverflow => Counters::add(&mut counters.deferred_name_cache_overflow, n),
            CounterKind::DeferredNameReadFailures => Counters::add(&mut counters.deferred_name_read_failures, n),
            CounterKind::WalkReadErrors => Counters::add(&mut counters.walk_read_errors, n),
            CounterKind::WalkDepthTruncated => Counters::add(&mut counters.walk_depth_truncated, n),
            CounterKind::UsnBatchesTruncated => Counters::add(&mut counters.usn_batches_truncated, n),
            CounterKind::JournalRescans => Counters::add(&mut counters.journal_rescans, n),
        }
    }
}

/// A line of the log.
#[derive(Clone, Copy, Debug, PartialEq, Eq, Structural)]
pub enum WorkerNotice {
    /// The snapshot was restored.
    SnapshotRestored,
    /// The snapshot cannot be read.
    SnapshotUnusable,
    /// The journal does not reach back to the snapshot.
    CheckpointStale,
    /// The scan is complete.
    FullScanComplete,
    /// The cache of names was full.
    NameCacheFull,
    /// Names could not be read.
    NameReadsFailed,
    /// The walk skipped paths.
    WalkPathsSkipped,
    /// The walk did not go deeper.
    WalkDepthCapped,
    /// A batch had a tail that is no record.
    MalformedTail,
    /// The journal is gone.
    JournalGone(JournalGone),
}

/// Where the entries of an index came from.
#[derive(Clone, Copy, Debug, PartialEq, Eq, Structural)]
pub enum ScanSource {
    /// A snapshot.
    Snapshot,
    /// The volume.
    Scan,
}

/// What the worker does next.
#[derive(Clone, Copy, Debug, PartialEq, Eq, Structural)]
pub enum WorkerAction {
    /// Say whether the worker is to stop.
    AskStop,
    /// Open the journal and say whether that worked.
    OpenJournal,
    /// Load the snapshot and say how that went.
    LoadSnapshot,
    /// Query the journal and say what it is.
    QueryJournal,
    /// Read the journal on from a position.
    SeekJournal(i64),
    /// Let go of the snapshot that was loaded.
    DropSnapshot,
    /// Scan the volume and say how that went.
    ScanVolume,
    /// Give back what the new index does not use.
    ShrinkIndex,
    /// Add to a counter.
    Count(CounterKind, u64),
    /// Write to the log.
    Report(WorkerNotice),
    /// Record where the entries came from.
    RecordScan(ScanSource),
    /// Publish how many live entries the new index has.
    PublishScanned,
    /// Install the new index.
    InstallIndex,
    /// Publish the journal's position as the checkpoint.
    PublishCheckpoint,
    /// Take the checkpoint back.
    ClearCheckpoint,
    /// Publish the volume's state.
    SetState(VolumeState),
    /// Announce that the volume can be queried.
    EmitReady,
    /// Announce that the volume failed, with the reason of the last event.
    EmitFailed,
    /// Announce that the index changed.
    EmitIndexChanged,
    /// Announce that the volume is scanned again.
    EmitRescanStarted,
    /// Warm what queries need.
    Prewarm,
    /// Open the source of sizes and times and say whether that worked.
    OpenStats,
    /// Read the journal and say what came.
    ReadJournal,
    /// Apply the records that were read.
    ApplyBatch,
    /// Compact the index where that is due.
    MaybeCompact,
    /// Say how long ago changes were announced.
    AskQuiet,
    /// Write the snapshot with the journal's position.
    SaveSnapshot,
    /// Remove the snapshot.
    RemoveSnapshot,
}

/// What the worker is told.
#[derive(Clone, Copy, Debug)]
pub enum WorkerEvent {
    /// Whether it is to stop.
    Stop(bool),
    /// Whether the journal was opened.
    Opened(bool),
    /// The checkpoint of the snapshot that was loaded, or why none was.
    Loaded(Result<(u64, i64), SnapshotLoadError>),
    /// What the journal is; nothing where it could not be queried.
    Viewed(Option<JournalView>),
    /// What the scan could not do; nothing where it failed.
    Scanned(Option<ScanDegradations>),
    /// Whether the source of sizes and times was opened.
    StatsOpened(bool),
    /// A batch of so many records, with or without a tail that is no record.
    Batch(usize, bool),
    /// The journal is gone.
    Gone(JournalGone),
    /// The journal could not be read.
    ReadFailed,
    /// How many milliseconds ago changes were announced.
    Quiet(u64),
}

/// Where the worker stands.
#[derive(Clone, Copy, Debug, PartialEq, Eq, Structural)]
pub enum WorkerState {
    /// At the start of a round.
    Starting,
    /// The journal is being opened.
    Opening,
    /// The snapshot is being loaded.
    Loading,
    /// The snapshot's checkpoint is being held against the journal.
    Validating(u64, i64),
    /// The volume is being scanned.
    Scanning,
    /// The source of sizes and times is being opened.
    OpeningStats,
    /// Between two batches; whether changes were announced yet.
    Tailing(bool),
    /// The journal is being read.
    Reading(bool),
    /// A batch was applied.
    Applied(bool),
    /// The worker is done.
    Finished,
}

/// The event is of the kind that the state waits for.
pub open spec fn awaits(state: WorkerState, event: WorkerEvent) -> bool {
    match state {
        WorkerState::Starting => event is Stop,
        WorkerState::Opening => event is Opened,
        WorkerState::Loading => event is Loaded,
        WorkerState::Validating(_, _) => event is Viewed,
        WorkerState::Scanning => event is Scanned,
        WorkerState::OpeningStats => event is StatsOpened,
        WorkerState::Tailing(_) => event is Stop,
        WorkerState::Reading(_) => event is Batch || event is Gone || event is ReadFailed,
        WorkerState::Applied(_) => event is Quiet,
        WorkerState::Finished => false,
    }
}

/// The action that asks for the event that the state waits for.
pub open spec fn asks(state: WorkerState) -> WorkerAction {
    match state {
        WorkerState::Starting => WorkerAction::AskStop,
        WorkerState::Opening => WorkerAction::OpenJournal,
        WorkerState::Loading => WorkerAction::LoadSnapshot,
        WorkerState::Validating(_, _) => WorkerAction::QueryJournal,
        WorkerState::Scanning => WorkerAction::ScanVolume,
        WorkerState::OpeningStats => WorkerAction::OpenStats,
        WorkerState::Tailing(_) => WorkerAction::AskStop,
        WorkerState::Reading(_) => WorkerAction::ReadJournal,
        WorkerState::Applied(_) => WorkerAction::AskQuiet,
        WorkerState::Finished => WorkerAction::AskStop,
    }
}

/// What a new index takes.
pub open spec fn established() -> Seq<WorkerAction> {
    seq![
        WorkerAction::PublishScanned,
        WorkerAction::InstallIndex,
        WorkerAction::PublishCheckpoint,
        WorkerAction::SetState(VolumeState::Ready),
        WorkerAction::EmitReady,
        WorkerAction::Prewarm,
        WorkerAction::OpenStats,
    ]
}

/// What giving the volume up takes.
pub open spec fn given_up() -> Seq<WorkerAction> {
    seq![WorkerAction::SetState(VolumeState::Failed), WorkerAction::EmitFailed]
}

/// A degradation that is counted and reported together, or did not happen.
pub open spec fn degraded(kind: CounterKind, n: u64, notice: WorkerNotice) -> Seq<WorkerAction> {
    if n > 0 {
        seq![WorkerAction::Count(kind, n), WorkerAction::Report(notice)]
    } else {
        Seq::empty()
    }
}

/// What a scan's degradations take.
pub open spec fn degradations(s: ScanDegradations) -> Seq<WorkerAction> {
    seq![
        WorkerAction::Report(WorkerNotice::FullScanComplete),
        WorkerAction::ShrinkIndex,
        WorkerAction::Count(CounterKind::CorruptMftRecords, s.corrupt_records),
        WorkerAction::Count(CounterKind::DeferredNamesUnresolved, s.deferred_unresolved),
        WorkerAction::Count(CounterKind::ScanPipelineFallbacks, s.pipeline_fallbacks),
    ] + degraded(
        CounterKind::DeferredNameCacheOverflow,
        s.ext_name_cache_skipped,
        WorkerNotice::NameCacheFull,
    ) + degraded(
        CounterKind::DeferredNameReadFailures,
        s.deferred_name_read_failures,
        WorkerNotice::NameReadsFailed,
    ) + degraded(
        CounterKind::WalkReadErrors,
        s.walk_read_errors,
        WorkerNotice::WalkPathsSkipped,
    ) + degraded(
        CounterKind::WalkDepthTruncated,
        s.walk_depth_truncated,
        WorkerNotice::WalkDepthCapped,
    )
}

/// What a scan takes before it starts.
pub open spec fn rejected(reason: FullScanReason) -> Seq<WorkerAction> {
    (match reason {
        FullScanReason::SnapshotUnusable => seq![
            WorkerAction::Count(CounterKind::SnapshotLoadFailures, 1),
            WorkerAction::Report(WorkerNotice::SnapshotUnusable),
        ],
        FullScanReason::CheckpointStale => seq![
            WorkerAction::Report(WorkerNotice::CheckpointStale),
        ],
        _ => Seq::<WorkerAction>::empty(),
    }) + seq![WorkerAction::DropSnapshot, WorkerAction::ScanVolume]
}

/// What a decision on the snapshot takes.
pub open spec fn decision_actions(decision: SnapshotDecision, next_usn: i64) -> Seq<WorkerAction> {
    match decision {
        SnapshotDecision::Restore => seq![
            WorkerAction::SeekJournal(next_usn),
            WorkerAction::Report(WorkerNotice::SnapshotRestored),
            WorkerAction::RecordScan(ScanSource::Snapshot),
        ] + established(),
        SnapshotDecision::FullScan(reason) => rejected(reason),
    }
}

/// Where a decision on the snapshot leads.
pub open spec fn decision_state(decision: SnapshotDecision) -> WorkerState {
    match decision {
        SnapshotDecision::Restore => WorkerState::OpeningStats,
        SnapshotDecision::FullScan(_) => WorkerState::Scanning,
    }
}

/// Changes are announced: never before in this round, or long enough ago.
pub open spec fn announces(announced: bool, quiet_ms: u64) -> bool {
    !announced || quiet_ms >= INDEX_CHANGED_DEBOUNCE_MS
}

/// Where an event leads.
pub open spec fn next_state(state: WorkerState, event: WorkerEvent) -> WorkerState {
    match (state, event) {
        (WorkerState::Starting, WorkerEvent::Stop(false)) => WorkerState::Opening,
        (WorkerState::Opening, WorkerEvent::Opened(true)) => WorkerState::Loading,
        (WorkerState::Loading, WorkerEvent::Loaded(load)) => match load {
            Ok((journal_id, next_usn)) => WorkerState::Validating(journal_id, next_usn),
            Err(_) => decision_state(decided(load, None)),
        },
        (
            WorkerState::Validating(journal_id, next_usn),
            WorkerEvent::Viewed(view),
        ) => decision_state(decided(Ok((journal_id, next_usn)), view)),
        (WorkerState::Scanning, WorkerEvent::Scanned(Some(_))) => WorkerState::OpeningStats,
        (WorkerState::OpeningStats, WorkerEvent::StatsOpened(true)) => WorkerState::Tailing(false),
        (WorkerState::Tailing(announced), WorkerEvent::Stop(false)) => WorkerState::Reading(
            announced,
        ),
        (WorkerState::Reading(announced), WorkerEvent::Batch(n, _)) => if n == 0 {
            WorkerState::Tailing(announced)
        } else {
            WorkerState::Applied(announced)
        },
        (WorkerState::Reading(_), WorkerEvent::Gone(_)) => WorkerState::Starting,
        (WorkerState::Applied(_), WorkerEvent::Quiet(_)) => WorkerState::Tailing(true),
        _ => WorkerState::Finished,
    }
}

/// What an event takes, in order.
pub open spec fn actions(state: WorkerState, event: WorkerEvent) -> Seq<WorkerAction> {
    match (state, event) {
        (WorkerState::Starting, WorkerEvent::Stop(stop)) => if stop {
            Seq::empty()
        } else {
            seq![WorkerAction::OpenJournal]
        },
        (WorkerState::Opening, WorkerEvent::Opened(opened)) => if opened {
            seq![WorkerAction::LoadSnapshot]
        } else {
            given_up()
        },
        (WorkerState::Loading, WorkerEvent::Loaded(load)) => match load {
            Ok(_) => seq![WorkerAction::QueryJournal],
            Err(_) => decision_actions(decided(load, None), 0),
        },
        (
            WorkerState::Validating(journal_id, next_usn),
            WorkerEvent::Viewed(view),
        ) => decision_actions(decided(Ok((journal_id, next_usn)), view), next_usn),
        (WorkerState::Scanning, WorkerEvent::Scanned(scan)) => match scan {
            Some(s) => degradations(s) + seq![WorkerAction::RecordScan(ScanSource::Scan)]
                + established(),
            None => given_up(),
        },
        (WorkerState::OpeningStats, WorkerEvent::StatsOpened(opened)) => if opened {
            seq![WorkerAction::AskStop]
        } else {
            seq![WorkerAction::EmitFailed]
        },
        (WorkerState::Tailing(_), WorkerEvent::Stop(stop)) => if stop {
            seq![WorkerAction::SaveSnapshot]
        } else {
            seq![WorkerAction::ReadJournal]
        },
        (WorkerState::Reading(_), WorkerEvent::Batch(n, truncated)) => degraded(
            CounterKind::UsnBatchesTruncated,
            if truncated {
                1
            } else {
                0
            },
            WorkerNotice::MalformedTail,
        ) + if n == 0 {
            seq![WorkerAction::AskStop]
        } else {
            seq![
                WorkerAction::ApplyBatch,
                WorkerAction::PublishCheckpoint,
                WorkerAction::MaybeCompact,
                WorkerAction::AskQuiet,
            ]
        },
        (WorkerState::Reading(_), WorkerEvent::Gone(gone)) => seq![
            WorkerAction::Count(CounterKind::JournalRescans, 1),
            WorkerAction::Report(WorkerNotice::JournalGone(gone)),
            WorkerAction::ClearCheckpoint,
            WorkerAction::SetState(VolumeState::Rescanning),
            WorkerAction::EmitRescanStarted,
            WorkerAction::RemoveSnapshot,
            WorkerAction::AskStop,
        ],
        (WorkerState::Reading(_), WorkerEvent::ReadFailed) => given_up(),
        (WorkerState::Applied(announced), WorkerEvent::Quiet(ms)) => if announces(announced, ms) {
            seq![WorkerAction::EmitIndexChanged, WorkerAction::AskStop]
        } else {
            seq![WorkerAction::AskStop]
        },
        _ => Seq::empty(),
    }
}

fn push_established(out: &mut Vec<WorkerAction>)
    ensures
        final(out)@ == old(out)@ + established(),
{
    let ghost start = out@;
    out.push(WorkerAction::PublishScanned);
    out.push(WorkerAction::InstallIndex);
    out.push(WorkerAction::PublishCheckpoint);
    out.push(WorkerAction::SetState(VolumeState::Ready));
    out.push(WorkerAction::EmitReady);
    out.push(WorkerAction::Prewarm);
    out.push(WorkerAction::OpenStats);
    assert(out@ =~= start + established());
}

fn push_given_up(out: &mut Vec<WorkerAction>)
    ensures
        final(out)@ == old(out)@ + given_up(),
{
    let ghost start = out@;
    out.push(WorkerAction::SetState(VolumeState::Failed));
    out.push(WorkerAction::EmitFailed);
    assert(out@ =~= start + given_up());
}

fn push_degraded(out: &mut Vec<WorkerAction>, kind: CounterKind, n: u64, notice: WorkerNotice)
    ensures
        final(out)@ == old(out)@ + degraded(kind, n, notice),
{
    let ghost start = out@;
    if n > 0 {
        out.push(WorkerAction::Count(kind, n));
        out.push(WorkerAction::Report(notice));
    }
    assert(out@ =~= start + degraded(kind, n, notice));
}

fn push_degradations(out: &mut Vec<WorkerAction>, s: ScanDegradations)
    ensures
        final(out)@ == old(out)@ + degradations(s),
{
    let ghost start = out@;
    out.push(WorkerAction::Report(WorkerNotice::FullScanComplete));
    out.push(WorkerAction::ShrinkIndex);
    out.push(WorkerAction::Count(CounterKind::CorruptMftRecords, s.corrupt_records));
    out.push(WorkerAction::Count(CounterKind::DeferredNamesUnresolved, s.deferred_unresolved));
    out.push(WorkerAction::Count(CounterKind::ScanPipelineFallbacks, s.pipeline_fallbacks));
    push_degraded(
        out,
        CounterKind::DeferredNameCacheOverflow,
        s.ext_name_cache_skipped,
        WorkerNotice::NameCacheFull,
    );
    push_degraded(
        out,
        CounterKind::DeferredNameReadFailures,
        s.deferred_name_read_failures,
        WorkerNotice::NameReadsFailed,
    );
    push_degraded(
        out,
        CounterKind::WalkReadErrors,
        s.walk_read_errors,
        WorkerNotice::WalkPathsSkipped,
    );
    push_degraded(
        out,
        CounterKind::WalkDepthTruncated,
        s.walk_depth_truncated,
        WorkerNotice::WalkDepthCapped,
    );
    assert(out@ =~= start + degradations(s));
}

fn push_decision(out: &mut Vec<WorkerAction>, decision: SnapshotDecision, next_usn: i64) -> (r:
    WorkerState)
    ensures
        final(out)@ == old(out)@ + decision_actions(decision, next_usn),
        r == decision_state(decision),
{
    let ghost start = out@;
    match decision {
        SnapshotDecision::Restore => {
            out.push(WorkerAction::SeekJournal(next_usn));
            out.push(WorkerAction::Report(WorkerNotice::SnapshotRestored));
            out.push(WorkerAction::RecordScan(ScanSource::Snapshot));
            push_established(out);
            assert(out@ =~= start + decision_actions(decision, next_usn));
            WorkerState::OpeningStats
        },
        SnapshotDecision::FullScan(reason) => {
            match reason {
                FullScanReason::SnapshotUnusable => {
                    out.push(WorkerAction::Count(CounterKind::SnapshotLoadFailures, 1));
                    out.push(WorkerAction::Report(WorkerNotice::SnapshotUnusable));
                },
                FullScanReason::CheckpointStale => {
                    out.push(WorkerAction::Report(WorkerNotice::CheckpointStale));
                },
                FullScanReason::FirstRun | FullScanReason::JournalQueryFailed => {},
            }
            out.push(WorkerAction::DropSnapshot);
            out.push(WorkerAction::ScanVolume);
            assert(out@ =~= start + decision_actions(decision, next_usn));
            WorkerState::Scanning
        },
    }
}

fn push_batch(out: &mut Vec<WorkerAction>, announced: bool, n: usize, truncated: bool) -> (r:
    WorkerState)
    ensures
        final(out)@ == old(out)@ + actions(
            WorkerState::Reading(announced),
            WorkerEvent::Batch(n, truncated),
        ),
        r == next_state(WorkerState::Reading(announced), WorkerEvent::Batch(n, truncated)),
{
    let ghost start = out@;
    let bad: u64 = if truncated {
        1
    } else {
        0
    };
    push_degraded(out, CounterKind::UsnBatchesTruncated, bad, WorkerNotice::MalformedTail);
    if n == 0 {
        out.push(WorkerAction::AskStop);
    } else {
        out.push(WorkerAction::ApplyBatch);
        out.push(WorkerAction::PublishCheckpoint);
        out.push(WorkerAction::MaybeCompact);
        out.push(WorkerAction::AskQuiet);
    }
    assert(out@ =~= start + actions(
        WorkerState::Reading(announced),
        WorkerEvent::Batch(n, truncated),
    ));
    if n == 0 {
        WorkerState::Tailing(announced)
    } else {
        WorkerState::Applied(announced)
    }
}

fn push_gone(out: &mut Vec<WorkerAction>, announced: bool, gone: JournalGone)
    ensures
        final(out)@ == old(out)@ + actions(
            WorkerState::Reading(announced),
            WorkerEvent::Gone(gone),
        ),
{
    let ghost start = out@;
    out.push(WorkerAction::Count(CounterKind::JournalRescans, 1));
    out.push(WorkerAction::Report(WorkerNotice::JournalGone(gone)));
    out.push(WorkerAction::ClearCheckpoint);
    out.push(WorkerAction::SetState(VolumeState::Rescanning));
    out.push(WorkerAction::EmitRescanStarted);
    out.push(WorkerAction::RemoveSnapshot);
    out.push(WorkerAction::AskStop);
    assert(out@ =~= start + actions(WorkerState::Reading(announced), WorkerEvent::Gone(gone)));
}

/// One step of the worker: where an event leads, and what is to be done, in
/// order.
pub fn step(state: WorkerState, event: WorkerEvent) -> (r: (WorkerState, Vec<WorkerAction>))
    requires
        awaits(state, event),
    ensures
        r.0 == next_state(state, event),
        r.1@ == actions(state, event),
        state is Tailing && event == WorkerEvent::Stop(true) ==> r.0 == WorkerState::Finished
            && r.1@.contains(WorkerAction::SaveSnapshot),
        r.0 == WorkerState::Finished && state != WorkerState::Starting ==> r.1@.contains(
            WorkerAction::SaveSnapshot,
        ) || r.1@.contains(WorkerAction::EmitFailed),
{
    proof {
        if next_state(state, event) == WorkerState::Finished {
            super::duties::lemma_how_it_ends(state, event);
        }
        super::duties::lemma_stop_saves(true);
        super::duties::lemma_stop_saves(false);
    }
    let mut out: Vec<WorkerAction> = Vec::new();
    let next: WorkerState = match (state, event) {
        (WorkerState::Starting, WorkerEvent::Stop(stop)) => {
            if stop {
                WorkerState::Finished
            } else {
                out.push(WorkerAction::OpenJournal);
                WorkerState::Opening
            }
        },
        (WorkerState::Opening, WorkerEvent::Opened(opened)) => {
            if opened {
                out.push(WorkerAction::LoadSnapshot);
                WorkerState::Loading
            } else {
                push_given_up(&mut out);
                WorkerState::Finished
            }
        },
        (WorkerState::Loading, WorkerEvent::Loaded(load)) => match load {
            Ok((journal_id, next_usn)) => {
                out.push(WorkerAction::QueryJournal);
                WorkerState::Validating(journal_id, next_usn)
            },
            Err(_) => push_decision(&mut out, snapshot_decision(load, None), 0),
        },
        (
            WorkerState::Validating(journal_id, next_usn),
            WorkerEvent::Viewed(view),
        ) => push_decision(
            &mut out,
            snapshot_decision(Ok((journal_id, next_usn)), view),
            next_usn,
        ),
        (WorkerState::Scanning, WorkerEvent::Scanned(scan)) => match scan {
            Some(s) => {
                push_degradations(&mut out, s);
                out.push(WorkerAction::RecordScan(ScanSource::Scan));
                push_established(&mut out);
                WorkerState::OpeningStats
            },
            None => {
                push_given_up(&mut out);
                WorkerState::Finished
            },
        },
        (WorkerState::OpeningStats, WorkerEvent::StatsOpened(opened)) => {
            if opened {
                out.push(WorkerAction::AskStop);
                WorkerState::Tailing(false)
            } else {
                out.push(WorkerAction::EmitFailed);
                WorkerState::Finished
            }
        },
        (WorkerState::Tailing(announced), WorkerEvent::Stop(stop)) => {
            if stop {
                out.push(WorkerAction::SaveSnapshot);
                WorkerState::Finished
            } else {
                out.push(WorkerAction::ReadJournal);
                WorkerState::Reading(announced)
            }
        },
        (WorkerState::Reading(announced), WorkerEvent::Batch(n, truncated)) => push_batch(
            &mut out,
            announced,
            n,
            truncated,
        ),
        (WorkerState::Reading(announced), WorkerEvent::Gone(gone)) => {
            push_gone(&mut out, announced, gone);
            WorkerState::Starting
        },
        (WorkerState::Reading(_), WorkerEvent::ReadFailed) => {
            push_given_up(&mut out);
            WorkerState::Finished
        },
        (WorkerState::Applied(announced), WorkerEvent::Quiet(ms)) => {
            if !announced || ms >= INDEX_CHANGED_DEBOUNCE_MS {
                out.push(WorkerAction::EmitIndexChanged);
            }
            out.push(WorkerAction::AskStop);
            WorkerState::Tailing(true)
        },
        _ => WorkerState::Finished,
    };
    assert(out@ =~= actions(state, event));
    (next, out)
}

/// What a worker that crashed takes: the volume is given up, visibly.
pub fn crashed() -> (r: Vec<WorkerAction>)
    ensures
        r@ == given_up(),
{
    let mut out: Vec<WorkerAction> = Vec::new();
    push_given_up(&mut out);
    assert(out@ =~= given_up());
    out
}

/// The worker never gets stuck: after every event it is done, or its last
/// action asks for what it waits for.
pub proof fn lemma_never_stuck(state: WorkerState, event: WorkerEvent)
    requires
        awaits(state, event),
    ensures
        next_state(state, event) == WorkerState::Finished || (actions(state, event).len() > 0
            && actions(state, event).last() == asks(next_state(state, event))),
{
    assert(established().last() == WorkerAction::OpenStats);
}

/// The checkpoint is published only behind the change of the index that it
/// goes with: a snapshot written meanwhile is never newer than it says.
pub proof fn lemma_checkpoint_after_index(state: WorkerState, event: WorkerEvent, i: int)
    requires
        awaits(state, event),
        0 <= i < actions(state, event).len(),
        actions(state, event)[i] == WorkerAction::PublishCheckpoint,
    ensures
        i > 0,
        actions(state, event)[i - 1] == WorkerAction::ApplyBatch || actions(state, event)[i - 1]
            == WorkerAction::InstallIndex,
{
}

/// A volume is given up only with an announcement right behind it.
#[verifier::spinoff_prover]
#[verifier::rlimit(40)]
pub proof fn lemma_failure_is_announced(state: WorkerState, event: WorkerEvent, i: int)
    requires
        awaits(state, event),
        0 <= i < actions(state, event).len(),
        actions(state, event)[i] == WorkerAction::SetState(VolumeState::Failed),
    ensures
        i + 1 < actions(state, event).len(),
        actions(state, event)[i + 1] == WorkerAction::EmitFailed,
        next_state(state, event) == WorkerState::Finished,
{
}

/// A volume becomes ready only behind an installed index and a published
/// checkpoint.
pub proof fn lemma_ready_has_index(state: WorkerState, event: WorkerEvent, i: int)
    requires
        awaits(state, event),
        0 <= i < actions(state, event).len(),
        actions(state, event)[i] == WorkerAction::SetState(VolumeState::Ready),
    ensures
        i >= 2,
        actions(state, event)[i - 1] == WorkerAction::PublishCheckpoint,
        actions(state, event)[i - 2] == WorkerAction::InstallIndex,
{
}

/// Where the journal is gone, its checkpoint is taken back before anything
/// else is published, its snapshot is removed, and the volume starts over.
pub proof fn lemma_gone_starts_over(announced: bool, gone: JournalGone)
    ensures
        ({
            let a = actions(WorkerState::Reading(announced), WorkerEvent::Gone(gone));
            &&& a[2] == WorkerAction::ClearCheckpoint
            &&& a[3] == WorkerAction::SetState(VolumeState::Rescanning)
            &&& a.contains(WorkerAction::RemoveSnapshot)
            &&& !a.contains(WorkerAction::PublishCheckpoint)
            &&& next_state(WorkerState::Reading(announced), WorkerEvent::Gone(gone))
                == WorkerState::Starting
        }),
{
    let a = actions(WorkerState::Reading(announced), WorkerEvent::Gone(gone));
    assert(a[5] == WorkerAction::RemoveSnapshot);
}

} // verus!
