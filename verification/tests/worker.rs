//! The worker of one volume, driven by scripts.

use fmf_core::engine::worker::{
    compact_recheck, crashed, journal_gone_action, snapshot_decision, step, CompactionVerdict,
    CounterKind, FullScanReason, JournalGone, JournalView, ReadOutcome, ScanDegradations,
    ScanSource, SnapshotDecision, SnapshotLoadError, TailStep, UsnError, UsnRecord, WorkerAction,
    WorkerEvent, WorkerNotice, WorkerState,
};
use fmf_core::engine::VolumeState;
use fmf_core::metrics::Counters;
use std::io::ErrorKind;

fn load_error(kind: ErrorKind) -> SnapshotLoadError {
    match kind {
        ErrorKind::NotFound => SnapshotLoadError::NotFound,
        _ => SnapshotLoadError::Unusable,
    }
}

#[test]
fn snapshot_decision_table() {
    let view = JournalView { journal_id: 7, first_usn: 100 };

    // Missing snapshot is the normal first run, not a failure.
    assert_eq!(
        snapshot_decision(Err(load_error(ErrorKind::NotFound)), None),
        SnapshotDecision::FullScan(FullScanReason::FirstRun)
    );
    // Any other load error is a corrupt/unreadable snapshot.
    assert_eq!(
        snapshot_decision(Err(load_error(ErrorKind::InvalidData)), None),
        SnapshotDecision::FullScan(FullScanReason::SnapshotUnusable)
    );
    assert_eq!(
        snapshot_decision(Err(load_error(ErrorKind::PermissionDenied)), None),
        SnapshotDecision::FullScan(FullScanReason::SnapshotUnusable)
    );
    // Loaded but the journal couldn't be queried: don't trust the cursor.
    assert_eq!(
        snapshot_decision(Ok((7, 100)), None),
        SnapshotDecision::FullScan(FullScanReason::JournalQueryFailed)
    );
    // Journal id changed under the snapshot.
    assert_eq!(
        snapshot_decision(Ok((6, 100)), Some(view)),
        SnapshotDecision::FullScan(FullScanReason::CheckpointStale)
    );
    // Cursor already purged from the journal (next < first).
    assert_eq!(
        snapshot_decision(Ok((7, 99)), Some(view)),
        SnapshotDecision::FullScan(FullScanReason::CheckpointStale)
    );
    // Boundary: a cursor exactly at the oldest retained USN replays fine.
    assert_eq!(snapshot_decision(Ok((7, 100)), Some(view)), SnapshotDecision::Restore);
    assert_eq!(snapshot_decision(Ok((7, 101)), Some(view)), SnapshotDecision::Restore);
    // A walked volume is always restored.
    assert_eq!(
        snapshot_decision(Ok((0, -5)), Some(JournalView::scope())),
        SnapshotDecision::Restore
    );
}

fn usn_create(frn_low: u64, name: &str) -> UsnRecord {
    UsnRecord {
        usn: 0,
        frn: (1 << 48) | frn_low,
        parent_frn: 5,
        reason: 0x8000_0100,
        attributes: 0x20,
        name: name.encode_utf16().collect(),
    }
}

#[test]
fn journal_gone_action_maps_every_outcome() {
    let rec = usn_create(200, "x.txt");
    match journal_gone_action(Ok(ReadOutcome::Records {
        records: vec![rec.clone()],
        truncated: true,
    })) {
        TailStep::Apply { records, truncated } => {
            assert_eq!(records, vec![rec]);
            assert!(truncated, "the malformed-tail flag must survive");
        }
        _ => panic!("records must map to Apply"),
    }
    for gone in [
        JournalGone::EntryDeleted,
        JournalGone::DeleteInProgress,
        JournalGone::NotActive,
        JournalGone::IdMismatch,
    ] {
        match journal_gone_action(Ok(ReadOutcome::Gone(gone))) {
            TailStep::Rescan(g) => assert_eq!(g, gone),
            _ => panic!("every JournalGone variant must map to Rescan"),
        }
    }
    assert!(matches!(journal_gone_action(Err(UsnError::Fsctl(5))), TailStep::Fail(_)));
}

#[test]
fn compact_recheck_table() {
    assert_eq!(compact_recheck(42, Some(42)), CompactionVerdict::Install);
    assert_eq!(compact_recheck(42, Some(43)), CompactionVerdict::Abort);
    assert_eq!(compact_recheck(42, None), CompactionVerdict::Abort);
}

/// Feed a script to a worker from its start.
fn run(events: &[WorkerEvent]) -> (WorkerState, Vec<WorkerAction>) {
    let mut state = WorkerState::Starting;
    let mut all = Vec::new();
    for &event in events {
        let (next, actions) = step(state, event);
        state = next;
        all.extend(actions);
    }
    (state, all)
}

const RESTORE: [WorkerEvent; 5] = [
    WorkerEvent::Stop(false),
    WorkerEvent::Opened(true),
    WorkerEvent::Loaded(Ok((7, 50))),
    WorkerEvent::Viewed(Some(JournalView { journal_id: 7, first_usn: 10 })),
    WorkerEvent::StatsOpened(true),
];

#[test]
fn corrupt_snapshot_counts_and_degrades_to_full_scan() {
    let (state, actions) = run(&[
        WorkerEvent::Stop(false),
        WorkerEvent::Opened(true),
        WorkerEvent::Loaded(Err(SnapshotLoadError::Unusable)),
        WorkerEvent::Scanned(None),
    ]);
    assert_eq!(
        actions,
        vec![
            WorkerAction::OpenJournal,
            WorkerAction::LoadSnapshot,
            WorkerAction::Count(CounterKind::SnapshotLoadFailures, 1),
            WorkerAction::Report(WorkerNotice::SnapshotUnusable),
            WorkerAction::DropSnapshot,
            WorkerAction::ScanVolume,
            WorkerAction::SetState(VolumeState::Failed),
            WorkerAction::EmitFailed,
        ],
        "a failed load must not ask the journal"
    );
    assert_eq!(state, WorkerState::Finished);
}

#[test]
fn journal_gone_rescans_and_returns_to_ready() {
    let (state, first) = run(&RESTORE);
    assert_eq!(state, WorkerState::Tailing(false));
    assert_eq!(
        first,
        vec![
            WorkerAction::OpenJournal,
            WorkerAction::LoadSnapshot,
            WorkerAction::QueryJournal,
            WorkerAction::SeekJournal(50),
            WorkerAction::Report(WorkerNotice::SnapshotRestored),
            WorkerAction::RecordScan(ScanSource::Snapshot),
            WorkerAction::PublishScanned,
            WorkerAction::InstallIndex,
            WorkerAction::PublishCheckpoint,
            WorkerAction::SetState(VolumeState::Ready),
            WorkerAction::EmitReady,
            WorkerAction::Prewarm,
            WorkerAction::OpenStats,
            WorkerAction::AskStop,
        ]
    );
    let mut script = RESTORE.to_vec();
    script.push(WorkerEvent::Stop(false));
    script.push(WorkerEvent::Gone(JournalGone::EntryDeleted));
    let (state, actions) = run(&script);
    assert_eq!(state, WorkerState::Starting);
    assert_eq!(
        actions[first.len()..],
        [
            WorkerAction::ReadJournal,
            WorkerAction::Count(CounterKind::JournalRescans, 1),
            WorkerAction::Report(WorkerNotice::JournalGone(JournalGone::EntryDeleted)),
            WorkerAction::ClearCheckpoint,
            WorkerAction::SetState(VolumeState::Rescanning),
            WorkerAction::EmitRescanStarted,
            WorkerAction::RemoveSnapshot,
            WorkerAction::AskStop,
        ]
    );
    script.extend_from_slice(&RESTORE);
    script.push(WorkerEvent::Stop(true));
    let (state, actions) = run(&script);
    assert_eq!(state, WorkerState::Finished);
    assert_eq!(actions.last(), Some(&WorkerAction::SaveSnapshot));
    assert_eq!(actions.iter().filter(|a| **a == WorkerAction::EmitReady).count(), 2);
}

#[test]
fn batches_are_applied_before_their_checkpoint_and_announced_with_a_pause() {
    let mut script = RESTORE.to_vec();
    let base = run(&script).1.len();
    for (n, quiet) in [(3, 0), (1, 199), (1, 200)] {
        script.push(WorkerEvent::Stop(false));
        script.push(WorkerEvent::Batch(n, false));
        script.push(WorkerEvent::Quiet(quiet));
    }
    script.push(WorkerEvent::Stop(false));
    script.push(WorkerEvent::Batch(0, true));
    let (state, actions) = run(&script);
    assert_eq!(state, WorkerState::Tailing(true));
    let batch = [
        WorkerAction::ReadJournal,
        WorkerAction::ApplyBatch,
        WorkerAction::PublishCheckpoint,
        WorkerAction::MaybeCompact,
        WorkerAction::AskQuiet,
    ];
    let mut want = Vec::new();
    want.extend_from_slice(&batch);
    want.extend([WorkerAction::EmitIndexChanged, WorkerAction::AskStop]);
    want.extend_from_slice(&batch);
    want.extend([WorkerAction::AskStop]);
    want.extend_from_slice(&batch);
    want.extend([WorkerAction::EmitIndexChanged, WorkerAction::AskStop]);
    want.extend([
        WorkerAction::ReadJournal,
        WorkerAction::Count(CounterKind::UsnBatchesTruncated, 1),
        WorkerAction::Report(WorkerNotice::MalformedTail),
        WorkerAction::AskStop,
    ]);
    assert_eq!(actions[base..], want);
}

#[test]
fn a_scan_reports_exactly_what_it_could_not_do() {
    let (state, actions) = run(&[
        WorkerEvent::Stop(false),
        WorkerEvent::Opened(true),
        WorkerEvent::Loaded(Err(SnapshotLoadError::NotFound)),
        WorkerEvent::Scanned(Some(ScanDegradations {
            corrupt_records: 0,
            deferred_unresolved: 2,
            pipeline_fallbacks: 1,
            ext_name_cache_skipped: 0,
            deferred_name_read_failures: 4,
            walk_read_errors: 0,
            walk_depth_truncated: 6,
        })),
    ]);
    assert_eq!(state, WorkerState::OpeningStats);
    assert_eq!(
        actions[2..15],
        [
            WorkerAction::DropSnapshot,
            WorkerAction::ScanVolume,
            WorkerAction::Report(WorkerNotice::FullScanComplete),
            WorkerAction::ShrinkIndex,
            WorkerAction::Count(CounterKind::CorruptMftRecords, 0),
            WorkerAction::Count(CounterKind::DeferredNamesUnresolved, 2),
            WorkerAction::Count(CounterKind::ScanPipelineFallbacks, 1),
            WorkerAction::Count(CounterKind::DeferredNameReadFailures, 4),
            WorkerAction::Report(WorkerNotice::NameReadsFailed),
            WorkerAction::Count(CounterKind::WalkDepthTruncated, 6),
            WorkerAction::Report(WorkerNotice::WalkDepthCapped),
            WorkerAction::RecordScan(ScanSource::Scan),
            WorkerAction::PublishScanned,
        ]
    );
}

#[test]
fn failures_are_announced() {
    let given_up = [WorkerAction::SetState(VolumeState::Failed), WorkerAction::EmitFailed];
    assert_eq!(crashed(), given_up);
    let (state, actions) = step(WorkerState::Opening, WorkerEvent::Opened(false));
    assert_eq!((state, actions.as_slice()), (WorkerState::Finished, &given_up[..]));
    let (state, actions) = step(WorkerState::Reading(true), WorkerEvent::ReadFailed);
    assert_eq!((state, actions.as_slice()), (WorkerState::Finished, &given_up[..]));
    let (state, actions) = step(WorkerState::OpeningStats, WorkerEvent::StatsOpened(false));
    assert_eq!(state, WorkerState::Finished);
    assert_eq!(actions, vec![WorkerAction::EmitFailed]);
    let (state, actions) = step(WorkerState::Starting, WorkerEvent::Stop(true));
    assert_eq!(state, WorkerState::Finished);
    assert!(actions.is_empty());
    let (state, actions) =
        step(WorkerState::Validating(7, 5), WorkerEvent::Viewed(Some(JournalView {
            journal_id: 7,
            first_usn: 6,
        })));
    assert_eq!(state, WorkerState::Scanning);
    assert_eq!(actions[0], WorkerAction::Report(WorkerNotice::CheckpointStale));
    let (_, actions) = step(WorkerState::Validating(7, 5), WorkerEvent::Viewed(None));
    assert_eq!(actions[0], WorkerAction::DropSnapshot);
    assert_eq!(
        UsnError::Fsctl(5).message(),
        "journal control request failed with code 5"
    );
}

#[test]
fn every_kind_has_a_counter_of_its_own() {
    let kinds = [
        CounterKind::SnapshotLoadFailures,
        CounterKind::CorruptMftRecords,
        CounterKind::DeferredNamesUnresolved,
        CounterKind::ScanPipelineFallbacks,
        CounterKind::DeferredNameCacheOverflow,
        CounterKind::DeferredNameReadFailures,
        CounterKind::WalkReadErrors,
        CounterKind::WalkDepthTruncated,
        CounterKind::UsnBatchesTruncated,
        CounterKind::JournalRescans,
    ];
    let mut c = Counters::default();
    for (i, kind) in kinds.iter().enumerate() {
        kind.count(&mut c, 10 + i as u64);
    }
    assert_eq!(
        c,
        Counters {
            snapshot_load_failures: 10,
            corrupt_mft_records: 11,
            deferred_names_unresolved: 12,
            scan_pipeline_fallbacks: 13,
            deferred_name_cache_overflow: 14,
            deferred_name_read_failures: 15,
            walk_read_errors: 16,
            walk_depth_truncated: 17,
            usn_batches_truncated: 18,
            journal_rescans: 19,
            ..Default::default()
        }
    );
}
