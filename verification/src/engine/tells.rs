//! What the engine answers and decides.

use vstd::prelude::*;
use crate::index::columns::VolumeIndex;
use crate::index::EntryId;
use crate::order::{bytes_lt, compare_bytes, lemma_bytes_total, Order};
use super::results::{ResultSet, Row};
use super::search::{
    check_query_length, compare_entries, may_refine, validate_merge_index, SearchedAt, SortOrder,
};
use super::volume::{is_fixed_ntfs, is_valid_volume_label, status, JournalCheckpoint, VolumeSlot};
use super::worker::{
    compact_recheck, crashed, journal_gone_action, snapshot_decision, step, CompactionVerdict,
    JournalView, ReadOutcome, SnapshotDecision, SnapshotLoadError, TailStep, UsnError,
    WorkerAction, WorkerEvent, WorkerState,
};
use super::{ContractLimits, EngineError, EngineEvent, EventKind, FmfEvent, VolumeState};
use crate::index::SortKey;

verus! {

/// A worker that is told to stop while it follows the journal is told to save
/// its snapshot, whatever it announced, and ends.
pub proof fn lemma_step_saves(
    announced: bool,
    r: (WorkerState, Vec<WorkerAction>),
)
    requires
        call_ensures(step, (WorkerState::Tailing(announced), WorkerEvent::Stop(true)), r),
    ensures
        r.1@.contains(WorkerAction::SaveSnapshot),
        r.0 == WorkerState::Finished,
{
    super::duties::lemma_stop_saves(announced);
}

/// A step of the worker that ends it saves the snapshot or announces a
/// failure, unless nothing was opened yet.
pub proof fn lemma_step_ends(
    state: WorkerState,
    event: WorkerEvent,
    r: (WorkerState, Vec<WorkerAction>),
)
    requires
        super::worker::awaits(state, event),
        call_ensures(step, (state, event), r),
        r.0 == WorkerState::Finished,
        state != WorkerState::Starting,
    ensures
        r.1@.contains(WorkerAction::SaveSnapshot) || r.1@.contains(WorkerAction::EmitFailed),
{
    super::duties::lemma_how_it_ends(state, event);
}

/// A worker that crashed gives the volume up, visibly.
pub proof fn lemma_crash_is_announced(r: Vec<WorkerAction>)
    requires
        call_ensures(crashed, (), r),
    ensures
        r@.contains(WorkerAction::EmitFailed),
        r@.contains(WorkerAction::SetState(VolumeState::Failed)),
{
    assert(r@[0] == WorkerAction::SetState(VolumeState::Failed));
    assert(r@[1] == WorkerAction::EmitFailed);
}

/// A snapshot is restored exactly where it was loaded, the live journal is its
/// own, and that still reaches back to it.
pub proof fn lemma_decision_answered(
    load: Result<(u64, i64), SnapshotLoadError>,
    journal: Option<JournalView>,
    r: SnapshotDecision,
)
    requires
        call_ensures(snapshot_decision, (load, journal), r),
    ensures
        r == SnapshotDecision::Restore <==> (load matches Ok(at) && journal matches Some(view)
            && at.0 == view.journal_id && view.first_usn <= at.1),
{
}

/// What was read of a journal is applied, a journal that is gone is scanned
/// for again, and a failed read is final.
pub proof fn lemma_read_answered(outcome: Result<ReadOutcome, UsnError>, r: TailStep)
    requires
        call_ensures(journal_gone_action, (outcome,), r),
    ensures
        outcome is Err <==> r is Fail,
        (outcome matches Ok(o) && o is Gone) <==> r is Rescan,
        outcome matches Ok(ReadOutcome::Gone(gone)) ==> r == TailStep::Rescan(gone),
        outcome matches Ok(ReadOutcome::Records { records: a, truncated: b }) ==> (r matches TailStep::Apply {
            records,
            truncated,
        } && records == a && truncated == b),
{
}

/// A compacted copy is installed only where nothing changed since it was made.
pub proof fn lemma_recheck_answered(copied_at: u64, current: Option<u64>, r: CompactionVerdict)
    requires
        call_ensures(compact_recheck, (copied_at, current), r),
    ensures
        r == CompactionVerdict::Install <==> current is Some && current->0 == copied_at,
{
}

/// Comparing two entries answers by the key and in the direction asked for,
/// and the other way round where they change places.
pub proof fn lemma_comparison_answered(
    a_idx: &VolumeIndex,
    a: EntryId,
    b_idx: &VolumeIndex,
    b: EntryId,
    opt: SortOrder,
    r: Order,
)
    requires
        call_ensures(compare_entries, (a_idx, a, b_idx, b, opt), r),
    ensures
        opt.sort == SortKey::Mtime && a_idx.mtime@[a as int] < b_idx.mtime@[b as int] ==> r
            == if opt.desc {
            Order::Greater
        } else {
            Order::Less
        },
        opt.sort == SortKey::Mtime && a_idx.mtime@[a as int] > b_idx.mtime@[b as int] ==> r
            == if opt.desc {
            Order::Less
        } else {
            Order::Greater
        },
        opt.sort == SortKey::Size && a_idx.row(a as int).size < b_idx.row(b as int).size ==> r
            == if opt.desc {
            Order::Greater
        } else {
            Order::Less
        },
        opt.sort == SortKey::Size && a_idx.row(a as int).size > b_idx.row(b as int).size ==> r
            == if opt.desc {
            Order::Less
        } else {
            Order::Greater
        },
        opt.sort == SortKey::Name && bytes_lt(a_idx.lower(a as int), b_idx.lower(b as int)) ==> r
            == if opt.desc {
            Order::Greater
        } else {
            Order::Less
        },
        opt.sort == SortKey::Name && a_idx.lower(a as int) == b_idx.lower(b as int) ==> r
            == Order::Same,
{
    lemma_bytes_total(a_idx.lower(a as int), b_idx.lower(b as int));
}

/// Comparing bytes answers as words in a dictionary are ordered: the first
/// byte in which they differ decides, and where there is none the shorter
/// comes first.
pub proof fn lemma_bytes_answered(a: &[u8], b: &[u8], r: Order, k: int)
    requires
        call_ensures(compare_bytes, (a, b), r),
        0 <= k <= a@.len(),
        k <= b@.len(),
        a@.take(k) == b@.take(k),
    ensures
        k < a@.len() && k < b@.len() && a@[k] < b@[k] ==> r == Order::Less,
        k < a@.len() && k < b@.len() && a@[k] > b@[k] ==> r == Order::Greater,
        k == a@.len() && k < b@.len() ==> r == Order::Less,
        k == b@.len() && k < a@.len() ==> r == Order::Greater,
        a@ == b@ <==> r == Order::Same,
{
    lemma_bytes_total(a@, b@);
    if k < a@.len() || k < b@.len() {
        if k < a@.len() && k < b@.len() {
            if a@[k] < b@[k] {
                assert(crate::order::differ_at(a@, b@, k));
                assert(bytes_lt(a@, b@));
            } else if a@[k] > b@[k] {
                assert(crate::order::differ_at(b@, a@, k));
                assert(bytes_lt(b@, a@));
            }
        } else if k == a@.len() {
            assert(crate::order::differ_at(a@, b@, k));
            assert(bytes_lt(a@, b@));
        } else {
            assert(crate::order::differ_at(b@, a@, k));
            assert(bytes_lt(b@, a@));
        }
    }
}

/// A result is narrowed only where that is enabled, the query narrows the one
/// before, and the index is the one that was searched: same contents, same
/// structure.
pub proof fn lemma_refine_answered(
    enabled: bool,
    cached: Option<SearchedAt>,
    narrows: bool,
    idx: &VolumeIndex,
    r: bool,
)
    requires
        call_ensures(may_refine, (enabled, cached, narrows, idx), r),
    ensures
        r <==> enabled && narrows && (cached matches Some(at) && at.content
            == idx.content_generation && at.structural == idx.structural_generation),
{
}

/// A query is refused exactly where it has more bytes than may be, and the
/// refusal names both numbers.
pub proof fn lemma_length_answered(text: &str, limits: &ContractLimits, r: Result<(), EngineError>)
    requires
        call_ensures(check_query_length, (text, limits), r),
    ensures
        r is Err <==> text.len() > limits.max_query_bytes,
        r matches Err(e) ==> (e matches EngineError::QueryTooLong { actual, maximum } && actual
            == text.len() && maximum == limits.max_query_bytes),
{
}

/// An index is merged only where it is still the one that was searched.
pub proof fn lemma_merge_answered(
    index: &VolumeIndex,
    expected_structural: u64,
    r: Result<(), EngineError>,
)
    requires
        call_ensures(validate_merge_index, (index, expected_structural), r),
    ensures
        r is Ok <==> index.structural_generation == expected_structural,
        r matches Err(e) ==> e == EngineError::Stale,
{
}

/// A drive is indexed only where it is fixed and its file system is named
/// NTFS, up to the first zero.
pub proof fn lemma_drive_answered(drive_type: u32, name: &[u16], r: bool)
    requires
        call_ensures(is_fixed_ntfs, (drive_type, name), r),
        name@.len() >= 5,
        name@[4] == 0,
        name@[0] != 0 && name@[1] != 0 && name@[2] != 0 && name@[3] != 0,
    ensures
        r <==> drive_type == 3 && name@[0] == 0x4E && name@[1] == 0x54 && name@[2] == 0x46
            && name@[3] == 0x53,
{
    assert forall|k: int| 0 <= k < 4 implies (#[trigger] name@[k]) != 0 by {
        if k == 0 {
        } else if k == 1 {
        } else if k == 2 {
        } else {
        }
    }
    super::naming::lemma_terminated(name@, 4);
    let t = name@.take(4);
    let want = seq![0x4Eu16, 0x54u16, 0x46u16, 0x53u16];
    assert(t[0] == name@[0] && t[1] == name@[1] && t[2] == name@[2] && t[3] == name@[3]);
    if name@[0] == 0x4E && name@[1] == 0x54 && name@[2] == 0x46 && name@[3] == 0x53 {
        assert(t =~= want);
    }
}

/// Of every drive and every name: only a fixed one whose name is NTFS and a
/// zero is indexed.
pub proof fn lemma_every_drive_answered(drive_type: u32, name: &[u16], r: bool)
    requires
        call_ensures(is_fixed_ntfs, (drive_type, name), r),
    ensures
        r <==> drive_type == 3 && name@.len() >= 5 && name@[0] == 0x4E && name@[1] == 0x54
            && name@[2] == 0x46 && name@[3] == 0x53 && name@[4] == 0,
{
}

/// A label is one letter and a colon.
pub proof fn lemma_label_answered(label: &str, r: bool)
    requires
        call_ensures(is_valid_volume_label, (label,), r),
    ensures
        r <==> label@.len() == 2 && label@[1] == ':' && (0x41 <= label@[0] as u32 <= 0x5A || 0x61
            <= label@[0] as u32 <= 0x7A),
{
    super::naming::lemma_label_letters(label@);
}

impl VolumeSlot {
    /// A volume answers queries exactly where it is ready and has an index.
    pub proof fn lemma_answers_answered(&self, r: bool)
        requires
            call_ensures(VolumeSlot::answers, (self,), r),
        ensures
            r <==> self.phase == VolumeState::Ready && self.index is Some,
    {
    }

    /// A flush is due only of a volume that is ready and has something to
    /// save, and then at its checkpoint.
    pub proof fn lemma_flush_answered(&self, r: Option<JournalCheckpoint>)
        requires
            call_ensures(VolumeSlot::flush_due, (self,), r),
        ensures
            r is Some ==> self.phase == VolumeState::Ready && self.index is Some && r
                == self.checkpoint,
            r is Some && self.last_saved is Some ==> {
                let saved = self.last_saved->Some_0;
                let idx = self.index->Some_0;
                saved.0 != idx.content_generation || saved.1 != idx.structural_generation
            },
            self.phase == VolumeState::Ready && self.index is Some && self.last_saved is None ==> r
                == self.checkpoint,
    {
    }
}

/// The status names every volume in its order, with its phase and how far it
/// was read.
pub proof fn lemma_status_answered(
    slots: &[VolumeSlot],
    r: Vec<(String, VolumeState, u64)>,
    i: int,
)
    requires
        call_ensures(status, (slots,), r),
        0 <= i < slots@.len(),
    ensures
        r@.len() == slots@.len(),
        r@[i].0@ == slots@[i].label@,
        r@[i].1 == slots@[i].phase,
        r@[i].2 == slots@[i].scanned,
{
}

impl EngineEvent {
    /// An event goes out as its own kind, with its own number and its volume's
    /// label.
    pub proof fn lemma_wire_answered<'a>(&'a self, r: FmfEvent<'a>)
        requires
            call_ensures(EngineEvent::to_wire, (self,), r),
        ensures
            self matches EngineEvent::Progress { volume, entries } ==> r.kind == EventKind::Progress
                && r.entries == entries && r.volume@ == volume@,
            self matches EngineEvent::VolumeReady { volume, entries } ==> r.kind
                == EventKind::VolumeReady && r.entries == entries && r.volume@ == volume@,
            self matches EngineEvent::IndexChanged { volume } ==> r.kind == EventKind::IndexChanged
                && r.volume@ == volume@,
            self matches EngineEvent::RescanStarted { volume } ==> r.kind
                == EventKind::RescanStarted && r.volume@ == volume@,
            self matches EngineEvent::VolumeFailed { volume, .. } ==> r.kind
                == EventKind::VolumeFailed && r.volume@ == volume@,
            self matches EngineEvent::EngineError { severity, volume } ==> r.kind
                == EventKind::EngineError && r.entries == severity && r.volume@ == volume@,
    {
    }
}

impl ResultSet {
    /// A result is current exactly where every volume still has the index that
    /// was searched.
    pub proof fn lemma_current_answered(&self, indexes: &[Option<&VolumeIndex>], r: bool)
        requires
            call_ensures(ResultSet::is_current, (self, indexes), r),
        ensures
            r <==> forall|v: int|
                0 <= v < self.slots@.len() ==> ((#[trigger] indexes@[v]) matches Some(idx)
                    && idx.structural_generation == self.structural@[v]),
    {
        if r {
            assert forall|v: int| 0 <= v < self.slots@.len() implies ((#[trigger] indexes@[v])
                matches Some(idx) && idx.structural_generation == self.structural@[v]) by {
                assert(self.volume_current(indexes@, v));
            }
        }
    }

    /// A page answers the rows from the offset on, as many as were asked for
    /// or as there are, each of the entry that stands there.
    pub proof fn lemma_page_answered(
        &self,
        indexes: &[Option<&VolumeIndex>],
        offset: usize,
        count: usize,
        r: Result<Vec<Row>, EngineError>,
        k: int,
    )
        requires
            self.wf(),
            self.held_by(indexes@),
            call_ensures(ResultSet::page, (self, indexes, offset, count), r),
            r matches Ok(rows) && 0 <= k < rows@.len(),
        ensures
            ({
                let rows = r->Ok_0;
                let at = self.rows@[offset + k];
                let idx = indexes@[at.0 as int]->0;
                let entry = idx.row(at.1 as int);
                &&& offset < self.rows@.len()
                &&& rows@.len() == if count <= self.rows@.len() - offset {
                    count as int
                } else {
                    self.rows@.len() - offset
                }
                &&& rows@[k].size == entry.size
                &&& rows@[k].frn == entry.frn
                &&& rows@[k].name@ == entry.name
                &&& rows@[k].entry_ref == at.0 * 0x1_0000_0000 + at.1
                &&& idx.parent_path_is(at.1, Ok(rows@[k].parent_path@))
            }),
    {
        let len = self.rows@.len() as int;
        super::pages::lemma_page_bounds(len, offset as int, count as int);
        let start = super::results::page_start(len, offset as int, count as int);
        assert(self.reads_as(indexes@, start + k, r->Ok_0@[k]));
        self.lemma_row_tells(indexes@, start + k, r->Ok_0@[k]);
    }
}

} // verus!
