//! The state of one volume: its label, where its snapshot goes, how an index
//! is installed, and when it is written out.

use vstd::prelude::*;
use std::path::{Path, PathBuf};
use crate::index::columns::dead_count;
use crate::index::VolumeIndex;
use crate::metrics::Counters;
use crate::paths::{join, joined};
use crate::text::push_char;
use super::results::ResultSet;
use super::search::SearchedAt;
use super::VolumeState;

verus! {

/// What `GetDriveTypeW` gives for a fixed drive.
pub const DRIVE_FIXED: u32 = 3;

/// How many drive letters there are.
pub const DRIVE_LETTERS: u32 = 26;

/// A position in the journal of a volume that goes with a state of its index.
///
/// It is published after the batch that leads to it was applied, so that a
/// snapshot written with it is never older than it says: replaying records
/// that were applied already changes nothing, leaving some out would.
#[derive(Clone, Copy, Debug, PartialEq, Eq, Structural)]
pub struct JournalCheckpoint {
    /// The journal.
    pub journal_id: u64,
    /// Where the next read starts.
    pub next_usn: i64,
}

/// Why a request to index volumes is refused as a whole.
#[derive(Clone, Debug, PartialEq, Eq)]
pub enum IndexStartError {
    /// A label is not a letter and a colon.
    MalformedLabel {
        /// Its place in the request.
        position: usize,
    },
    /// A volume is named twice.
    DuplicateLabel {
        /// Its label, in upper case.
        label: String,
    },
    /// A volume is not a fixed NTFS volume of this machine.
    UnavailableVolume {
        /// Its label, in upper case.
        label: String,
    },
}

/// An ASCII letter.
pub open spec fn is_letter(c: char) -> bool {
    'A' <= c <= 'Z' || 'a' <= c <= 'z'
}

/// The character with ASCII letters in upper case.
pub open spec fn upper(c: char) -> char {
    if 'a' <= c <= 'z' {
        (c as u32 - 0x20) as char
    } else {
        c
    }
}

/// The character with ASCII letters in lower case.
pub open spec fn lower(c: char) -> char {
    if 'A' <= c <= 'Z' {
        (c as u32 + 0x20) as char
    } else {
        c
    }
}

/// A label is exactly one letter and a colon.
pub open spec fn valid_label(s: Seq<char>) -> bool {
    s.len() == 2 && is_letter(s[0]) && s[1] == ':'
}

/// The label with its letter in upper case.
pub open spec fn canonical_label(s: Seq<char>) -> Seq<char> {
    seq![upper(s[0]), ':']
}

fn upper_of(c: char) -> (r: char)
    ensures
        r == upper(c),
{
    let p: u32 = c as u32;
    if 0x61 <= p && p <= 0x7A {
        (p as u8 - 0x20) as char
    } else {
        c
    }
}

fn lower_of(c: char) -> (r: char)
    ensures
        r == lower(c),
{
    let p: u32 = c as u32;
    if 0x41 <= p && p <= 0x5A {
        (p as u8 + 0x20) as char
    } else {
        c
    }
}

/// Whether a label is exactly one ASCII letter and a colon, so that it can
/// neither name a path nor be one of many.
pub fn is_valid_volume_label(label: &str) -> (r: bool)
    ensures
        r == valid_label(label@),
{
    if label.unicode_len() != 2 {
        return false;
    }
    let c: u32 = label.get_char(0) as u32;
    (0x41 <= c && c <= 0x5A || 0x61 <= c && c <= 0x7A) && label.get_char(1) == ':'
}

fn canonical_of(label: &str) -> (r: String)
    requires
        label@.len() >= 1,
    ensures
        r@ == canonical_label(label@),
{
    let mut r: String = String::new();
    push_char(&mut r, upper_of(label.get_char(0)));
    push_char(&mut r, ':');
    assert(r@ =~= canonical_label(label@));
    r
}

/// Whether one of the texts is `wanted`.
pub open spec fn listed(texts: Seq<String>, wanted: Seq<char>) -> bool {
    exists|i: int| 0 <= i < texts.len() && (#[trigger] texts[i])@ == wanted
}

fn is_listed(texts: &[String], wanted: &String) -> (r: bool)
    ensures
        r == listed(texts@, wanted@),
{
    let mut i: usize = 0;
    while i < texts.len()
        invariant
            i <= texts@.len(),
            forall|k: int| 0 <= k < i ==> (#[trigger] texts@[k])@ != wanted@,
        decreases texts@.len() - i,
    {
        if texts[i] == *wanted {
            return true;
        }
        i = i + 1;
    }
    false
}

/// Label `i` names a volume that an earlier label names.
pub open spec fn named_before(requested: Seq<String>, i: int) -> bool {
    exists|j: int|
        0 <= j < i && canonical_label((#[trigger] requested[j])@) == canonical_label(requested[i]@)
}

/// Label `i` is well formed, new, and of a volume that is there.
pub open spec fn label_good(requested: Seq<String>, available: Seq<String>, i: int) -> bool {
    &&& valid_label(requested[i]@)
    &&& !named_before(requested, i)
    &&& listed(available, canonical_label(requested[i]@))
}

/// Label `i` is refused with `e`.
pub open spec fn label_refused(
    requested: Seq<String>,
    available: Seq<String>,
    i: int,
    e: IndexStartError,
) -> bool {
    if !valid_label(requested[i]@) {
        e matches IndexStartError::MalformedLabel { position } && position == i
    } else if named_before(requested, i) {
        e matches IndexStartError::DuplicateLabel { label } && label@ == canonical_label(
            requested[i]@,
        )
    } else {
        e matches IndexStartError::UnavailableVolume { label } && label@ == canonical_label(
            requested[i]@,
        ) && !listed(available, label@)
    }
}

/// The first label that is refused is label `i`, with `e`.
pub open spec fn first_refused(
    requested: Seq<String>,
    available: Seq<String>,
    i: int,
    e: IndexStartError,
) -> bool {
    &&& 0 <= i < requested.len()
    &&& forall|k: int| 0 <= k < i ==> #[trigger] label_good(requested, available, k)
    &&& label_refused(requested, available, i, e)
}

/// The labels of a request in upper case, or why the request is refused: it
/// is accepted as a whole or not at all.
pub fn validate_index_start_volumes(requested: &[String], available: &[String]) -> (r: Result<
    Vec<String>,
    IndexStartError,
>)
    ensures
        match r {
            Ok(labels) => labels@.len() == requested@.len() && forall|i: int|
                0 <= i < requested@.len() ==> #[trigger] label_good(requested@, available@, i)
                    && labels@[i]@ == canonical_label(requested@[i]@),
            Err(e) => exists|i: int| #[trigger] first_refused(requested@, available@, i, e),
        },
{
    let mut labels: Vec<String> = Vec::new();
    let mut i: usize = 0;
    while i < requested.len()
        invariant
            i <= requested@.len(),
            labels@.len() == i,
            forall|k: int| 0 <= k < i ==> #[trigger] label_good(requested@, available@, k),
            forall|k: int|
                0 <= k < i ==> (#[trigger] labels@[k])@ == canonical_label(requested@[k]@),
        decreases requested@.len() - i,
    {
        if !is_valid_volume_label(requested[i].as_str()) {
            let e: IndexStartError = IndexStartError::MalformedLabel { position: i };
            assert(first_refused(requested@, available@, i as int, e));
            return Err(e);
        }
        let label: String = canonical_of(requested[i].as_str());
        let repeated: bool = is_listed(labels.as_slice(), &label);
        proof {
            assert(repeated == named_before(requested@, i as int)) by {
                if repeated {
                    let k = choose|k: int| 0 <= k < labels@.len() && (#[trigger] labels@[k])@ == label@;
                    assert(canonical_label(requested@[k]@) == canonical_label(requested@[i as int]@));
                } else if named_before(requested@, i as int) {
                    let k = choose|k: int|
                        0 <= k < i && canonical_label((#[trigger] requested@[k])@)
                            == canonical_label(requested@[i as int]@);
                    assert(labels@[k]@ == label@);
                }
            }
        }
        if repeated {
            let e: IndexStartError = IndexStartError::DuplicateLabel { label };
            assert(first_refused(requested@, available@, i as int, e));
            return Err(e);
        }
        if !is_listed(available, &label) {
            let e: IndexStartError = IndexStartError::UnavailableVolume { label };
            assert(first_refused(requested@, available@, i as int, e));
            return Err(e);
        }
        assert(label_good(requested@, available@, i as int));
        labels.push(label);
        i = i + 1;
    }
    assert forall|k: int| 0 <= k < requested@.len() implies #[trigger] label_good(
        requested@,
        available@,
        k,
    ) && labels@[k]@ == canonical_label(requested@[k]@) by {
        assert(labels@[k]@ == canonical_label(requested@[k]@));
    }
    Ok(labels)
}

/// Label `i` has no slot yet, and no earlier label gets the same.
pub open spec fn needs_slot(labels: Seq<String>, present: Seq<String>, i: int) -> bool {
    &&& 0 <= i < labels.len()
    &&& !listed(present, labels[i]@)
    &&& !listed(labels.take(i), labels[i]@)
}

/// The places of the labels that need a slot: asking again for a volume that
/// is indexed already adds nothing.
pub fn labels_to_add(labels: &[String], present: &[String]) -> (r: Vec<usize>)
    ensures
        forall|a: int, b: int| 0 <= a < b < r@.len() ==> (#[trigger] r@[a]) < (#[trigger] r@[b]),
        forall|a: int| 0 <= a < r@.len() ==> needs_slot(labels@, present@, (#[trigger] r@[a]) as int),
        forall|i: int| #[trigger] needs_slot(labels@, present@, i) ==> r@.contains(i as usize),
{
    let mut r: Vec<usize> = Vec::new();
    let mut i: usize = 0;
    while i < labels.len()
        invariant
            i <= labels@.len(),
            forall|a: int, b: int| 0 <= a < b < r@.len() ==> (#[trigger] r@[a]) < (#[trigger] r@[b]),
            forall|a: int|
                0 <= a < r@.len() ==> (#[trigger] r@[a]) < i && needs_slot(
                    labels@,
                    present@,
                    r@[a] as int,
                ),
            forall|k: int|
                k < i && #[trigger] needs_slot(labels@, present@, k) ==> r@.contains(k as usize),
        decreases labels@.len() - i,
    {
        let ghost before = r@;
        let known: bool = is_listed(present, &labels[i]) || is_listed(
            vstd::slice::slice_subrange(labels, 0, i),
            &labels[i],
        );
        assert(labels@.subrange(0, i as int) =~= labels@.take(i as int));
        if !known {
            r.push(i);
            assert(r@[before.len() as int] == i);
        }
        proof {
            assert forall|k: int|
                k < i + 1 && #[trigger] needs_slot(labels@, present@, k) implies r@.contains(
                k as usize,
            ) by {
                if k < i {
                    assert(before.contains(k as usize));
                    let a = before.index_of(k as usize);
                    assert(before[a] == k as usize);
                    assert(r@[a] == k as usize);
                } else {
                    assert(!known);
                }
            }
        }
        i = i + 1;
    }
    r
}

/// The label without colons at its end.
pub open spec fn without_colons(s: Seq<char>) -> Seq<char>
    decreases s.len(),
{
    if s.len() > 0 && s.last() == ':' {
        without_colons(s.drop_last())
    } else {
        s
    }
}

/// The name of a volume's snapshot file: the letter in lower case.
pub open spec fn snapshot_file_name(label: Seq<char>) -> Seq<char> {
    without_colons(label).map_values(|c: char| lower(c)) + ".fmfidx"@
}

/// The path of a volume's snapshot.
pub fn snapshot_path(index_dir: &Path, label: &str) -> (r: PathBuf)
    ensures
        r == joined(index_dir, snapshot_file_name(label@)),
{
    let mut end: usize = label.unicode_len();
    assert(label@.take(end as int) =~= label@);
    while end > 0 && label.get_char(end - 1) == ':'
        invariant
            end <= label@.len(),
            without_colons(label@) == without_colons(label@.take(end as int)),
        decreases end,
    {
        assert(label@.take(end as int).drop_last() =~= label@.take(end - 1));
        end = end - 1;
    }
    let ghost stem = label@.take(end as int);
    assert(without_colons(label@) == stem);
    let mut name: String = String::new();
    let mut i: usize = 0;
    while i < end
        invariant
            i <= end <= label@.len(),
            stem == label@.take(end as int),
            name@ == stem.take(i as int).map_values(|c: char| lower(c)),
        decreases end - i,
    {
        push_char(&mut name, lower_of(label.get_char(i)));
        i = i + 1;
        assert(name@ =~= stem.take(i as int).map_values(|c: char| lower(c)));
    }
    assert(stem.take(i as int) =~= stem);
    name.append(".fmfidx");
    join(index_dir, name.as_str())
}

/// The labels of the drives in a mask of drive letters.
pub open spec fn drives(mask: u32, n: int) -> Seq<Seq<char>>
    decreases n,
{
    if n <= 0 {
        Seq::empty()
    } else if mask & (1u32 << ((n - 1) as u32)) != 0 {
        drives(mask, n - 1).push(seq![(0x41 + n - 1) as char, ':'])
    } else {
        drives(mask, n - 1)
    }
}

/// The labels of the drives in the mask that `GetLogicalDrives` gives.
pub fn drive_labels(mask: u32) -> (r: Vec<String>)
    ensures
        r@.map_values(|s: String| s@) == drives(mask, DRIVE_LETTERS as int),
{
    let mut r: Vec<String> = Vec::new();
    let mut i: u32 = 0;
    assert(r@.map_values(|s: String| s@) =~= drives(mask, 0));
    while i < DRIVE_LETTERS
        invariant
            i <= DRIVE_LETTERS,
            r@.map_values(|s: String| s@) == drives(mask, i as int),
        decreases DRIVE_LETTERS - i,
    {
        if mask & (1u32 << i) != 0 {
            let mut label: String = String::new();
            push_char(&mut label, (0x41 + i as u8) as char);
            push_char(&mut label, ':');
            assert(label@ =~= seq![(0x41 + i) as char, ':']);
            let ghost before = r@;
            r.push(label);
            assert(r@.map_values(|s: String| s@) =~= before.map_values(|s: String| s@).push(label@));
        }
        i = i + 1;
    }
    r
}

/// The units up to the first zero; nothing where there is none.
pub open spec fn terminated(units: Seq<u16>) -> Seq<u16> {
    if units.contains(0) {
        units.take(units.index_of_first(0).unwrap())
    } else {
        Seq::empty()
    }
}

/// Whether a drive of this type, with a file system of this zero-terminated
/// name, is a fixed NTFS volume.
pub fn is_fixed_ntfs(drive_type: u32, file_system: &[u16]) -> (r: bool)
    ensures
        r == (drive_type == DRIVE_FIXED && terminated(file_system@) == seq![
            0x4Eu16,
            0x54u16,
            0x46u16,
            0x53u16,
        ]),
        r <==> drive_type == 3 && file_system@.len() >= 5 && file_system@[0] == 0x4E
            && file_system@[1] == 0x54 && file_system@[2] == 0x46 && file_system@[3] == 0x53
            && file_system@[4] == 0,
{
    let ghost u = file_system@;
    proof {
        u.index_of_first_ensures(0);
        let ntfs = seq![0x4Eu16, 0x54u16, 0x46u16, 0x53u16];
        if terminated(u) == ntfs {
            assert(ntfs.len() == 4);
            assert(u.contains(0));
            let k = u.index_of_first(0).unwrap();
            assert(u.take(k).len() == k);
            assert(u.take(k)[0] == ntfs[0] && u.take(k)[1] == ntfs[1] && u.take(k)[2] == ntfs[2]
                && u.take(k)[3] == ntfs[3]);
            assert(u[4] == 0);
        }
        if u.len() >= 5 && u[0] != 0 && u[1] != 0 && u[2] != 0 && u[3] != 0 && u[4] == 0 {
            assert(u.contains(0));
            let k = u.index_of_first(0).unwrap();
            assert(k == 4);
        }
        if u.len() >= 5 && u[0] == 0x4E && u[1] == 0x54 && u[2] == 0x46 && u[3] == 0x53 && u[4] == 0 {
            assert(terminated(u) =~= seq![0x4Eu16, 0x54u16, 0x46u16, 0x53u16]);
        }
    }
    drive_type == DRIVE_FIXED && file_system.len() >= 5 && file_system[0] == 0x4E && file_system[1]
        == 0x54 && file_system[2] == 0x46 && file_system[3] == 0x53 && file_system[4] == 0
}

/// What the engine knows of one volume.
pub struct VolumeSlot {
    /// The volume.
    pub label: String,
    /// What it is in.
    pub phase: VolumeState,
    /// How many entries were read so far.
    pub scanned: u64,
    /// Its index, once there is one.
    pub index: Option<VolumeIndex>,
    /// The state in which the index was last searched, while the hits are kept.
    pub searched: Option<SearchedAt>,
    /// The journal position that goes with the index, once the volume is ready.
    pub checkpoint: Option<JournalCheckpoint>,
    /// The content and structural generations that were last written out.
    pub last_saved: Option<(u64, u64)>,
}

/// An index as it stands after it took the place of `previous`: newer than
/// that, where there was one, and otherwise as it is.
pub open spec fn installed(previous: Option<VolumeIndex>, idx: VolumeIndex) -> VolumeIndex {
    match previous {
        Some(p) => VolumeIndex { structural_generation: (p.structural_generation + 1) as u64, ..idx },
        None => idx,
    }
}

impl VolumeSlot {
    /// Whether the index is other than what was last written out.
    pub open spec fn dirty(&self) -> bool {
        self.index matches Some(i) && self.last_saved != Some(
            (i.content_generation, i.structural_generation),
        )
    }

    /// Whether queries search the volume: it is ready and has an index.
    pub fn answers(&self) -> (r: bool)
        ensures
            r == (self.phase == VolumeState::Ready && self.index is Some),
    {
        self.phase == VolumeState::Ready && self.index.is_some()
    }

    /// A volume that is about to be scanned.
    pub fn scanning(label: String) -> (r: VolumeSlot)
        ensures
            r == (VolumeSlot {
                label,
                phase: VolumeState::Scanning,
                scanned: 0,
                index: None,
                searched: None,
                checkpoint: None,
                last_saved: None,
            }),
    {
        VolumeSlot {
            label,
            phase: VolumeState::Scanning,
            scanned: 0,
            index: None,
            searched: None,
            checkpoint: None,
            last_saved: None,
        }
    }

    /// A volume whose index is there already, with a zero journal position.
    pub fn ready(label: String, idx: VolumeIndex) -> (r: VolumeSlot)
        requires
            idx.columns_wf(),
        ensures
            r == (VolumeSlot {
                label,
                phase: VolumeState::Ready,
                scanned: (idx.count() - dead_count(idx.flag@)) as u64,
                index: Some(idx),
                searched: None,
                checkpoint: Some(JournalCheckpoint { journal_id: 0, next_usn: 0 }),
                last_saved: None,
            }),
    {
        VolumeSlot {
            label,
            phase: VolumeState::Ready,
            scanned: idx.live_len() as u64,
            index: Some(idx),
            searched: None,
            checkpoint: Some(JournalCheckpoint { journal_id: 0, next_usn: 0 }),
            last_saved: None,
        }
    }

    /// Put an index in place. Where it replaces one, results of the old one
    /// must not be read from it: it is structurally newer. Hits that were kept
    /// go with the old one.
    pub fn install_index(&mut self, idx: VolumeIndex)
        requires
            old(self).index matches Some(p) ==> p.structural_generation < u64::MAX,
        ensures
            *final(self) == (VolumeSlot {
                index: Some(installed(old(self).index, idx)),
                searched: None,
                ..*old(self)
            }),
    {
        let mut next: VolumeIndex = idx;
        if let Some(p) = &self.index {
            next.bump_structural_from(p.structural_generation());
        }
        self.searched = None;
        self.index = Some(next);
    }

    /// Put a rebuilt index in place, as a full scan of a ready volume does.
    pub fn replace_ready(&mut self, idx: VolumeIndex)
        requires
            idx.columns_wf(),
            old(self).index matches Some(p) ==> p.structural_generation < u64::MAX,
        ensures
            *final(self) == (VolumeSlot {
                scanned: (idx.count() - dead_count(idx.flag@)) as u64,
                index: Some(installed(old(self).index, idx)),
                searched: None,
                ..*old(self)
            }),
    {
        self.scanned = idx.live_len() as u64;
        self.install_index(idx);
    }

    /// The journal position with which the volume is to be written out now:
    /// where it is ready, and changed since it was last written out.
    pub fn flush_due(&self) -> (r: Option<JournalCheckpoint>)
        ensures
            r == if self.phase == VolumeState::Ready && self.dirty() {
                self.checkpoint
            } else {
                None
            },
    {
        if self.phase != VolumeState::Ready {
            return None;
        }
        match &self.index {
            Some(i) => {
                let clean: bool = match self.last_saved {
                    Some((content, structural)) => content == i.content_generation() && structural
                        == i.structural_generation(),
                    None => false,
                };
                if clean {
                    None
                } else {
                    self.checkpoint
                }
            },
            None => None,
        }
    }

    /// Note how writing out the index ended that had the generations
    /// `content` and `structural`: a failure is counted, and the index stays
    /// to be written. Where it was written and is the same still, nothing is
    /// left to be written.
    pub fn save_finished(
        &mut self,
        content: u64,
        structural: u64,
        written: bool,
        counters: &mut Counters,
    )
        ensures
            *final(self) == (VolumeSlot {
                last_saved: if written {
                    Some((content, structural))
                } else {
                    old(self).last_saved
                },
                ..*old(self)
            }),
            *final(counters) == (Counters {
                snapshot_save_failures: if written {
                    old(counters).snapshot_save_failures
                } else {
                    ((old(counters).snapshot_save_failures + 1) % 0x1_0000_0000_0000_0000) as u64
                },
                ..*old(counters)
            }),
            written ==> final(self).dirty() == (old(self).index matches Some(i) && (
            i.content_generation != content || i.structural_generation != structural)),
    {
        if written {
            self.last_saved = Some((content, structural));
        } else {
            Counters::bump(&mut counters.snapshot_save_failures);
        }
    }
}

/// An index that replaces another makes every result stale that was found in
/// the old one: none of its rows is read from the new numbering.
pub proof fn lemma_replaced_is_stale(
    result: ResultSet,
    before: Seq<Option<&VolumeIndex>>,
    after: Seq<Option<&VolumeIndex>>,
    v: int,
    idx: VolumeIndex,
)
    requires
        result.wf(),
        result.current(before),
        0 <= v < result.slots@.len(),
        before[v] matches Some(p) && p.structural_generation < u64::MAX && after[v] == Some(
            &installed(Some(*p), idx),
        ),
    ensures
        !result.current(after),
{
    assert(result.volume_current(before, v));
    assert(!result.volume_current(after, v));
}

/// What each volume is in, and how far it was read.
pub fn status(slots: &[VolumeSlot]) -> (r: Vec<(String, VolumeState, u64)>)
    ensures
        r@.len() == slots@.len(),
        forall|i: int|
            0 <= i < r@.len() ==> (#[trigger] r@[i]).0@ == slots@[i].label@ && r@[i].1
                == slots@[i].phase && r@[i].2 == slots@[i].scanned,
{
    let mut out: Vec<(String, VolumeState, u64)> = Vec::new();
    let mut i: usize = 0;
    while i < slots.len()
        invariant
            i <= slots@.len(),
            out@.len() == i,
            forall|k: int|
                0 <= k < i ==> (#[trigger] out@[k]).0@ == slots@[k].label@ && out@[k].1
                    == slots@[k].phase && out@[k].2 == slots@[k].scanned,
        decreases slots@.len() - i,
    {
        out.push((slots[i].label.clone(), slots[i].phase, slots[i].scanned));
        i = i + 1;
    }
    out
}

} // verus!
