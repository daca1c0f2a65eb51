//! Building an index from a scan: entries are collected in any order, then
//! parents are resolved, links and the way to the root checked, and names
//! sorted.

use vstd::prelude::*;
use crate::dates::ticks_to_secs;
use crate::metrics::timed_ms;
use crate::wtf8::{encode_units, lemma_fold_keeps_length, lower_of, text_units, wtf8_of};
use super::columns::{Row, VolumeIndex, NONE};
use super::compact::lemma_all_live;
use super::exclusion::all_derived;
use super::flags::{
    bit_set, lemma_raw_flags, with_bit, EXCLUDED, HIDDEN, IS_DIR, REPARSE, SYSTEM, TOMBSTONE,
};
use super::frn::{frn_before, groups_valid, links_up};
use super::lookup::{refers_to, selected};
use super::rows::{facts_of, EntryFacts};
use super::topology::{is_directory, rooted};
use super::{has_sequence, record_of, EncodedEntry, EntryId, Frn, RawEntry, NO_PARENT};

verus! {

/// The record number of the root directory of an NTFS volume.
pub const NTFS_ROOT_RECORD: u64 = 5;

/// How far the entries of an initial index are trusted.
///
/// Scans of volumes carry the exact reference of the root. Fixtures use a
/// bare record number, so that small forests can be made by hand.
#[derive(Clone, Copy, Debug, PartialEq, Eq, Structural)]
pub enum FinalizeMode {
    /// Reject everything ambiguous, incomplete or cyclic.
    StrictProduction,
    /// An unresolved parent is the root, and a repeated link is dropped.
    SyntheticFixture,
}

/// An initial index does not form one complete rooted forest.
#[derive(Clone, Copy, Debug, PartialEq, Eq, Structural)]
pub enum IndexBuildError {
    /// The root's reference is not the root record with a sequence number.
    InvalidRootReference {
        /// The reference.
        root: Frn,
    },
    /// An object's reference has no sequence number.
    InvalidObjectReference {
        /// The entry.
        entry: EntryId,
        /// Its reference.
        object: Frn,
    },
    /// One record number has several generations or kinds, or a directory has
    /// several entries.
    AmbiguousObjectIdentity,
    /// A child names itself as parent.
    SelfParent {
        /// The entry.
        entry: EntryId,
        /// Its reference.
        child: Frn,
        /// The parent it names.
        parent: Frn,
    },
    /// No entry has the exact parent reference.
    UnresolvedParent {
        /// The entry.
        entry: EntryId,
        /// Its reference.
        child: Frn,
        /// Missing or stale parent.
        parent: Frn,
    },
    /// The parent exists but is not a directory.
    ParentNotDirectory {
        /// The entry.
        entry: EntryId,
        /// Its reference.
        child: Frn,
        /// The parent.
        parent: Frn,
    },
    /// Several directory entries have the exact parent reference.
    AmbiguousParent {
        /// The entry.
        entry: EntryId,
        /// Its reference.
        child: Frn,
        /// The parent.
        parent: Frn,
    },
    /// The parents form a cycle.
    ParentCycle {
        /// The entry from which it was found.
        entry: EntryId,
        /// Its reference.
        object: Frn,
    },
    /// Two entries are the same link of an object.
    DuplicateLink {
        /// The object.
        object: Frn,
    },
}

/// How long the two halves of finishing took, in milliseconds.
#[derive(Clone, Copy, Debug, PartialEq, Eq, Structural)]
pub struct FinishTimings {
    /// Resolving parents and deriving exclusion.
    pub build_ms: u64,
    /// Storing names once and sorting them.
    pub sort_ms: u64,
}

impl FinishTimings {
    /// Each is what a stopwatch showed that was started at the present.
    pub open spec fn measured(&self) -> bool {
        timed_ms(self.build_ms) && timed_ms(self.sort_ms)
    }
}

/// Collects the entries of a scan.
pub struct VolumeIndexBuilder {
    /// The entries so far, all below the root for now.
    pub idx: VolumeIndex,
    /// The parent reference of each entry.
    pub parent_frns: Vec<Frn>,
    /// How far the entries are trusted.
    pub mode: FinalizeMode,
}

/// All links of a record, in the order of their numbers.
pub open spec fn all_links(frn: Seq<u64>, flag: Seq<u8>, key: u64) -> Seq<u32> {
    links_up(frn, flag, key, 0, frn.len() as int)
}

/// The entries with exactly this reference.
pub open spec fn exact_links(frn: Seq<u64>, flag: Seq<u8>, wanted: u64) -> Seq<u32> {
    selected(all_links(frn, flag, record_of(wanted)), refers_to(frn, wanted))
}

/// The directory entries with exactly this reference.
pub open spec fn exact_dirs(frn: Seq<u64>, flag: Seq<u8>, wanted: u64) -> Seq<u32> {
    selected(exact_links(frn, flag, wanted), is_directory(flag))
}

/// The parent that a fixture gets: the directory of the exact reference, or
/// of the bare record number where there is no more, or the root.
pub open spec fn fixture_parent(frn: Seq<u64>, flag: Seq<u8>, wanted: u64) -> u32 {
    let exact = exact_dirs(frn, flag, wanted);
    let same_record = selected(all_links(frn, flag, record_of(wanted)), is_directory(flag));
    if exact.len() > 0 {
        exact[0]
    } else if !has_sequence(wanted) && same_record.len() > 0 {
        same_record[0]
    } else {
        0
    }
}

/// What is wrong with the parent that entry `i` names.
pub open spec fn parent_fault(frn: Seq<u64>, flag: Seq<u8>, i: int, wanted: Frn) -> Option<
    IndexBuildError,
> {
    let entry = i as u32;
    let child = Frn(frn[i]);
    let parent = wanted;
    let dirs = exact_dirs(frn, flag, wanted.0);
    if frn[i] == wanted.0 {
        Some(IndexBuildError::SelfParent { entry, child, parent })
    } else if dirs.len() > 1 {
        Some(IndexBuildError::AmbiguousParent { entry, child, parent })
    } else if dirs.len() == 1 {
        None
    } else if exact_links(frn, flag, wanted.0).len() > 0 {
        Some(IndexBuildError::ParentNotDirectory { entry, child, parent })
    } else {
        Some(IndexBuildError::UnresolvedParent { entry, child, parent })
    }
}

impl VolumeIndexBuilder {
    /// Everything that holds between two calls.
    pub open spec fn wf(&self) -> bool {
        &&& self.idx.wf()
        &&& self.idx.count() > 0
        &&& self.parent_frns@.len() == self.idx.count()
        &&& self.idx.tombstones == 0
        &&& self.idx.perm_name@.len() == 0
        &&& self.idx.frn_index.covers == 0
        &&& self.idx.parent@[0] == NO_PARENT
        &&& bit_set(self.idx.flag@[0], IS_DIR)
        &&& self.idx.owned_fits()
        &&& self.idx.orig_pool@.len() < NONE
        &&& self.idx.live_bytes(self.idx.count()) < NONE
        &&& self.idx.live_bytes(self.idx.count()) <= self.idx.dict_pool@.len()
        &&& self.idx.content_generation == 0
        &&& self.idx.structural_generation == 0
        &&& self.idx.stat_generation == 0
        &&& self.idx.dir_topology_generation == 0
        &&& !self.idx.exclusion_tree_dirty
        &&& self.idx.dead_name_bytes == 0
    }

    /// The parents of the entries.
    pub open spec fn parents(&self) -> Seq<u32> {
        Seq::new(
            self.parent_frns@.len(),
            |i: int|
                if i == 0 {
                    NO_PARENT
                } else if self.mode == FinalizeMode::StrictProduction {
                    exact_dirs(self.idx.frn@, self.idx.flag@, self.parent_frns@[i].0)[0]
                } else {
                    fixture_parent(self.idx.frn@, self.idx.flag@, self.parent_frns@[i].0)
                },
        )
    }

    /// Entry `i` is the first without a sequence number.
    pub open spec fn first_unsequenced(&self, i: int) -> bool {
        0 <= i < self.idx.count() && !has_sequence(self.idx.frn@[i]) && forall|j: int|
            0 <= j < i ==> has_sequence(#[trigger] self.idx.frn@[j])
    }

    /// What is wrong with the parent of entry `i`.
    pub open spec fn fault_above(&self, i: int) -> Option<IndexBuildError> {
        parent_fault(self.idx.frn@, self.idx.flag@, i, self.parent_frns@[i])
    }

    /// Entry `i` is the first below the root whose parent is at fault.
    pub open spec fn first_parent_fault(&self, i: int) -> bool {
        0 < i < self.idx.count() && self.fault_above(i) is Some && forall|j: int|
            0 < j < i ==> #[trigger] self.fault_above(j) is None
    }

    /// Entry `i` is the same link of the same object as an earlier one.
    pub open spec fn repeats(&self, i: int) -> bool {
        0 <= i < self.idx.count() && exists|j: int|
            0 <= j < i && #[trigger] self.idx.frn@[j] == self.idx.frn@[i] && self.parents()[j]
                == self.parents()[i] && self.idx.original(j) == self.idx.original(i)
    }

    /// Entry `i` is the first, in the order of record numbers, that repeats a
    /// link.
    pub open spec fn first_repeat(&self, i: int) -> bool {
        self.repeats(i) && forall|j: int|
            j != i && #[trigger] self.repeats(j) ==> frn_before(
                self.idx.frn@,
                i as u32,
                j as u32,
            )
    }

    /// Entry `i` is the first from which the root is not reached.
    pub open spec fn first_adrift(&self, i: int) -> bool {
        0 < i < self.idx.count() && !rooted(self.parents(), i) && forall|j: int|
            0 < j < i ==> rooted(self.parents(), j)
    }

    /// Why the entries are rejected, if they are: objects without sequence
    /// numbers, ambiguous objects, faulty parents, repeated links, cycles, in
    /// this order. Fixtures are never rejected.
    pub open spec fn fault(&self) -> Option<IndexBuildError> {
        let frn = self.idx.frn@;
        if self.mode == FinalizeMode::SyntheticFixture {
            None
        } else if exists|i: int| self.first_unsequenced(i) {
            let i = choose|i: int| self.first_unsequenced(i);
            Some(IndexBuildError::InvalidObjectReference { entry: i as u32, object: Frn(frn[i]) })
        } else if !groups_valid(frn, self.idx.flag@, self.idx.count()) {
            Some(IndexBuildError::AmbiguousObjectIdentity)
        } else if exists|i: int| self.first_parent_fault(i) {
            self.fault_above(choose|i: int| self.first_parent_fault(i))
        } else if exists|i: int| self.first_repeat(i) {
            let i = choose|i: int| self.first_repeat(i);
            Some(IndexBuildError::DuplicateLink { object: Frn(frn[i]) })
        } else if exists|i: int| self.first_adrift(i) {
            let i = choose|i: int| self.first_adrift(i);
            Some(IndexBuildError::ParentCycle { entry: i as u32, object: Frn(frn[i]) })
        } else {
            None
        }
    }

    /// The entries that repeat a link and are dropped.
    pub open spec fn dropped(&self, i: int) -> bool {
        self.mode == FinalizeMode::SyntheticFixture && self.repeats(i)
    }

    /// The flags with the dropped entries tombstoned.
    pub open spec fn kept_flags(&self) -> Seq<u8> {
        Seq::new(
            self.idx.flag@.len(),
            |i: int|
                if self.dropped(i) {
                    with_bit(self.idx.flag@[i], TOMBSTONE, true)
                } else {
                    self.idx.flag@[i]
                },
        )
    }

    /// `out` holds the entries below their parents, with exclusion derived,
    /// names stored once and sorted, and dropped entries tombstoned.
    pub open spec fn settles(&self, out: &VolumeIndex) -> bool {
        &&& out.wf()
        &&& out.count() == self.idx.count()
        &&& out.flag@ == all_derived(self.parents(), self.kept_flags())
        &&& forall|i: int|
            0 <= i < out.count() && !self.dropped(i) ==> #[trigger] out.row(i) == (Row {
                parent: self.parents()[i],
                flag: out.flag@[i],
                ..self.idx.row(i)
            })
        &&& out.perm_name@.len() == out.count()
        &&& out.name_sorted()
        &&& out.frn_index.covers == out.count()
        &&& out.dict_appends_since_dedup == 0
        &&& out.content_generation == 0
        &&& out.structural_generation == 0
        &&& out.stat_generation == 0
        &&& out.dir_topology_generation == 0
        &&& !out.exclusion_tree_dirty
    }

    /// What finishing gives: the settled entries, compacted where some were
    /// dropped.
    pub open spec fn finishes(&self, out: &VolumeIndex) -> bool {
        if exists|i: int| self.dropped(i) {
            exists|mid: VolumeIndex| #[trigger] self.settles(&mid) && mid.compacts_to(out)
        } else {
            self.settles(out)
        }
    }

    /// A builder for a fixture. The root's reference has no sequence number
    /// unless `root_record` holds one.
    pub fn new_synthetic(volume_label: &str, root_record: u64) -> (r: VolumeIndexBuilder)
        requires
            text_units(volume_label@).len() < 0x1000_0000,
        ensures
            r.starts(volume_label@, Frn(root_record), FinalizeMode::SyntheticFixture),
    {
        Self::with_root(volume_label, Frn(root_record), FinalizeMode::SyntheticFixture)
    }

    /// A builder for the volume whose root has this exact reference.
    pub fn new_strict(volume_label: &str, root: Frn) -> (r: Result<
        VolumeIndexBuilder,
        IndexBuildError,
    >)
        requires
            text_units(volume_label@).len() < 0x1000_0000,
        ensures
            if record_of(root.0) != NTFS_ROOT_RECORD || !has_sequence(root.0) {
                r == Err::<VolumeIndexBuilder, IndexBuildError>(
                    IndexBuildError::InvalidRootReference { root },
                )
            } else {
                r is Ok && r->Ok_0.starts(volume_label@, root, FinalizeMode::StrictProduction)
            },
    {
        if root.0 % 0x1_0000_0000_0000 != NTFS_ROOT_RECORD || root.0 < 0x1_0000_0000_0000 {
            return Err(IndexBuildError::InvalidRootReference { root });
        }
        Ok(Self::with_root(volume_label, root, FinalizeMode::StrictProduction))
    }

    /// A builder that holds the root alone: a directory of the volume's name,
    /// without a parent.
    pub open spec fn starts(&self, label: Seq<char>, root: Frn, mode: FinalizeMode) -> bool {
        let units = text_units(label);
        &&& self.wf()
        &&& self.mode == mode
        &&& self.idx.count() == 1
        &&& self.idx.row(0) == (Row {
            name: wtf8_of(units),
            lower: lower_of(units),
            parent: NO_PARENT,
            size: 0,
            mtime: 0,
            frn: root.0,
            flag: IS_DIR,
        })
        &&& self.idx.dict_off@.len() == 1
        &&& self.idx.dict_pool@.len() == lower_of(units).len() <= 3 * units.len()
        &&& self.idx.orig_pool@.len() <= 3 * units.len()
    }

    fn with_root(volume_label: &str, root: Frn, mode: FinalizeMode) -> (r: VolumeIndexBuilder)
        requires
            text_units(volume_label@).len() < 0x1000_0000,
        ensures
            r.starts(volume_label@, root, mode),
    {
        let units: Vec<u16> = encode_units(volume_label);
        let mut idx = VolumeIndex::empty();
        let e = RawEntry {
            parent_frn: Frn(u64::MAX),
            frn: root,
            name_utf16: units.as_slice(),
            is_dir: true,
            is_reparse: false,
            is_hidden: false,
            is_system: false,
            size: 0,
            mtime: 0,
        };
        proof {
            lemma_fold_keeps_length(units@);
        }
        let ghost before = idx;
        idx.push_raw(&e, VolumeIndex::ROOT);
        let ghost pushed = idx;
        proof {
            assert(pushed.rows().len() == 1);
            assert(pushed.row(0) == pushed.rows()[0]);
            assert(!before.excludes(0));
            lemma_raw_flags(true, false, false, false);
            lemma_root_flags();
        }
        idx.set_parent(VolumeIndex::ROOT, NO_PARENT);
        proof {
            assert(idx.row(0) == idx.rows()[0]);
            assert(idx.live(0)) by {
                assert(IS_DIR & TOMBSTONE == 0) by (bit_vector);
            }
            assert(bit_set(IS_DIR, IS_DIR)) by {
                assert(IS_DIR & IS_DIR != 0) by (bit_vector);
            }
            assert(idx.live_bytes(1) == idx.live_bytes(0) + idx.lower(0).len());
            assert forall|i: int| 0 <= i < 1 implies #[trigger] pushed.owns_same(&idx, i) by {}
            pushed.lemma_owned_same(&idx, 1);
        }
        let mut parent_frns: Vec<Frn> = Vec::new();
        parent_frns.push(Frn(u64::MAX));
        VolumeIndexBuilder { idx, parent_frns, mode }
    }

    /// Append a scanned entry; its parent is resolved when all are there.
    pub fn push(&mut self, e: RawEntry<'_>)
        requires
            old(self).wf(),
            old(self).idx.has_room(
                e.name_utf16@.len() as int,
                wtf8_of(e.name_utf16@),
                lower_of(e.name_utf16@),
            ),
        ensures
            final(self).wf(),
            final(self).mode == old(self).mode,
            final(self).parent_frns@ == old(self).parent_frns@.push(e.parent_frn),
            final(self).idx.rows() == old(self).idx.rows().push(
                old(self).idx.new_row(
                    wtf8_of(e.name_utf16@),
                    lower_of(e.name_utf16@),
                    0,
                    facts_of(e),
                ),
            ),
            ({
                let row = final(self).idx.row(old(self).idx.count());
                &&& row.name == wtf8_of(e.name_utf16@)
                &&& row.lower == lower_of(e.name_utf16@)
                &&& row.parent == 0
                &&& row.size == e.size
                &&& row.mtime == ticks_to_secs(e.mtime)
                &&& row.frn == e.frn.0
                &&& bit_set(row.flag, IS_DIR) == e.is_dir
                &&& bit_set(row.flag, REPARSE) == e.is_reparse
                &&& bit_set(row.flag, HIDDEN) == e.is_hidden
                &&& bit_set(row.flag, SYSTEM) == e.is_system
                &&& !bit_set(row.flag, TOMBSTONE)
            }),
            final(self).idx.one_name_more(
                &old(self).idx,
                wtf8_of(e.name_utf16@),
                lower_of(e.name_utf16@),
            ),
            final(self).idx.dict_pool@.len() <= old(self).idx.dict_pool@.len() + 3
                * e.name_utf16@.len(),
            final(self).idx.orig_pool@.len() <= old(self).idx.orig_pool@.len() + 3
                * e.name_utf16@.len(),
    {
        let ghost before = self.idx;
        self.idx.push_raw(&e, VolumeIndex::ROOT);
        self.parent_frns.push(e.parent_frn);
        proof {
            lemma_fold_keeps_length(e.name_utf16@);
            let row = before.new_row(
                wtf8_of(e.name_utf16@),
                lower_of(e.name_utf16@),
                0,
                facts_of(e),
            );
            lemma_pushed(&before, &self.idx, row);
            before.lemma_new_entry_tells(wtf8_of(e.name_utf16@), lower_of(e.name_utf16@), 0, e);
            assert(self.idx.row(before.count()) == self.idx.rows()[before.count()]);
        }
    }

    /// Append an entry whose name is encoded already.
    pub fn push_encoded(&mut self, e: EncodedEntry<'_>)
        requires
            old(self).wf(),
            e.name_wtf8@.len() == e.lower_wtf8@.len(),
            old(self).idx.has_room(0, e.name_wtf8@, e.lower_wtf8@),
        ensures
            final(self).wf(),
            final(self).mode == old(self).mode,
            final(self).parent_frns@ == old(self).parent_frns@.push(e.parent_frn),
            final(self).idx.rows() == old(self).idx.rows().push(
                old(self).idx.new_row(e.name_wtf8@, e.lower_wtf8@, 0, encoded_facts(e)),
            ),
            ({
                let row = final(self).idx.row(old(self).idx.count());
                &&& row.name == e.name_wtf8@
                &&& row.lower == e.lower_wtf8@
                &&& row.parent == 0
                &&& row.size == e.size
                &&& row.mtime == ticks_to_secs(e.mtime)
                &&& row.frn == e.frn.0
                &&& bit_set(row.flag, IS_DIR) == e.is_dir
                &&& bit_set(row.flag, REPARSE) == e.is_reparse
                &&& bit_set(row.flag, HIDDEN) == e.is_hidden
                &&& bit_set(row.flag, SYSTEM) == e.is_system
                &&& !bit_set(row.flag, TOMBSTONE)
            }),
            final(self).idx.one_name_more(&old(self).idx, e.name_wtf8@, e.lower_wtf8@),
    {
        let ghost before = self.idx;
        let facts = EntryFacts {
            frn: e.frn,
            size: e.size,
            mtime: e.mtime,
            is_dir: e.is_dir,
            is_reparse: e.is_reparse,
            is_hidden: e.is_hidden,
            is_system: e.is_system,
        };
        self.idx.push_named(e.name_wtf8, e.lower_wtf8, VolumeIndex::ROOT, facts);
        self.parent_frns.push(e.parent_frn);
        proof {
            let row = before.new_row(e.name_wtf8@, e.lower_wtf8@, 0, encoded_facts(e));
            lemma_pushed(&before, &self.idx, row);
            before.lemma_new_encoded_entry_tells(0, e);
            assert(self.idx.row(before.count()) == self.idx.rows()[before.count()]);
        }
    }

    /// How many entries there are, the root among them.
    pub fn len(&self) -> (r: usize)
        ensures
            r == self.idx.count(),
    {
        self.idx.len()
    }

    /// Whether there are no entries; the root always is one.
    pub fn is_empty(&self) -> (r: bool)
        ensures
            r == (self.idx.count() == 0),
    {
        self.idx.is_empty()
    }
}

/// What is known of an encoded entry beside its name and parent.
pub open spec fn encoded_facts(e: EncodedEntry<'_>) -> EntryFacts {
    EntryFacts {
        frn: e.frn,
        size: e.size,
        mtime: e.mtime,
        is_dir: e.is_dir,
        is_reparse: e.is_reparse,
        is_hidden: e.is_hidden,
        is_system: e.is_system,
    }
}

proof fn lemma_root_flags()
    ensures
        with_bit(
            super::flags::raw_flags(true, false, false, false),
            EXCLUDED,
            false,
        ) == IS_DIR,
{
    assert((((((0u8 | 1u8) & !4u8) & !8u8) & !16u8) & !32u8) == 1u8) by (bit_vector);
}

/// Appending an entry keeps what is known of the others.
proof fn lemma_pushed(before: &VolumeIndex, after: &VolumeIndex, row: Row)
    requires
        before.wf(),
        after.wf(),
        before.count() > 0,
        after.rows() == before.rows().push(row),
        after.tombstones == before.tombstones,
        before.tombstones == 0,
        before.live_bytes(before.count()) <= before.dict_pool@.len(),
        after.dict_pool@.len() == before.dict_pool@.len() + row.lower.len(),
        after.dict_pool@.len() < NONE,
    ensures
        after.count() == before.count() + 1,
        after.parent@[0] == before.parent@[0],
        after.flag@[0] == before.flag@[0],
        after.live_bytes(after.count()) <= after.dict_pool@.len(),
        after.live_bytes(after.count()) < NONE,
{
    let n = before.count();
    assert(after.rows().len() == n + 1);
    assert(after.rows()[0] == after.row(0) && before.rows()[0] == before.row(0));
    assert forall|i: int| 0 <= i < n implies #[trigger] same_live_name(before, after, i) by {
        assert(after.rows()[i] == after.row(i) && before.rows()[i] == before.row(i));
    }
    lemma_same_live_bytes(before, after, n);
    assert(after.rows()[n] == after.row(n));
    lemma_all_live(after, n);
}

/// Entry `i` is live in both or in none, with one folded name.
spec fn same_live_name(before: &VolumeIndex, after: &VolumeIndex, i: int) -> bool {
    after.live(i) == before.live(i) && after.lower(i) == before.lower(i)
}

proof fn lemma_same_live_bytes(before: &VolumeIndex, after: &VolumeIndex, n: int)
    requires
        forall|i: int| 0 <= i < n ==> #[trigger] same_live_name(before, after, i),
    ensures
        after.live_bytes(n) == before.live_bytes(n),
    decreases n,
{
    if n > 0 {
        lemma_same_live_bytes(before, after, n - 1);
        assert(same_live_name(before, after, n - 1));
    }
}

} // verus!
