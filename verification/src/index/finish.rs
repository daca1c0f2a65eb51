//! Finishing a build, stage by stage.

use vstd::prelude::*;
use std::sync::atomic::AtomicBool;
use crate::metrics::{timed_us, Stage};
use crate::order::occurs;
use crate::stop::{is_set, reads};
use super::builder::{
    all_links, exact_dirs, exact_links, fixture_parent, parent_fault, FinalizeMode, FinishTimings,
    IndexBuildError, VolumeIndexBuilder,
};
use super::columns::{Row, VolumeIndex, NONE};
use super::compact::lemma_all_live;
use super::exclusion::all_derived;
use super::flags::{bit_set, lemma_with_bit, TOMBSTONE};
use super::frn::{frn_before, groups_valid, links_down, FrnIndex};
use super::lookup::{lemma_selected, lemma_selected_distinct, lemma_selected_first, selected};
use super::topology::{is_directory, rooted};
use super::{has_sequence, record_of, EntryId, Frn, NO_PARENT};

verus! {

impl VolumeIndex {
    /// Where every entry is merged, the links of a record are in the order of
    /// their numbers.
    proof fn lemma_merged_links(&self, frn: u64)
        requires
            self.wf(),
            self.frn_index.covers == self.count(),
        ensures
            self.record_links(record_of(frn)) == all_links(self.frn@, self.flag@, record_of(frn)),
            self.object_links(frn) == exact_links(self.frn@, self.flag@, frn),
            self.directory_links(frn) == exact_dirs(self.frn@, self.flag@, frn),
    {
        let n = self.frn@.len() as int;
        let key = record_of(frn);
        assert(links_down(self.frn@, self.flag@, key, n, n) =~= Seq::<u32>::empty());
        assert(self.record_links(key) =~= all_links(self.frn@, self.flag@, key));
    }

    /// The parent that a fixture gets.
    fn fixture_parent_of(&self, wanted: Frn) -> (r: EntryId)
        requires
            self.wf(),
            self.count() > 0,
            self.frn_index.covers == self.count(),
        ensures
            r == fixture_parent(self.frn@, self.flag@, wanted.0),
            r < self.count(),
    {
        proof {
            self.lemma_merged_links(wanted.0);
            self.lemma_object_links(wanted.0);
            self.lemma_record_links(record_of(wanted.0));
            lemma_selected(self.object_links(wanted.0), is_directory(self.flag@));
        }
        let dirs: Vec<EntryId> = self.directories_by_frn(wanted);
        if dirs.len() > 0 {
            proof {
                assert(dirs@[0] == dirs@[0] as int);
                assert(occurs(dirs@, dirs@[0] as int));
                assert(occurs(self.object_links(wanted.0), dirs@[0] as int));
            }
            return dirs[0];
        }
        if wanted.0 >= 0x1_0000_0000_0000 {
            return Self::ROOT;
        }
        let all: Vec<EntryId> = self.entries_by_record(wanted.record().0);
        let ghost pass = is_directory(self.flag@);
        let mut i: usize = 0;
        while i < all.len()
            invariant
                i <= all@.len(),
                self.wf(),
                self.count() > 0,
                pass == is_directory(self.flag@),
                forall|k: int| 0 <= k < all@.len() ==> (#[trigger] all@[k]) < self.count(),
                forall|k: int| 0 <= k < i ==> !pass(#[trigger] all@[k]),
                all@ == all_links(self.frn@, self.flag@, record_of(wanted.0)),
                exact_dirs(self.frn@, self.flag@, wanted.0).len() == 0,
                !has_sequence(wanted.0),
            decreases all@.len() - i,
        {
            if self.is_dir(all[i]) {
                proof {
                    let s = selected(all@, pass);
                    lemma_selected(all@, pass);
                    assert(all@[i as int] == all@[i as int] as int);
                    assert(occurs(all@, all@[i as int] as int));
                    assert(pass(all@[i as int]));
                    assert(occurs(s, all@[i as int] as int));
                    let k = lemma_selected_first(all@, pass);
                    if k < i {
                        assert(!pass(all@[k]));
                    } else if i < k {
                        assert(!pass(all@[i as int]));
                    }
                }
                return all[i];
            }
            i = i + 1;
        }
        proof {
            let s = selected(all@, pass);
            if s.len() > 0 {
                let k = lemma_selected_first(all@, pass);
                assert(!pass(all@[k]));
            }
        }
        Self::ROOT
    }

    /// The parent of an entry of a volume, or what is wrong with it.
    fn exact_parent_of(&self, id: EntryId, wanted: Frn) -> (r: Result<EntryId, IndexBuildError>)
        requires
            self.wf(),
            id < self.count(),
            self.frn_index.covers == self.count(),
        ensures
            match r {
                Ok(parent) => parent_fault(self.frn@, self.flag@, id as int, wanted) is None
                    && parent == exact_dirs(self.frn@, self.flag@, wanted.0)[0] && parent
                    < self.count(),
                Err(e) => parent_fault(self.frn@, self.flag@, id as int, wanted) == Some(e),
            },
    {
        proof {
            self.lemma_merged_links(wanted.0);
            self.lemma_object_links(wanted.0);
            lemma_selected(self.object_links(wanted.0), is_directory(self.flag@));
        }
        let child: Frn = Frn(self.frn[id as usize]);
        if child.0 == wanted.0 {
            return Err(IndexBuildError::SelfParent { entry: id, child, parent: wanted });
        }
        let dirs: Vec<EntryId> = self.directories_by_frn(wanted);
        if dirs.len() > 1 {
            return Err(IndexBuildError::AmbiguousParent { entry: id, child, parent: wanted });
        }
        if dirs.len() == 1 {
            proof {
                assert(dirs@[0] == dirs@[0] as int);
                assert(occurs(dirs@, dirs@[0] as int));
                assert(occurs(self.object_links(wanted.0), dirs@[0] as int));
            }
            return Ok(dirs[0]);
        }
        match self.entry_by_frn(wanted) {
            Some(_) => Err(
                IndexBuildError::ParentNotDirectory { entry: id, child, parent: wanted },
            ),
            None => Err(IndexBuildError::UnresolvedParent { entry: id, child, parent: wanted }),
        }
    }
}

/// Whether work is to stop, as the flag is read; without a flag it never is.
fn halted(stop: Option<&AtomicBool>) -> (r: bool)
    ensures
        match stop {
            Some(flag) => reads(flag, r),
            None => !r,
        },
{
    match stop {
        Some(flag) => is_set(flag),
        None => false,
    }
}

impl VolumeIndexBuilder {
    /// `idx` holds the entries, and the index by record number covers them.
    spec fn merged(&self, idx: &VolumeIndex) -> bool {
        &&& idx.wf()
        &&& idx.frn_index.covers == self.idx.count()
        &&& *idx == (VolumeIndex { frn_index: idx.frn_index, ..self.idx })
    }

    /// Objects of a volume carry sequence numbers and are unambiguous.
    fn check_objects(idx: &VolumeIndex, Ghost(b): Ghost<VolumeIndexBuilder>) -> (r: Result<(), IndexBuildError>)
        requires
            b.wf(),
            b.mode == FinalizeMode::StrictProduction,
            b.merged(idx),
        ensures
            match r {
                Err(e) => b.fault() == Some(e),
                Ok(_) => (forall|i: int| !b.first_unsequenced(i)) && groups_valid(
                    b.idx.frn@,
                    b.idx.flag@,
                    b.idx.count(),
                ),
            },
    {
        let n: u32 = idx.len() as u32;
        let mut i: u32 = 0;
        while i < n
            invariant
                b.wf(),
                b.mode == FinalizeMode::StrictProduction,
                b.merged(idx),
                n == b.idx.count(),
                i <= n,
                forall|j: int| 0 <= j < i ==> has_sequence(#[trigger] b.idx.frn@[j]),
            decreases n - i,
        {
            let object: u64 = idx.frn[i as usize];
            if object < 0x1_0000_0000_0000 {
                proof {
                    assert(b.first_unsequenced(i as int));
                    let c = choose|c: int| b.first_unsequenced(c);
                    assert(b.first_unsequenced(c));
                    if c < i {
                        assert(has_sequence(b.idx.frn@[c]));
                    } else if i < c {
                        assert(has_sequence(b.idx.frn@[i as int]));
                    }
                }
                return Err(
                    IndexBuildError::InvalidObjectReference { entry: i, object: Frn(object) },
                );
            }
            i = i + 1;
        }
        proof {
            assert forall|c: int| !b.first_unsequenced(c) by {
                if b.first_unsequenced(c) {
                    assert(has_sequence(b.idx.frn@[c]));
                }
            }
        }
        if !idx.frn_index.has_valid_live_object_groups(idx.frn.as_slice(), idx.flag.as_slice()) {
            return Err(IndexBuildError::AmbiguousObjectIdentity);
        }
        Ok(())
    }

    /// The parents of all entries, or the first fault of one.
    fn resolve(
        idx: &VolumeIndex,
        parent_frns: &Vec<Frn>,
        mode: FinalizeMode,
        Ghost(b): Ghost<VolumeIndexBuilder>,
    ) -> (r: Result<Vec<EntryId>, IndexBuildError>)
        requires
            b.wf(),
            b.merged(idx),
            parent_frns@ == b.parent_frns@,
            mode == b.mode,
        ensures
            match r {
                Err(e) => b.mode == FinalizeMode::StrictProduction && (exists|i: int|
                    b.first_parent_fault(i)) && b.fault_above(
                    choose|i: int| b.first_parent_fault(i),
                ) == Some(e),
                Ok(parents) => {
                    &&& b.mode == FinalizeMode::StrictProduction ==> forall|i: int|
                        !b.first_parent_fault(i)
                    &&& parents@ == b.parents()
                    &&& forall|i: int|
                        0 < i < b.idx.count() ==> (#[trigger] parents@[i]) < b.idx.count()
                },
            },
    {
        let n: u32 = idx.len() as u32;
        let mut parents: Vec<EntryId> = Vec::new();
        parents.push(NO_PARENT);
        let mut i: u32 = 1;
        while i < n
            invariant
                b.wf(),
                b.merged(idx),
                parent_frns@ == b.parent_frns@,
                mode == b.mode,
                n == b.idx.count(),
                1 <= i <= n,
                parents@.len() == i,
                forall|j: int| 0 <= j < i ==> #[trigger] parents@[j] == b.parents()[j],
                forall|j: int| 0 < j < i ==> (#[trigger] parents@[j]) < n,
                b.mode == FinalizeMode::StrictProduction ==> forall|j: int|
                    0 < j < i ==> #[trigger] b.fault_above(j) is None,
            decreases n - i,
        {
            let wanted: Frn = parent_frns[i as usize];
            let parent: EntryId = match mode {
                FinalizeMode::StrictProduction => match idx.exact_parent_of(i, wanted) {
                    Ok(parent) => parent,
                    Err(e) => {
                        proof {
                            assert(b.fault_above(i as int) == Some(e));
                            assert(b.first_parent_fault(i as int));
                            let c = choose|c: int| b.first_parent_fault(c);
                            assert(b.first_parent_fault(c));
                            if c < i {
                                assert(b.fault_above(c) is None);
                            } else if i < c {
                                assert(b.fault_above(i as int) is None);
                            }
                        }
                        return Err(e);
                    },
                },
                FinalizeMode::SyntheticFixture => idx.fixture_parent_of(wanted),
            };
            parents.push(parent);
            i = i + 1;
        }
        proof {
            assert(parents@ =~= b.parents());
            if b.mode == FinalizeMode::StrictProduction {
                assert forall|c: int| !b.first_parent_fault(c) by {
                    if b.first_parent_fault(c) {
                        assert(b.fault_above(c) is None);
                    }
                }
            }
        }
        Ok(parents)
    }

    /// `idx` holds the entries below their parents.
    spec fn linked(&self, idx: &VolumeIndex) -> bool {
        &&& idx.wf()
        &&& idx.frn_index.covers == self.idx.count()
        &&& idx.parent@ == self.parents()
        &&& *idx == (VolumeIndex { frn_index: idx.frn_index, parent: idx.parent, ..self.idx })
        &&& forall|i: int|
            0 < i < self.idx.count() ==> (#[trigger] self.parents()[i]) < self.idx.count()
    }

    /// What repeats a link among the linked entries repeats one.
    proof fn lemma_repeats(&self, idx: &VolumeIndex)
        requires
            self.wf(),
            self.linked(idx),
        ensures
            forall|i: int| 0 <= i < idx.count() ==> #[trigger] idx.repeats(i) == self.repeats(i),
    {
        assert forall|i: int| 0 <= i < idx.count() implies #[trigger] idx.repeats(i)
            == self.repeats(i) by {
            lemma_all_live(idx, i);
            if idx.repeats(i) {
                let j = choose|j: int|
                    0 <= j < i && j < idx.frn_index.covers && #[trigger] idx.live(j)
                        && idx.same_link(j, i);
                assert(idx.original(j) == self.idx.original(j));
                assert(idx.original(i) == self.idx.original(i));
                assert(self.idx.frn@[j] == self.idx.frn@[i]);
            }
            if self.repeats(i) {
                let j = choose|j: int|
                    0 <= j < i && #[trigger] self.idx.frn@[j] == self.idx.frn@[i]
                        && self.parents()[j] == self.parents()[i] && self.idx.original(j)
                        == self.idx.original(i);
                lemma_all_live(idx, j);
                assert(idx.original(j) == self.idx.original(j));
                assert(idx.original(i) == self.idx.original(i));
                assert(idx.same_link(j, i));
                assert(idx.live(j));
            }
        }
    }

    /// Links of a volume occur once and lead to the root.
    fn check_links(idx: &VolumeIndex, Ghost(b): Ghost<VolumeIndexBuilder>) -> (r: Result<(), IndexBuildError>)
        requires
            b.wf(),
            b.mode == FinalizeMode::StrictProduction,
            b.linked(idx),
            forall|i: int| !b.first_unsequenced(i),
            groups_valid(b.idx.frn@, b.idx.flag@, b.idx.count()),
            forall|i: int| !b.first_parent_fault(i),
        ensures
            match r {
                Err(e) => b.fault() == Some(e),
                Ok(_) => b.fault() is None,
            },
    {
        let repeated: Vec<EntryId> = idx.duplicate_links();
        let ghost ids = idx.frn_index.ids@;
        let ghost pass = |id: u32| idx.repeats(id as int);
        proof {
            b.lemma_repeats(idx);
            lemma_selected(ids, pass);
        }
        if repeated.len() > 0 {
            let id: EntryId = repeated[0];
            proof {
                let k = lemma_selected_first(ids, pass);
                assert(idx.repeats(id as int));
                assert(b.repeats(id as int));
                assert forall|j: int| j != id && #[trigger] b.repeats(j) implies frn_before(
                    b.idx.frn@,
                    id,
                    j as u32,
                ) by {
                    lemma_all_live(idx, j);
                    assert(idx.repeats(j));
                    assert(!bit_set(idx.flag@[j], TOMBSTONE));
                    assert(occurs(ids, j));
                    let m = choose|m: int| 0 <= m < ids.len() && #[trigger] ids[m] == j;
                    assert(pass(ids[m]));
                    assert(k < m);
                    assert(frn_before(idx.frn@, ids[k], ids[m]));
                }
                assert(b.first_repeat(id as int));
                let c = choose|c: int| b.first_repeat(c);
                assert(b.first_repeat(c));
                if c != id as int {
                    assert(b.repeats(c));
                    assert(frn_before(b.idx.frn@, id, c as u32));
                    assert(frn_before(b.idx.frn@, c as u32, id));
                }
            }
            return Err(IndexBuildError::DuplicateLink { object: idx.frn(id) });
        }
        proof {
            assert forall|c: int| !b.first_repeat(c) by {
                if b.first_repeat(c) {
                    assert(b.repeats(c));
                    lemma_all_live(idx, c);
                    assert(idx.repeats(c));
                    assert(!bit_set(idx.flag@[c], TOMBSTONE));
                    assert(occurs(ids, c));
                    assert(pass(c as u32));
                    assert(occurs(repeated@, c));
                }
            }
            assert forall|i: int| 0 < i < idx.count() && #[trigger] idx.considered(i, false) implies idx.parent@[i]
                < idx.count() && idx.considered(idx.parent@[i] as int, false) by {
                assert(b.parents()[i] < b.idx.count());
            }
        }
        match idx.first_unrooted(false) {
            Some(i) => {
                proof {
                    assert forall|j: int| 0 < j < i implies rooted(b.parents(), j) by {
                        assert(idx.considered(j, false));
                    }
                    assert(b.first_adrift(i as int));
                    let c = choose|c: int| b.first_adrift(c);
                    assert(b.first_adrift(c));
                    if c < i {
                        assert(rooted(b.parents(), c));
                    } else if i < c {
                        assert(rooted(b.parents(), i as int));
                    }
                }
                Err(IndexBuildError::ParentCycle { entry: i, object: idx.frn(i) })
            },
            None => {
                proof {
                    assert forall|c: int| !b.first_adrift(c) by {
                        if b.first_adrift(c) {
                            assert(idx.considered(c, false));
                        }
                    }
                }
                Ok(())
            },
        }
    }

    /// Tombstone the entries of a fixture that repeat a link; says whether
    /// there are any.
    fn drop_repeats(idx: &mut VolumeIndex, Ghost(b): Ghost<VolumeIndexBuilder>) -> (found: bool)
        requires
            b.wf(),
            b.mode == FinalizeMode::SyntheticFixture,
            b.linked(old(idx)),
        ensures
            found == (exists|i: int| b.dropped(i)),
            final(idx).wf(),
            final(idx).flag@ == b.kept_flags(),
            *final(idx) == (VolumeIndex {
                flag: final(idx).flag,
                tombstones: final(idx).tombstones,
                dead_name_bytes: final(idx).dead_name_bytes,
                ..*old(idx)
            }),
    {
        let repeated: Vec<EntryId> = idx.duplicate_links();
        let ghost start = *idx;
        let ghost ids = idx.frn_index.ids@;
        let ghost pass = |id: u32| start.repeats(id as int);
        proof {
            b.lemma_repeats(&start);
            lemma_selected(ids, pass);
            assert forall|i: int, j: int| 0 <= i < j < ids.len() implies #[trigger] ids[i]
                != #[trigger] ids[j] by {
                assert(frn_before(idx.frn@, ids[i], ids[j]));
            }
            lemma_selected_distinct(ids, pass);
            assert forall|k: int| 0 <= k < repeated@.len() implies (#[trigger] repeated@[k])
                < idx.count() && idx.live(repeated@[k] as int) by {
                assert(repeated@[k] == repeated@[k] as int);
                assert(occurs(repeated@, repeated@[k] as int));
                assert(occurs(ids, repeated@[k] as int));
                let m = choose|m: int| 0 <= m < ids.len() && #[trigger] ids[m] == repeated@[k] as int;
                lemma_all_live(&start, repeated@[k] as int);
            }
            assert forall|i: int| 0 <= i < start.count() implies occurs(repeated@, i)
                == #[trigger] b.dropped(i) by {
                assert(start.repeats(i) == b.repeats(i));
                if start.repeats(i) {
                    lemma_all_live(&start, i);
                    assert(!bit_set(start.flag@[i], TOMBSTONE));
                    assert(occurs(ids, i));
                    assert(pass(i as u32));
                }
                if occurs(repeated@, i) {
                    assert(pass(i as u32));
                }
            }
            if repeated@.len() > 0 {
                assert(repeated@[0] == repeated@[0] as int);
                assert(occurs(repeated@, repeated@[0] as int));
                assert(repeated@[0] < start.count());
                assert(b.dropped(repeated@[0] as int));
            } else {
                assert forall|i: int| !(#[trigger] b.dropped(i)) by {
                    if b.dropped(i) {
                        assert(occurs(repeated@, i));
                    }
                }
            }
        }
        idx.tombstone_all(&repeated);
        proof {
            assert(idx.flag@ =~= b.kept_flags()) by {
                assert forall|i: int| 0 <= i < start.count() implies #[trigger] idx.flag@[i]
                    == b.kept_flags()[i] by {
                    assert(occurs(repeated@, i) == b.dropped(i));
                }
            }
        }
        repeated.len() > 0
    }

    /// `idx` holds the entries below their parents, with those that repeat a
    /// link tombstoned.
    spec fn cleaned(&self, idx: &VolumeIndex) -> bool {
        &&& idx.wf()
        &&& idx.frn_index.covers == self.idx.count()
        &&& idx.parent@ == self.parents()
        &&& idx.flag@ == self.kept_flags()
        &&& *idx == (VolumeIndex {
            frn_index: idx.frn_index,
            parent: idx.parent,
            flag: idx.flag,
            tombstones: idx.tombstones,
            dead_name_bytes: idx.dead_name_bytes,
            ..self.idx
        })
    }

    /// `idx` holds those entries with exclusion derived.
    spec fn derived(&self, idx: &VolumeIndex) -> bool {
        &&& idx.wf()
        &&& idx.frn_index.covers == self.idx.count()
        &&& idx.parent@ == self.parents()
        &&& idx.flag@ == all_derived(self.parents(), self.kept_flags())
        &&& *idx == (VolumeIndex {
            frn_index: idx.frn_index,
            parent: idx.parent,
            flag: idx.flag,
            tombstones: idx.tombstones,
            dead_name_bytes: idx.dead_name_bytes,
            ..self.idx
        })
    }

    /// An entry is live where it is not dropped; the root is.
    proof fn lemma_derived_live(&self, idx: &VolumeIndex, i: int)
        requires
            self.wf(),
            0 <= i < self.idx.count(),
            idx.flag@ == all_derived(self.parents(), self.kept_flags()),
        ensures
            idx.live(i) == !self.dropped(i),
            idx.live(0),
    {
        broadcast use lemma_with_bit;

        lemma_all_live(&self.idx, i);
        lemma_all_live(&self.idx, 0);
        assert(!self.repeats(0));
    }

    /// Store equal names once.
    fn store_names(idx: &mut VolumeIndex, Ghost(b): Ghost<VolumeIndexBuilder>)
        requires
            b.wf(),
            b.derived(old(idx)),
        ensures
            b.named(final(idx)),
    {
        let ghost start = *idx;
        let ghost n = idx.count();
        proof {
            b.lemma_derived_live(&start, 0);
            assert(start.first_live(0));
            let f = choose|f: int| start.first_live(f);
            assert(start.first_live(f));
        }
        idx.dedup_dict();
        let ghost deduped = *idx;
        proof {
            assert forall|i: int| 0 <= i < n implies #[trigger] owns_as(&b.idx, &deduped, i) by {
                b.lemma_derived_live(&start, i);
                lemma_all_live(&b.idx, i);
                if deduped.live(i) {
                    assert(start.live(i));
                    assert(start.owned_bytes(i) == b.idx.owned_bytes(i));
                }
            }
            lemma_owned_less(&b.idx, &deduped, n);
        }
        idx.dedup_orig();
        proof {
            assert forall|i: int| 0 <= i < n && !b.dropped(i) implies #[trigger] idx.row(i) == (
            Row { parent: b.parents()[i], flag: idx.flag@[i], ..b.idx.row(i) }) by {
                b.lemma_derived_live(&start, i);
                assert(start.live(i));
                assert(deduped.live(i));
                assert(idx.row(i) == deduped.row(i));
                assert(deduped.row(i) == start.row(i));
                assert(start.row(i) == (Row {
                    parent: b.parents()[i],
                    flag: start.flag@[i],
                    ..b.idx.row(i)
                }));
            }
        }
    }

    /// `idx` holds those entries with names stored once.
    spec fn named(&self, idx: &VolumeIndex) -> bool {
        &&& idx.wf()
        &&& idx.count() == self.idx.count()
        &&& idx.frn_index.covers == self.idx.count()
        &&& idx.dict_distinct()
        &&& idx.flag@ == all_derived(self.parents(), self.kept_flags())
        &&& forall|i: int|
            0 <= i < idx.count() && !self.dropped(i) ==> #[trigger] idx.row(i) == (Row {
                parent: self.parents()[i],
                flag: idx.flag@[i],
                ..self.idx.row(i)
            })
        &&& idx.dict_appends_since_dedup == 0
        &&& idx.content_generation == 0
        &&& idx.structural_generation == 0
        &&& idx.stat_generation == 0
        &&& idx.dir_topology_generation == 0
        &&& !idx.exclusion_tree_dirty
    }

    /// Sort the entries by name.
    fn order_names(idx: &mut VolumeIndex, Ghost(b): Ghost<VolumeIndexBuilder>)
        requires
            b.wf(),
            b.named(old(idx)),
        ensures
            b.settles(final(idx)),
    {
        let ghost start = *idx;
        let sorted: Vec<EntryId> = idx.sorted_by_name();
        idx.perm_name = sorted;
        proof {
            let ord = start.name_order();
            idx.lemma_originals_same(&start);
            assert forall|i: int| 0 <= i < idx.count() && !b.dropped(i) implies #[trigger] idx.row(i)
                == (Row { parent: b.parents()[i], flag: idx.flag@[i], ..b.idx.row(i) }) by {
                assert(idx.row(i) == start.row(i));
            }
            assert forall|x: int, y: int| 0 <= x < y < idx.perm_name@.len() implies idx.name_before(
                (#[trigger] idx.perm_name@[x]) as int,
                (#[trigger] idx.perm_name@[y]) as int,
            ) by {
                assert(ord(sorted@[x], sorted@[y]));
                assert(idx.lower(sorted@[x] as int) == start.lower(sorted@[x] as int));
                assert(idx.lower(sorted@[y] as int) == start.lower(sorted@[y] as int));
            }
        }
    }

    /// A settled index can be compacted.
    proof fn lemma_can_compact(&self, idx: &VolumeIndex)
        requires
            self.wf(),
            self.settles(idx),
        ensures
            idx.live(0),
            idx.live_bytes(idx.count()) < NONE,
    {
        let n = idx.count();
        self.lemma_derived_live(idx, 0);
        assert forall|i: int| 0 <= i < n implies #[trigger] named_as(&self.idx, idx, i) by {
            self.lemma_derived_live(idx, i);
            lemma_all_live(&self.idx, i);
            if idx.live(i) {
                assert(idx.row(i).lower == self.idx.row(i).lower);
            }
        }
        lemma_bytes_less(&self.idx, idx, n);
    }

    /// Finish, checking between stages whether to stop.
    fn run(self, stop: Option<&AtomicBool>) -> (r: Result<
        Option<(VolumeIndex, FinishTimings)>,
        IndexBuildError,
    >)
        requires
            self.wf(),
        ensures
            match r {
                Err(e) => self.fault() == Some(e),
                Ok(None) => stop matches Some(flag) && reads(flag, true),
                Ok(Some(done)) => self.fault() is None && self.finishes(&done.0)
                    && done.1.measured(),
            },
            r != Ok::<Option<(VolumeIndex, FinishTimings)>, IndexBuildError>(None) ==> (
            stop matches Some(flag) ==> reads(flag, false)),
    {
        let ghost b = self;
        let VolumeIndexBuilder { mut idx, parent_frns, mode } = self;
        if halted(stop) {
            return Ok(None);
        }
        let building: Stage = Stage::start();
        idx.frn_index = FrnIndex::build(idx.frn.as_slice(), idx.flag.as_slice());
        proof {
            idx.lemma_originals_same(&b.idx);
        }
        if halted(stop) {
            return Ok(None);
        }
        match mode {
            FinalizeMode::StrictProduction => {
                match Self::check_objects(&idx, Ghost(b)) {
                    Ok(_) => {},
                    Err(e) => {
                        return Err(e);
                    },
                }
            },
            FinalizeMode::SyntheticFixture => {},
        }
        let parents: Vec<EntryId> = match Self::resolve(&idx, &parent_frns, mode, Ghost(b)) {
            Ok(parents) => parents,
            Err(e) => {
                return Err(e);
            },
        };
        assert(parents@[0] == NO_PARENT);
        idx.set_parents(parents);
        if halted(stop) {
            return Ok(None);
        }
        let repeated: bool = match mode {
            FinalizeMode::SyntheticFixture => Self::drop_repeats(&mut idx, Ghost(b)),
            FinalizeMode::StrictProduction => {
                match Self::check_links(&idx, Ghost(b)) {
                    Ok(_) => {},
                    Err(e) => {
                        return Err(e);
                    },
                }
                proof {
                    assert(b.kept_flags() =~= idx.flag@);
                }
                false
            },
        };
        assert(b.cleaned(&idx));
        assert(b.fault() is None);
        idx.recompute_all_excluded();
        if halted(stop) {
            return Ok(None);
        }
        let build_us: u64 = building.elapsed_us();
        let build_ms: u64 = build_us / 1000;
        assert(timed_us(build_us));
        let sorting: Stage = Stage::start();
        Self::store_names(&mut idx, Ghost(b));
        if halted(stop) {
            return Ok(None);
        }
        Self::order_names(&mut idx, Ghost(b));
        let sort_us: u64 = sorting.elapsed_us();
        let sort_ms: u64 = sort_us / 1000;
        assert(timed_us(sort_us));
        if halted(stop) {
            return Ok(None);
        }
        let timings = FinishTimings { build_ms, sort_ms };
        if repeated {
            proof {
                b.lemma_can_compact(&idx);
            }
            let out: VolumeIndex = idx.compacted();
            return Ok(Some((out, timings)));
        }
        proof {
            assert forall|i: int| !(#[trigger] b.dropped(i)) by {}
        }
        Ok(Some((idx, timings)))
    }

    /// Finish a fixture.
    pub fn finish(self) -> (r: VolumeIndex)
        requires
            self.wf(),
            self.mode == FinalizeMode::SyntheticFixture,
        ensures
            self.finishes(&r),
    {
        self.finish_timed().0
    }

    /// Finish a fixture; says how long it took.
    pub fn finish_timed(self) -> (r: (VolumeIndex, FinishTimings))
        requires
            self.wf(),
            self.mode == FinalizeMode::SyntheticFixture,
        ensures
            self.finishes(&r.0),
            r.1.measured(),
    {
        match self.run(None) {
            Ok(Some(done)) => done,
            _ => {
                proof {
                    assert(false);
                }
                (VolumeIndex::empty(), FinishTimings { build_ms: 0, sort_ms: 0 })
            },
        }
    }

    /// Finish the index of a volume, or say why its entries are rejected.
    pub fn finish_strict(self) -> (r: Result<VolumeIndex, IndexBuildError>)
        requires
            self.wf(),
            self.mode == FinalizeMode::StrictProduction,
        ensures
            match self.fault() {
                Some(e) => r == Err::<VolumeIndex, IndexBuildError>(e),
                None => r is Ok && self.settles(&r->Ok_0),
            },
    {
        let ghost b = self;
        match self.run(None) {
            Ok(Some(done)) => {
                proof {
                    assert forall|i: int| !(#[trigger] b.dropped(i)) by {}
                }
                Ok(done.0)
            },
            Ok(None) => {
                proof {
                    assert(false);
                }
                Ok(VolumeIndex::empty())
            },
            Err(e) => Err(e),
        }
    }

    /// Finish unless `stop` is read as set meanwhile: a stopped build gives
    /// nothing, and only such a build does. How the flag is read, other
    /// threads decide.
    pub fn finish_timed_cancellable(self, stop: &AtomicBool) -> (r: Result<
        Option<(VolumeIndex, FinishTimings)>,
        IndexBuildError,
    >)
        requires
            self.wf(),
        ensures
            match r {
                Err(e) => reads(stop, false) && self.fault() == Some(e),
                Ok(None) => reads(stop, true),
                Ok(Some(done)) => reads(stop, false) && self.fault() is None && self.finishes(
                    &done.0,
                ) && done.1.measured(),
            },
    {
        self.run(Some(stop))
    }
}

/// Where entry `i` is live in `b`, it is in `a`, and has one folded name.
spec fn named_as(a: &VolumeIndex, b: &VolumeIndex, i: int) -> bool {
    b.live(i) ==> a.live(i) && a.lower(i) == b.lower(i)
}

/// Where entry `i` is live in `b`, it is in `a`, and owns the same bytes.
spec fn owns_as(a: &VolumeIndex, b: &VolumeIndex, i: int) -> bool {
    b.live(i) ==> a.live(i) && a.owned_bytes(i) == b.owned_bytes(i)
}

/// Fewer live entries own no more bytes.
proof fn lemma_owned_less(a: &VolumeIndex, b: &VolumeIndex, n: int)
    requires
        a.columns_wf(),
        0 <= n <= a.count(),
        forall|i: int| 0 <= i < n ==> #[trigger] owns_as(a, b, i),
    ensures
        b.owned_total(n) <= a.owned_total(n),
    decreases n,
{
    if n > 0 {
        lemma_owned_less(a, b, n - 1);
        a.lemma_lower(n - 1);
        assert(owns_as(a, b, n - 1));
    }
}

/// The names of fewer live entries have no more bytes.
proof fn lemma_bytes_less(a: &VolumeIndex, b: &VolumeIndex, n: int)
    requires
        0 <= n,
        forall|i: int| 0 <= i < n ==> #[trigger] named_as(a, b, i),
    ensures
        b.live_bytes(n) <= a.live_bytes(n),
    decreases n,
{
    if n > 0 {
        lemma_bytes_less(a, b, n - 1);
        assert(named_as(a, b, n - 1));
    }
}

} // verus!
