//! Making the links of one file what a complete set of them says.

use vstd::prelude::*;
use crate::dates::ticks_to_secs;
use crate::order::occurs;
use crate::wtf8::{lemma_fold_keeps_length, lower_of, push_wtf8_pair, wtf8_of};
use super::columns::{Row, VolumeIndex, NONE};
use super::flags::{
    bit_set, lemma_raw_flags, lemma_with_bit, EXCLUDED, HIDDEN, IS_DIR, SYSTEM, TOMBSTONE,
};
use super::lookup::{lemma_selected, lemma_selected_distinct, selected};
use super::mutate::{buried_flags, same_bytes};
use super::rows::facts_of;
use super::topology::{is_directory, IndexMutationError};
use super::update::{attrs_are, attrs_flag, lemma_with_attrs};
use super::{record_of, EntryId, Frn, RawEntry};

verus! {

/// What making the links of one file what a set of them says changed.
#[derive(Clone, Copy, Debug, PartialEq, Eq, Structural)]
pub struct LinkReconcileStats {
    /// Links that were appended.
    pub added: u32,
    /// Links that were tombstoned.
    pub removed: u32,
    /// Links that stayed.
    pub retained: u32,
    /// Some link that stayed had another size, time or attribute.
    pub metadata_changed: bool,
}

/// Entries that refer to another generation of an object.
pub open spec fn other_generation(frn: Seq<u64>, wanted: u64) -> spec_fn(u32) -> bool {
    |id: u32| frn[id as int] != wanted
}

/// A live link of the object.
pub open spec fn is_current(row: Row, frn: u64) -> bool {
    row.frn == frn && !bit_set(row.flag, TOMBSTONE)
}

/// The parents of the entries.
pub open spec fn parents_of(rows: Seq<Row>) -> Seq<u32> {
    Seq::new(rows.len(), |i: int| rows[i].parent)
}

/// The flags of the entries.
pub open spec fn flags_of(rows: Seq<Row>) -> Seq<u8> {
    Seq::new(rows.len(), |i: int| rows[i].flag)
}

/// Some live link of the object has another size or time.
pub open spec fn stat_stale(rows: Seq<Row>, frn: u64, e: RawEntry<'_>) -> bool {
    exists|i: int|
        0 <= i < rows.len() && is_current(#[trigger] rows[i], frn) && (rows[i].size != e.size
            || rows[i].mtime != ticks_to_secs(e.mtime))
}

/// Some live link of the object has other attributes.
pub open spec fn attrs_stale(rows: Seq<Row>, frn: u64, e: RawEntry<'_>) -> bool {
    exists|i: int|
        0 <= i < rows.len() && is_current(#[trigger] rows[i], frn) && !attrs_are(
            rows[i].flag,
            e.is_reparse,
            e.is_hidden,
            e.is_system,
        )
}

/// The entries with the size, time and attributes of the object's live links
/// refreshed.
pub open spec fn refreshed(rows: Seq<Row>, frn: u64, e: RawEntry<'_>) -> Seq<Row> {
    Seq::new(
        rows.len(),
        |i: int|
            if is_current(rows[i], frn) {
                Row {
                    size: e.size,
                    mtime: ticks_to_secs(e.mtime),
                    flag: attrs_flag(
                        parents_of(rows),
                        flags_of(rows),
                        i,
                        Some(e.is_reparse),
                        e.is_hidden,
                        e.is_system,
                    ),
                    ..rows[i]
                }
            } else {
                rows[i]
            },
    )
}

/// The UTF-16 units of the first `n` names.
pub open spec fn total_units(desired: Seq<RawEntry<'_>>, n: int) -> int
    decreases n,
{
    if n <= 0 {
        0
    } else {
        total_units(desired, n - 1) + desired[n - 1].name_utf16@.len()
    }
}

/// The bytes of the first `n` names.
pub open spec fn total_bytes(desired: Seq<RawEntry<'_>>, n: int) -> int
    decreases n,
{
    if n <= 0 {
        0
    } else {
        total_bytes(desired, n - 1) + wtf8_of(desired[n - 1].name_utf16@).len()
    }
}

proof fn lemma_totals_grow(desired: Seq<RawEntry<'_>>, m: int, n: int)
    requires
        0 <= m <= n,
    ensures
        0 <= total_units(desired, m) <= total_units(desired, n),
        0 <= total_bytes(desired, m) <= total_bytes(desired, n),
    decreases n,
{
    if m < n {
        lemma_totals_grow(desired, m, n - 1);
    } else if m > 0 {
        lemma_totals_grow(desired, m - 1, m - 1);
    }
}

impl VolumeIndex {
    /// There is room for an entry of each of the given names.
    pub open spec fn has_room_for(&self, desired: Seq<RawEntry<'_>>) -> bool {
        let n = desired.len() as int;
        &&& self.count() + n < NONE
        &&& self.dict_off@.len() + n < NONE
        &&& self.dict_pool@.len() + 4 * total_units(desired, n) < NONE
        &&& self.orig_pool@.len() + total_bytes(desired, n) < NONE
    }

    /// The directory a wanted link is in.
    pub open spec fn wanted_parent(&self, frn: Frn, e: RawEntry<'_>) -> u32 {
        self.resolved_parent(frn, e.parent_frn)->Ok_0
    }

    /// What is wrong with one link of a complete set: it is of another object
    /// or a directory, has no name, disagrees with the first on what belongs
    /// to the object, has no exact parent, or occurs before.
    pub open spec fn link_fault(&self, frn: Frn, desired: Seq<RawEntry<'_>>, i: int) -> Option<
        IndexMutationError,
    > {
        let e = desired[i];
        let m = desired[0];
        if e.frn != frn || e.is_dir {
            Some(IndexMutationError::ObjectKind { object: frn })
        } else if e.name_utf16@.len() == 0 {
            Some(IndexMutationError::EmptyName { object: frn })
        } else if e.size != m.size || e.mtime != m.mtime || e.is_reparse != m.is_reparse
            || e.is_hidden != m.is_hidden || e.is_system != m.is_system {
            Some(IndexMutationError::InconsistentLinkMetadata { object: frn })
        } else {
            match self.resolved_parent(frn, e.parent_frn) {
                Err(x) => Some(x),
                Ok(parent) => if exists|j: int|
                    0 <= j < i && self.wanted_parent(frn, #[trigger] desired[j]) == parent
                        && wtf8_of(desired[j].name_utf16@) == wtf8_of(e.name_utf16@) {
                    Some(IndexMutationError::DuplicateLink { object: frn })
                } else {
                    None
                },
            }
        }
    }

    /// What is wrong with the first faulty one of the first `n` links.
    pub open spec fn first_link_fault(&self, frn: Frn, desired: Seq<RawEntry<'_>>, n: int) -> Option<
        IndexMutationError,
    >
        decreases n,
    {
        if n <= 0 {
            None
        } else {
            match self.first_link_fault(frn, desired, n - 1) {
                Some(x) => Some(x),
                None => self.link_fault(frn, desired, n - 1),
            }
        }
    }

    /// Why a complete set of links is refused, if it is.
    pub open spec fn links_refused(&self, frn: Frn, desired: Seq<RawEntry<'_>>) -> Option<
        IndexMutationError,
    > {
        if desired.len() == 0 {
            Some(IndexMutationError::EmptyLinkSnapshot { object: frn })
        } else if !self.reference_valid(frn.0, false) {
            Some(IndexMutationError::InvalidReference { reference: frn })
        } else if desired[0].frn != frn || desired[0].is_dir {
            Some(IndexMutationError::ObjectKind { object: frn })
        } else {
            match self.existing_links(frn, false) {
                Err(x) => Some(x),
                Ok(_) => self.first_link_fault(frn, desired, desired.len() as int),
            }
        }
    }

    /// Entry `id` is the link that `e` wants.
    pub open spec fn hits(&self, frn: Frn, e: RawEntry<'_>, id: int) -> bool {
        self.parent@[id] == self.wanted_parent(frn, e) && self.original(id) == wtf8_of(
            e.name_utf16@,
        )
    }

    /// The `k`-th link of the object stays: it is wanted, and no earlier one
    /// is the same link.
    pub open spec fn keeps(&self, frn: Frn, desired: Seq<RawEntry<'_>>, k: int) -> bool {
        let links = self.object_links(frn.0);
        &&& exists|i: int|
            0 <= i < desired.len() && self.hits(frn, #[trigger] desired[i], links[k] as int)
        &&& forall|j: int|
            0 <= j < k ==> !self.same_link((#[trigger] links[j]) as int, links[k] as int)
    }

    /// Those of the first `n` links of the object that do not stay.
    pub open spec fn dropped_links(&self, frn: Frn, desired: Seq<RawEntry<'_>>, n: int) -> Seq<u32>
        decreases n,
    {
        if n <= 0 {
            Seq::empty()
        } else if self.keeps(frn, desired, n - 1) {
            self.dropped_links(frn, desired, n - 1)
        } else {
            self.dropped_links(frn, desired, n - 1).push(self.object_links(frn.0)[n - 1])
        }
    }

    /// The links of other generations of the record.
    pub open spec fn stale_links(&self, frn: Frn) -> Seq<u32> {
        selected(self.record_links(record_of(frn.0)), other_generation(self.frn@, frn.0))
    }

    /// The links that go.
    pub open spec fn gone_links(&self, frn: Frn, desired: Seq<RawEntry<'_>>) -> Seq<u32> {
        self.stale_links(frn) + self.dropped_links(
            frn,
            desired,
            self.object_links(frn.0).len() as int,
        )
    }

    /// No link of the object is the one that `e` wants.
    pub open spec fn lacks(&self, frn: Frn, e: RawEntry<'_>) -> bool {
        forall|k: int|
            0 <= k < self.object_links(frn.0).len() ==> !self.hits(
                frn,
                e,
                (#[trigger] self.object_links(frn.0)[k]) as int,
            )
    }

    /// The entries appended for those of the first `n` wanted links that the
    /// object lacks.
    pub open spec fn new_links(&self, frn: Frn, desired: Seq<RawEntry<'_>>, n: int) -> Seq<Row>
        decreases n,
    {
        if n <= 0 {
            Seq::empty()
        } else {
            let e = desired[n - 1];
            if self.lacks(frn, e) {
                self.new_links(frn, desired, n - 1).push(
                    self.new_row(
                        wtf8_of(e.name_utf16@),
                        lower_of(e.name_utf16@),
                        self.wanted_parent(frn, e),
                        facts_of(e),
                    ),
                )
            } else {
                self.new_links(frn, desired, n - 1)
            }
        }
    }

    /// The entries once the links that go are tombstoned and those that lack
    /// are appended.
    pub open spec fn converged(&self, frn: Frn, desired: Seq<RawEntry<'_>>) -> Seq<Row> {
        self.buried(self.gone_links(frn, desired)) + self.new_links(
            frn,
            desired,
            desired.len() as int,
        )
    }

    /// Links before a fault are without one.
    pub proof fn lemma_no_fault_before(
        &self,
        frn: Frn,
        desired: Seq<RawEntry<'_>>,
        n: int,
        i: int,
    )
        requires
            self.first_link_fault(frn, desired, n) is None,
            0 <= i < n,
        ensures
            self.link_fault(frn, desired, i) is None,
        decreases n,
    {
        if i < n - 1 {
            self.lemma_no_fault_before(frn, desired, n - 1, i);
        }
    }

    /// The first fault stays the first.
    proof fn lemma_first_fault_stays(
        &self,
        frn: Frn,
        desired: Seq<RawEntry<'_>>,
        m: int,
        n: int,
    )
        requires
            0 <= m <= n,
            self.first_link_fault(frn, desired, m) is Some,
        ensures
            self.first_link_fault(frn, desired, n) == self.first_link_fault(frn, desired, m),
        decreases n,
    {
        if m < n {
            self.lemma_first_fault_stays(frn, desired, m, n - 1);
        }
    }

    /// The wanted links: their directories and names.
    pub open spec fn wants(
        &self,
        frn: Frn,
        desired: Seq<RawEntry<'_>>,
        wanted: Seq<(EntryId, Vec<u8>)>,
    ) -> bool {
        &&& wanted.len() <= desired.len()
        &&& forall|i: int|
            0 <= i < wanted.len() ==> (#[trigger] wanted[i]).0 == self.wanted_parent(
                frn,
                desired[i],
            ) && wanted[i].1@ == wtf8_of(desired[i].name_utf16@)
    }

    /// Look at one link of a complete set.
    fn check_link(
        &self,
        frn: Frn,
        desired: &[RawEntry<'_>],
        i: usize,
        wanted: &Vec<(EntryId, Vec<u8>)>,
    ) -> (r: Result<(EntryId, Vec<u8>), IndexMutationError>)
        requires
            self.wf(),
            self.count() > 0,
            i < desired@.len(),
            wanted@.len() == i,
            self.wants(frn, desired@, wanted@),
        ensures
            match r {
                Err(x) => self.link_fault(frn, desired@, i as int) == Some(x),
                Ok(w) => {
                    &&& self.link_fault(frn, desired@, i as int) is None
                    &&& w.0 == self.wanted_parent(frn, desired@[i as int])
                    &&& w.1@ == wtf8_of(desired@[i as int].name_utf16@)
                },
            },
    {
        let e: &RawEntry<'_> = &desired[i];
        let m: &RawEntry<'_> = &desired[0];
        if e.frn != frn || e.is_dir {
            return Err(IndexMutationError::ObjectKind { object: frn });
        }
        if e.name_utf16.len() == 0 {
            return Err(IndexMutationError::EmptyName { object: frn });
        }
        if e.size != m.size || e.mtime != m.mtime || e.is_reparse != m.is_reparse || e.is_hidden
            != m.is_hidden || e.is_system != m.is_system {
            return Err(IndexMutationError::InconsistentLinkMetadata { object: frn });
        }
        let parent: EntryId = match self.resolve_parent_for_mutation(frn, e.parent_frn) {
            Ok(parent) => parent,
            Err(x) => {
                return Err(x);
            },
        };
        let mut name: Vec<u8> = Vec::new();
        let mut folded: Vec<u8> = Vec::new();
        push_wtf8_pair(e.name_utf16, &mut name, &mut folded);
        assert(name@ =~= wtf8_of(e.name_utf16@));
        let mut j: usize = 0;
        while j < i
            invariant
                j <= i,
                i < desired@.len(),
                wanted@.len() == i,
                self.wants(frn, desired@, wanted@),
                *e == desired@[i as int],
                e.frn == frn,
                !e.is_dir,
                e.name_utf16@.len() > 0,
                *m == desired@[0],
                e.size == m.size && e.mtime == m.mtime && e.is_reparse == m.is_reparse
                    && e.is_hidden == m.is_hidden && e.is_system == m.is_system,
                self.resolved_parent(frn, e.parent_frn) == Ok::<u32, IndexMutationError>(parent),
                name@ == wtf8_of(e.name_utf16@),
                forall|k: int|
                    0 <= k < j ==> self.wanted_parent(frn, #[trigger] desired@[k]) != parent
                        || wtf8_of(desired@[k].name_utf16@) != name@,
            decreases i - j,
        {
            assert(wanted@[j as int].0 == self.wanted_parent(frn, desired@[j as int]));
            if wanted[j].0 == parent && same_bytes(wanted[j].1.as_slice(), name.as_slice()) {
                assert(self.wanted_parent(frn, desired@[j as int]) == parent);
                return Err(IndexMutationError::DuplicateLink { object: frn });
            }
            j = j + 1;
        }
        Ok((parent, name))
    }

    /// Look at a complete set of links before anything is changed.
    fn check_links(&self, frn: Frn, desired: &[RawEntry<'_>]) -> (r: Result<
        Vec<(EntryId, Vec<u8>)>,
        IndexMutationError,
    >)
        requires
            self.wf(),
            self.count() > 0,
        ensures
            match r {
                Err(x) => self.links_refused(frn, desired@) == Some(x),
                Ok(wanted) => {
                    &&& self.links_refused(frn, desired@) is None
                    &&& wanted@.len() == desired@.len()
                    &&& self.wants(frn, desired@, wanted@)
                },
            },
    {
        if desired.len() == 0 {
            return Err(IndexMutationError::EmptyLinkSnapshot { object: frn });
        }
        match self.validate_mutation_reference(frn, false) {
            Ok(_) => {},
            Err(x) => {
                return Err(x);
            },
        }
        if desired[0].frn != frn || desired[0].is_dir {
            return Err(IndexMutationError::ObjectKind { object: frn });
        }
        match self.validate_existing_object_kind(frn, false) {
            Ok(_) => {},
            Err(x) => {
                return Err(x);
            },
        }
        let mut wanted: Vec<(EntryId, Vec<u8>)> = Vec::new();
        let mut i: usize = 0;
        while i < desired.len()
            invariant
                i <= desired@.len(),
                self.wf(),
                self.count() > 0,
                desired@.len() > 0,
                self.reference_valid(frn.0, false),
                desired@[0].frn == frn && !desired@[0].is_dir,
                self.existing_links(frn, false) is Ok,
                wanted@.len() == i,
                self.wants(frn, desired@, wanted@),
                self.first_link_fault(frn, desired@, i as int) is None,
            decreases desired@.len() - i,
        {
            match self.check_link(frn, desired, i, &wanted) {
                Ok(w) => {
                    wanted.push(w);
                },
                Err(x) => {
                    proof {
                        self.lemma_first_fault_stays(
                            frn,
                            desired@,
                            i + 1,
                            desired@.len() as int,
                        );
                    }
                    return Err(x);
                },
            }
            i = i + 1;
        }
        Ok(wanted)
    }

    /// Tell the links that go from those that stay: those that go, and which
    /// wanted links exist.
    fn match_links(&self, frn: Frn, desired: &[RawEntry<'_>], wanted: &Vec<(EntryId, Vec<u8>)>) -> (r:
        (Vec<EntryId>, Vec<bool>))
        requires
            self.wf(),
            wanted@.len() == desired@.len(),
            self.wants(frn, desired@, wanted@),
            forall|i: int, j: int|
                0 <= i < j < wanted@.len() ==> (#[trigger] wanted@[i]).0 != (#[trigger] wanted@[j]).0
                    || wanted@[i].1@ != wanted@[j].1@,
        ensures
            r.0@ == self.dropped_links(frn, desired@, self.object_links(frn.0).len() as int),
            r.1@.len() == desired@.len(),
            forall|i: int|
                0 <= i < desired@.len() ==> #[trigger] r.1@[i] == !self.lacks(frn, desired@[i]),
    {
        let links: Vec<EntryId> = self.entries_by_frn(frn);
        proof {
            self.lemma_object_links(frn.0);
        }
        let mut matched: Vec<bool> = Vec::new();
        let mut filled: usize = 0;
        while filled < wanted.len()
            invariant
                filled <= wanted@.len(),
                matched@.len() == filled,
                forall|x: int| 0 <= x < filled ==> !(#[trigger] matched@[x]),
            decreases wanted@.len() - filled,
        {
            matched.push(false);
            filled = filled + 1;
        }
        let mut dropped: Vec<EntryId> = Vec::new();
        let mut k: usize = 0;
        while k < links.len()
            invariant
                k <= links@.len(),
                self.wf(),
                links@ == self.object_links(frn.0),
                forall|x: int|
                    0 <= x < links@.len() ==> (#[trigger] links@[x]) < self.count()
                        && self.frn@[links@[x] as int] == frn.0,
                wanted@.len() == desired@.len(),
                self.wants(frn, desired@, wanted@),
                forall|i: int, j: int|
                    0 <= i < j < wanted@.len() ==> (#[trigger] wanted@[i]).0 != (
                    #[trigger] wanted@[j]).0 || wanted@[i].1@ != wanted@[j].1@,
                matched@.len() == wanted@.len(),
                dropped@ == self.dropped_links(frn, desired@, k as int),
                forall|i: int|
                    0 <= i < wanted@.len() ==> (#[trigger] matched@[i] <==> exists|j: int|
                        0 <= j < k && self.hits(frn, desired@[i], (#[trigger] links@[j]) as int)),
            decreases links@.len() - k,
        {
            let id: EntryId = links[k];
            let ghost before = matched@;
            let mut found: usize = wanted.len();
            let mut i: usize = 0;
            while i < wanted.len() && found == wanted.len()
                invariant
                    i <= wanted@.len(),
                    found == wanted@.len() || found < i,
                    self.wf(),
                    id < self.count(),
                    wanted@.len() == desired@.len(),
                    self.wants(frn, desired@, wanted@),
                    matched@ == before,
                    matched@.len() == wanted@.len(),
                    found < wanted@.len() ==> !before[found as int] && self.hits(
                        frn,
                        desired@[found as int],
                        id as int,
                    ),
                    found == wanted@.len() ==> forall|x: int|
                        0 <= x < i ==> before[x] || !self.hits(
                            frn,
                            #[trigger] desired@[x],
                            id as int,
                        ),
                decreases wanted@.len() - i,
            {
                assert(wanted@[i as int].0 == self.wanted_parent(frn, desired@[i as int]));
                if !matched[i] && self.parent[id as usize] == wanted[i].0 && same_bytes(
                    self.name(id),
                    wanted[i].1.as_slice(),
                ) {
                    found = i;
                }
                i = i + 1;
            }
            if found < wanted.len() {
                matched.set(found, true);
                proof {
                    assert(self.hits(frn, desired@[found as int], links@[k as int] as int));
                    assert forall|j: int| 0 <= j < k implies !self.same_link(
                        (#[trigger] links@[j]) as int,
                        links@[k as int] as int,
                    ) by {
                        if self.same_link(links@[j] as int, links@[k as int] as int) {
                            assert(self.hits(frn, desired@[found as int], links@[j] as int));
                            assert(before[found as int]);
                        }
                    }
                    assert(self.keeps(frn, desired@, k as int));
                    assert forall|x: int| 0 <= x < wanted@.len() implies (#[trigger] matched@[x]
                        <==> exists|j: int|
                        0 <= j < k + 1 && self.hits(
                            frn,
                            desired@[x],
                            (#[trigger] links@[j]) as int,
                        )) by {
                        if x == found {
                            assert(self.hits(frn, desired@[x], links@[k as int] as int));
                        } else {
                            assert(matched@[x] == before[x]);
                            if self.hits(frn, desired@[x], links@[k as int] as int) {
                                assert(wanted@[x].0 == wanted@[found as int].0);
                                assert(wanted@[x].1@ == wanted@[found as int].1@);
                                if x < found {
                                    assert(wanted@[x].0 != wanted@[found as int].0
                                        || wanted@[x].1@ != wanted@[found as int].1@);
                                } else {
                                    assert(wanted@[found as int].0 != wanted@[x].0
                                        || wanted@[found as int].1@ != wanted@[x].1@);
                                }
                            }
                        }
                    }
                }
            } else {
                dropped.push(id);
                proof {
                    if self.keeps(frn, desired@, k as int) {
                        let x = choose|x: int|
                            0 <= x < desired@.len() && self.hits(
                                frn,
                                #[trigger] desired@[x],
                                links@[k as int] as int,
                            );
                        assert(before[x]);
                        let j = choose|j: int|
                            0 <= j < k && self.hits(
                                frn,
                                desired@[x],
                                (#[trigger] links@[j]) as int,
                            );
                        assert(self.same_link(links@[j] as int, links@[k as int] as int));
                    }
                    assert forall|x: int| 0 <= x < wanted@.len() implies (#[trigger] matched@[x]
                        <==> exists|j: int|
                        0 <= j < k + 1 && self.hits(
                            frn,
                            desired@[x],
                            (#[trigger] links@[j]) as int,
                        )) by {
                        assert(matched@[x] == before[x]);
                        assert(before[x] || !self.hits(frn, desired@[x], id as int));
                    }
                }
            }
            k = k + 1;
        }
        proof {
            assert forall|i: int| 0 <= i < desired@.len() implies #[trigger] matched@[i]
                == !self.lacks(frn, desired@[i]) by {
                if matched@[i] {
                    let j = choose|j: int|
                        0 <= j < k && self.hits(frn, desired@[i], (#[trigger] links@[j]) as int);
                    assert(self.hits(frn, desired@[i], self.object_links(frn.0)[j] as int));
                }
            }
        }
        (dropped, matched)
    }

    /// The links of other generations of a record.
    fn other_generations(&self, frn: Frn) -> (r: Vec<EntryId>)
        requires
            self.wf(),
        ensures
            r@ == self.stale_links(frn),
    {
        let all: Vec<EntryId> = self.entries_by_record(frn.record().0);
        let ghost pass = other_generation(self.frn@, frn.0);
        proof {
            self.lemma_record_links(record_of(frn.0));
            assert(all@.take(0) =~= Seq::empty());
        }
        let mut found: Vec<EntryId> = Vec::new();
        let mut i: usize = 0;
        while i < all.len()
            invariant
                i <= all@.len(),
                self.wf(),
                forall|k: int| 0 <= k < all@.len() ==> (#[trigger] all@[k]) < self.count(),
                pass == other_generation(self.frn@, frn.0),
                found@ == selected(all@.take(i as int), pass),
            decreases all@.len() - i,
        {
            let id: EntryId = all[i];
            proof {
                assert(all@.take(i + 1).drop_last() =~= all@.take(i as int));
                assert(all@.take(i + 1).last() == id);
            }
            if self.frn[id as usize] != frn.0 {
                found.push(id);
            }
            i = i + 1;
        }
        assert(all@.take(i as int) =~= all@);
        found
    }

    /// `id` is one of the first `n` links of the object and does not stay.
    pub open spec fn drops(&self, frn: Frn, desired: Seq<RawEntry<'_>>, n: int, id: u32) -> bool {
        exists|k: int|
            0 <= k < n && #[trigger] self.object_links(frn.0)[k] == id && !self.keeps(
                frn,
                desired,
                k,
            )
    }

    /// A dropped link is a link of the object, occurs once, and does not stay.
    pub proof fn lemma_dropped(&self, frn: Frn, desired: Seq<RawEntry<'_>>, n: int)
        requires
            self.wf(),
            0 <= n <= self.object_links(frn.0).len(),
        ensures
            self.dropped_links(frn, desired, n).len() <= n,
            forall|x: int|
                0 <= x < self.dropped_links(frn, desired, n).len() ==> self.drops(
                    frn,
                    desired,
                    n,
                    #[trigger] self.dropped_links(frn, desired, n)[x],
                ),
            forall|k: int|
                0 <= k < n && !self.keeps(frn, desired, k) ==> occurs(
                    self.dropped_links(frn, desired, n),
                    (#[trigger] self.object_links(frn.0)[k]) as int,
                ),
            forall|i: int, j: int|
                0 <= i < j < self.dropped_links(frn, desired, n).len()
                    ==> #[trigger] self.dropped_links(frn, desired, n)[i]
                    != #[trigger] self.dropped_links(frn, desired, n)[j],
        decreases n,
    {
        let links = self.object_links(frn.0);
        let d = self.dropped_links(frn, desired, n);
        if n > 0 {
            self.lemma_dropped(frn, desired, n - 1);
            self.lemma_object_links(frn.0);
            let c = self.dropped_links(frn, desired, n - 1);
            if !self.keeps(frn, desired, n - 1) {
                assert forall|x: int| 0 <= x < d.len() implies self.drops(
                    frn,
                    desired,
                    n,
                    #[trigger] d[x],
                ) by {
                    if x < c.len() {
                        assert(c[x] == d[x]);
                        let k = choose|k: int|
                            0 <= k < n - 1 && #[trigger] links[k] == c[x] && !self.keeps(
                                frn,
                                desired,
                                k,
                            );
                        assert(links[k] == d[x]);
                    } else {
                        assert(links[n - 1] == d[x]);
                    }
                }
                assert forall|i: int, j: int| 0 <= i < j < d.len() implies #[trigger] d[i]
                    != #[trigger] d[j] by {
                    if j == c.len() {
                        assert(c[i] == d[i]);
                        let k = choose|k: int|
                            0 <= k < n - 1 && #[trigger] links[k] == c[i] && !self.keeps(
                                frn,
                                desired,
                                k,
                            );
                        assert(links[k] != links[n - 1]);
                    } else {
                        assert(c[i] == d[i] && c[j] == d[j]);
                    }
                }
                assert forall|k: int| 0 <= k < n && !self.keeps(frn, desired, k) implies occurs(
                    d,
                    (#[trigger] links[k]) as int,
                ) by {
                    if k < n - 1 {
                        assert(occurs(c, links[k] as int));
                        let x = choose|x: int| 0 <= x < c.len() && #[trigger] c[x] == links[k] as int;
                        assert(d[x] == links[k] as int);
                    } else {
                        assert(d[c.len() as int] == links[k] as int);
                    }
                }
            } else {
                assert(d == c);
                assert forall|x: int| 0 <= x < d.len() implies self.drops(
                    frn,
                    desired,
                    n,
                    #[trigger] d[x],
                ) by {
                    let k = choose|k: int|
                        0 <= k < n - 1 && #[trigger] links[k] == c[x] && !self.keeps(
                            frn,
                            desired,
                            k,
                        );
                    assert(links[k] == d[x]);
                }
                assert forall|k: int| 0 <= k < n && !self.keeps(frn, desired, k) implies occurs(
                    d,
                    (#[trigger] links[k]) as int,
                ) by {
                    assert(k < n - 1);
                }
            }
        }
    }

    /// The links that go are distinct live links of the record; the links of
    /// the object that stay are not among them.
    pub proof fn lemma_gone(&self, frn: Frn, desired: Seq<RawEntry<'_>>)
        requires
            self.wf(),
        ensures
            self.are_live(self.gone_links(frn, desired)),
            forall|k: int|
                0 <= k < self.object_links(frn.0).len() ==> (occurs(
                    self.gone_links(frn, desired),
                    (#[trigger] self.object_links(frn.0)[k]) as int,
                ) <==> !self.keeps(frn, desired, k)),
    {
        let links = self.object_links(frn.0);
        let record = record_of(frn.0);
        let all = self.record_links(record);
        let pass = other_generation(self.frn@, frn.0);
        let s = self.stale_links(frn);
        let n = links.len() as int;
        let d = self.dropped_links(frn, desired, n);
        let g = self.gone_links(frn, desired);
        self.lemma_record_links(record);
        self.lemma_object_links(frn.0);
        lemma_selected(all, pass);
        lemma_selected_distinct(all, pass);
        self.lemma_dropped(frn, desired, n);
        assert forall|x: int| 0 <= x < s.len() implies (#[trigger] s[x]) < self.count()
            && self.live(s[x] as int) && self.frn@[s[x] as int] != frn.0 by {
            assert(s[x] == s[x] as int);
            assert(occurs(s, s[x] as int));
            assert(occurs(all, s[x] as int));
            assert(pass(s[x]));
        }
        assert forall|x: int| 0 <= x < d.len() implies (#[trigger] d[x]) < self.count()
            && self.live(d[x] as int) && self.frn@[d[x] as int] == frn.0 by {
            let k = choose|k: int|
                0 <= k < n && #[trigger] links[k] == d[x] && !self.keeps(frn, desired, k);
            assert(links[k] < self.count());
        }
        assert forall|x: int| 0 <= x < g.len() implies (#[trigger] g[x]) < self.count()
            && self.live(g[x] as int) by {
            if x < s.len() {
                assert(g[x] == s[x]);
            } else {
                assert(g[x] == d[x - s.len()]);
            }
        }
        assert forall|i: int, j: int| 0 <= i < j < g.len() implies #[trigger] g[i]
            != #[trigger] g[j] by {
            if j < s.len() {
                assert(g[i] == s[i] && g[j] == s[j]);
            } else if i >= s.len() {
                assert(g[i] == d[i - s.len()] && g[j] == d[j - s.len()]);
            } else {
                assert(g[i] == s[i] && g[j] == d[j - s.len()]);
            }
        }
        assert forall|k: int| 0 <= k < n implies (occurs(g, (#[trigger] links[k]) as int)
            <==> !self.keeps(frn, desired, k)) by {
            if !self.keeps(frn, desired, k) {
                assert(occurs(d, links[k] as int));
                let x = choose|x: int| 0 <= x < d.len() && #[trigger] d[x] == links[k] as int;
                assert(g[s.len() + x] == links[k] as int);
            }
            if occurs(g, links[k] as int) {
                let x = choose|x: int| 0 <= x < g.len() && #[trigger] g[x] == links[k] as int;
                if x < s.len() {
                    assert(g[x] == s[x]);
                    assert(self.frn@[links[k] as int] == frn.0);
                } else {
                    assert(g[x] == d[x - s.len()]);
                    let j = choose|j: int|
                        0 <= j < n && #[trigger] links[j] == d[x - s.len()] && !self.keeps(
                            frn,
                            desired,
                            j,
                        );
                    if j < k {
                        assert(links[j] != links[k]);
                    } else if k < j {
                        assert(links[k] != links[j]);
                    }
                }
            }
        }
    }

    /// The directory of a wanted link exists and is no link of the file.
    pub proof fn lemma_wanted_parent(&self, frn: Frn, e: RawEntry<'_>)
        requires
            self.wf(),
            self.count() > 0,
            self.resolved_parent(frn, e.parent_frn) is Ok,
            self.existing_links(frn, false) is Ok,
        ensures
            self.wanted_parent(frn, e) < self.count(),
            !is_current(self.row(self.wanted_parent(frn, e) as int), frn.0),
    {
        let p = self.wanted_parent(frn, e);
        let dirs = self.directory_links(e.parent_frn.0);
        assert(self.named_parent(frn, e.parent_frn) == Ok::<u32, IndexMutationError>(p));
        self.lemma_object_links(e.parent_frn.0);
        self.lemma_object_links(frn.0);
        lemma_selected(self.object_links(e.parent_frn.0), is_directory(self.flag@));
        if dirs.len() == 1 {
            assert(dirs[0] == p as int);
            assert(occurs(dirs, p as int));
            assert(occurs(self.object_links(e.parent_frn.0), p as int));
            if is_current(self.row(p as int), frn.0) {
                let links = self.object_links(frn.0);
                assert(self.live(p as int));
                assert(occurs(links, p as int));
                let k = choose|k: int| 0 <= k < links.len() && #[trigger] links[k] == p as int;
                assert(bit_set(self.flag@[links[k] as int], IS_DIR) != false);
            }
        }
    }

    /// Append the wanted links that the object lacks.
    fn append_links(
        &mut self,
        frn: Frn,
        desired: &[RawEntry<'_>],
        wanted: &Vec<(EntryId, Vec<u8>)>,
        matched: &Vec<bool>,
        Ghost(start): Ghost<VolumeIndex>,
        Ghost(gone): Ghost<Seq<u32>>,
    ) -> (added: u32)
        requires
            old(self).wf(),
            start.wf(),
            *old(self) == (VolumeIndex {
                flag: old(self).flag,
                tombstones: old(self).tombstones,
                dead_name_bytes: old(self).dead_name_bytes,
                ..start
            }),
            old(self).flag@ == buried_flags(start.flag@, gone),
            start.has_room_for(desired@),
            wanted@.len() == desired@.len(),
            matched@.len() == desired@.len(),
            start.wants(frn, desired@, wanted@),
            forall|i: int| 0 <= i < wanted@.len() ==> (#[trigger] wanted@[i]).0 < start.count(),
            forall|i: int|
                0 <= i < desired@.len() ==> #[trigger] matched@[i] == !start.lacks(frn, desired@[i]),
        ensures
            final(self).wf(),
            final(self).rows() == old(self).rows() + start.new_links(
                frn,
                desired@,
                desired@.len() as int,
            ),
            added == start.new_links(frn, desired@, desired@.len() as int).len(),
            final(self).same_orders(old(self)),
            final(self).stat_generation == old(self).stat_generation,
            final(self).exclusion_tree_dirty == old(self).exclusion_tree_dirty,
            final(self).dead_name_bytes == old(self).dead_name_bytes,
            final(self).dict_appends_since_dedup == old(self).dict_appends_since_dedup + added,
            final(self).dict_off@.len() == old(self).dict_off@.len() + added,
            final(self).dict_pool@.len() <= old(self).dict_pool@.len() + 4 * total_units(
                desired@,
                desired@.len() as int,
            ),
            final(self).orig_pool@.len() <= old(self).orig_pool@.len() + total_bytes(
                desired@,
                desired@.len() as int,
            ),
    {
        let ghost before = *self;
        let mut added: u32 = 0;
        let mut i: usize = 0;
        proof {
            assert(self.rows() =~= before.rows() + start.new_links(frn, desired@, 0));
        }
        while i < desired.len()
            invariant
                i <= desired@.len(),
                self.wf(),
                start.wf(),
                before.wf(),
                before.count() == start.count(),
                before.flag@ == buried_flags(start.flag@, gone),
                start.has_room_for(desired@),
                wanted@.len() == desired@.len(),
                matched@.len() == desired@.len(),
                start.wants(frn, desired@, wanted@),
                forall|k: int| 0 <= k < wanted@.len() ==> (#[trigger] wanted@[k]).0 < start.count(),
                forall|k: int|
                    0 <= k < desired@.len() ==> #[trigger] matched@[k] == !start.lacks(
                        frn,
                        desired@[k],
                    ),
                self.rows() == before.rows() + start.new_links(frn, desired@, i as int),
                added == start.new_links(frn, desired@, i as int).len(),
                added <= i,
                before.dict_off == start.dict_off,
                before.dict_pool == start.dict_pool,
                before.orig_pool == start.orig_pool,
                self.dict_appends_since_dedup == before.dict_appends_since_dedup + added,
                self.dict_off@.len() == start.dict_off@.len() + added,
                self.dict_pool@.len() <= start.dict_pool@.len() + 4 * total_units(
                    desired@,
                    i as int,
                ),
                self.orig_pool@.len() <= start.orig_pool@.len() + total_bytes(desired@, i as int),
                self.same_orders(&before),
                self.stat_generation == before.stat_generation,
                self.exclusion_tree_dirty == before.exclusion_tree_dirty,
                self.dead_name_bytes == before.dead_name_bytes,
            decreases desired@.len() - i,
        {
            let ghost middle = *self;
            let ghost e = desired@[i as int];
            proof {
                lemma_totals_grow(desired@, i + 1, desired@.len() as int);
                lemma_fold_keeps_length(e.name_utf16@);
                assert(wanted@[i as int].0 == start.wanted_parent(frn, e));
                assert(wanted@[i as int].0 < start.count());
                assert(self.rows().len() == before.rows().len() + added);
            }
            if !matched[i] {
                let parent: EntryId = wanted[i].0;
                proof {
                    let row = self.rows()[parent as int];
                    assert(row == before.rows()[parent as int]);
                    assert(self.row(parent as int) == row);
                    assert(before.row(parent as int) == row);
                    lemma_with_bit(start.flag@[parent as int], TOMBSTONE, true, EXCLUDED);
                    assert(self.excludes(parent) == start.excludes(parent));
                }
                self.push_raw(&desired[i], parent);
                added = added + 1;
                assert(self.rows() =~= before.rows() + start.new_links(frn, desired@, i + 1));
            }
            i = i + 1;
        }
        added
    }

    /// Refresh the size, time and attributes of the live links of a file; says
    /// whether one of them differed.
    fn refresh_links(&mut self, frn: Frn, e: &RawEntry<'_>) -> (changed: bool)
        requires
            old(self).wf(),
            old(self).stat_generation < u64::MAX,
            forall|i: int|
                0 <= i < old(self).count() && is_current(#[trigger] old(self).row(i), frn.0) ==> {
                    &&& !bit_set(old(self).row(i).flag, IS_DIR)
                    &&& old(self).row(i).parent < old(self).count()
                    &&& !is_current(old(self).row(old(self).row(i).parent as int), frn.0)
                },
        ensures
            final(self).wf(),
            changed == (stat_stale(old(self).rows(), frn.0, *e) || attrs_stale(
                old(self).rows(),
                frn.0,
                *e,
            )),
            final(self).rows() == refreshed(old(self).rows(), frn.0, *e),
            final(self).same_orders(old(self)),
            final(self).exclusion_tree_dirty == old(self).exclusion_tree_dirty,
            final(self).dead_name_bytes == old(self).dead_name_bytes,
            final(self).same_names(old(self)),
            final(self).stat_generation == old(self).stat_generation + (if stat_stale(
                old(self).rows(),
                frn.0,
                *e,
            ) {
                1int
            } else {
                0
            }),
    {
        let ids: Vec<EntryId> = self.entries_by_frn(frn);
        let ghost before = *self;
        let ghost rows = self.rows();
        proof {
            self.lemma_object_links(frn.0);
            assert forall|x: int| 0 <= x < rows.len() implies (occurs(ids@, x) <==> is_current(
                #[trigger] rows[x],
                frn.0,
            )) by {
                assert(rows[x] == before.row(x));
                assert(occurs(ids@, x) <==> before.frn@[x] == frn.0 && before.live(x));
            }
            before.lemma_stale(rows, ids@, frn.0, *e);
        }
        let attrs_changed: bool = self.any_attrs_differ(
            &ids,
            e.is_reparse,
            e.is_hidden,
            e.is_system,
        );
        let generation: u64 = self.stat_generation;
        self.update_stat_all(&ids, e.size, e.mtime);
        let ghost stated = *self;
        let stat_changed: bool = self.stat_generation != generation;
        self.update_attrs_all(&ids, Some(e.is_reparse), e.is_hidden, e.is_system);
        proof {
            assert forall|k: int| 0 <= k < ids@.len() implies (#[trigger] ids@[k])
                < stated.flag@.len() && stated.parent@[ids@[k] as int] < stated.flag@.len()
                && !occurs(ids@, stated.parent@[ids@[k] as int] as int) by {
                let i = ids@[k] as int;
                assert(before.live(i) && before.frn@[i] == frn.0);
                assert(is_current(before.row(i), frn.0));
                let p = before.row(i).parent as int;
                assert(rows[p] == before.row(p));
            }
            lemma_with_attrs(
                stated.parent@,
                stated.flag@,
                ids@,
                Some(e.is_reparse),
                e.is_hidden,
                e.is_system,
            );
            assert(!before.attrs_spread(ids@, e.is_hidden, e.is_system)) by {
                if before.attrs_spread(ids@, e.is_hidden, e.is_system) {
                    let k = choose|k: int|
                        0 <= k < ids@.len() && bit_set(
                            before.flag@[(#[trigger] ids@[k]) as int],
                            IS_DIR,
                        ) && (bit_set(before.flag@[ids@[k] as int], HIDDEN) != e.is_hidden
                            || bit_set(before.flag@[ids@[k] as int], SYSTEM) != e.is_system);
                    let i = ids@[k] as int;
                    assert(before.live(i) && before.frn@[i] == frn.0);
                    assert(is_current(before.row(i), frn.0));
                }
            }
            assert(stated.attrs_spread(ids@, e.is_hidden, e.is_system) == before.attrs_spread(
                ids@,
                e.is_hidden,
                e.is_system,
            ));
            let fs = flags_of(rows);
            let ps = parents_of(rows);
            let target = refreshed(rows, frn.0, *e);
            assert(fs =~= before.flag@);
            assert(ps =~= before.parent@);
            assert forall|x: int| 0 <= x < rows.len() implies #[trigger] self.rows()[x]
                == target[x] by {
                assert(stated.rows()[x] == stated.row(x));
                assert(rows[x] == before.row(x));
                if occurs(ids@, x) {
                    let k = choose|k: int| 0 <= k < ids@.len() && #[trigger] ids@[k] == x;
                    assert(self.flag@[ids@[k] as int] == attrs_flag(
                        ps,
                        fs,
                        x,
                        Some(e.is_reparse),
                        e.is_hidden,
                        e.is_system,
                    ));
                }
            }
            assert(self.rows() =~= target);
        }
        attrs_changed || stat_changed
    }

    /// What is stale is so at some link.
    proof fn lemma_stale(&self, rows: Seq<Row>, ids: Seq<u32>, frn: u64, e: RawEntry<'_>)
        requires
            self.wf(),
            rows == self.rows(),
            self.are_live(ids),
            forall|x: int|
                0 <= x < rows.len() ==> (occurs(ids, x) <==> is_current(#[trigger] rows[x], frn)),
        ensures
            self.stat_differs(ids, e.size, e.mtime) == stat_stale(rows, frn, e),
            self.attrs_differ(ids, e.is_reparse, e.is_hidden, e.is_system) == attrs_stale(
                rows,
                frn,
                e,
            ),
    {
        if self.stat_differs(ids, e.size, e.mtime) {
            let k = choose|k: int|
                0 <= k < ids.len() && (self.row((#[trigger] ids[k]) as int).size != e.size
                    || self.row(ids[k] as int).mtime != ticks_to_secs(e.mtime));
            assert(ids[k] == ids[k] as int);
            assert(occurs(ids, ids[k] as int));
            assert(is_current(rows[ids[k] as int], frn));
        }
        if stat_stale(rows, frn, e) {
            let i = choose|i: int|
                0 <= i < rows.len() && is_current(#[trigger] rows[i], frn) && (rows[i].size
                    != e.size || rows[i].mtime != ticks_to_secs(e.mtime));
            assert(occurs(ids, i));
            let k = choose|k: int| 0 <= k < ids.len() && #[trigger] ids[k] == i;
            assert(self.row(ids[k] as int) == rows[i]);
        }
        if self.attrs_differ(ids, e.is_reparse, e.is_hidden, e.is_system) {
            let k = choose|k: int|
                0 <= k < ids.len() && !attrs_are(
                    self.flag@[(#[trigger] ids[k]) as int],
                    e.is_reparse,
                    e.is_hidden,
                    e.is_system,
                );
            assert(ids[k] == ids[k] as int);
            assert(occurs(ids, ids[k] as int));
            assert(is_current(rows[ids[k] as int], frn));
        }
        if attrs_stale(rows, frn, e) {
            let i = choose|i: int|
                0 <= i < rows.len() && is_current(#[trigger] rows[i], frn) && !attrs_are(
                    rows[i].flag,
                    e.is_reparse,
                    e.is_hidden,
                    e.is_system,
                );
            assert(occurs(ids, i));
            let k = choose|k: int| 0 <= k < ids.len() && #[trigger] ids[k] == i;
            assert(self.flag@[ids[k] as int] == rows[i].flag);
        }
    }

    /// An appended link is of the file, a file, and in a wanted directory.
    proof fn lemma_new_links(&self, frn: Frn, desired: Seq<RawEntry<'_>>, n: int, x: int)
        requires
            0 <= n <= desired.len(),
            0 <= x < self.new_links(frn, desired, n).len(),
        ensures
            exists|i: int|
                0 <= i < n && self.new_links(frn, desired, n)[x] == self.new_row(
                    wtf8_of((#[trigger] desired[i]).name_utf16@),
                    lower_of(desired[i].name_utf16@),
                    self.wanted_parent(frn, desired[i]),
                    facts_of(desired[i]),
                ),
        decreases n,
    {
        let s = self.new_links(frn, desired, n - 1);
        if self.lacks(frn, desired[n - 1]) && x == s.len() {
            assert(self.new_links(frn, desired, n)[x] == self.new_row(
                wtf8_of(desired[n - 1].name_utf16@),
                lower_of(desired[n - 1].name_utf16@),
                self.wanted_parent(frn, desired[n - 1]),
                facts_of(desired[n - 1]),
            ));
        } else {
            self.lemma_new_links(frn, desired, n - 1, x);
            assert(self.new_links(frn, desired, n)[x] == s[x]);
        }
    }

    /// The live links of the file after converging: files, in directories
    /// that are no links of it.
    pub proof fn lemma_converged(&self, frn: Frn, desired: Seq<RawEntry<'_>>, i: int)
        requires
            self.wf(),
            self.count() > 0,
            self.links_refused(frn, desired) is None,
            0 <= i < self.converged(frn, desired).len(),
            is_current(self.converged(frn, desired)[i], frn.0),
        ensures
            !bit_set(self.converged(frn, desired)[i].flag, IS_DIR),
            self.converged(frn, desired)[i].parent < self.count(),
            !is_current(
                self.converged(frn, desired)[self.converged(frn, desired)[i].parent as int],
                frn.0,
            ),
    {
        broadcast use lemma_with_bit;

        let rows = self.converged(frn, desired);
        let gone = self.gone_links(frn, desired);
        let n = self.count();
        let m = desired.len() as int;
        let links = self.object_links(frn.0);
        self.lemma_gone(frn, desired);
        self.lemma_object_links(frn.0);
        let j = if i < n {
            lemma_with_bit(self.flag@[i], TOMBSTONE, true, TOMBSTONE);
            assert(rows[i] == (Row { flag: buried_flags(self.flag@, gone)[i], ..self.row(i) }));
            assert(self.live(i) && self.frn@[i] == frn.0);
            assert(occurs(links, i));
            let k = choose|k: int| 0 <= k < links.len() && #[trigger] links[k] == i;
            assert(bit_set(self.flag@[links[k] as int], IS_DIR) == false);
            assert(!occurs(gone, links[k] as int));
            assert(self.keeps(frn, desired, k));
            let j = choose|j: int|
                0 <= j < desired.len() && self.hits(frn, #[trigger] desired[j], links[k] as int);
            j
        } else {
            self.lemma_new_links(frn, desired, m, i - n);
            let j = choose|j: int|
                0 <= j < m && self.new_links(frn, desired, m)[i - n] == self.new_row(
                    wtf8_of((#[trigger] desired[j]).name_utf16@),
                    lower_of(desired[j].name_utf16@),
                    self.wanted_parent(frn, desired[j]),
                    facts_of(desired[j]),
                );
            assert(rows[i] == self.new_links(frn, desired, m)[i - n]);
            self.lemma_no_fault_before(frn, desired, m, j);
            let e = desired[j];
            lemma_raw_flags(e.is_dir, e.is_reparse, e.is_hidden, e.is_system);
            j
        };
        self.lemma_no_fault_before(frn, desired, m, j);
        self.lemma_wanted_parent(frn, desired[j]);
        let p = self.wanted_parent(frn, desired[j]) as int;
        assert(rows[i].parent == p);
        lemma_with_bit(self.flag@[p], TOMBSTONE, true, TOMBSTONE);
        assert(rows[p] == (Row { flag: buried_flags(self.flag@, gone)[p], ..self.row(p) }));
    }

    /// Make the links of a file what a complete set of them says: links that
    /// match keep their entries, links that are gone are tombstoned, new ones
    /// are appended, links of another generation of the record are
    /// tombstoned, and the size, time and attributes of all are refreshed.
    ///
    /// The set is checked before anything is changed.
    pub fn reconcile_file_links_usn(&mut self, frn: Frn, desired: &[RawEntry<'_>]) -> (r: Result<
        LinkReconcileStats,
        IndexMutationError,
    >)
        requires
            old(self).wf(),
            old(self).count() > 0,
            old(self).has_room_for(desired@),
            old(self).stat_generation < u64::MAX,
        ensures
            match old(self).links_refused(frn, desired@) {
                Some(x) => r == Err::<LinkReconcileStats, IndexMutationError>(x) && *final(self)
                    == *old(self),
                None => {
                    let gone = old(self).gone_links(frn, desired@);
                    let rows = old(self).converged(frn, desired@);
                    let e = desired@[0];
                    &&& final(self).wf()
                    &&& final(self).rows() == refreshed(rows, frn.0, e)
                    &&& r is Ok
                    &&& r->Ok_0.removed == gone.len()
                    &&& r->Ok_0.added == rows.len() - old(self).count()
                    &&& r->Ok_0.retained == old(self).object_links(frn.0).len()
                        - old(self).dropped_links(
                        frn,
                        desired@,
                        old(self).object_links(frn.0).len() as int,
                    ).len()
                    &&& r->Ok_0.added + r->Ok_0.retained == desired@.len()
                    &&& r->Ok_0.metadata_changed == (stat_stale(rows, frn.0, e) || attrs_stale(
                        rows,
                        frn.0,
                        e,
                    ))
                    &&& final(self).same_orders(old(self))
                    &&& final(self).exclusion_tree_dirty == old(self).exclusion_tree_dirty
                    &&& final(self).dead_name_bytes == old(self).dead_bytes(gone)
                    &&& final(self).dict_appends_since_dedup
                        == old(self).dict_appends_since_dedup + r->Ok_0.added
                    &&& final(self).dict_off@.len() == old(self).dict_off@.len() + r->Ok_0.added
                    &&& final(self).dict_pool@.len() <= old(self).dict_pool@.len() + 4 * total_units(
                        desired@,
                        desired@.len() as int,
                    )
                    &&& final(self).orig_pool@.len() <= old(self).orig_pool@.len() + total_bytes(
                        desired@,
                        desired@.len() as int,
                    )
                    &&& final(self).stat_generation == old(self).stat_generation + (if stat_stale(
                        rows,
                        frn.0,
                        e,
                    ) {
                        1int
                    } else {
                        0
                    })
                },
            },
    {
        let wanted: Vec<(EntryId, Vec<u8>)> = match self.check_links(frn, desired) {
            Ok(wanted) => wanted,
            Err(x) => {
                return Err(x);
            },
        };
        let ghost before = *self;
        let ghost m = desired@.len() as int;
        proof {
            assert forall|i: int, j: int| 0 <= i < j < wanted@.len() implies (
            #[trigger] wanted@[i]).0 != (#[trigger] wanted@[j]).0 || wanted@[i].1@
                != wanted@[j].1@ by {
                self.lemma_no_fault_before(frn, desired@, m, j);
                assert(wanted@[i].0 == self.wanted_parent(frn, desired@[i]));
            }
            assert forall|i: int| 0 <= i < wanted@.len() implies (#[trigger] wanted@[i]).0
                < self.count() by {
                self.lemma_no_fault_before(frn, desired@, m, i);
                self.lemma_wanted_parent(frn, desired@[i]);
            }
        }
        let stale: Vec<EntryId> = self.other_generations(frn);
        let existing: Vec<EntryId> = self.entries_by_frn(frn);
        let (dropped, matched): (Vec<EntryId>, Vec<bool>) = self.match_links(
            frn,
            desired,
            &wanted,
        );
        let gone: Vec<EntryId> = joined(&stale, &dropped);
        proof {
            self.lemma_gone(frn, desired@);
            self.lemma_dropped(frn, desired@, existing@.len() as int);
            self.lemma_links_accounted(frn, desired@);
            self.lemma_object_links(frn.0);
            crate::order::lemma_distinct_below(existing@, self.count());
            crate::order::lemma_distinct_below(gone@, self.count());
        }
        let removed: u32 = gone.len() as u32;
        let retained: u32 = (existing.len() - dropped.len()) as u32;
        self.tombstone_all(&gone);
        let added: u32 = self.append_links(
            frn,
            desired,
            &wanted,
            &matched,
            Ghost(before),
            Ghost(gone@),
        );
        proof {
            assert(self.rows() =~= before.converged(frn, desired@));
            assert forall|i: int|
                0 <= i < self.count() && is_current(#[trigger] self.row(i), frn.0) implies {
                &&& !bit_set(self.row(i).flag, IS_DIR)
                &&& self.row(i).parent < self.count()
                &&& !is_current(self.row(self.row(i).parent as int), frn.0)
            } by {
                assert(self.row(i) == self.rows()[i]);
                before.lemma_converged(frn, desired@, i);
                let p = self.row(i).parent as int;
                assert(self.rows().len() == before.count() + added);
                assert(self.row(p) == self.rows()[p]);
            }
        }
        let metadata_changed: bool = self.refresh_links(frn, &desired[0]);
        Ok(LinkReconcileStats { added, removed, retained, metadata_changed })
    }
}

/// One list behind the other.
fn joined(a: &Vec<EntryId>, b: &Vec<EntryId>) -> (r: Vec<EntryId>)
    ensures
        r@ == a@ + b@,
{
    let mut r: Vec<EntryId> = Vec::new();
    let mut i: usize = 0;
    while i < a.len()
        invariant
            i <= a@.len(),
            r@ == a@.take(i as int),
        decreases a@.len() - i,
    {
        r.push(a[i]);
        assert(a@.take(i + 1) =~= a@.take(i as int).push(a@[i as int]));
        i = i + 1;
    }
    assert(a@.take(i as int) =~= a@);
    let mut j: usize = 0;
    assert(a@ + b@.take(0) =~= a@);
    while j < b.len()
        invariant
            j <= b@.len(),
            r@ == a@ + b@.take(j as int),
        decreases b@.len() - j,
    {
        r.push(b[j]);
        assert(a@ + b@.take(j + 1) =~= (a@ + b@.take(j as int)).push(b@[j as int]));
        j = j + 1;
    }
    assert(b@.take(j as int) =~= b@);
    r
}

} // verus!
