//! When a change of the index is accepted, and what a valid tree is.

use vstd::prelude::*;
use crate::metrics::IndexStats;
use crate::order::occurs;
use crate::wtf8::wtf8_of;
use super::builder::{FinalizeMode, IndexBuildError, VolumeIndexBuilder};
use super::columns::{walk_up, VolumeIndex};
use super::flags::{bit_set, IS_DIR, TOMBSTONE};
use super::frn::groups_valid;
use super::lookup::{lemma_selected, lemma_selected_distinct};
use super::mutate::is_replaced;
use super::stats::{accounts, Capacities};
use super::topology::{is_directory, rooted, IndexMutationError, TopologyFault};
use super::{record_of, Frn, RawEntry, NO_PARENT};

verus! {

impl VolumeIndex {
    /// In a valid tree the root is a live directory below nothing, and every
    /// other live entry bears a full reference, hangs below a live directory of
    /// another record, and leads up to the root.
    pub proof fn lemma_valid_tree(&self, i: int)
        requires
            self.wf(),
            self.topology(self.count()) is Ok,
            0 < i < self.count(),
            !bit_set(self.flag@[i], TOMBSTONE),
        ensures
            !bit_set(self.flag@[0], TOMBSTONE),
            bit_set(self.flag@[0], IS_DIR),
            self.parent@[0] == NO_PARENT,
            self.frn@[i] >= 0x1_0000_0000_0000,
            self.parent@[i] < self.count(),
            !bit_set(self.flag@[self.parent@[i] as int], TOMBSTONE),
            bit_set(self.flag@[self.parent@[i] as int], IS_DIR),
            self.frn@[i] % 0x1_0000_0000_0000 != self.frn@[self.parent@[i] as int]
                % 0x1_0000_0000_0000,
            exists|k: nat| #[trigger] walk_up(self.parent@, i as u32, k) == 0,
    {
        assert(self.live(i));
        assert(!(exists|j: int| self.first_fault(j)));
        self.lemma_no_entry_fault(i);
        assert(rooted(self.parent@, i));
    }

    proof fn lemma_no_entry_fault(&self, i: int)
        requires
            !(exists|j: int| self.first_fault(j)),
            0 < i < self.count(),
            self.live(i),
        ensures
            self.entry_fault(i) is None,
        decreases i,
    {
        assert forall|j: int| 0 < j < i && #[trigger] self.live(j) implies self.entry_fault(
            j,
        ) is None by {
            self.lemma_no_entry_fault(j);
        }
        assert(!self.first_fault(i));
    }

    /// In a valid tree no two live entries of one record are directories or of
    /// different generations, and none repeats another's reference, directory
    /// and name.
    pub proof fn lemma_valid_objects(&self, i: int, j: int)
        requires
            self.wf(),
            self.topology(self.count()) is Ok,
            0 <= i < j < self.count(),
            !bit_set(self.flag@[i], TOMBSTONE),
            !bit_set(self.flag@[j], TOMBSTONE),
        ensures
            self.frn@[i] % 0x1_0000_0000_0000 == self.frn@[j] % 0x1_0000_0000_0000 ==> self.frn@[i]
                == self.frn@[j] && !bit_set(self.flag@[i], IS_DIR) && !bit_set(
                self.flag@[j],
                IS_DIR,
            ),
            self.frn@[i] != self.frn@[j] || self.parent@[i] != self.parent@[j] || self.original(i)
                != self.original(j),
    {
        assert(groups_valid(self.frn@, self.flag@, self.count()));
        assert(self.links_unique(self.count()));
        assert(self.live(i) && self.live(j));
    }

    /// A tree is refused for its root exactly where the root is no live
    /// directory below nothing.
    pub proof fn lemma_root_refused(&self, covered: int)
        ensures
            self.topology(covered) == Err::<(), IndexMutationError>(
                IndexMutationError::InvalidTopology { reason: TopologyFault::Root },
            ) ==> !(self.count() > 0 && !bit_set(self.flag@[0], TOMBSTONE) && bit_set(
                self.flag@[0],
                IS_DIR,
            ) && self.parent@[0] == NO_PARENT),
            self.count() == 0 || bit_set(self.flag@[0], TOMBSTONE) || !bit_set(self.flag@[0], IS_DIR)
                || self.parent@[0] != NO_PARENT ==> self.topology(covered) == Err::<
                (),
                IndexMutationError,
            >(IndexMutationError::InvalidTopology { reason: TopologyFault::Root }),
    {
        if self.root_valid() && exists|i: int| self.first_fault(i) {
            let i = choose|i: int| self.first_fault(i);
            assert(self.first_fault(i));
        }
    }

    /// An object is of another kind than told exactly where one of its live
    /// entries is.
    pub proof fn lemma_kind_refused(&self, object: Frn, is_dir: bool, i: int)
        requires
            self.wf(),
            0 <= i < self.count(),
            self.frn@[i] == object.0,
            !bit_set(self.flag@[i], TOMBSTONE),
        ensures
            bit_set(self.flag@[i], IS_DIR) != is_dir ==> self.existing_links(object, is_dir)
                == Err::<usize, IndexMutationError>(IndexMutationError::ObjectKind { object }),
            self.existing_links(object, is_dir) is Ok ==> bit_set(self.flag@[i], IS_DIR) == is_dir,
            self.existing_links(object, is_dir) matches Ok(n) ==> n > 0 || self.object_links(
                object.0,
            ).len() > usize::MAX,
    {
        let links = self.object_links(object.0);
        self.lemma_object_links(object.0);
        assert(self.live(i));
        assert(occurs(links, i));
        let k = choose|k: int| 0 <= k < links.len() && #[trigger] links[k] == i;
        assert(self.flag@[links[k] as int] == self.flag@[i]);
        if links.len() <= usize::MAX {
            assert(links.len() as usize == links.len());
        }
    }

    /// An entry is accepted only where it has a name and its parent is
    /// accepted, and goes below that; where it has none it is refused for that
    /// before anything else.
    pub proof fn lemma_upsert_accepted(&self, e: RawEntry<'_>)
        ensures
            self.upsert_verdict(e) matches Ok(p) ==> e.name_utf16@.len() > 0
                && self.resolved_parent(e.frn, e.parent_frn) == Ok::<u32, IndexMutationError>(p)
                && self.existing_links(e.frn, e.is_dir) is Ok,
            e.name_utf16@.len() == 0 <==> self.upsert_verdict(e) == Err::<u32, IndexMutationError>(
                IndexMutationError::EmptyName { object: e.frn },
            ),
            self.upsert_link_verdict(e) matches Ok(p) ==> !e.is_dir && e.name_utf16@.len() > 0
                && self.resolved_parent(e.frn, e.parent_frn) == Ok::<u32, IndexMutationError>(p)
                && self.existing_links(e.frn, false) is Ok,
            e.is_dir ==> self.upsert_link_verdict(e) == Err::<u32, IndexMutationError>(
                IndexMutationError::ObjectKind { object: e.frn },
            ),
    {
    }

    /// A single entry never takes the place of a file's other links.
    pub proof fn lemma_siblings_kept(&self, e: RawEntry<'_>)
        ensures
            self.upsert_verdict(e) is Ok && !e.is_dir ==> self.existing_links(e.frn, false)->Ok_0
                <= 1,
    {
    }

    /// A directory is renamed only under a full reference and a name, and
    /// below a parent that is accepted; nothing happens where there is none.
    pub proof fn lemma_rename_accepted(&self, frn: Frn, name: Seq<u16>, parent: Frn)
        ensures
            self.rename_verdict(frn, name, parent) matches Ok(Some(p)) ==> frn.0
                >= 0x1_0000_0000_0000 && name.len() > 0 && self.resolved_parent(frn, parent) == Ok::<
                u32,
                IndexMutationError,
            >(p) && self.existing_links(frn, true) is Ok && self.existing_links(frn, true)->Ok_0
                != 0,
            frn.0 < 0x1_0000_0000_0000 ==> self.rename_verdict(frn, name, parent) == Err::<
                Option<u32>,
                IndexMutationError,
            >(IndexMutationError::InvalidReference { reference: frn }),
    {
    }

    /// A link that is put takes the place of the entries of the record that
    /// bear another generation and of the one of its own directory and name,
    /// and of no other.
    pub proof fn lemma_link_replaces(&self, e: RawEntry<'_>, x: int)
        requires
            self.wf(),
            0 <= x < self.count(),
        ensures
            occurs(self.replaced_links(e), x) <==> {
                &&& !bit_set(self.flag@[x], TOMBSTONE)
                &&& self.frn@[x] % 0x1_0000_0000_0000 == e.frn.0 % 0x1_0000_0000_0000
                &&& self.frn@[x] != e.frn.0 || self.link_is(
                    x,
                    e.parent_frn.0,
                    wtf8_of(e.name_utf16@),
                )
            },
    {
        let links = self.record_links(record_of(e.frn.0));
        let pass = is_replaced(*self, e.frn.0, e.parent_frn.0, wtf8_of(e.name_utf16@));
        self.lemma_record_links(record_of(e.frn.0));
        lemma_selected(links, pass);
        assert(x as u32 as int == x);
    }

    /// An entry is the link of a name in a directory where it is spelled so and
    /// hangs below what bears the directory's reference, or below the root of
    /// an index of bare record numbers that names the same record.
    pub proof fn lemma_link_is(&self, i: int, parent_frn: u64, name: Seq<u8>)
        ensures
            self.link_is(i, parent_frn, name) <==> {
                let p = self.parent@[i];
                &&& self.original(i) == name
                &&& p != 0xFFFF_FFFF
                &&& self.frn@[p as int] == parent_frn || (p == 0 && self.frn@[0]
                    < 0x1_0000_0000_0000 && self.frn@[0] % 0x1_0000_0000_0000 == parent_frn
                    % 0x1_0000_0000_0000)
            },
    {
    }
}

/// What an index takes up is what its columns take up: four bytes for each
/// number, eight for a reference, seventeen for a large size, and all of them
/// together.
pub proof fn lemma_memory_accounted(c: Capacities, s: IndexStats)
    requires
        accounts(c, s),
        c.orig_pool + c.dict_pool + 4 * c.name_id + 4 * c.dict_off + 4 * c.orig_off + 4 * c.parent
            + 4 * c.size_lo + 17 * c.size_ovf + 4 * c.mtime + 8 * c.frn + c.flag + 4 * c.perm_name
            + 4 * c.frn_index <= u64::MAX,
    ensures
        s.name_pool_bytes == c.orig_pool,
        s.lower_pool_bytes == c.dict_pool,
        s.offsets_bytes == 4 * (c.name_id + c.dict_off + c.orig_off),
        s.parent_bytes == 4 * c.parent,
        s.size_bytes == 4 * c.size_lo + 17 * c.size_ovf,
        s.mtime_bytes == 4 * c.mtime,
        s.frn_bytes == 8 * c.frn,
        s.flag_bytes == c.flag,
        s.permutations_bytes == 4 * c.perm_name,
        s.frn_map_bytes == 4 * c.frn_index,
        s.total_bytes == c.orig_pool + c.dict_pool + 4 * c.name_id + 4 * c.dict_off + 4 * c.orig_off
            + 4 * c.parent + 4 * c.size_lo + 17 * c.size_ovf + 4 * c.mtime + 8 * c.frn + c.flag + 4
            * c.perm_name + 4 * c.frn_index,
{
}

impl VolumeIndex {
    /// A parent is refused for the first of its faults: a reference that is no
    /// full one, the object's before the parent's, and then a parent that is
    /// the object.
    pub proof fn lemma_parent_refused_in_order(&self, object: Frn, parent: Frn)
        ensures
            object.0 < 0x1_0000_0000_0000 ==> self.resolved_parent(object, parent) == Err::<
                u32,
                IndexMutationError,
            >(IndexMutationError::InvalidReference { reference: object }),
            object.0 >= 0x1_0000_0000_0000 && parent.0 < 0x1_0000_0000_0000 && self.frn@[0]
                >= 0x1_0000_0000_0000 ==> self.resolved_parent(object, parent) == Err::<
                u32,
                IndexMutationError,
            >(IndexMutationError::InvalidReference { reference: parent }),
            object.0 >= 0x1_0000_0000_0000 && parent.0 >= 0x1_0000_0000_0000 && object.0
                % 0x1_0000_0000_0000 == parent.0 % 0x1_0000_0000_0000 ==> self.resolved_parent(
                object,
                parent,
            ) == Err::<u32, IndexMutationError>(IndexMutationError::SelfParent { object }),
    {
    }

    /// A link is refused for the first of its faults: another object or a
    /// directory, then no name, then facts that differ from the first link's.
    pub proof fn lemma_link_refused_in_order(&self, frn: Frn, desired: Seq<RawEntry<'_>>, i: int)
        ensures
            ({
                let e = desired[i];
                let first = desired[0];
                let fault = self.link_fault(frn, desired, i);
                &&& e.frn != frn || e.is_dir ==> fault == Some(
                    IndexMutationError::ObjectKind { object: frn },
                )
                &&& e.frn == frn && !e.is_dir && e.name_utf16@.len() == 0 ==> fault == Some(
                    IndexMutationError::EmptyName { object: frn },
                )
                &&& e.frn == frn && !e.is_dir && e.name_utf16@.len() > 0 && (e.size != first.size
                    || e.mtime != first.mtime || e.is_hidden != first.is_hidden || e.is_system
                    != first.is_system || e.is_reparse != first.is_reparse) ==> fault == Some(
                    IndexMutationError::InconsistentLinkMetadata { object: frn },
                )
            }),
            desired.len() == 0 ==> self.links_refused(frn, desired) == Some(
                IndexMutationError::EmptyLinkSnapshot { object: frn },
            ),
            desired.len() > 0 && frn.0 < 0x1_0000_0000_0000 ==> self.links_refused(frn, desired)
                == Some(IndexMutationError::InvalidReference { reference: frn }),
    {
    }

    /// A tree with a valid root is refused for its records before its links,
    /// and for its links before its entries.
    pub proof fn lemma_tree_refused_in_order(&self, covered: int, i: int, j: int)
        requires
            self.count() > 0,
            !bit_set(self.flag@[0], TOMBSTONE) && bit_set(self.flag@[0], IS_DIR) && self.parent@[0]
                == NO_PARENT,
            0 <= i < j < covered,
            !bit_set(self.flag@[i], TOMBSTONE),
            !bit_set(self.flag@[j], TOMBSTONE),
        ensures
            self.frn@[i] % 0x1_0000_0000_0000 == self.frn@[j] % 0x1_0000_0000_0000 && self.frn@[i]
                != self.frn@[j] ==> self.topology(covered) == Err::<(), IndexMutationError>(
                IndexMutationError::InvalidTopology { reason: TopologyFault::AmbiguousObjects },
            ),
            groups_valid(self.frn@, self.flag@, covered) && self.frn@[i] == self.frn@[j]
                && self.parent@[i] == self.parent@[j] && self.original(i) == self.original(j)
                ==> self.topology(covered) == Err::<(), IndexMutationError>(
                IndexMutationError::InvalidTopology { reason: TopologyFault::RepeatedLink },
            ),
    {
        assert(self.live(i) && self.live(j));
        if self.frn@[i] % 0x1_0000_0000_0000 == self.frn@[j] % 0x1_0000_0000_0000 && self.frn@[i]
            != self.frn@[j] {
            assert(record_of(self.frn@[i]) == record_of(self.frn@[j]));
            assert(!groups_valid(self.frn@, self.flag@, covered));
        }
        if self.frn@[i] == self.frn@[j] && self.parent@[i] == self.parent@[j] && self.original(i)
            == self.original(j) {
            assert(self.same_link(i, j));
            assert(!self.links_unique(covered));
        }
    }
}

impl VolumeIndexBuilder {
    /// A strict build refuses an entry without a full reference before
    /// anything else, and names the first of them; a synthetic one refuses
    /// nothing.
    pub proof fn lemma_build_refused_first(&self, i: int)
        requires
            0 <= i < self.idx.count() <= 0xFFFF_FFFF,
            self.idx.frn@[i] < 0x1_0000_0000_0000,
            forall|j: int| 0 <= j < i ==> (#[trigger] self.idx.frn@[j]) >= 0x1_0000_0000_0000,
        ensures
            self.mode == FinalizeMode::StrictProduction ==> self.fault() == Some(
                IndexBuildError::InvalidObjectReference {
                    entry: i as u32,
                    object: Frn(self.idx.frn@[i]),
                },
            ),
            self.mode == FinalizeMode::SyntheticFixture ==> self.fault() is None,
    {
        assert(self.first_unsequenced(i));
        let c = choose|c: int| self.first_unsequenced(c);
        assert(self.first_unsequenced(c));
        if c < i {
            assert(self.idx.frn@[c] >= 0x1_0000_0000_0000);
        } else if i < c {
            assert(super::has_sequence(self.idx.frn@[i]));
        }
    }
}

impl VolumeIndex {
    /// Where one live directory alone bears the parent's reference, and no live
    /// directory the object's, the object is put below it.
    pub proof fn lemma_parent_owed(&self, object: Frn, parent: Frn, p: int)
        requires
            self.wf(),
            self.count() > 0,
            object.0 >= 0x1_0000_0000_0000,
            parent.0 >= 0x1_0000_0000_0000,
            object.0 % 0x1_0000_0000_0000 != parent.0 % 0x1_0000_0000_0000,
            0 <= p < self.count(),
            self.frn@[p] == parent.0,
            !bit_set(self.flag@[p], TOMBSTONE),
            bit_set(self.flag@[p], IS_DIR),
            forall|x: int|
                0 <= x < self.count() && x != p && !bit_set(#[trigger] self.flag@[x], TOMBSTONE)
                    && bit_set(self.flag@[x], IS_DIR) ==> self.frn@[x] != parent.0 && self.frn@[x]
                    != object.0,
        ensures
            self.resolved_parent(object, parent) == Ok::<u32, IndexMutationError>(p as u32),
    {
        let links = self.object_links(parent.0);
        let dirs = self.directory_links(parent.0);
        self.lemma_object_links(parent.0);
        lemma_selected(links, is_directory(self.flag@));
        lemma_selected_distinct(links, is_directory(self.flag@));
        assert(self.live(p));
        assert(occurs(links, p));
        assert(occurs(dirs, p));
        assert forall|i: int| 0 <= i < dirs.len() implies #[trigger] dirs[i] == p by {
            assert(occurs(dirs, dirs[i] as int));
            assert(occurs(links, dirs[i] as int));
            assert(!bit_set(self.flag@[dirs[i] as int], TOMBSTONE));
        }
        if dirs.len() > 1 {
            assert(dirs[0] != dirs[1]);
        }
        let own = self.object_links(object.0);
        let own_dirs = self.directory_links(object.0);
        self.lemma_object_links(object.0);
        lemma_selected(own, is_directory(self.flag@));
        if own_dirs.len() > 0 {
            assert(occurs(own_dirs, own_dirs[0] as int));
            assert(occurs(own, own_dirs[0] as int));
            assert(!bit_set(self.flag@[own_dirs[0] as int], TOMBSTONE));
        }
    }

    /// Where every live entry of an object is of the kind told, and a directory
    /// has no more than one, the object is accepted with as many as there are.
    pub proof fn lemma_kind_owed(&self, object: Frn, is_dir: bool)
        requires
            self.wf(),
            forall|x: int|
                0 <= x < self.count() && self.frn@[x] == object.0 && !bit_set(
                    #[trigger] self.flag@[x],
                    TOMBSTONE,
                ) ==> bit_set(self.flag@[x], IS_DIR) == is_dir,
            is_dir ==> self.object_links(object.0).len() <= 1,
        ensures
            self.existing_links(object, is_dir) == Ok::<usize, IndexMutationError>(
                self.object_links(object.0).len() as usize,
            ),
    {
        let links = self.object_links(object.0);
        self.lemma_object_links(object.0);
        assert forall|i: int| 0 <= i < links.len() implies bit_set(
            self.flag@[(#[trigger] links[i]) as int],
            IS_DIR,
        ) == is_dir by {
            assert(!bit_set(self.flag@[links[i] as int], TOMBSTONE));
        }
    }

    /// A named entry whose parent and kind are accepted is accepted below that
    /// parent, unless it would take the place of a file's other links; a named
    /// link of a file always is.
    pub proof fn lemma_upsert_owed(&self, e: RawEntry<'_>, p: u32, n: usize)
        requires
            e.name_utf16@.len() > 0,
            self.resolved_parent(e.frn, e.parent_frn) == Ok::<u32, IndexMutationError>(p),
            self.existing_links(e.frn, e.is_dir) == Ok::<usize, IndexMutationError>(n),
        ensures
            e.is_dir || n <= 1 ==> self.upsert_verdict(e) == Ok::<u32, IndexMutationError>(p),
            !e.is_dir ==> self.upsert_link_verdict(e) == Ok::<u32, IndexMutationError>(p),
    {
    }

    /// A directory that there is is renamed where its parent is accepted, and
    /// one that there is not is passed over.
    pub proof fn lemma_rename_owed(&self, frn: Frn, name: Seq<u16>, parent: Frn, p: u32, n: usize)
        requires
            frn.0 >= 0x1_0000_0000_0000,
            name.len() > 0,
            self.existing_links(frn, true) == Ok::<usize, IndexMutationError>(n),
        ensures
            n > 0 && self.resolved_parent(frn, parent) == Ok::<u32, IndexMutationError>(p)
                ==> self.rename_verdict(frn, name, parent) == Ok::<Option<u32>, IndexMutationError>(
                Some(p),
            ),
            n == 0 ==> self.rename_verdict(frn, name, parent) == Ok::<
                Option<u32>,
                IndexMutationError,
            >(None),
    {
    }

    /// Links without a fault are accepted.
    pub proof fn lemma_links_owed(&self, frn: Frn, desired: Seq<RawEntry<'_>>)
        requires
            desired.len() > 0,
            frn.0 >= 0x1_0000_0000_0000,
            self.existing_links(frn, false) is Ok,
            forall|i: int|
                0 <= i < desired.len() ==> {
                    let e = #[trigger] desired[i];
                    &&& e.frn == frn && !e.is_dir && e.name_utf16@.len() > 0
                    &&& e.size == desired[0].size && e.mtime == desired[0].mtime
                    &&& e.is_reparse == desired[0].is_reparse && e.is_hidden == desired[0].is_hidden
                    &&& e.is_system == desired[0].is_system
                    &&& self.resolved_parent(frn, e.parent_frn) is Ok
                },
            forall|i: int, j: int|
                0 <= j < i < desired.len() ==> self.resolved_parent(
                    frn,
                    (#[trigger] desired[i]).parent_frn,
                ) != self.resolved_parent(frn, (#[trigger] desired[j]).parent_frn) || wtf8_of(
                    desired[i].name_utf16@,
                ) != wtf8_of(desired[j].name_utf16@),
        ensures
            self.links_refused(frn, desired) is None,
    {
        assert(desired[0].frn == frn);
        self.lemma_no_link_fault(frn, desired, desired.len() as int);
    }

    proof fn lemma_no_link_fault(&self, frn: Frn, desired: Seq<RawEntry<'_>>, n: int)
        requires
            0 <= n <= desired.len(),
            forall|i: int|
                0 <= i < desired.len() ==> {
                    let e = #[trigger] desired[i];
                    &&& e.frn == frn && !e.is_dir && e.name_utf16@.len() > 0
                    &&& e.size == desired[0].size && e.mtime == desired[0].mtime
                    &&& e.is_reparse == desired[0].is_reparse && e.is_hidden == desired[0].is_hidden
                    &&& e.is_system == desired[0].is_system
                    &&& self.resolved_parent(frn, e.parent_frn) is Ok
                },
            forall|i: int, j: int|
                0 <= j < i < desired.len() ==> self.resolved_parent(
                    frn,
                    (#[trigger] desired[i]).parent_frn,
                ) != self.resolved_parent(frn, (#[trigger] desired[j]).parent_frn) || wtf8_of(
                    desired[i].name_utf16@,
                ) != wtf8_of(desired[j].name_utf16@),
        ensures
            self.first_link_fault(frn, desired, n) is None,
        decreases n,
    {
        if n > 0 {
            self.lemma_no_link_fault(frn, desired, n - 1);
            let e = desired[n - 1];
            assert(e.frn == frn);
            if self.link_fault(frn, desired, n - 1) is Some {
                let j = choose|j: int|
                    0 <= j < n - 1 && self.wanted_parent(frn, #[trigger] desired[j])
                        == self.resolved_parent(frn, e.parent_frn)->Ok_0 && wtf8_of(
                        desired[j].name_utf16@,
                    ) == wtf8_of(e.name_utf16@);
                assert(desired[j].frn == frn);
                assert(self.resolved_parent(frn, desired[n - 1].parent_frn)
                    == self.resolved_parent(frn, desired[j].parent_frn));
            }
        }
    }

    /// A tree with a valid root whose live entries are all without a fault, all
    /// rooted, and no two of them in each other's way is valid.
    pub proof fn lemma_valid_tree_owed(&self)
        requires
            self.root_valid(),
            groups_valid(self.frn@, self.flag@, self.count()),
            self.links_unique(self.count()),
            forall|i: int|
                0 < i < self.count() && #[trigger] self.live(i) ==> {
                    let p = self.parent@[i];
                    &&& self.frn@[i] >= 0x1_0000_0000_0000
                    &&& p < self.count()
                    &&& !bit_set(self.flag@[p as int], TOMBSTONE)
                    &&& bit_set(self.flag@[p as int], IS_DIR)
                    &&& self.frn@[i] % 0x1_0000_0000_0000 != self.frn@[p as int]
                        % 0x1_0000_0000_0000
                    &&& rooted(self.parent@, i)
                },
        ensures
            self.topology(self.count()) is Ok,
    {
        assert forall|i: int| !self.first_fault(i) by {
            if self.first_fault(i) {
                assert(self.live(i));
                assert(self.live_dir(self.parent@[i]));
            }
        }
    }
}

impl VolumeIndexBuilder {
    /// A strict build succeeds where every reference is full, no two entries
    /// are in each other's way, every parent is found, and every entry leads to
    /// the root.
    pub proof fn lemma_build_owed(&self)
        requires
            forall|i: int|
                0 <= i < self.idx.count() ==> (#[trigger] self.idx.frn@[i]) >= 0x1_0000_0000_0000,
            groups_valid(self.idx.frn@, self.idx.flag@, self.idx.count()),
            forall|i: int|
                0 < i < self.idx.count() ==> (#[trigger] self.fault_above(i)) is None,
            forall|i: int| !(#[trigger] self.repeats(i)),
            forall|i: int| 0 < i < self.idx.count() ==> #[trigger] rooted(self.parents(), i),
        ensures
            self.fault() is None,
    {
        assert forall|i: int| !self.first_unsequenced(i) by {
            if self.first_unsequenced(i) {
                assert(self.idx.frn@[i] >= 0x1_0000_0000_0000);
            }
        }
        assert forall|i: int| !self.first_parent_fault(i) by {
            if self.first_parent_fault(i) {
                assert(self.fault_above(i) is None);
            }
        }
        assert forall|i: int| !self.first_repeat(i) by {
            if self.first_repeat(i) {
                assert(self.repeats(i));
            }
        }
        assert forall|i: int| !self.first_adrift(i) by {
            if self.first_adrift(i) {
                assert(rooted(self.parents(), i));
            }
        }
    }
}

} // verus!
