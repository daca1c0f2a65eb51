//! What a change of the index does to the entry it is meant for, and to every
//! other.

use vstd::prelude::*;
use crate::dates::ticks_to_secs;
use crate::order::occurs;
use crate::wtf8::{lower_of, wtf8_of};
use super::columns::{walk_up, VolumeIndex};
use super::flags::{
    bit_set, lemma_with_bit, with_bit, EXCLUDED, HIDDEN, IS_DIR, REPARSE, SYSTEM, TOMBSTONE,
};
use super::lookup::{lemma_selected, lemma_selected_first, selected};
use super::mutate::{buried_flags, is_named_link};
use super::topology::{is_directory, IndexMutationError, TopologyFault};
use super::update::with_attrs;
use super::{record_of, EntryId, Frn, NO_PARENT};

verus! {

impl VolumeIndex {
    /// New facts of an object reach every entry that is live and bears its
    /// reference, size as size and time as time, and nothing else of it
    /// changes; no other entry changes at all.
    pub proof fn lemma_object_restated(&self, frn: u64, size: u64, mtime: i64, i: int)
        requires
            self.wf(),
            0 <= i < self.count(),
        ensures
            ({
                let now = self.restat(self.object_links(frn), size, mtime)[i];
                let then = self.row(i);
                if self.frn@[i] == frn && !bit_set(self.flag@[i], TOMBSTONE) {
                    &&& now.size == size
                    &&& now.mtime == ticks_to_secs(mtime)
                    &&& now.name == then.name
                    &&& now.lower == then.lower
                    &&& now.parent == then.parent
                    &&& now.frn == then.frn
                    &&& now.flag == then.flag
                } else {
                    now == then
                }
            }),
            self.restat(self.object_links(frn), size, mtime).len() == self.count(),
    {
        self.lemma_object_links(frn);
        assert(occurs(self.object_links(frn), i) <==> self.frn@[i] == frn && self.live(i));
    }

    /// The same of a record: every live entry whose reference names it.
    pub proof fn lemma_record_restated(&self, record: u64, size: u64, mtime: i64, i: int)
        requires
            self.wf(),
            0 <= i < self.count(),
        ensures
            ({
                let now = self.restat(self.record_links(record), size, mtime)[i];
                let then = self.row(i);
                if self.frn@[i] % 0x1_0000_0000_0000 == record && !bit_set(
                    self.flag@[i],
                    TOMBSTONE,
                ) {
                    &&& now.size == size
                    &&& now.mtime == ticks_to_secs(mtime)
                    &&& now.name == then.name
                    &&& now.lower == then.lower
                    &&& now.parent == then.parent
                    &&& now.frn == then.frn
                    &&& now.flag == then.flag
                } else {
                    now == then
                }
            }),
            self.restat(self.record_links(record), size, mtime).len() == self.count(),
    {
        self.lemma_record_links(record);
        assert(occurs(self.record_links(record), i) <==> record_of(self.frn@[i]) == record
            && self.live(i));
    }

    /// The statistics moved exactly where some entry came out changed.
    pub proof fn lemma_stat_moves(&self, ids: Seq<u32>, size: u64, mtime: i64)
        requires
            self.wf(),
            self.are_live(ids),
        ensures
            self.stat_differs(ids, size, mtime) <==> self.restat(ids, size, mtime) != self.rows(),
    {
        let now = self.restat(ids, size, mtime);
        let then = self.rows();
        if self.stat_differs(ids, size, mtime) {
            let k = choose|k: int|
                0 <= k < ids.len() && (self.row((#[trigger] ids[k]) as int).size != size
                    || self.row(ids[k] as int).mtime != ticks_to_secs(mtime));
            let i = ids[k] as int;
            assert(occurs(ids, i));
            assert(now[i].size == size && now[i].mtime == ticks_to_secs(mtime));
            assert(then[i] == self.row(i));
        } else {
            assert forall|i: int| 0 <= i < self.count() implies now[i] == then[i] by {
                if occurs(ids, i) {
                    let k = choose|k: int| 0 <= k < ids.len() && #[trigger] ids[k] == i;
                    assert(self.row(ids[k] as int).size == size);
                }
            }
            assert(now =~= then);
        }
    }

    /// A deletion takes the entries it names out of the living and leaves
    /// everything else that they say; no other entry changes.
    pub proof fn lemma_buried_tells(&self, ids: Seq<u32>, i: int)
        requires
            self.wf(),
            0 <= i < self.count(),
        ensures
            ({
                let now = self.buried(ids)[i];
                let then = self.row(i);
                &&& now.name == then.name
                &&& now.lower == then.lower
                &&& now.parent == then.parent
                &&& now.size == then.size
                &&& now.mtime == then.mtime
                &&& now.frn == then.frn
                &&& bit_set(now.flag, TOMBSTONE) == (occurs(ids, i) || bit_set(
                    then.flag,
                    TOMBSTONE,
                ))
                &&& bit_set(now.flag, IS_DIR) == bit_set(then.flag, IS_DIR)
                &&& bit_set(now.flag, REPARSE) == bit_set(then.flag, REPARSE)
                &&& bit_set(now.flag, HIDDEN) == bit_set(then.flag, HIDDEN)
                &&& bit_set(now.flag, SYSTEM) == bit_set(then.flag, SYSTEM)
                &&& bit_set(now.flag, EXCLUDED) == bit_set(then.flag, EXCLUDED)
                &&& !occurs(ids, i) ==> now == then
            }),
            self.buried(ids).len() == self.count(),
    {
        broadcast use lemma_with_bit;

        assert(buried_flags(self.flag@, ids)[i] == if occurs(ids, i) {
            with_bit(self.flag@[i], TOMBSTONE, true)
        } else {
            self.flag@[i]
        });
    }

    /// After an object is deleted no live entry bears its reference, and every
    /// other entry is as live as it was.
    pub proof fn lemma_object_deleted(&self, frn: u64, i: int)
        requires
            self.wf(),
            0 <= i < self.count(),
        ensures
            !bit_set(self.buried(self.object_links(frn))[i].flag, TOMBSTONE) <==> self.frn@[i]
                != frn && !bit_set(self.flag@[i], TOMBSTONE),
    {
        self.lemma_object_links(frn);
        self.lemma_buried_tells(self.object_links(frn), i);
        assert(occurs(self.object_links(frn), i) <==> self.frn@[i] == frn && self.live(i));
    }

    /// After a record is deleted no live entry names it, and every other entry
    /// is as live as it was.
    pub proof fn lemma_record_deleted(&self, record: u64, i: int)
        requires
            self.wf(),
            0 <= i < self.count(),
        ensures
            !bit_set(self.buried(self.record_links(record))[i].flag, TOMBSTONE) <==> self.frn@[i]
                % 0x1_0000_0000_0000 != record && !bit_set(self.flag@[i], TOMBSTONE),
    {
        self.lemma_record_links(record);
        self.lemma_buried_tells(self.record_links(record), i);
        assert(occurs(self.record_links(record), i) <==> record_of(self.frn@[i]) == record
            && self.live(i));
    }

    /// A link found is a live one of the object, below the directory and under
    /// the name asked for, exactly spelled; where none is found there is none.
    pub proof fn lemma_exact_link_found(&self, frn: u64, parent_frn: u64, name: Seq<u8>)
        requires
            self.wf(),
        ensures
            match self.exact_link(frn, parent_frn, name) {
                Some(id) => {
                    &&& id < self.count()
                    &&& self.frn@[id as int] == frn
                    &&& !bit_set(self.flag@[id as int], TOMBSTONE)
                    &&& self.original(id as int) == name
                    &&& self.parent@[id as int] != NO_PARENT
                    &&& self.frn@[self.parent@[id as int] as int] == parent_frn || (
                    self.parent@[id as int] == 0 && self.frn@[0] < 0x1_0000_0000_0000
                        && self.frn@[0] % 0x1_0000_0000_0000 == parent_frn % 0x1_0000_0000_0000)
                },
                None => forall|i: int|
                    0 <= i < self.count() && self.frn@[i] == frn && !bit_set(
                        self.flag@[i],
                        TOMBSTONE,
                    ) && #[trigger] self.original(i) == name && self.parent@[i] != NO_PARENT
                        ==> self.frn@[self.parent@[i] as int] != parent_frn,
            },
    {
        let links = self.object_links(frn);
        let pass = is_named_link(*self, parent_frn, name);
        self.lemma_object_links(frn);
        lemma_selected(links, pass);
        if self.exact_link(frn, parent_frn, name) is Some {
            let k = lemma_selected_first(links, pass);
        } else {
            assert forall|i: int|
                0 <= i < self.count() && self.frn@[i] == frn && !bit_set(self.flag@[i], TOMBSTONE)
                    && #[trigger] self.original(i) == name && self.parent@[i]
                    != NO_PARENT implies self.frn@[self.parent@[i] as int] != parent_frn by {
                assert(self.live(i));
                assert(occurs(links, i));
                if self.frn@[self.parent@[i] as int] == parent_frn {
                    assert(pass(i as u32));
                    assert(occurs(selected(links, pass), i));
                }
            }
        }
    }

    /// A moved entry hangs below its new directory (one moved below itself
    /// stays where it was); it is excluded where it is hidden or a system file
    /// or its directory is excluded, and nothing else of it changes.
    pub proof fn lemma_moved_row_tells(&self, i: int, parent: u32)
        requires
            self.wf(),
            0 <= i < self.count(),
        ensures
            ({
                let now = self.moved_row(i, parent);
                let then = self.row(i);
                &&& parent != i ==> now.parent == parent
                &&& parent == i ==> now.parent == then.parent
                &&& now.name == then.name
                &&& now.lower == then.lower
                &&& now.size == then.size
                &&& now.mtime == then.mtime
                &&& now.frn == then.frn
                &&& bit_set(now.flag, IS_DIR) == bit_set(then.flag, IS_DIR)
                &&& bit_set(now.flag, TOMBSTONE) == bit_set(then.flag, TOMBSTONE)
                &&& bit_set(now.flag, REPARSE) == bit_set(then.flag, REPARSE)
                &&& bit_set(now.flag, HIDDEN) == bit_set(then.flag, HIDDEN)
                &&& bit_set(now.flag, SYSTEM) == bit_set(then.flag, SYSTEM)
                &&& parent != i && parent < self.count() ==> bit_set(now.flag, EXCLUDED) == (
                bit_set(then.flag, HIDDEN) || bit_set(then.flag, SYSTEM) || bit_set(
                    self.flag@[parent as int],
                    EXCLUDED,
                ))
            }),
    {
        broadcast use lemma_with_bit;

    }

    /// A renamed directory bears the new name below its new directory, keeps
    /// what else it says, and no other entry changes.
    pub proof fn lemma_renamed_tells(
        &self,
        after: &VolumeIndex,
        r: Option<EntryId>,
        id: EntryId,
        name: Seq<u16>,
        parent: u32,
        i: int,
    )
        requires
            self.wf(),
            id < self.count(),
            occurs(self.perm_name@, id as int),
            self.renamed_to(after, r, id, name, parent),
            0 <= i < self.count(),
        ensures
            r == Some(id),
            after.count() == self.count(),
            i != id ==> after.row(i) == self.row(i),
            after.row(id as int).name == wtf8_of(name),
            after.row(id as int).lower == lower_of(name),
            parent != id ==> after.row(id as int).parent == parent,
            after.row(id as int).size == self.row(id as int).size,
            after.row(id as int).mtime == self.row(id as int).mtime,
            after.row(id as int).frn == self.row(id as int).frn,
            bit_set(after.row(id as int).flag, IS_DIR) == bit_set(
                self.row(id as int).flag,
                IS_DIR,
            ),
            bit_set(after.row(id as int).flag, TOMBSTONE) == bit_set(
                self.row(id as int).flag,
                TOMBSTONE,
            ),
    {
        self.lemma_moved_row_tells(id as int, parent);
        assert(after.rows().len() == self.rows().len());
        assert(after.row(i) == after.rows()[i]);
        assert(after.row(id as int) == after.rows()[id as int]);
        assert(self.rows()[i] == self.row(i));
    }

    /// A parent that is accepted is there: a live directory that bears the
    /// reference asked for, or the root where the index holds bare record
    /// numbers; it is another record than the object.
    pub proof fn lemma_parent_accepted(&self, object: Frn, parent: Frn)
        requires
            self.wf(),
            self.count() > 0,
        ensures
            self.resolved_parent(object, parent) matches Ok(p) ==> {
                &&& p < self.count()
                &&& (self.frn@[p as int] == parent.0 && !bit_set(self.flag@[p as int], TOMBSTONE)
                    && bit_set(self.flag@[p as int], IS_DIR)) || (p == 0 && self.frn@[0]
                    < 0x1_0000_0000_0000 && self.frn@[0] == parent.0 % 0x1_0000_0000_0000)
                &&& object.0 >= 0x1_0000_0000_0000
                &&& object.0 % 0x1_0000_0000_0000 != self.frn@[p as int] % 0x1_0000_0000_0000
            },
    {
        let links = self.object_links(parent.0);
        self.lemma_object_links(parent.0);
        lemma_selected(links, is_directory(self.flag@));
        let dirs = self.directory_links(parent.0);
        if dirs.len() > 0 {
            assert(occurs(dirs, dirs[0] as int));
            assert(occurs(links, dirs[0] as int));
        }
    }

    /// A directory is never put below itself: from the accepted parent the
    /// way up reaches the root without meeting the directory.
    pub proof fn lemma_parent_is_no_descendant(&self, object: Frn, parent: Frn, d: int)
        requires
            self.wf(),
            self.count() > 0,
            0 <= d < self.count(),
            self.frn@[d] == object.0,
            !bit_set(self.flag@[d], TOMBSTONE),
            bit_set(self.flag@[d], IS_DIR),
            self.resolved_parent(object, parent) is Ok,
        ensures
            exists|k: nat|
                {
                    &&& #[trigger] walk_up(self.parent@, self.resolved_parent(object, parent)->Ok_0, k)
                        == 0
                    &&& forall|j: nat|
                        j <= k ==> #[trigger] walk_up(
                            self.parent@,
                            self.resolved_parent(object, parent)->Ok_0,
                            j,
                        ) != d
                },
    {
        let p = self.resolved_parent(object, parent)->Ok_0;
        let links = self.object_links(object.0);
        let dirs = self.directory_links(object.0);
        self.lemma_object_links(object.0);
        lemma_selected(links, is_directory(self.flag@));
        assert(self.live(d));
        assert(occurs(links, d));
        assert(occurs(dirs, d));
        assert(dirs.len() == 1 && dirs[0] == d);
        assert(exists|k: nat| k <= self.count() && #[trigger] self.decided_at(p, dirs[0], k));
        let k = self.decision(p, dirs[0]);
        assert(self.decided_at(p, dirs[0], k));
        assert(walk_up(self.parent@, p, k) == 0);
        assert forall|j: nat| j <= k implies #[trigger] walk_up(self.parent@, p, j) != d by {
            if j < k {
                assert(self.passes(p, dirs[0], j));
            }
        }
    }

    /// A parent is reported missing only where no live entry bears its
    /// reference, and reported to be no directory only where one does and none
    /// of those is one.
    pub proof fn lemma_parent_refused(&self, object: Frn, parent: Frn, i: int)
        requires
            self.wf(),
            self.count() > 0,
            0 <= i < self.count(),
            self.frn@[i] == parent.0,
            !bit_set(self.flag@[i], TOMBSTONE),
        ensures
            self.resolved_parent(object, parent) != Err::<u32, IndexMutationError>(
                IndexMutationError::UnresolvedParent { object, parent },
            ),
            bit_set(self.flag@[i], IS_DIR) ==> self.resolved_parent(object, parent) != Err::<
                u32,
                IndexMutationError,
            >(IndexMutationError::ParentNotDirectory { object, parent }),
    {
        let links = self.object_links(parent.0);
        let dirs = self.directory_links(parent.0);
        self.lemma_object_links(parent.0);
        lemma_selected(links, is_directory(self.flag@));
        assert(self.live(i));
        assert(occurs(links, i));
        assert(links.len() > 0);
        if bit_set(self.flag@[i], IS_DIR) {
            assert(occurs(dirs, i));
            assert(dirs.len() > 0);
        }
    }

    /// New attributes of an object reach each of its entries: the entry is
    /// hidden, a system file and a reparse point as told, excluded at least
    /// where it is hidden or a system file, and as live and as much a directory
    /// as before.
    pub proof fn lemma_attrs_told(
        &self,
        ids: Seq<u32>,
        reparse: Option<bool>,
        hidden: bool,
        system: bool,
        i: int,
    )
        requires
            self.wf(),
            self.are_live(ids),
            0 <= i < self.count(),
        ensures
            ({
                let now = with_attrs(self.parent@, self.flag@, ids, reparse, hidden, system)[i];
                let then = self.flag@[i];
                &&& occurs(ids, i) ==> {
                    &&& bit_set(now, HIDDEN) == hidden
                    &&& bit_set(now, SYSTEM) == system
                    &&& reparse matches Some(on) ==> bit_set(now, REPARSE) == on
                    &&& reparse is None ==> bit_set(now, REPARSE) == bit_set(then, REPARSE)
                    &&& bit_set(now, IS_DIR) == bit_set(then, IS_DIR)
                    &&& bit_set(now, TOMBSTONE) == bit_set(then, TOMBSTONE)
                    &&& hidden || system ==> bit_set(now, EXCLUDED)
                    &&& !hidden && !system && self.parent@[i] == NO_PARENT ==> !bit_set(
                        now,
                        EXCLUDED,
                    )
                }
                &&& !occurs(ids, i) ==> now == then
            }),
        decreases ids.len(),
    {
        broadcast use lemma_with_bit;

        if ids.len() > 0 {
            let front = ids.drop_last();
            let f = with_attrs(self.parent@, self.flag@, front, reparse, hidden, system);
            assert forall|k: int| 0 <= k < front.len() implies (#[trigger] front[k]) < self.count()
                && self.live(front[k] as int) by {
                assert(front[k] == ids[k]);
            }
            assert forall|a: int, b: int| 0 <= a < b < front.len() implies #[trigger] front[a]
                != #[trigger] front[b] by {
                assert(front[a] == ids[a] && front[b] == ids[b]);
            }
            self.lemma_attrs_told(front, reparse, hidden, system, i);
            self.lemma_attrs_len(front, reparse, hidden, system);
            assert(ids.last() == ids[ids.len() - 1]);
            if i == ids.last() {
                assert(!occurs(front, i)) by {
                    if occurs(front, i) {
                        let k = choose|k: int| 0 <= k < front.len() && #[trigger] front[k] == i;
                        assert(ids[k] == ids[ids.len() - 1]);
                    }
                }
                assert(occurs(ids, i));
            } else {
                if occurs(ids, i) {
                    let k = choose|k: int| 0 <= k < ids.len() && #[trigger] ids[k] == i;
                    assert(front[k] == i);
                }
                if occurs(front, i) {
                    let k = choose|k: int| 0 <= k < front.len() && #[trigger] front[k] == i;
                    assert(ids[k] == i);
                }
            }
        }
    }

    proof fn lemma_attrs_len(
        &self,
        ids: Seq<u32>,
        reparse: Option<bool>,
        hidden: bool,
        system: bool,
    )
        requires
            forall|k: int| 0 <= k < ids.len() ==> (#[trigger] ids[k]) < self.flag@.len(),
        ensures
            with_attrs(self.parent@, self.flag@, ids, reparse, hidden, system).len()
                == self.flag@.len(),
        decreases ids.len(),
    {
        if ids.len() > 0 {
            assert(ids.last() == ids[ids.len() - 1]);
            self.lemma_attrs_len(ids.drop_last(), reparse, hidden, system);
        }
    }

    /// An object counts as changed exactly where one of its live entries bears
    /// another attribute than told.
    pub proof fn lemma_attrs_change(&self, frn: u64, reparse: bool, hidden: bool, system: bool)
        requires
            self.wf(),
        ensures
            self.attrs_differ(self.object_links(frn), reparse, hidden, system) <==> exists|i: int|
                {
                    &&& 0 <= i < self.count()
                    &&& self.frn@[i] == frn
                    &&& !bit_set(#[trigger] self.flag@[i], TOMBSTONE)
                    &&& bit_set(self.flag@[i], REPARSE) != reparse || bit_set(self.flag@[i], HIDDEN)
                        != hidden || bit_set(self.flag@[i], SYSTEM) != system
                },
    {
        let links = self.object_links(frn);
        self.lemma_object_links(frn);
        if self.attrs_differ(links, reparse, hidden, system) {
            let k = choose|k: int|
                0 <= k < links.len() && !super::update::attrs_are(
                    self.flag@[(#[trigger] links[k]) as int],
                    reparse,
                    hidden,
                    system,
                );
            assert(!bit_set(self.flag@[links[k] as int], TOMBSTONE));
        }
        if exists|i: int|
            {
                &&& 0 <= i < self.count()
                &&& self.frn@[i] == frn
                &&& !bit_set(#[trigger] self.flag@[i], TOMBSTONE)
                &&& bit_set(self.flag@[i], REPARSE) != reparse || bit_set(self.flag@[i], HIDDEN)
                    != hidden || bit_set(self.flag@[i], SYSTEM) != system
            } {
            let i = choose|i: int|
                {
                    &&& 0 <= i < self.count()
                    &&& self.frn@[i] == frn
                    &&& !bit_set(#[trigger] self.flag@[i], TOMBSTONE)
                    &&& bit_set(self.flag@[i], REPARSE) != reparse || bit_set(self.flag@[i], HIDDEN)
                        != hidden || bit_set(self.flag@[i], SYSTEM) != system
                };
            assert(self.live(i));
            assert(occurs(links, i));
            let k = choose|k: int| 0 <= k < links.len() && #[trigger] links[k] == i;
            assert(self.flag@[links[k] as int] == self.flag@[i]);
        }
    }
}

impl VolumeIndex {
    /// A name that is spelled as it is folded takes no bytes of its own; any
    /// other takes as many as it has.
    pub proof fn lemma_owned_bytes_are(&self, i: int)
        requires
            self.wf(),
            0 <= i < self.count(),
        ensures
            self.original(i) != self.lower(i) ==> self.owned_bytes(i) == self.original(i).len(),
            self.owned_bytes(i) == 0 || self.owned_bytes(i) == self.lower(i).len(),
    {
        self.lemma_lower(i);
        if self.orig_off@[i] != super::columns::NONE {
            assert(self.original(i).len() == self.lower(i).len());
        }
    }

    /// Every entry that is buried adds the bytes of its own name to those that
    /// are dead, as far as they can be counted.
    pub proof fn lemma_dead_bytes_add(&self, ids: Seq<u32>, id: u32)
        ensures
            self.dead_bytes(Seq::empty()) == self.dead_name_bytes,
            self.dead_bytes(ids) + self.owned_bytes(id as int) <= u64::MAX ==> self.dead_bytes(
                ids.push(id),
            ) == self.dead_bytes(ids) + self.owned_bytes(id as int),
            self.dead_bytes(ids) + self.owned_bytes(id as int) > u64::MAX ==> self.dead_bytes(
                ids.push(id),
            ) == u64::MAX,
    {
        assert(ids.push(id).drop_last() =~= ids);
        assert(self.owned_bytes(id as int) >= 0);
    }

    /// What a record number stands for as a parent is a live entry of that
    /// record, and the root where there is none.
    pub proof fn lemma_link_or_root_is(&self, record: u64, x: int)
        requires
            self.wf(),
            0 <= x < self.count(),
        ensures
            self.frn@[x] % 0x1_0000_0000_0000 == record && !bit_set(self.flag@[x], TOMBSTONE) ==> {
                let p = self.link_or_root(record) as int;
                &&& p < self.count()
                &&& self.frn@[p] % 0x1_0000_0000_0000 == record
                &&& !bit_set(self.flag@[p], TOMBSTONE)
            },
            self.record_links(record).len() == 0 ==> self.link_or_root(record) == 0,
    {
        self.lemma_record_links(record);
        assert(occurs(self.record_links(record), x) <==> record_of(self.frn@[x]) == record
            && self.live(x));
    }

    /// The exclusion has to be spread anew exactly where a directory among the
    /// entries was hidden, or a system file, otherwise than told.
    pub proof fn lemma_spread_is(&self, ids: Seq<u32>, hidden: bool, system: bool, k: int)
        requires
            0 <= k < ids.len(),
            bit_set(self.flag@[ids[k] as int], IS_DIR),
            bit_set(self.flag@[ids[k] as int], HIDDEN) != hidden || bit_set(
                self.flag@[ids[k] as int],
                SYSTEM,
            ) != system,
        ensures
            self.attrs_spread(ids, hidden, system),
    {
        let id = ids[k];
    }

    /// The exclusion is left as it is where no entry told is a directory.
    pub proof fn lemma_files_spread_nothing(&self, ids: Seq<u32>, hidden: bool, system: bool)
        requires
            forall|k: int|
                0 <= k < ids.len() ==> !bit_set(self.flag@[(#[trigger] ids[k]) as int], IS_DIR),
        ensures
            !self.attrs_spread(ids, hidden, system),
    {
    }

    /// An entry's exclusion follows from its own attributes and its
    /// directory's exclusion, and nothing else of its flags changes.
    pub proof fn lemma_derived_flag_is(&self, i: int)
        requires
            self.wf(),
            0 <= i < self.count(),
        ensures
            ({
                let now = self.derived_flag(i);
                let then = self.flag@[i];
                let p = self.parent@[i];
                &&& bit_set(now, EXCLUDED) == (bit_set(then, HIDDEN) || bit_set(then, SYSTEM) || (p
                    != 0xFFFF_FFFF && p != i && bit_set(self.flag@[p as int], EXCLUDED)))
                &&& bit_set(now, HIDDEN) == bit_set(then, HIDDEN)
                &&& bit_set(now, SYSTEM) == bit_set(then, SYSTEM)
                &&& bit_set(now, IS_DIR) == bit_set(then, IS_DIR)
                &&& bit_set(now, REPARSE) == bit_set(then, REPARSE)
                &&& bit_set(now, TOMBSTONE) == bit_set(then, TOMBSTONE)
            }),
    {
        broadcast use lemma_with_bit;

    }

    /// Where two live directories bear the parent's reference, no entry is
    /// put below either.
    pub proof fn lemma_ambiguous_parent_refused(&self, object: Frn, parent: Frn, a: int, b: int)
        requires
            self.wf(),
            self.count() > 0,
            0 <= a < b < self.count(),
            self.frn@[a] == parent.0 && self.frn@[b] == parent.0,
            !bit_set(self.flag@[a], TOMBSTONE) && bit_set(self.flag@[a], IS_DIR),
            !bit_set(self.flag@[b], TOMBSTONE) && bit_set(self.flag@[b], IS_DIR),
        ensures
            self.resolved_parent(object, parent) is Err,
    {
        let links = self.object_links(parent.0);
        let dirs = self.directory_links(parent.0);
        self.lemma_object_links(parent.0);
        lemma_selected(links, is_directory(self.flag@));
        assert(self.live(a) && self.live(b));
        assert(occurs(links, a) && occurs(links, b));
        assert(occurs(dirs, a) && occurs(dirs, b));
        assert(dirs.len() > 1) by {
            let i = choose|i: int| 0 <= i < dirs.len() && #[trigger] dirs[i] == a;
            let j = choose|j: int| 0 <= j < dirs.len() && #[trigger] dirs[j] == b;
            assert(i != j);
        }
    }
}

impl VolumeIndex {
    /// A rename is one step of the directories, and the exclusion is spread
    /// anew where the directory came below another; it leaves every other
    /// generation, and the order of names stays sorted.
    pub proof fn lemma_rename_counted(
        &self,
        after: &VolumeIndex,
        r: Option<EntryId>,
        id: EntryId,
        name: Seq<u16>,
        parent: u32,
    )
        requires
            self.wf(),
            id < self.count(),
            occurs(self.perm_name@, id as int),
            self.renamed_to(after, r, id, name, parent),
        ensures
            after.dir_topology_generation == self.dir_topology_generation + 1,
            after.content_generation == self.content_generation,
            after.structural_generation == self.structural_generation,
            after.stat_generation == self.stat_generation,
            self.exclusion_tree_dirty ==> after.exclusion_tree_dirty,
            parent != id && self.parent@[id as int] != parent ==> after.exclusion_tree_dirty,
            self.parent@[id as int] == parent ==> after.exclusion_tree_dirty
                == self.exclusion_tree_dirty,
            self.name_sorted() ==> after.name_sorted(),
    {
    }

    /// A directory that is listed twice is refused as split, whichever way it
    /// is asked for.
    pub proof fn lemma_split_directory_refused(&self, object: Frn, a: int, b: int)
        requires
            self.wf(),
            0 <= a < b < self.count(),
            self.frn@[a] == object.0 && self.frn@[b] == object.0,
            !bit_set(self.flag@[a], TOMBSTONE) && bit_set(self.flag@[a], IS_DIR),
            !bit_set(self.flag@[b], TOMBSTONE) && bit_set(self.flag@[b], IS_DIR),
        ensures
            self.existing_links(object, true) is Err,
            self.existing_links(object, false) is Err,
            forall|p: u32| (#[trigger] self.cycle_check(object, p)) is Err,
    {
        let links = self.object_links(object.0);
        let dirs = self.directory_links(object.0);
        self.lemma_object_links(object.0);
        lemma_selected(links, is_directory(self.flag@));
        assert(self.live(a) && self.live(b));
        assert(occurs(links, a) && occurs(links, b));
        assert(occurs(dirs, a) && occurs(dirs, b));
        let i = choose|i: int| 0 <= i < links.len() && #[trigger] links[i] == a;
        let j = choose|j: int| 0 <= j < links.len() && #[trigger] links[j] == b;
        assert(i != j);
        assert(bit_set(self.flag@[links[i] as int], IS_DIR));
        let k = choose|k: int| 0 <= k < dirs.len() && #[trigger] dirs[k] == a;
        let l = choose|l: int| 0 <= l < dirs.len() && #[trigger] dirs[l] == b;
        assert(k != l);
    }

    /// What stops the way up from a parent decides: the directory itself means
    /// a cycle, the root that all is well, what is gone that the way leaves the
    /// index, and what is no directory that it leads through a file.
    pub proof fn lemma_way_up_decides(&self, from: u32, moved: u32, k: nat, object: Frn)
        requires
            self.decided_at(from, moved, k),
        ensures
            ({
                let w = walk_up(self.parent@, from, k);
                let d = self.decides(from, moved, k, object);
                &&& d is Ok <==> w == 0 && w != moved
                &&& w == moved <==> d == Err::<(), IndexMutationError>(
                    IndexMutationError::ParentCycle { object, parent: Frn(self.frn@[from as int]) },
                )
                &&& w != moved && w != 0 && w < self.count() && !bit_set(
                    self.flag@[w as int],
                    TOMBSTONE,
                ) ==> !bit_set(self.flag@[w as int], IS_DIR) && d == Err::<(), IndexMutationError>(
                    IndexMutationError::InvalidTopology { reason: TopologyFault::ChainThroughFile },
                )
                &&& w != moved && w != 0 && (w >= self.count() || bit_set(
                    self.flag@[w as int],
                    TOMBSTONE,
                )) ==> d == Err::<(), IndexMutationError>(
                    IndexMutationError::InvalidTopology { reason: TopologyFault::ChainEscapes },
                )
            }),
    {
    }

    /// A parent that is below the directory itself is refused as a cycle.
    pub proof fn lemma_cycle_refused(&self, object: Frn, parent: u32, d: int, k: nat)
        requires
            self.wf(),
            parent < self.count(),
            0 <= d < self.count(),
            self.frn@[d] == object.0,
            !bit_set(self.flag@[d], TOMBSTONE),
            bit_set(self.flag@[d], IS_DIR),
            walk_up(self.parent@, parent, k) == d,
            forall|j: nat| j < k ==> #[trigger] self.passes(parent, d as u32, j),
        ensures
            self.cycle_check(object, parent) is Err,
    {
        let links = self.object_links(object.0);
        let dirs = self.directory_links(object.0);
        self.lemma_object_links(object.0);
        lemma_selected(links, is_directory(self.flag@));
        assert(self.live(d));
        assert(occurs(links, d));
        assert(occurs(dirs, d));
        if dirs.len() == 1 && record_of(object.0) != record_of(self.frn@[parent as int]) {
            assert(dirs[0] == d);
            if exists|m: nat| m <= self.count() && #[trigger] self.decided_at(parent, dirs[0], m) {
                let m = self.decision(parent, dirs[0]);
                assert(self.decided_at(parent, dirs[0], m));
                assert(!self.passes(parent, dirs[0], m));
                if m < k {
                    assert(self.passes(parent, d as u32, m));
                }
                if k < m {
                    assert(self.passes(parent, dirs[0], k));
                }
                assert(m == k);
            }
        }
    }
}

} // verus!
