//! Changes of single objects between two batches: tombstoning, inserting and
//! replacing entries.

use vstd::prelude::*;
use crate::dates::ticks_to_secs;
use crate::order::occurs;
use crate::wtf8::{lower_of, push_wtf8_pair, wtf8_of};
use super::columns::{Row, VolumeIndex};
use super::flags::{
    bit_set, lemma_with_bit, with_bit, EXCLUDED, HIDDEN, IS_DIR, REPARSE, SYSTEM, TOMBSTONE,
};
use super::frn::{is_link, lemma_links_down, lemma_links_up, links_down, links_up};
use super::lookup::{lemma_selected, lemma_selected_distinct, selected};
use super::rows::facts_of;
use super::topology::{IndexMutationError, TopologyFault};
use super::{record_of, EntryId, Frn, RawEntry, NO_PARENT};

verus! {

/// The flags with the tombstone bit set for the given entries.
pub open spec fn buried_flags(flag: Seq<u8>, ids: Seq<u32>) -> Seq<u8> {
    Seq::new(
        flag.len(),
        |i: int|
            if occurs(ids, i) {
                with_bit(flag[i], TOMBSTONE, true)
            } else {
                flag[i]
            },
    )
}

/// Where the links of a record are the same, so are the lists of them.
proof fn lemma_links_agree(
    frn: Seq<u64>,
    flag: Seq<u8>,
    flag2: Seq<u8>,
    key: u64,
    lo: int,
    hi: int,
)
    requires
        forall|i: int|
            lo <= i < hi ==> #[trigger] is_link(frn, flag, key, i) == is_link(frn, flag2, key, i),
    ensures
        links_up(frn, flag, key, lo, hi) == links_up(frn, flag2, key, lo, hi),
        links_down(frn, flag, key, lo, hi) == links_down(frn, flag2, key, lo, hi),
    decreases hi - lo,
{
    if hi > lo {
        assert(is_link(frn, flag, key, hi - 1) == is_link(frn, flag2, key, hi - 1));
        lemma_links_agree(frn, flag, flag2, key, lo, hi - 1);
    }
}

impl VolumeIndex {
    /// The entries with other flags.
    pub open spec fn rows_flagged(&self, flag: Seq<u8>) -> Seq<Row> {
        Seq::new(self.name_id@.len(), |i: int| Row { flag: flag[i], ..self.row(i) })
    }

    /// The entries with those of `ids` tombstoned.
    pub open spec fn buried(&self, ids: Seq<u32>) -> Seq<Row> {
        self.rows_flagged(buried_flags(self.flag@, ids))
    }

    /// The bytes no longer used once those of `ids` are tombstoned.
    pub open spec fn dead_bytes(&self, ids: Seq<u32>) -> u64
        decreases ids.len(),
    {
        if ids.len() == 0 {
            self.dead_name_bytes
        } else {
            Self::counted(
                self.dead_bytes(ids.drop_last()),
                self.owned_bytes(ids.last() as int),
            )
        }
    }

    /// Distinct live entries.
    pub open spec fn are_live(&self, ids: Seq<u32>) -> bool {
        &&& forall|k: int|
            0 <= k < ids.len() ==> (#[trigger] ids[k]) < self.count() && self.live(ids[k] as int)
        &&& forall|i: int, j: int| 0 <= i < j < ids.len() ==> #[trigger] ids[i] != #[trigger] ids[j]
    }

    /// Tombstone live entries.
    pub(crate) fn tombstone_all(&mut self, ids: &Vec<EntryId>)
        requires
            old(self).wf(),
            old(self).are_live(ids@),
        ensures
            final(self).wf(),
            final(self).flag@ == buried_flags(old(self).flag@, ids@),
            final(self).rows() == old(self).buried(ids@),
            *final(self) == (VolumeIndex {
                flag: final(self).flag,
                tombstones: final(self).tombstones,
                dead_name_bytes: old(self).dead_bytes(ids@),
                ..*old(self)
            }),
    {
        let ghost before = *self;
        let mut i: usize = 0;
        proof {
            assert(buried_flags(self.flag@, ids@.take(0)) =~= self.flag@);
            assert(ids@.take(0) =~= Seq::empty());
        }
        while i < ids.len()
            invariant
                i <= ids@.len(),
                self.wf(),
                before.wf(),
                before.are_live(ids@),
                self.flag@ == buried_flags(before.flag@, ids@.take(i as int)),
                *self == (VolumeIndex {
                    flag: self.flag,
                    tombstones: self.tombstones,
                    dead_name_bytes: before.dead_bytes(ids@.take(i as int)),
                    ..before
                }),
            decreases ids@.len() - i,
        {
            let id: EntryId = ids[i];
            proof {
                if occurs(ids@.take(i as int), id as int) {
                    let k = choose|k: int|
                        0 <= k < i && #[trigger] ids@.take(i as int)[k] == id as int;
                    assert(ids@[k] != ids@[i as int]);
                }
                assert(before.live(ids@[i as int] as int));
                assert(self.flag@[id as int] == before.flag@[id as int]);
            }
            self.tombstone_id(id);
            proof {
                let t = ids@.take(i as int);
                let u = ids@.take(i + 1);
                assert(u.drop_last() =~= t);
                assert(u.last() == id);
                assert forall|x: int| occurs(u, x) == (occurs(t, x) || x == id) by {
                    if occurs(u, x) {
                        let k = choose|k: int| 0 <= k < u.len() && #[trigger] u[k] == x;
                        if k < i {
                            assert(t[k] == x);
                        }
                    }
                    if occurs(t, x) {
                        let k = choose|k: int| 0 <= k < t.len() && #[trigger] t[k] == x;
                        assert(u[k] == x);
                    }
                    assert(u[i as int] == id as int);
                }
                assert(self.flag@ =~= buried_flags(before.flag@, u));
            }
            i = i + 1;
        }
        proof {
            assert(ids@.take(i as int) =~= ids@);
            assert(self.rows() =~= before.buried(ids@));
        }
    }

    /// Tombstoning entries leaves the links of other records, and none of a
    /// record all of whose links are tombstoned.
    proof fn lemma_buried_links(&self, gone: u64, key: u64)
        requires
            self.wf(),
        ensures
            self.frn_index.links(
                self.frn@,
                buried_flags(self.flag@, self.record_links(gone)),
                key,
            ) == (if key == gone {
                Seq::<u32>::empty()
            } else {
                self.record_links(key)
            }),
    {
        let fs = self.frn@;
        let f1 = self.flag@;
        let ids = self.record_links(gone);
        let f2 = buried_flags(f1, ids);
        let c = self.frn_index.covers as int;
        let n = fs.len() as int;
        self.lemma_record_links(gone);
        assert forall|i: int| 0 <= i < n implies #[trigger] is_link(fs, f2, key, i) == (is_link(
            fs,
            f1,
            key,
            i,
        ) && key != gone) by {
            lemma_with_bit(f1[i], TOMBSTONE, true, TOMBSTONE);
            assert(occurs(ids, i) <==> is_link(fs, f1, gone, i));
        }
        if key == gone {
            lemma_links_down(fs, f2, key, c, n);
            lemma_links_up(fs, f2, key, 0, c);
            let d = links_down(fs, f2, key, c, n);
            let u = links_up(fs, f2, key, 0, c);
            if d.len() > 0 {
                assert(d[0] == d[0] as int);
                assert(occurs(d, d[0] as int));
            }
            if u.len() > 0 {
                assert(u[0] == u[0] as int);
                assert(occurs(u, u[0] as int));
            }
            assert(d + u =~= Seq::<u32>::empty());
        } else {
            lemma_links_agree(fs, f1, f2, key, c, n);
            lemma_links_agree(fs, f1, f2, key, 0, c);
        }
    }

    /// Tombstone every link of a record; says which came first.
    fn tombstone_record(&mut self, record: u64) -> (r: Option<EntryId>)
        requires
            old(self).wf(),
        ensures
            final(self).wf(),
            r == (if old(self).record_links(record).len() > 0 {
                Some(old(self).record_links(record)[0])
            } else {
                None
            }),
            final(self).rows() == old(self).buried(old(self).record_links(record)),
            final(self).flag@ == buried_flags(old(self).flag@, old(self).record_links(record)),
            *final(self) == (VolumeIndex {
                flag: final(self).flag,
                tombstones: final(self).tombstones,
                dead_name_bytes: old(self).dead_bytes(old(self).record_links(record)),
                ..*old(self)
            }),
            forall|key: u64| #[trigger]
                final(self).record_links(key) == (if key == record {
                    Seq::<u32>::empty()
                } else {
                    old(self).record_links(key)
                }),
    {
        let ids: Vec<EntryId> = self.entries_by_record(record);
        proof {
            self.lemma_record_links(record);
        }
        self.tombstone_all(&ids);
        proof {
            assert forall|key: u64| #[trigger] self.record_links(key) == (if key == record {
                Seq::<u32>::empty()
            } else {
                old(self).record_links(key)
            }) by {
                old(self).lemma_buried_links(record, key);
            }
        }
        if ids.len() > 0 {
            Some(ids[0])
        } else {
            None
        }
    }

    /// Tombstone every link of a record number; says which came first.
    /// Afterwards the record has no links.
    pub fn delete(&mut self, record: u64) -> (r: Option<EntryId>)
        requires
            old(self).wf(),
        ensures
            final(self).wf(),
            r == (if old(self).record_links(record).len() > 0 {
                Some(old(self).record_links(record)[0])
            } else {
                None
            }),
            final(self).rows() == old(self).buried(old(self).record_links(record)),
            *final(self) == (VolumeIndex {
                flag: final(self).flag,
                tombstones: final(self).tombstones,
                dead_name_bytes: old(self).dead_bytes(old(self).record_links(record)),
                ..*old(self)
            }),
            forall|key: u64| #[trigger]
                final(self).record_links(key) == (if key == record {
                    Seq::<u32>::empty()
                } else {
                    old(self).record_links(key)
                }),
            forall|i: int|
                0 <= i < old(self).count() ==> {
                    let now = #[trigger] final(self).row(i);
                    let then = old(self).row(i);
                    &&& bit_set(now.flag, TOMBSTONE) == (old(self).frn@[i] % 0x1_0000_0000_0000 == record || bit_set(then.flag, TOMBSTONE))
                    &&& now.name == then.name && now.lower == then.lower
                    &&& now.parent == then.parent && now.frn == then.frn
                    &&& now.size == then.size && now.mtime == then.mtime
                    &&& bit_set(now.flag, IS_DIR) == bit_set(then.flag, IS_DIR)
                },
    {
        let r: Option<EntryId> = self.tombstone_record(record);
        proof {
            assert(self.rows().len() == old(self).rows().len());
            assert forall|i: int| 0 <= i < old(self).count() implies {
                let now = #[trigger] self.row(i);
                let then = old(self).row(i);
                &&& bit_set(now.flag, TOMBSTONE) == (old(self).frn@[i] % 0x1_0000_0000_0000 == record || bit_set(then.flag, TOMBSTONE))
                &&& now.name == then.name && now.lower == then.lower
                &&& now.parent == then.parent && now.frn == then.frn
                &&& now.size == then.size && now.mtime == then.mtime
                &&& bit_set(now.flag, IS_DIR) == bit_set(then.flag, IS_DIR)
            } by {
                assert(self.rows()[i] == self.row(i));
                old(self).lemma_record_deleted(record, i);
                old(self).lemma_buried_tells(old(self).record_links(record), i);
            }
        }
        r
    }

    /// Tombstone every link of the object with this full reference; says
    /// which came first. Removing one link is
    /// [`VolumeIndex::delete_link_frn`].
    pub fn delete_frn(&mut self, frn: Frn) -> (r: Option<EntryId>)
        requires
            old(self).wf(),
        ensures
            final(self).wf(),
            r == (if old(self).object_links(frn.0).len() > 0 {
                Some(old(self).object_links(frn.0)[0])
            } else {
                None
            }),
            final(self).rows() == old(self).buried(old(self).object_links(frn.0)),
            *final(self) == (VolumeIndex {
                flag: final(self).flag,
                tombstones: final(self).tombstones,
                dead_name_bytes: old(self).dead_bytes(old(self).object_links(frn.0)),
                ..*old(self)
            }),
            final(self).object_links(frn.0).len() == 0,
            forall|i: int|
                0 <= i < old(self).count() ==> {
                    let now = #[trigger] final(self).row(i);
                    let then = old(self).row(i);
                    &&& bit_set(now.flag, TOMBSTONE) == (old(self).frn@[i] == frn.0 || bit_set(then.flag, TOMBSTONE))
                    &&& now.name == then.name && now.lower == then.lower
                    &&& now.parent == then.parent && now.frn == then.frn
                    &&& now.size == then.size && now.mtime == then.mtime
                    &&& bit_set(now.flag, IS_DIR) == bit_set(then.flag, IS_DIR)
                },
    {
        let ids: Vec<EntryId> = self.entries_by_frn(frn);
        proof {
            self.lemma_object_links(frn.0);
        }
        self.tombstone_all(&ids);
        proof {
            assert(self.rows().len() == old(self).rows().len());
            assert forall|i: int| 0 <= i < old(self).count() implies {
                let now = #[trigger] self.row(i);
                let then = old(self).row(i);
                &&& bit_set(now.flag, TOMBSTONE) == (old(self).frn@[i] == frn.0 || bit_set(then.flag, TOMBSTONE))
                &&& now.name == then.name && now.lower == then.lower
                &&& now.parent == then.parent && now.frn == then.frn
                &&& now.size == then.size && now.mtime == then.mtime
                &&& bit_set(now.flag, IS_DIR) == bit_set(then.flag, IS_DIR)
            } by {
                assert(self.rows()[i] == self.row(i));
                old(self).lemma_object_deleted(frn.0, i);
                old(self).lemma_buried_tells(old(self).object_links(frn.0), i);
            }
        }
        proof {
            self.lemma_object_links(frn.0);
            let s = self.object_links(frn.0);
            if s.len() > 0 {
                let x = s[0] as int;
                assert(s[0] == x);
                assert(occurs(s, x));
                lemma_with_bit(old(self).flag@[x], TOMBSTONE, true, TOMBSTONE);
                assert(occurs(old(self).object_links(frn.0), x));
            }
        }
        if ids.len() > 0 {
            Some(ids[0])
        } else {
            None
        }
    }

    /// The entry that is the given link of an object.
    pub open spec fn exact_link(&self, frn: u64, parent_frn: u64, name: Seq<u8>) -> Option<u32> {
        let found = selected(self.object_links(frn), is_named_link(*self, parent_frn, name));
        if found.len() > 0 {
            Some(found[0])
        } else {
            None
        }
    }

    /// Tombstone one exact link. A link of another object, of an earlier
    /// generation of it, or one that is gone already, changes nothing.
    pub fn delete_link_frn(&mut self, frn: Frn, parent_frn: Frn, name_utf16: &[u16]) -> (r: Option<
        EntryId,
    >)
        requires
            old(self).wf(),
        ensures
            final(self).wf(),
            r == old(self).exact_link(frn.0, parent_frn.0, wtf8_of(name_utf16@)),
            match r {
                Some(id) => {
                    &&& final(self).rows() == old(self).buried(seq![id])
                    &&& *final(self) == (VolumeIndex {
                        flag: final(self).flag,
                        tombstones: final(self).tombstones,
                        dead_name_bytes: old(self).dead_bytes(seq![id]),
                        ..*old(self)
                    })
                },
                None => *final(self) == *old(self),
            },
    {
        let ghost pass = is_named_link(*self, parent_frn.0, wtf8_of(name_utf16@));
        let ghost links = self.object_links(frn.0);
        match self.entry_by_link(frn, parent_frn, name_utf16) {
            Some(id) => {
                let mut ids: Vec<EntryId> = Vec::new();
                ids.push(id);
                proof {
                    self.lemma_object_links(frn.0);
                    let k = choose|k: int|
                        0 <= k < links.len() && id == #[trigger] links[k] && self.link_is(
                            id as int,
                            parent_frn.0,
                            wtf8_of(name_utf16@),
                        ) && forall|j: int|
                            0 <= j < k ==> !self.link_is(
                                (#[trigger] links[j]) as int,
                                parent_frn.0,
                                wtf8_of(name_utf16@),
                            );
                    lemma_first_selected(links, pass, k);
                    assert(ids@ =~= seq![id]);
                }
                self.tombstone_all(&ids);
                Some(id)
            },
            None => {
                proof {
                    lemma_selected(links, pass);
                    let s = selected(links, pass);
                    if s.len() > 0 {
                        assert(s[0] == s[0] as int);
                        assert(occurs(s, s[0] as int));
                        assert(pass(s[0]));
                        let j = choose|j: int| 0 <= j < links.len() && #[trigger] links[j] == s[0] as int;
                        assert(!self.link_is(links[j] as int, parent_frn.0, wtf8_of(name_utf16@)));
                    }
                }
                None
            },
        }
    }

    /// The first link of a record, or the root where it has none.
    pub open spec fn link_or_root(&self, record: u64) -> u32 {
        if self.record_links(record).len() > 0 {
            self.record_links(record)[0]
        } else {
            0
        }
    }

    /// Insert an object, or replace all its links by one, in an index made
    /// for a fixture: an unknown parent is the root.
    pub fn upsert_synthetic(&mut self, e: &RawEntry<'_>) -> (r: EntryId)
        requires
            old(self).wf(),
            old(self).has_room(
                e.name_utf16@.len() as int,
                wtf8_of(e.name_utf16@),
                lower_of(e.name_utf16@),
            ),
        ensures
            final(self).wf(),
            r == old(self).count(),
            ({
                let record = record_of(e.frn.0);
                let above = record_of(e.parent_frn.0);
                let parent = if above == record {
                    0
                } else {
                    old(self).link_or_root(above)
                };
                final(self).rows() == old(self).buried(old(self).record_links(record)).push(
                    old(self).new_row(
                        wtf8_of(e.name_utf16@),
                        lower_of(e.name_utf16@),
                        parent,
                        facts_of(*e),
                    ),
                )
            }),
            final(self).same_orders(old(self)),
            final(self).stat_generation == old(self).stat_generation,
            final(self).exclusion_tree_dirty == old(self).exclusion_tree_dirty,
            final(self).dead_name_bytes == old(self).dead_bytes(
                old(self).record_links(record_of(e.frn.0)),
            ),
            ({
                let row = final(self).row(r as int);
                &&& row.name == wtf8_of(e.name_utf16@)
                &&& row.lower == lower_of(e.name_utf16@)
                &&& row.size == e.size
                &&& row.mtime == ticks_to_secs(e.mtime)
                &&& row.frn == e.frn.0
                &&& bit_set(row.flag, IS_DIR) == e.is_dir
                &&& bit_set(row.flag, REPARSE) == e.is_reparse
                &&& bit_set(row.flag, HIDDEN) == e.is_hidden
                &&& bit_set(row.flag, SYSTEM) == e.is_system
                &&& !bit_set(row.flag, TOMBSTONE)
            }),
            final(self).one_name_more(
                old(self),
                wtf8_of(e.name_utf16@),
                lower_of(e.name_utf16@),
            ),
    {
        self.tombstone_record(e.frn.record().0);
        let parent: EntryId = match self.entry_by_record(e.parent_frn.record().0) {
            Some(id) => id,
            None => Self::ROOT,
        };
        proof {
            old(self).lemma_record_links(record_of(e.parent_frn.0));
            assert(parent <= self.count());
            old(self).lemma_same_new_row(
                self,
                old(self).record_links(record_of(e.frn.0)),
                *e,
                parent,
            );
        }
        let ghost bare = *self;
        let id: EntryId = self.push_raw(e, parent);
        proof {
            bare.lemma_new_entry_tells(
                wtf8_of(e.name_utf16@),
                lower_of(e.name_utf16@),
                parent,
                *e,
            );
            assert(self.rows().len() == bare.rows().len() + 1);
            assert(self.row(id as int) == self.rows()[id as int]);
        }
        id
    }

    /// A tombstone does not change what a new entry below it inherits.
    proof fn lemma_same_new_row(
        &self,
        other: &VolumeIndex,
        ids: Seq<u32>,
        e: RawEntry<'_>,
        parent: u32,
    )
        requires
            self.wf(),
            other.flag@ == buried_flags(self.flag@, ids),
            other.count() == self.count(),
        ensures
            other.new_row(wtf8_of(e.name_utf16@), lower_of(e.name_utf16@), parent, facts_of(e))
                == self.new_row(wtf8_of(e.name_utf16@), lower_of(e.name_utf16@), parent, facts_of(e)),
    {
        if parent < self.count() {
            lemma_with_bit(self.flag@[parent as int], TOMBSTONE, true, EXCLUDED);
        }
        assert(other.excludes(parent) == self.excludes(parent));
    }

    /// Whether an object may be inserted or replaced as a whole, and below
    /// which parent.
    pub open spec fn upsert_verdict(&self, e: RawEntry<'_>) -> Result<u32, IndexMutationError> {
        if e.name_utf16@.len() == 0 {
            Err(IndexMutationError::EmptyName { object: e.frn })
        } else {
            match self.resolved_parent(e.frn, e.parent_frn) {
                Err(x) => Err(x),
                Ok(parent) => match self.existing_links(e.frn, e.is_dir) {
                    Err(x) => Err(x),
                    Ok(existing) => if !e.is_dir && existing > 1 {
                        Err(
                            IndexMutationError::InvalidTopology {
                                reason: TopologyFault::SiblingLinks,
                            },
                        )
                    } else {
                        Ok(parent)
                    },
                },
            }
        }
    }

    /// Insert a directory, or replace its entry. Links of files go through
    /// [`VolumeIndex::upsert_link_usn`].
    pub fn upsert_usn(&mut self, e: &RawEntry<'_>) -> (r: Result<EntryId, IndexMutationError>)
        requires
            old(self).wf(),
            old(self).count() > 0,
            old(self).has_room(
                e.name_utf16@.len() as int,
                wtf8_of(e.name_utf16@),
                lower_of(e.name_utf16@),
            ),
        ensures
            match old(self).upsert_verdict(*e) {
                Err(x) => r == Err::<EntryId, IndexMutationError>(x) && *final(self) == *old(self),
                Ok(parent) => {
                    &&& final(self).wf()
                    &&& r == Ok::<EntryId, IndexMutationError>(old(self).count() as u32)
                    &&& final(self).rows() == old(self).buried(
                        old(self).record_links(record_of(e.frn.0)),
                    ).push(
                        old(self).new_row(
                            wtf8_of(e.name_utf16@),
                            lower_of(e.name_utf16@),
                            parent,
                            facts_of(*e),
                        ),
                    )
                    &&& final(self).same_orders(old(self))
                    &&& final(self).stat_generation == old(self).stat_generation
                    &&& final(self).exclusion_tree_dirty == old(self).exclusion_tree_dirty
                    &&& final(self).dead_name_bytes == old(self).dead_bytes(
                        old(self).record_links(record_of(e.frn.0)),
                    )
                    &&& ({
                        let row = final(self).row(old(self).count());
                        &&& row.name == wtf8_of(e.name_utf16@)
                        &&& row.lower == lower_of(e.name_utf16@)
                        &&& row.parent == parent
                        &&& row.size == e.size
                        &&& row.mtime == ticks_to_secs(e.mtime)
                        &&& row.frn == e.frn.0
                        &&& bit_set(row.flag, IS_DIR) == e.is_dir
                        &&& bit_set(row.flag, REPARSE) == e.is_reparse
                        &&& bit_set(row.flag, HIDDEN) == e.is_hidden
                        &&& bit_set(row.flag, SYSTEM) == e.is_system
                        &&& !bit_set(row.flag, TOMBSTONE)
                    })
                    &&& final(self).one_name_more(
                        old(self),
                        wtf8_of(e.name_utf16@),
                        lower_of(e.name_utf16@),
                    )
                },
            },
    {
        if e.name_utf16.len() == 0 {
            return Err(IndexMutationError::EmptyName { object: e.frn });
        }
        let parent: EntryId = match self.resolve_parent_for_mutation(e.frn, e.parent_frn) {
            Ok(parent) => parent,
            Err(x) => {
                return Err(x);
            },
        };
        match self.validate_existing_object_kind(e.frn, e.is_dir) {
            Ok(existing) => {
                if !e.is_dir && existing > 1 {
                    return Err(
                        IndexMutationError::InvalidTopology { reason: TopologyFault::SiblingLinks },
                    );
                }
            },
            Err(x) => {
                return Err(x);
            },
        }
        self.tombstone_record(e.frn.record().0);
        proof {
            old(self).lemma_same_new_row(
                self,
                old(self).record_links(record_of(e.frn.0)),
                *e,
                parent,
            );
        }
        let ghost bare = *self;
        let id: EntryId = self.push_raw(e, parent);
        proof {
            bare.lemma_new_entry_tells(
                wtf8_of(e.name_utf16@),
                lower_of(e.name_utf16@),
                parent,
                *e,
            );
            assert(self.rows().len() == bare.rows().len() + 1);
            assert(self.row(id as int) == self.rows()[id as int]);
        }
        Ok(id)
    }

    /// Whether a link of a file may be inserted or refreshed, and below which
    /// parent.
    pub open spec fn upsert_link_verdict(&self, e: RawEntry<'_>) -> Result<
        u32,
        IndexMutationError,
    > {
        if e.is_dir {
            Err(IndexMutationError::ObjectKind { object: e.frn })
        } else if e.name_utf16@.len() == 0 {
            Err(IndexMutationError::EmptyName { object: e.frn })
        } else {
            match self.resolved_parent(e.frn, e.parent_frn) {
                Err(x) => Err(x),
                Ok(parent) => match self.existing_links(e.frn, false) {
                    Err(x) => Err(x),
                    Ok(_) => Ok(parent),
                },
            }
        }
    }

    /// The links that inserting a link replaces: those of other generations
    /// of the record, and the same link.
    pub open spec fn replaced_links(&self, e: RawEntry<'_>) -> Seq<u32> {
        selected(
            self.record_links(record_of(e.frn.0)),
            is_replaced(*self, e.frn.0, e.parent_frn.0, wtf8_of(e.name_utf16@)),
        )
    }

    /// Insert or refresh one exact link of a file; the object's other links
    /// stay. Links of another generation of the record are tombstoned, and so
    /// is the link itself where it exists already.
    pub fn upsert_link_usn(&mut self, e: &RawEntry<'_>) -> (r: Result<EntryId, IndexMutationError>)
        requires
            old(self).wf(),
            old(self).count() > 0,
            old(self).has_room(
                e.name_utf16@.len() as int,
                wtf8_of(e.name_utf16@),
                lower_of(e.name_utf16@),
            ),
        ensures
            match old(self).upsert_link_verdict(*e) {
                Err(x) => r == Err::<EntryId, IndexMutationError>(x) && *final(self) == *old(self),
                Ok(parent) => {
                    &&& final(self).wf()
                    &&& r == Ok::<EntryId, IndexMutationError>(old(self).count() as u32)
                    &&& final(self).rows() == old(self).buried(old(self).replaced_links(*e)).push(
                        old(self).new_row(
                            wtf8_of(e.name_utf16@),
                            lower_of(e.name_utf16@),
                            parent,
                            facts_of(*e),
                        ),
                    )
                    &&& final(self).same_orders(old(self))
                    &&& final(self).stat_generation == old(self).stat_generation
                    &&& final(self).exclusion_tree_dirty == old(self).exclusion_tree_dirty
                    &&& final(self).dead_name_bytes == old(self).dead_bytes(
                        old(self).replaced_links(*e),
                    )
                    &&& ({
                        let row = final(self).row(old(self).count());
                        &&& row.name == wtf8_of(e.name_utf16@)
                        &&& row.lower == lower_of(e.name_utf16@)
                        &&& row.parent == parent
                        &&& row.size == e.size
                        &&& row.mtime == ticks_to_secs(e.mtime)
                        &&& row.frn == e.frn.0
                        &&& bit_set(row.flag, IS_DIR) == e.is_dir
                        &&& bit_set(row.flag, REPARSE) == e.is_reparse
                        &&& bit_set(row.flag, HIDDEN) == e.is_hidden
                        &&& bit_set(row.flag, SYSTEM) == e.is_system
                        &&& !bit_set(row.flag, TOMBSTONE)
                    })
                    &&& final(self).one_name_more(
                        old(self),
                        wtf8_of(e.name_utf16@),
                        lower_of(e.name_utf16@),
                    )
                },
            },
    {
        if e.is_dir {
            return Err(IndexMutationError::ObjectKind { object: e.frn });
        }
        if e.name_utf16.len() == 0 {
            return Err(IndexMutationError::EmptyName { object: e.frn });
        }
        let parent: EntryId = match self.resolve_parent_for_mutation(e.frn, e.parent_frn) {
            Ok(parent) => parent,
            Err(x) => {
                return Err(x);
            },
        };
        match self.validate_existing_object_kind(e.frn, false) {
            Ok(_) => {},
            Err(x) => {
                return Err(x);
            },
        }
        let ids: Vec<EntryId> = self.links_replaced_by(e);
        proof {
            let record = record_of(e.frn.0);
            let all = self.record_links(record);
            let pass = is_replaced(*self, e.frn.0, e.parent_frn.0, wtf8_of(e.name_utf16@));
            self.lemma_record_links(record);
            lemma_selected(all, pass);
            lemma_selected_distinct(all, pass);
            assert forall|k: int| 0 <= k < ids@.len() implies (#[trigger] ids@[k]) < self.count()
                && self.live(ids@[k] as int) by {
                assert(ids@[k] == ids@[k] as int);
                assert(occurs(ids@, ids@[k] as int));
                assert(occurs(all, ids@[k] as int));
            }
        }
        self.tombstone_all(&ids);
        proof {
            old(self).lemma_same_new_row(self, ids@, *e, parent);
        }
        let ghost bare = *self;
        let id: EntryId = self.push_raw(e, parent);
        proof {
            bare.lemma_new_entry_tells(
                wtf8_of(e.name_utf16@),
                lower_of(e.name_utf16@),
                parent,
                *e,
            );
            assert(self.rows().len() == bare.rows().len() + 1);
            assert(self.row(id as int) == self.rows()[id as int]);
        }
        Ok(id)
    }

    /// The links that inserting a link replaces.
    fn links_replaced_by(&self, e: &RawEntry<'_>) -> (r: Vec<EntryId>)
        requires
            self.wf(),
            self.count() > 0,
        ensures
            r@ == self.replaced_links(*e),
    {
        let mut name: Vec<u8> = Vec::new();
        let mut folded: Vec<u8> = Vec::new();
        push_wtf8_pair(e.name_utf16, &mut name, &mut folded);
        let all: Vec<EntryId> = self.entries_by_record(e.frn.record().0);
        let ghost pass = is_replaced(*self, e.frn.0, e.parent_frn.0, wtf8_of(e.name_utf16@));
        proof {
            assert(name@ =~= wtf8_of(e.name_utf16@));
            self.lemma_record_links(record_of(e.frn.0));
            assert(all@.take(0) =~= Seq::empty());
        }
        let mut found: Vec<EntryId> = Vec::new();
        let mut i: usize = 0;
        while i < all.len()
            invariant
                i <= all@.len(),
                self.wf(),
                self.count() > 0,
                name@ == wtf8_of(e.name_utf16@),
                all@ == self.record_links(record_of(e.frn.0)),
                forall|k: int| 0 <= k < all@.len() ==> (#[trigger] all@[k]) < self.count(),
                pass == is_replaced(*self, e.frn.0, e.parent_frn.0, wtf8_of(e.name_utf16@)),
                found@ == selected(all@.take(i as int), pass),
            decreases all@.len() - i,
        {
            let id: EntryId = all[i];
            proof {
                assert(all@.take(i + 1).drop_last() =~= all@.take(i as int));
                assert(all@.take(i + 1).last() == id);
            }
            if self.frn[id as usize] != e.frn.0 || self.is_link_named(
                id,
                e.parent_frn,
                name.as_slice(),
            ) {
                found.push(id);
            }
            i = i + 1;
        }
        assert(all@.take(i as int) =~= all@);
        found
    }

    /// Whether an entry is the link of that name in the directory.
    pub(crate) fn is_link_named(&self, id: EntryId, parent_frn: Frn, name: &[u8]) -> (r: bool)
        requires
            self.wf(),
            id < self.count(),
        ensures
            r == self.link_is(id as int, parent_frn.0, name@),
    {
        let p: EntryId = self.parent[id as usize];
        if p == NO_PARENT {
            return false;
        }
        let stored: u64 = self.frn[p as usize];
        let same_dir: bool = stored == parent_frn.0 || (p == Self::ROOT
            && self.is_synthetic_fixture() && stored % 0x1_0000_0000_0000 == parent_frn.0
            % 0x1_0000_0000_0000);
        same_dir && same_bytes(self.name(id), name)
    }
}

/// The entries that are the link of that name in the directory.
pub open spec fn is_named_link(index: VolumeIndex, parent_frn: u64, name: Seq<u8>) -> spec_fn(
    u32,
) -> bool {
    |id: u32| index.link_is(id as int, parent_frn, name)
}

/// The entries that refer to another generation of an object, or are the link
/// of that name in the directory.
pub open spec fn is_replaced(
    index: VolumeIndex,
    frn: u64,
    parent_frn: u64,
    name: Seq<u8>,
) -> spec_fn(u32) -> bool {
    |id: u32| index.frn@[id as int] != frn || index.link_is(id as int, parent_frn, name)
}

/// The first item that passes comes first among those that pass.
proof fn lemma_first_selected(s: Seq<u32>, pass: spec_fn(u32) -> bool, k: int)
    requires
        0 <= k < s.len(),
        pass(s[k]),
        forall|j: int| 0 <= j < k ==> !pass(#[trigger] s[j]),
    ensures
        selected(s, pass).len() > 0,
        selected(s, pass)[0] == s[k],
    decreases s.len(),
{
    let d = s.drop_last();
    if k < d.len() {
        assert forall|j: int| 0 <= j < k implies !pass(#[trigger] d[j]) by {
            assert(d[j] == s[j]);
        }
        assert(d[k] == s[k]);
        lemma_first_selected(d, pass, k);
    } else {
        lemma_selected(d, pass);
        let u = selected(d, pass);
        if u.len() > 0 {
            assert(u[0] == u[0] as int);
            assert(occurs(u, u[0] as int));
            let j = choose|j: int| 0 <= j < d.len() && #[trigger] d[j] == u[0] as int;
            assert(!pass(s[j]));
        }
    }
}

/// Whether two byte strings are the same.
pub(crate) fn same_bytes(a: &[u8], b: &[u8]) -> (r: bool)
    ensures
        r == (a@ == b@),
{
    match crate::order::compare_bytes(a, b) {
        crate::order::Order::Same => true,
        _ => false,
    }
}

} // verus!
