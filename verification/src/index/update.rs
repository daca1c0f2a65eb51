//! Changes of existing entries: sizes and times, attributes, parents and
//! names.

use vstd::prelude::*;
use crate::dates::ticks_to_secs;
use crate::order::{compare_bytes, lemma_bytes_total, lemma_bytes_transitive, occurs, Order};
use crate::wtf8::{lemma_fold_keeps_length, lower_of, push_wtf8_pair, wtf8_of};
use super::columns::{Row, VolumeIndex};
use super::flags::{
    bit_set, hidden_or_system, lemma_with_bit, put_bit, with_bit, EXCLUDED, HIDDEN, IS_DIR,
    REPARSE, SYSTEM, TOMBSTONE,
};
use super::merge::ascends;
use super::topology::{IndexMutationError, TopologyFault};
use super::{EntryId, Frn, NO_PARENT};

verus! {

/// The flags of entry `i` with other attributes: the exclusion follows from
/// them and from the parent's.
pub open spec fn attrs_flag(
    parent: Seq<u32>,
    flag: Seq<u8>,
    i: int,
    reparse: Option<bool>,
    hidden: bool,
    system: bool,
) -> u8 {
    let f = match reparse {
        Some(on) => with_bit(flag[i], REPARSE, on),
        None => flag[i],
    };
    let p = parent[i];
    with_bit(
        with_bit(with_bit(f, HIDDEN, hidden), SYSTEM, system),
        EXCLUDED,
        hidden || system || (p != NO_PARENT && p != i && bit_set(flag[p as int], EXCLUDED)),
    )
}

/// The flags with other attributes for the given entries, one after the
/// other.
pub open spec fn with_attrs(
    parent: Seq<u32>,
    flag: Seq<u8>,
    ids: Seq<u32>,
    reparse: Option<bool>,
    hidden: bool,
    system: bool,
) -> Seq<u8>
    decreases ids.len(),
{
    if ids.len() == 0 {
        flag
    } else {
        let f = with_attrs(parent, flag, ids.drop_last(), reparse, hidden, system);
        f.update(
            ids.last() as int,
            attrs_flag(parent, f, ids.last() as int, reparse, hidden, system),
        )
    }
}

/// Changing attributes changes those of the given entries only. Where none of
/// them is the parent of one, each follows from the flags before.
pub proof fn lemma_with_attrs(
    parent: Seq<u32>,
    flag: Seq<u8>,
    ids: Seq<u32>,
    reparse: Option<bool>,
    hidden: bool,
    system: bool,
)
    requires
        forall|k: int| 0 <= k < ids.len() ==> (#[trigger] ids[k]) < flag.len(),
        forall|k: int|
            0 <= k < ids.len() ==> parent[(#[trigger] ids[k]) as int] == NO_PARENT
                || parent[ids[k] as int] < flag.len(),
        forall|i: int, j: int| 0 <= i < j < ids.len() ==> #[trigger] ids[i] != #[trigger] ids[j],
    ensures
        with_attrs(parent, flag, ids, reparse, hidden, system).len() == flag.len(),
        forall|i: int|
            0 <= i < flag.len() && !occurs(ids, i) ==> #[trigger] with_attrs(
                parent,
                flag,
                ids,
                reparse,
                hidden,
                system,
            )[i] == flag[i],
        forall|i: int|
            0 <= i < flag.len() ==> bit_set(
                #[trigger] with_attrs(parent, flag, ids, reparse, hidden, system)[i],
                TOMBSTONE,
            ) == bit_set(flag[i], TOMBSTONE),
        (forall|k: int|
            0 <= k < ids.len() ==> !occurs(ids, parent[(#[trigger] ids[k]) as int] as int)) ==> (
        forall|k: int|
            0 <= k < ids.len() ==> with_attrs(parent, flag, ids, reparse, hidden, system)[(
            #[trigger] ids[k]) as int] == attrs_flag(
                parent,
                flag,
                ids[k] as int,
                reparse,
                hidden,
                system,
            )),
    decreases ids.len(),
{
    broadcast use lemma_with_bit;

    if ids.len() > 0 {
        let d = ids.drop_last();
        let last = ids.last() as int;
        assert forall|k: int| 0 <= k < d.len() implies (#[trigger] d[k]) < flag.len() && (
        parent[d[k] as int] == NO_PARENT || parent[d[k] as int] < flag.len()) by {
            assert(d[k] == ids[k]);
        }
        lemma_with_attrs(parent, flag, d, reparse, hidden, system);
        let f = with_attrs(parent, flag, d, reparse, hidden, system);
        let g = with_attrs(parent, flag, ids, reparse, hidden, system);
        assert(ids[ids.len() - 1] == last);
        assert(!occurs(d, last)) by {
            if occurs(d, last) {
                let k = choose|k: int| 0 <= k < d.len() && #[trigger] d[k] == last;
                assert(ids[k] != ids[ids.len() - 1]);
            }
        }
        assert forall|x: int| occurs(d, x) implies occurs(ids, x) by {
            let k = choose|k: int| 0 <= k < d.len() && #[trigger] d[k] == x;
            assert(ids[k] == x);
        }
        assert(occurs(ids, last));
        assert(f[last] == flag[last]);
        if forall|k: int|
            0 <= k < ids.len() ==> !occurs(ids, parent[(#[trigger] ids[k]) as int] as int) {
            assert forall|k: int| 0 <= k < d.len() implies !occurs(
                d,
                parent[(#[trigger] d[k]) as int] as int,
            ) by {
                assert(!occurs(ids, parent[ids[k] as int] as int));
            }
            assert forall|k: int| 0 <= k < ids.len() implies g[(#[trigger] ids[k]) as int]
                == attrs_flag(parent, flag, ids[k] as int, reparse, hidden, system) by {
                if k < d.len() {
                    assert(d[k] == ids[k]);
                    assert(ids[k] != ids[ids.len() - 1]);
                } else {
                    let p = parent[last] as int;
                    assert(!occurs(ids, parent[ids[k] as int] as int));
                    if p != NO_PARENT && p != last {
                        assert(!occurs(d, p));
                        assert(f[p] == flag[p]);
                    }
                }
            }
        }
    }
}

impl VolumeIndex {
    /// The entries with the size and time of `ids` replaced.
    pub open spec fn restat(&self, ids: Seq<u32>, size: u64, mtime: i64) -> Seq<Row> {
        Seq::new(
            self.name_id@.len(),
            |i: int|
                if occurs(ids, i) {
                    Row { size, mtime: ticks_to_secs(mtime), ..self.row(i) }
                } else {
                    self.row(i)
                },
        )
    }

    /// Some entry of `ids` has another size or time.
    pub open spec fn stat_differs(&self, ids: Seq<u32>, size: u64, mtime: i64) -> bool {
        exists|k: int|
            0 <= k < ids.len() && (self.row((#[trigger] ids[k]) as int).size != size || self.row(
                ids[k] as int,
            ).mtime != ticks_to_secs(mtime))
    }

    /// Replace the size and time of the given entries.
    pub(crate) fn update_stat_all(&mut self, ids: &Vec<EntryId>, size: u64, mtime: i64)
        requires
            old(self).wf(),
            old(self).are_live(ids@),
            old(self).stat_generation < u64::MAX,
        ensures
            final(self).wf(),
            final(self).rows() == old(self).restat(ids@, size, mtime),
            *final(self) == (VolumeIndex {
                size_lo: final(self).size_lo,
                size_ovf: final(self).size_ovf,
                mtime: final(self).mtime,
                stat_generation: if old(self).stat_differs(ids@, size, mtime) {
                    (old(self).stat_generation + 1) as u64
                } else {
                    old(self).stat_generation
                },
                ..*old(self)
            }),
    {
        let ghost before = *self;
        let mut changed: bool = false;
        let mut i: usize = 0;
        proof {
            assert(self.rows() =~= before.restat(ids@.take(0), size, mtime));
        }
        while i < ids.len()
            invariant
                i <= ids@.len(),
                self.wf(),
                before.wf(),
                before.are_live(ids@),
                self.rows() == before.restat(ids@.take(i as int), size, mtime),
                changed == before.stat_differs(ids@.take(i as int), size, mtime),
                *self == (VolumeIndex {
                    size_lo: self.size_lo,
                    size_ovf: self.size_ovf,
                    mtime: self.mtime,
                    ..before
                }),
            decreases ids@.len() - i,
        {
            let id: EntryId = ids[i];
            let ghost t = ids@.take(i as int);
            let ghost u = ids@.take(i + 1);
            let ghost middle = self.rows();
            proof {
                assert(before.live(ids@[i as int] as int));
                if occurs(t, id as int) {
                    let k = choose|k: int| 0 <= k < t.len() && #[trigger] t[k] == id as int;
                    assert(ids@[k] != ids@[i as int]);
                }
                assert(self.row(id as int) == self.rows()[id as int]);
                assert(self.row(id as int) == before.row(id as int));
            }
            let c: bool = self.update_stat_id(id, size, mtime);
            if c {
                changed = true;
            }
            proof {
                assert forall|x: int| occurs(u, x) == (occurs(t, x) || x == id) by {
                    if occurs(u, x) {
                        let k = choose|k: int| 0 <= k < u.len() && #[trigger] u[k] == x;
                        if k < i {
                            assert(t[k] == x);
                        }
                    }
                    if occurs(t, x) {
                        let k = choose|k: int| 0 <= k < t.len() && #[trigger] t[k] == x;
                        assert(u[k] == x);
                    }
                    assert(u[i as int] == id as int);
                }
                assert(self.rows() =~= before.restat(u, size, mtime));
                if before.stat_differs(t, size, mtime) {
                    let k = choose|k: int|
                        0 <= k < t.len() && (before.row((#[trigger] t[k]) as int).size != size
                            || before.row(t[k] as int).mtime != ticks_to_secs(mtime));
                    assert(u[k] == t[k]);
                }
                if before.stat_differs(u, size, mtime) {
                    let k = choose|k: int|
                        0 <= k < u.len() && (before.row((#[trigger] u[k]) as int).size != size
                            || before.row(u[k] as int).mtime != ticks_to_secs(mtime));
                    if k < i {
                        assert(t[k] == u[k]);
                    }
                }
                assert(u[i as int] == id);
            }
            i = i + 1;
        }
        assert(ids@.take(i as int) =~= ids@);
        let ghost unbumped = *self;
        if changed {
            self.stat_generation = self.stat_generation + 1;
        }
        proof {
            assert(self.rows() =~= unbumped.rows());
            self.lemma_originals_same(&unbumped);
        }
    }

    /// Entries whose names are stored the same way stay in order.
    pub(crate) proof fn lemma_originals_same(&self, before: &VolumeIndex)
        requires
            before.originals_wf(),
            self.orig_off == before.orig_off,
            self.orig_pool == before.orig_pool,
            self.dict_pool == before.dict_pool,
            self.dict_off == before.dict_off,
            self.name_id == before.name_id,
        ensures
            self.originals_wf(),
    {
        assert forall|i: int|
            0 <= i < self.orig_off@.len() && #[trigger] self.orig_off@[i] != super::columns::NONE implies self.orig_off@[i]
            + self.lower(i).len() <= self.orig_pool@.len() by {
            assert(before.orig_off@[i] + before.lower(i).len() <= before.orig_pool@.len());
        }
    }

    /// Update the size and time of every link of a record; says which came
    /// first.
    pub fn update_stat(&mut self, record: u64, size: u64, mtime: i64) -> (r: Option<EntryId>)
        requires
            old(self).wf(),
            old(self).stat_generation < u64::MAX,
        ensures
            final(self).wf(),
            r == (if old(self).record_links(record).len() > 0 {
                Some(old(self).record_links(record)[0])
            } else {
                None
            }),
            final(self).rows() == old(self).restat(old(self).record_links(record), size, mtime),
            *final(self) == (VolumeIndex {
                size_lo: final(self).size_lo,
                size_ovf: final(self).size_ovf,
                mtime: final(self).mtime,
                stat_generation: if old(self).stat_differs(
                    old(self).record_links(record),
                    size,
                    mtime,
                ) {
                    (old(self).stat_generation + 1) as u64
                } else {
                    old(self).stat_generation
                },
                ..*old(self)
            }),
            forall|i: int|
                0 <= i < old(self).count() ==> {
                    let now = #[trigger] final(self).row(i);
                    let then = old(self).row(i);
                    if old(self).frn@[i] % 0x1_0000_0000_0000 == record && !bit_set(
                        old(self).flag@[i],
                        TOMBSTONE,
                    ) {
                        &&& now.size == size
                        &&& now.mtime == ticks_to_secs(mtime)
                        &&& now.name == then.name && now.lower == then.lower
                        &&& now.parent == then.parent && now.frn == then.frn
                        &&& now.flag == then.flag
                    } else {
                        now == then
                    }
                },
    {
        let ids: Vec<EntryId> = self.entries_by_record(record);
        proof {
            self.lemma_record_links(record);
        }
        self.update_stat_all(&ids, size, mtime);
        proof {
            assert(self.rows().len() == old(self).rows().len());
            assert forall|i: int| 0 <= i < old(self).count() implies #[trigger] self.row(i)
                == self.rows()[i] by {}
            assert forall|i: int| 0 <= i < old(self).count() implies {
                let now = #[trigger] self.row(i);
                let then = old(self).row(i);
                if old(self).frn@[i] % 0x1_0000_0000_0000 == record && !bit_set(
                    old(self).flag@[i],
                    TOMBSTONE,
                ) {
                    &&& now.size == size
                    &&& now.mtime == ticks_to_secs(mtime)
                    &&& now.name == then.name && now.lower == then.lower
                    &&& now.parent == then.parent && now.frn == then.frn
                    &&& now.flag == then.flag
                } else {
                    now == then
                }
            } by {
                old(self).lemma_record_restated(record, size, mtime, i);
            }
        }
        if ids.len() > 0 {
            Some(ids[0])
        } else {
            None
        }
    }

    /// Update the size and time of every link of the object with this full
    /// reference; says which came first.
    pub fn update_stat_frn(&mut self, frn: Frn, size: u64, mtime: i64) -> (r: Option<EntryId>)
        requires
            old(self).wf(),
            old(self).stat_generation < u64::MAX,
        ensures
            final(self).wf(),
            r == (if old(self).object_links(frn.0).len() > 0 {
                Some(old(self).object_links(frn.0)[0])
            } else {
                None
            }),
            final(self).rows() == old(self).restat(old(self).object_links(frn.0), size, mtime),
            *final(self) == (VolumeIndex {
                size_lo: final(self).size_lo,
                size_ovf: final(self).size_ovf,
                mtime: final(self).mtime,
                stat_generation: if old(self).stat_differs(
                    old(self).object_links(frn.0),
                    size,
                    mtime,
                ) {
                    (old(self).stat_generation + 1) as u64
                } else {
                    old(self).stat_generation
                },
                ..*old(self)
            }),
            forall|i: int|
                0 <= i < old(self).count() ==> {
                    let now = #[trigger] final(self).row(i);
                    let then = old(self).row(i);
                    if old(self).frn@[i] == frn.0 && !bit_set(
                        old(self).flag@[i],
                        TOMBSTONE,
                    ) {
                        &&& now.size == size
                        &&& now.mtime == ticks_to_secs(mtime)
                        &&& now.name == then.name && now.lower == then.lower
                        &&& now.parent == then.parent && now.frn == then.frn
                        &&& now.flag == then.flag
                    } else {
                        now == then
                    }
                },
    {
        let ids: Vec<EntryId> = self.entries_by_frn(frn);
        proof {
            self.lemma_object_links(frn.0);
        }
        self.update_stat_all(&ids, size, mtime);
        proof {
            assert(self.rows().len() == old(self).rows().len());
            assert forall|i: int| 0 <= i < old(self).count() implies #[trigger] self.row(i)
                == self.rows()[i] by {}
            assert forall|i: int| 0 <= i < old(self).count() implies {
                let now = #[trigger] self.row(i);
                let then = old(self).row(i);
                if old(self).frn@[i] == frn.0 && !bit_set(
                    old(self).flag@[i],
                    TOMBSTONE,
                ) {
                    &&& now.size == size
                    &&& now.mtime == ticks_to_secs(mtime)
                    &&& now.name == then.name && now.lower == then.lower
                    &&& now.parent == then.parent && now.frn == then.frn
                    &&& now.flag == then.flag
                } else {
                    now == then
                }
            } by {
                old(self).lemma_object_restated(frn.0, size, mtime, i);
            }
        }
        if ids.len() > 0 {
            Some(ids[0])
        } else {
            None
        }
    }

    /// Some directory of `ids` changes what it passes on.
    pub open spec fn attrs_spread(&self, ids: Seq<u32>, hidden: bool, system: bool) -> bool {
        exists|k: int|
            0 <= k < ids.len() && bit_set(self.flag@[(#[trigger] ids[k]) as int], IS_DIR) && (
            bit_set(self.flag@[ids[k] as int], HIDDEN) != hidden || bit_set(
                self.flag@[ids[k] as int],
                SYSTEM,
            ) != system)
    }

    /// Replace the attributes of one entry.
    fn update_attrs_id(&mut self, id: EntryId, reparse: Option<bool>, hidden: bool, system: bool)
        requires
            old(self).wf(),
            id < old(self).count(),
        ensures
            final(self).wf(),
            final(self).flag@ == old(self).flag@.update(
                id as int,
                attrs_flag(
                    old(self).parent@,
                    old(self).flag@,
                    id as int,
                    reparse,
                    hidden,
                    system,
                ),
            ),
            *final(self) == (VolumeIndex {
                flag: final(self).flag,
                exclusion_tree_dirty: old(self).exclusion_tree_dirty || old(self).attrs_spread(
                    seq![id],
                    hidden,
                    system,
                ),
                ..*old(self)
            }),
    {
        broadcast use lemma_with_bit;

        let old_flag: u8 = self.flag[id as usize];
        let mut f: u8 = old_flag;
        match reparse {
            Some(on) => {
                f = put_bit(f, REPARSE, on);
            },
            None => {},
        }
        f = put_bit(put_bit(f, HIDDEN, hidden), SYSTEM, system);
        let ghost g = f;
        self.set_flag(id, f);
        assert(self.tombstones == old(self).tombstones);
        self.recompute_excluded(id);
        let ghost flagged = *self;
        if old_flag & IS_DIR != 0 && ((old_flag & HIDDEN != 0) != hidden || (old_flag & SYSTEM
            != 0) != system) {
            self.exclusion_tree_dirty = true;
        }
        proof {
            let i = id as int;
            let before = old(self);
            assert(seq![id][0] == id);
            assert(hidden_or_system(g) == (hidden || system));
            let p = before.parent@[i];
            assert(self.flag@ =~= before.flag@.update(
                i,
                attrs_flag(before.parent@, before.flag@, i, reparse, hidden, system),
            ));
            if before.attrs_spread(seq![id], hidden, system) {
                let k = choose|k: int|
                    0 <= k < seq![id].len() && bit_set(
                        before.flag@[(#[trigger] seq![id][k]) as int],
                        IS_DIR,
                    ) && (bit_set(before.flag@[seq![id][k] as int], HIDDEN) != hidden || bit_set(
                        before.flag@[seq![id][k] as int],
                        SYSTEM,
                    ) != system);
                assert(seq![id][k] == id);
            }
            self.lemma_originals_same(&flagged);
        }
    }

    /// Replace the attributes of the given entries.
    pub(crate) fn update_attrs_all(
        &mut self,
        ids: &Vec<EntryId>,
        reparse: Option<bool>,
        hidden: bool,
        system: bool,
    )
        requires
            old(self).wf(),
            old(self).are_live(ids@),
        ensures
            final(self).wf(),
            final(self).flag@ == with_attrs(
                old(self).parent@,
                old(self).flag@,
                ids@,
                reparse,
                hidden,
                system,
            ),
            final(self).rows() == old(self).rows_flagged(final(self).flag@),
            *final(self) == (VolumeIndex {
                flag: final(self).flag,
                exclusion_tree_dirty: old(self).exclusion_tree_dirty || old(self).attrs_spread(
                    ids@,
                    hidden,
                    system,
                ),
                ..*old(self)
            }),
    {
        let ghost before = *self;
        let mut i: usize = 0;
        assert(ids@.take(0) =~= Seq::empty());
        while i < ids.len()
            invariant
                i <= ids@.len(),
                self.wf(),
                before.wf(),
                before.are_live(ids@),
                self.flag@ == with_attrs(
                    before.parent@,
                    before.flag@,
                    ids@.take(i as int),
                    reparse,
                    hidden,
                    system,
                ),
                *self == (VolumeIndex {
                    flag: self.flag,
                    exclusion_tree_dirty: before.exclusion_tree_dirty || before.attrs_spread(
                        ids@.take(i as int),
                        hidden,
                        system,
                    ),
                    ..before
                }),
            decreases ids@.len() - i,
        {
            let id: EntryId = ids[i];
            let ghost t = ids@.take(i as int);
            let ghost u = ids@.take(i + 1);
            let ghost middle = *self;
            proof {
                assert(before.live(ids@[i as int] as int));
                assert(u.drop_last() =~= t);
                assert(u.last() == id);
                assert forall|k: int| 0 <= k < t.len() implies (#[trigger] t[k])
                    < before.flag@.len() && (before.parent@[t[k] as int] == NO_PARENT
                    || before.parent@[t[k] as int] < before.flag@.len()) by {
                    assert(before.live(ids@[k] as int));
                }
                lemma_with_attrs(before.parent@, before.flag@, t, reparse, hidden, system);
                if occurs(t, id as int) {
                    let k = choose|k: int| 0 <= k < t.len() && #[trigger] t[k] == id as int;
                    assert(ids@[k] != ids@[i as int]);
                }
                assert(self.flag@[id as int] == before.flag@[id as int]);
            }
            self.update_attrs_id(id, reparse, hidden, system);
            proof {
                assert(seq![id][0] == id);
                assert(u[i as int] == id);
                if before.attrs_spread(t, hidden, system) {
                    let k = choose|k: int|
                        0 <= k < t.len() && bit_set(
                            before.flag@[(#[trigger] t[k]) as int],
                            IS_DIR,
                        ) && (bit_set(before.flag@[t[k] as int], HIDDEN) != hidden || bit_set(
                            before.flag@[t[k] as int],
                            SYSTEM,
                        ) != system);
                    assert(u[k] == t[k]);
                    assert(before.attrs_spread(u, hidden, system));
                }
                if middle.attrs_spread(seq![id], hidden, system) {
                    let k = choose|k: int|
                        0 <= k < seq![id].len() && bit_set(
                            middle.flag@[(#[trigger] seq![id][k]) as int],
                            IS_DIR,
                        ) && (bit_set(middle.flag@[seq![id][k] as int], HIDDEN) != hidden
                            || bit_set(middle.flag@[seq![id][k] as int], SYSTEM) != system);
                    assert(seq![id][k] == id);
                    assert(before.attrs_spread(u, hidden, system));
                }
                if before.attrs_spread(u, hidden, system) {
                    let k = choose|k: int|
                        0 <= k < u.len() && bit_set(
                            before.flag@[(#[trigger] u[k]) as int],
                            IS_DIR,
                        ) && (bit_set(before.flag@[u[k] as int], HIDDEN) != hidden || bit_set(
                            before.flag@[u[k] as int],
                            SYSTEM,
                        ) != system);
                    if k < i {
                        assert(t[k] == u[k]);
                        assert(before.attrs_spread(t, hidden, system));
                    } else {
                        assert(middle.attrs_spread(seq![id], hidden, system));
                    }
                }
            }
            i = i + 1;
        }
        proof {
            assert(ids@.take(i as int) =~= ids@);
            assert(self.rows() =~= before.rows_flagged(self.flag@));
        }
    }

    /// Update the hidden and system bits, and the exclusion that follows, on
    /// every link of a record; says which came first.
    pub fn update_attrs(&mut self, record: u64, is_hidden: bool, is_system: bool) -> (r: Option<
        EntryId,
    >)
        requires
            old(self).wf(),
        ensures
            final(self).wf(),
            r == (if old(self).record_links(record).len() > 0 {
                Some(old(self).record_links(record)[0])
            } else {
                None
            }),
            final(self).flag@ == with_attrs(
                old(self).parent@,
                old(self).flag@,
                old(self).record_links(record),
                None,
                is_hidden,
                is_system,
            ),
            final(self).rows() == old(self).rows_flagged(final(self).flag@),
            *final(self) == (VolumeIndex {
                flag: final(self).flag,
                exclusion_tree_dirty: old(self).exclusion_tree_dirty || old(self).attrs_spread(
                    old(self).record_links(record),
                    is_hidden,
                    is_system,
                ),
                ..*old(self)
            }),
            forall|i: int|
                0 <= i < old(self).count() ==> {
                    let now = #[trigger] final(self).flag@[i];
                    let then = old(self).flag@[i];
                    if old(self).frn@[i] % 0x1_0000_0000_0000 == record && !bit_set(then, TOMBSTONE) {
                        &&& bit_set(now, HIDDEN) == is_hidden
                        &&& bit_set(now, SYSTEM) == is_system
                        &&& bit_set(now, REPARSE) == bit_set(then, REPARSE)
                        &&& bit_set(now, IS_DIR) == bit_set(then, IS_DIR)
                        &&& !bit_set(now, TOMBSTONE)
                    } else {
                        now == then
                    }
                },
    {
        let ids: Vec<EntryId> = self.entries_by_record(record);
        proof {
            self.lemma_record_links(record);
        }
        self.update_attrs_all(&ids, None, is_hidden, is_system);
        proof {
            assert forall|i: int| 0 <= i < old(self).count() implies {
                let now = #[trigger] self.flag@[i];
                let then = old(self).flag@[i];
                if old(self).frn@[i] % 0x1_0000_0000_0000 == record && !bit_set(then, TOMBSTONE) {
                    &&& bit_set(now, HIDDEN) == is_hidden
                    &&& bit_set(now, SYSTEM) == is_system
                    &&& bit_set(now, REPARSE) == bit_set(then, REPARSE)
                    &&& bit_set(now, IS_DIR) == bit_set(then, IS_DIR)
                    &&& !bit_set(now, TOMBSTONE)
                } else {
                    now == then
                }
            } by {
                assert(occurs(old(self).record_links(record), i) <==> old(self).frn@[i] % 0x1_0000_0000_0000 == record && old(self).live(i));
                old(self).lemma_attrs_told(old(self).record_links(record), None, is_hidden, is_system, i);
            }
        }
        if ids.len() > 0 {
            Some(ids[0])
        } else {
            None
        }
    }

    /// Some entry of `ids` has other attributes.
    pub open spec fn attrs_differ(
        &self,
        ids: Seq<u32>,
        reparse: bool,
        hidden: bool,
        system: bool,
    ) -> bool {
        exists|k: int|
            0 <= k < ids.len() && !attrs_are(
                self.flag@[(#[trigger] ids[k]) as int],
                reparse,
                hidden,
                system,
            )
    }

    /// Whether some entry has other attributes.
    pub(crate) fn any_attrs_differ(
        &self,
        ids: &Vec<EntryId>,
        reparse: bool,
        hidden: bool,
        system: bool,
    ) -> (r: bool)
        requires
            self.wf(),
            self.are_live(ids@),
        ensures
            r == self.attrs_differ(ids@, reparse, hidden, system),
    {
        let mut i: usize = 0;
        while i < ids.len()
            invariant
                i <= ids@.len(),
                self.wf(),
                self.are_live(ids@),
                forall|k: int|
                    0 <= k < i ==> attrs_are(
                        self.flag@[(#[trigger] ids@[k]) as int],
                        reparse,
                        hidden,
                        system,
                    ),
            decreases ids@.len() - i,
        {
            let id: EntryId = ids[i];
            let f: u8 = self.flag[id as usize];
            if (f & REPARSE != 0) != reparse || (f & HIDDEN != 0) != hidden || (f & SYSTEM != 0)
                != system {
                assert(!attrs_are(self.flag@[ids@[i as int] as int], reparse, hidden, system));
                return true;
            }
            i = i + 1;
        }
        false
    }

    /// Refresh every attribute of the object with this full reference, on all
    /// its links: says whether one changed, or that there is no such object.
    /// Each link inherits exclusion from its own parent.
    pub fn update_object_attrs_frn(
        &mut self,
        frn: Frn,
        is_reparse: bool,
        is_hidden: bool,
        is_system: bool,
    ) -> (r: Option<bool>)
        requires
            old(self).wf(),
        ensures
            final(self).wf(),
            r == (if old(self).object_links(frn.0).len() == 0 {
                None
            } else {
                Some(
                    old(self).attrs_differ(
                        old(self).object_links(frn.0),
                        is_reparse,
                        is_hidden,
                        is_system,
                    ),
                )
            }),
            final(self).flag@ == with_attrs(
                old(self).parent@,
                old(self).flag@,
                old(self).object_links(frn.0),
                Some(is_reparse),
                is_hidden,
                is_system,
            ),
            final(self).rows() == old(self).rows_flagged(final(self).flag@),
            *final(self) == (VolumeIndex {
                flag: final(self).flag,
                exclusion_tree_dirty: old(self).exclusion_tree_dirty || old(self).attrs_spread(
                    old(self).object_links(frn.0),
                    is_hidden,
                    is_system,
                ),
                ..*old(self)
            }),
            forall|i: int|
                0 <= i < old(self).count() ==> {
                    let now = #[trigger] final(self).flag@[i];
                    let then = old(self).flag@[i];
                    if old(self).frn@[i] == frn.0 && !bit_set(then, TOMBSTONE) {
                        &&& bit_set(now, HIDDEN) == is_hidden
                        &&& bit_set(now, SYSTEM) == is_system
                        &&& bit_set(now, REPARSE) == is_reparse
                        &&& bit_set(now, IS_DIR) == bit_set(then, IS_DIR)
                        &&& !bit_set(now, TOMBSTONE)
                    } else {
                        now == then
                    }
                },
    {
        let ids: Vec<EntryId> = self.entries_by_frn(frn);
        proof {
            self.lemma_object_links(frn.0);
        }
        let changed: bool = self.any_attrs_differ(&ids, is_reparse, is_hidden, is_system);
        self.update_attrs_all(&ids, Some(is_reparse), is_hidden, is_system);
        proof {
            assert forall|i: int| 0 <= i < old(self).count() implies {
                let now = #[trigger] self.flag@[i];
                let then = old(self).flag@[i];
                if old(self).frn@[i] == frn.0 && !bit_set(then, TOMBSTONE) {
                    &&& bit_set(now, HIDDEN) == is_hidden
                    &&& bit_set(now, SYSTEM) == is_system
                    &&& bit_set(now, REPARSE) == is_reparse
                    &&& bit_set(now, IS_DIR) == bit_set(then, IS_DIR)
                    &&& !bit_set(now, TOMBSTONE)
                } else {
                    now == then
                }
            } by {
                assert(occurs(old(self).object_links(frn.0), i) <==> old(self).frn@[i] == frn.0 && old(self).live(i));
                old(self).lemma_attrs_told(old(self).object_links(frn.0), Some(is_reparse), is_hidden, is_system, i);
            }
        }
        if ids.len() == 0 {
            None
        } else {
            Some(changed)
        }
    }

    /// The entry with another parent; an entry is not made its own parent.
    pub open spec fn moved_row(&self, i: int, parent: u32) -> Row {
        let p = if parent == i {
            self.parent@[i]
        } else {
            parent
        };
        Row {
            parent: p,
            flag: with_bit(
                self.flag@[i],
                EXCLUDED,
                hidden_or_system(self.flag@[i]) || (p != NO_PARENT && p != i && bit_set(
                    self.flag@[p as int],
                    EXCLUDED,
                )),
            ),
            ..self.row(i)
        }
    }

    /// Move an entry below another parent.
    fn move_id(&mut self, id: EntryId, parent: EntryId) -> (changed: bool)
        requires
            old(self).wf(),
            id < old(self).count(),
            parent < old(self).count(),
        ensures
            final(self).wf(),
            changed == (parent != id && old(self).parent@[id as int] != parent),
            final(self).rows() == old(self).rows_with(
                id as int,
                old(self).moved_row(id as int, parent),
            ),
            *final(self) == (VolumeIndex {
                parent: final(self).parent,
                flag: final(self).flag,
                ..*old(self)
            }),
    {
        let ghost before = *self;
        let changed: bool = parent != id && self.parent[id as usize] != parent;
        if parent != id {
            self.set_parent(id, parent);
        }
        let ghost middle = *self;
        self.recompute_excluded(id);
        proof {
            assert(middle.row(id as int) == (Row {
                parent: middle.parent@[id as int],
                ..before.row(id as int)
            })) by {
                assert(middle.row(id as int) == middle.rows()[id as int]);
            }
            assert(self.rows() =~= before.rows_with(
                id as int,
                before.moved_row(id as int, parent),
            )) by {
                assert forall|i: int| 0 <= i < before.count() && i != id implies #[trigger] middle.rows()[i]
                    == before.rows()[i] by {}
            }
        }
        changed
    }

    /// Move an entry by bare record number, in an index made for a fixture:
    /// an unknown parent is the root.
    pub fn reparent_synthetic(&mut self, record: u64, new_parent_record: u64) -> (r: Option<
        EntryId,
    >)
        requires
            old(self).wf(),
            old(self).dir_topology_generation < u64::MAX,
        ensures
            final(self).wf(),
            ({
                let links = old(self).record_links(record);
                let parent = old(self).link_or_root(new_parent_record);
                if links.len() == 0 {
                    r is None && *final(self) == *old(self)
                } else {
                    let i = links[0] as int;
                    let is_dir = bit_set(old(self).flag@[i], IS_DIR);
                    &&& r == Some(links[0])
                    &&& final(self).rows() == old(self).rows_with(
                        i,
                        old(self).moved_row(i, parent),
                    )
                    &&& *final(self) == (VolumeIndex {
                        parent: final(self).parent,
                        flag: final(self).flag,
                        dir_topology_generation: if is_dir {
                            (old(self).dir_topology_generation + 1) as u64
                        } else {
                            old(self).dir_topology_generation
                        },
                        exclusion_tree_dirty: old(self).exclusion_tree_dirty || (is_dir && parent
                            != i && old(self).parent@[i] != parent),
                        ..*old(self)
                    })
                }
            }),
    {
        let id: EntryId = match self.entry_by_record(record) {
            Some(id) => id,
            None => {
                return None;
            },
        };
        let parent: EntryId = match self.entry_by_record(new_parent_record) {
            Some(p) => p,
            None => Self::ROOT,
        };
        proof {
            self.lemma_record_links(record);
            self.lemma_record_links(new_parent_record);
        }
        let is_dir: bool = self.is_dir(id);
        let changed: bool = self.move_id(id, parent);
        let ghost moved = *self;
        if is_dir {
            self.dir_topology_generation = self.dir_topology_generation + 1;
            if changed {
                self.exclusion_tree_dirty = true;
            }
        }
        proof {
            assert(self.rows() =~= moved.rows());
            self.lemma_originals_same(&moved);
        }
        Some(id)
    }

    /// The name order of entries.
    pub open spec fn name_order(&self) -> spec_fn(u32, u32) -> bool {
        |a: u32, b: u32| self.name_before(a as int, b as int)
    }

    /// Of two entries exactly one comes before the other in name order.
    pub proof fn lemma_name_total(&self, i: int, j: int)
        ensures
            i != j ==> (self.name_before(i, j) <==> !self.name_before(j, i)),
    {
        lemma_bytes_total(self.lower(i), self.lower(j));
        lemma_bytes_total(self.lower(j), self.lower(i));
    }

    /// The name order is transitive.
    pub proof fn lemma_name_transitive(&self, i: int, j: int, k: int)
        requires
            self.name_before(i, j),
            self.name_before(j, k),
        ensures
            self.name_before(i, k),
    {
        if bytes_less(self, i, j) && bytes_less(self, j, k) {
            lemma_bytes_transitive(self.lower(i), self.lower(j), self.lower(k));
        }
    }

    /// Whether an entry comes before another in name order.
    pub fn comes_before(&self, a: EntryId, b: EntryId) -> (r: bool)
        requires
            self.columns_wf(),
            a < self.count(),
            b < self.count(),
        ensures
            r == self.name_before(a as int, b as int),
    {
        proof {
            lemma_bytes_total(self.lower(a as int), self.lower(b as int));
        }
        match compare_bytes(self.lower_name(a), self.lower_name(b)) {
            Order::Less => true,
            Order::Same => a < b,
            Order::Greater => false,
        }
    }

    /// Where an entry goes among entries in name order, not before `from`.
    pub(crate) fn place_of(&self, ids: &Vec<EntryId>, id: EntryId, from: usize) -> (r: usize)
        requires
            self.columns_wf(),
            id < self.count(),
            from <= ids@.len(),
            forall|k: int|
                0 <= k < ids@.len() ==> (#[trigger] ids@[k]) < self.count() && ids@[k] != id,
        ensures
            from <= r <= ids@.len(),
            ascends(ids@, self.name_order()) ==> (forall|k: int|
                from <= k < r ==> self.name_before((#[trigger] ids@[k]) as int, id as int)) && (
            forall|k: int|
                r <= k < ids@.len() ==> self.name_before(id as int, (#[trigger] ids@[k]) as int)),
    {
        let ghost before = self.name_order();
        let mut lo: usize = from;
        let mut hi: usize = ids.len();
        while lo < hi
            invariant
                from <= lo <= hi <= ids@.len(),
                self.columns_wf(),
                id < self.count(),
                before == self.name_order(),
                forall|k: int|
                    0 <= k < ids@.len() ==> (#[trigger] ids@[k]) < self.count() && ids@[k] != id,
                ascends(ids@, before) ==> (forall|k: int|
                    from <= k < lo ==> self.name_before((#[trigger] ids@[k]) as int, id as int))
                    && (forall|k: int|
                    hi <= k < ids@.len() ==> self.name_before(
                        id as int,
                        (#[trigger] ids@[k]) as int,
                    )),
            decreases hi - lo,
        {
            let mid: usize = lo + (hi - lo) / 2;
            let there: EntryId = ids[mid];
            proof {
                self.lemma_name_total(there as int, id as int);
                if ascends(ids@, before) {
                    assert forall|k: int|
                        from <= k < mid && self.name_before(there as int, id as int) implies self.name_before(
                    (#[trigger] ids@[k]) as int, id as int) by {
                        assert(before(ids@[k], ids@[mid as int]));
                        self.lemma_name_transitive(ids@[k] as int, there as int, id as int);
                    }
                    assert forall|k: int|
                        mid < k < ids@.len() && self.name_before(id as int, there as int) implies self.name_before(
                    id as int, (#[trigger] ids@[k]) as int) by {
                        assert(before(ids@[mid as int], ids@[k]));
                        self.lemma_name_transitive(id as int, there as int, ids@[k] as int);
                    }
                }
            }
            if self.comes_before(there, id) {
                lo = mid + 1;
            } else {
                hi = mid;
            }
        }
        lo
    }

    /// Move an entry to its place in the name permutation.
    fn reposition(&mut self, pos: usize)
        requires
            old(self).wf(),
            pos < old(self).perm_name@.len(),
        ensures
            final(self).wf(),
            *final(self) == (VolumeIndex { perm_name: final(self).perm_name, ..*old(self) }),
            final(self).perm_name@.len() == old(self).perm_name@.len(),
            ascends(old(self).perm_name@.remove(pos as int), old(self).name_order())
                ==> final(self).name_sorted(),
    {
        let ghost before = *self;
        let ghost o = self.perm_name@;
        let id: EntryId = self.perm_name.remove(pos);
        let ghost c = self.perm_name@;
        proof {
            assert(c =~= o.remove(pos as int));
            assert forall|k: int| 0 <= k < c.len() implies (#[trigger] c[k]) < self.count()
                && c[k] != id by {
                let j = if k < pos {
                    k
                } else {
                    k + 1
                };
                assert(c[k] == o[j]);
                assert(o[j] != o[pos as int]);
            }
            self.lemma_originals_same(&before);
        }
        let at: usize = self.place_of(&self.perm_name, id, 0);
        self.perm_name.insert(at, id);
        proof {
            let s = self.perm_name@;
            assert(s =~= c.insert(at as int, id));
            assert forall|k: int| 0 <= k < s.len() implies (#[trigger] s[k]) < s.len() by {
                if k < at {
                    assert(s[k] == c[k]);
                    assert(c[k] == o[if k < pos { k } else { k + 1 }]);
                } else if k > at {
                    assert(s[k] == c[k - 1]);
                    assert(c[k - 1] == o[if k - 1 < pos { k - 1 } else { k }]);
                } else {
                    assert(o[pos as int] == id);
                }
            }
            assert forall|a: int, b: int| 0 <= a < b < s.len() implies #[trigger] s[a]
                != #[trigger] s[b] by {
                let ca = if a < at { a } else { a - 1 };
                let cb = if b < at { b } else { b - 1 };
                if a != at {
                    assert(s[a] == c[ca]);
                }
                if b != at {
                    assert(s[b] == c[cb]);
                }
                if a != at && b != at {
                    assert(c[ca] == o[if ca < pos { ca } else { ca + 1 }]);
                    assert(c[cb] == o[if cb < pos { cb } else { cb + 1 }]);
                }
            }
            self.lemma_originals_same(&before);
            assert forall|i: int| self.lower(i) == before.lower(i) by {}
            if ascends(c, before.name_order()) {
                let ord = before.name_order();
                assert forall|a: int, b: int| 0 <= a < b < s.len() implies self.name_before(
                    (#[trigger] s[a]) as int,
                    (#[trigger] s[b]) as int,
                ) by {
                    let ca = if a < at { a } else { a - 1 };
                    let cb = if b < at { b } else { b - 1 };
                    if a != at {
                        assert(s[a] == c[ca]);
                    }
                    if b != at {
                        assert(s[b] == c[cb]);
                    }
                    if a != at && b != at {
                        assert(ord(c[ca], c[cb]));
                    }
                    assert(before.name_before(s[a] as int, s[b] as int));
                }
            }
        }
    }

    /// Rename and move an entry in place: its number stays, so that its
    /// children keep their parent.
    fn rename_dir_id_in_place(&mut self, id: EntryId, name_utf16: &[u16], parent: EntryId) -> (r:
        Option<EntryId>)
        requires
            old(self).wf(),
            id < old(self).count(),
            parent < old(self).count(),
            old(self).has_name_room(
                name_utf16@.len() as int,
                wtf8_of(name_utf16@),
                lower_of(name_utf16@),
            ),
            old(self).dir_topology_generation < u64::MAX,
        ensures
            old(self).renamed_to(final(self), r, id, name_utf16@, parent),
    {
        let n: usize = self.perm_name.len();
        let mut pos: usize = 0;
        while pos < n && self.perm_name[pos] != id
            invariant
                pos <= n,
                n == self.perm_name@.len(),
                *self == *old(self),
                forall|k: int| 0 <= k < pos ==> #[trigger] self.perm_name@[k] != id,
            decreases n - pos,
        {
            pos = pos + 1;
        }
        if pos == n {
            proof {
                if occurs(self.perm_name@, id as int) {
                    let k = choose|k: int|
                        0 <= k < self.perm_name@.len() && #[trigger] self.perm_name@[k] == id as int;
                    assert(self.perm_name@[k] != id);
                }
            }
            return None;
        }
        let ghost before = *self;
        assert(before.perm_name@[pos as int] == id as int);
        let mut name: Vec<u8> = Vec::new();
        let mut lower: Vec<u8> = Vec::new();
        push_wtf8_pair(name_utf16, &mut name, &mut lower);
        proof {
            lemma_fold_keeps_length(name_utf16@);
            assert(name@ =~= wtf8_of(name_utf16@));
            assert(lower@ =~= lower_of(name_utf16@));
        }
        self.set_name(id, name.as_slice(), lower.as_slice());
        let ghost named = *self;
        let changed: bool = self.move_id(id, parent);
        let ghost moved = *self;
        proof {
            assert(named.row(id as int) == named.rows()[id as int]);
            assert forall|i: int| 0 <= i < before.count() && i != id implies #[trigger] moved.row(i)
                == before.row(i) by {
                assert(moved.row(i) == moved.rows()[i]);
                assert(named.row(i) == named.rows()[i]);
                assert(before.row(i) == before.rows()[i]);
            }
            assert(moved.row(id as int) == moved.rows()[id as int]);
            assert(moved.row(id as int) == (Row {
                name: wtf8_of(name_utf16@),
                lower: lower_of(name_utf16@),
                ..before.moved_row(id as int, parent)
            }));
            assert(moved.rows() =~= before.rows_with(
                id as int,
                (Row {
                    name: wtf8_of(name_utf16@),
                    lower: lower_of(name_utf16@),
                    ..before.moved_row(id as int, parent)
                }),
            ));
            if before.name_sorted() {
                let o = before.perm_name@;
                let c = o.remove(pos as int);
                assert forall|a: int, b: int| 0 <= a < b < c.len() implies (moved.name_order())(
                    #[trigger] c[a],
                    #[trigger] c[b],
                ) by {
                    let oa = if a < pos { a } else { a + 1 };
                    let ob = if b < pos { b } else { b + 1 };
                    assert(c[a] == o[oa] && c[b] == o[ob]);
                    assert(o[oa] != o[pos as int] && o[ob] != o[pos as int]);
                    assert(before.name_before(o[oa] as int, o[ob] as int));
                    assert(moved.row(o[oa] as int) == before.row(o[oa] as int));
                    assert(moved.row(o[ob] as int) == before.row(o[ob] as int));
                }
            }
        }
        self.reposition(pos);
        let ghost placed = *self;
        self.dir_topology_generation = self.dir_topology_generation + 1;
        if changed {
            self.exclusion_tree_dirty = true;
        }
        proof {
            assert(self.rows() =~= moved.rows());
            self.lemma_originals_same(&placed);
        }
        Some(id)
    }

    /// Rename and move a directory in place by bare record number, in an index
    /// made for a fixture: an unknown parent is the root.
    pub fn rename_dir_synthetic_in_place(
        &mut self,
        record: u64,
        name_utf16: &[u16],
        new_parent_record: u64,
    ) -> (r: Option<EntryId>)
        requires
            old(self).wf(),
            old(self).has_name_room(
                name_utf16@.len() as int,
                wtf8_of(name_utf16@),
                lower_of(name_utf16@),
            ),
            old(self).dir_topology_generation < u64::MAX,
        ensures
            ({
                let links = old(self).record_links(record);
                if links.len() == 0 {
                    r is None && *final(self) == *old(self)
                } else {
                    old(self).renamed_to(
                        final(self),
                        r,
                        links[0],
                        name_utf16@,
                        old(self).link_or_root(new_parent_record),
                    )
                }
            }),
    {
        let id: EntryId = match self.entry_by_record(record) {
            Some(id) => id,
            None => {
                return None;
            },
        };
        let parent: EntryId = match self.entry_by_record(new_parent_record) {
            Some(p) => p,
            None => Self::ROOT,
        };
        proof {
            self.lemma_record_links(record);
            self.lemma_record_links(new_parent_record);
        }
        self.rename_dir_id_in_place(id, name_utf16, parent)
    }

    /// Whether a directory may be renamed, and below which parent it goes; no
    /// parent where there is no such directory.
    pub open spec fn rename_verdict(&self, frn: Frn, name: Seq<u16>, parent: Frn) -> Result<
        Option<u32>,
        IndexMutationError,
    > {
        if !self.reference_valid(frn.0, false) {
            Err(IndexMutationError::InvalidReference { reference: frn })
        } else if name.len() == 0 {
            Err(IndexMutationError::EmptyName { object: frn })
        } else {
            match self.existing_links(frn, true) {
                Err(x) => Err(x),
                Ok(existing) => if existing == 0 {
                    Ok(None)
                } else {
                    match self.resolved_parent(frn, parent) {
                        Err(x) => Err(x),
                        Ok(p) => Ok(Some(p)),
                    }
                },
            }
        }
    }

    /// Rename and move the directory with this full reference in place.
    pub fn rename_dir_frn_in_place(&mut self, frn: Frn, name_utf16: &[u16], new_parent_frn: Frn) -> (r:
        Result<Option<EntryId>, IndexMutationError>)
        requires
            old(self).wf(),
            old(self).count() > 0,
            old(self).has_name_room(
                name_utf16@.len() as int,
                wtf8_of(name_utf16@),
                lower_of(name_utf16@),
            ),
            old(self).dir_topology_generation < u64::MAX,
        ensures
            match old(self).rename_verdict(frn, name_utf16@, new_parent_frn) {
                Err(x) => r == Err::<Option<EntryId>, IndexMutationError>(x) && *final(self)
                    == *old(self),
                Ok(None) => r == Ok::<Option<EntryId>, IndexMutationError>(None) && *final(self)
                    == *old(self),
                Ok(Some(parent)) => r is Ok && old(self).renamed_to(
                    final(self),
                    r->Ok_0,
                    old(self).object_links(frn.0)[0],
                    name_utf16@,
                    parent,
                ),
            },
    {
        match self.validate_mutation_reference(frn, false) {
            Ok(_) => {},
            Err(x) => {
                return Err(x);
            },
        }
        if name_utf16.len() == 0 {
            return Err(IndexMutationError::EmptyName { object: frn });
        }
        match self.validate_existing_object_kind(frn, true) {
            Ok(existing) => {
                if existing == 0 {
                    return Ok(None);
                }
            },
            Err(x) => {
                return Err(x);
            },
        }
        proof {
            self.lemma_object_links(frn.0);
        }
        let id: EntryId = match self.entry_by_frn(frn) {
            Some(id) => id,
            None => {
                return Err(
                    IndexMutationError::InvalidTopology { reason: TopologyFault::Vanished },
                );
            },
        };
        let parent: EntryId = match self.resolve_parent_for_mutation(frn, new_parent_frn) {
            Ok(parent) => parent,
            Err(x) => {
                return Err(x);
            },
        };
        Ok(self.rename_dir_id_in_place(id, name_utf16, parent))
    }

    /// What renaming an entry in place does.
    pub open spec fn renamed_to(
        &self,
        after: &VolumeIndex,
        r: Option<EntryId>,
        id: EntryId,
        name: Seq<u16>,
        parent: u32,
    ) -> bool {
        if !occurs(self.perm_name@, id as int) {
            r is None && *after == *self
        } else {
            &&& after.wf()
            &&& r == Some(id)
            &&& after.rows() == self.rows_with(
                id as int,
                (Row {
                    name: wtf8_of(name),
                    lower: lower_of(name),
                    ..self.moved_row(id as int, parent)
                }),
            )
            &&& after.perm_name@.len() == self.perm_name@.len()
            &&& self.name_sorted() ==> after.name_sorted()
            &&& after.frn_index == self.frn_index
            &&& after.content_generation == self.content_generation
            &&& after.structural_generation == self.structural_generation
            &&& after.stat_generation == self.stat_generation
            &&& after.dir_topology_generation == self.dir_topology_generation + 1
            &&& after.exclusion_tree_dirty == (self.exclusion_tree_dirty || (parent != id
                && self.parent@[id as int] != parent))
            &&& after.dead_name_bytes == Self::counted(
                self.dead_name_bytes,
                self.owned_bytes(id as int),
            )
            &&& after.one_name_more(self, wtf8_of(name), lower_of(name))
        }
    }
}

/// Entry `i` has a smaller folded name than entry `j`.
spec fn bytes_less(index: &VolumeIndex, i: int, j: int) -> bool {
    crate::order::bytes_lt(index.lower(i), index.lower(j))
}

/// Flags with these attributes.
pub open spec fn attrs_are(f: u8, reparse: bool, hidden: bool, system: bool) -> bool {
    bit_set(f, REPARSE) == reparse && bit_set(f, HIDDEN) == hidden && bit_set(f, SYSTEM) == system
}

} // verus!
