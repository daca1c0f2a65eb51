//! Appending, tombstoning and rewriting single entries.

use vstd::prelude::*;
use crate::dates::{mtime_ticks_to_secs, ticks_to_secs};
use crate::hashed::size_map_insert;
use crate::order::{compare_bytes, Order};
use crate::wtf8::{lemma_fold_keeps_length, lower_of, push_wtf8_pair, wtf8_of};
use super::columns::{
    dict_end, dict_name, dict_wf, extend, lemma_dead_count_bound, lemma_dead_count_update, Row,
    VolumeIndex, NONE,
};
use super::flags::{
    bit_set, hidden_or_system, lemma_raw_flags, lemma_with_bit, put_bit, raw_flags, with_bit,
    EXCLUDED, HIDDEN, IS_DIR, REPARSE, SYSTEM, TOMBSTONE,
};
use super::{EntryId, Frn, RawEntry, NO_PARENT};

verus! {

/// What is known of a new entry beside its name and parent.
#[derive(Clone, Copy)]
pub struct EntryFacts {
    /// The full reference.
    pub frn: Frn,
    /// The size in bytes.
    pub size: u64,
    /// The modification time in FILETIME ticks.
    pub mtime: i64,
    /// Whether it is a directory.
    pub is_dir: bool,
    /// Whether it is a reparse point.
    pub is_reparse: bool,
    /// Raw `FILE_ATTRIBUTE_HIDDEN`.
    pub is_hidden: bool,
    /// Raw `FILE_ATTRIBUTE_SYSTEM`.
    pub is_system: bool,
}

/// What is known of a raw entry beside its name and parent.
pub open spec fn facts_of(e: RawEntry<'_>) -> EntryFacts {
    EntryFacts {
        frn: e.frn,
        size: e.size,
        mtime: e.mtime,
        is_dir: e.is_dir,
        is_reparse: e.is_reparse,
        is_hidden: e.is_hidden,
        is_system: e.is_system,
    }
}

/// Appending a name to a dictionary keeps the names in it.
pub proof fn lemma_dict_append(pool: Seq<u8>, off: Seq<u32>, name: Seq<u8>)
    requires
        dict_wf(pool, off),
        pool.len() + name.len() <= NONE,
        off.len() < NONE,
    ensures
        dict_wf(pool + name, off.push(pool.len() as u32)),
        forall|k: int|
            0 <= k < off.len() ==> #[trigger] dict_name(
                pool + name,
                off.push(pool.len() as u32),
                k,
            ) == dict_name(pool, off, k),
        dict_name(pool + name, off.push(pool.len() as u32), off.len() as int) == name,
{
    let p2 = pool + name;
    let o2 = off.push(pool.len() as u32);
    assert forall|k: int| 0 <= k < off.len() implies #[trigger] dict_name(p2, o2, k) == dict_name(
        pool,
        off,
        k,
    ) by {
        assert(o2[k] == off[k]);
        if k + 1 < off.len() {
            assert(o2[k + 1] == off[k + 1]);
            assert(off[k] <= off[k + 1] <= pool.len());
        } else {
            assert(o2[k + 1] == pool.len());
        }
        assert(dict_end(p2, o2, k) == dict_end(pool, off, k));
        assert(dict_name(p2, o2, k) =~= dict_name(pool, off, k));
    }
    assert(dict_name(p2, o2, off.len() as int) =~= name);
}

impl VolumeIndex {
    /// Everything that holds between two calls: the columns, the name
    /// permutation and the index by record number are in order.
    pub open spec fn wf(&self) -> bool {
        &&& self.columns_wf()
        &&& self.order_wf()
        &&& self.frn_index.wf(self.frn@, self.flag@)
    }

    /// There is room for one more name of these bytes, given in `units`
    /// UTF-16 units, and for one more entry.
    pub open spec fn has_room(&self, units: int, name: Seq<u8>, lower: Seq<u8>) -> bool {
        &&& self.count() < NONE - 1
        &&& self.has_name_room(units, name, lower)
    }

    /// There is room for one more name of these bytes, given in `units`
    /// UTF-16 units.
    pub open spec fn has_name_room(&self, units: int, name: Seq<u8>, lower: Seq<u8>) -> bool {
        &&& self.dict_pool@.len() + 4 * units < NONE
        &&& self.dict_pool@.len() + lower.len() < NONE
        &&& self.dict_off@.len() < NONE
        &&& name != lower ==> self.orig_pool@.len() + name.len() < NONE
    }

    /// Entry `i` exists and is excluded.
    pub open spec fn excludes(&self, i: u32) -> bool {
        i < self.count() && bit_set(self.flag@[i as int], EXCLUDED)
    }

    /// The entry that is appended for a name, a parent and the given facts.
    pub open spec fn new_row(
        &self,
        name: Seq<u8>,
        lower: Seq<u8>,
        parent: u32,
        facts: EntryFacts,
    ) -> Row {
        Row {
            name,
            lower,
            parent,
            size: facts.size,
            mtime: ticks_to_secs(facts.mtime),
            frn: facts.frn.0,
            flag: with_bit(
                raw_flags(facts.is_dir, facts.is_reparse, facts.is_hidden, facts.is_system),
                EXCLUDED,
                facts.is_hidden || facts.is_system || self.excludes(parent),
            ),
        }
    }

    /// What a change of entries leaves as it was: the name permutation, the
    /// index by record number, and the generations.
    pub open spec fn same_orders(&self, other: &VolumeIndex) -> bool {
        &&& self.perm_name == other.perm_name
        &&& self.frn_index == other.frn_index
        &&& self.content_generation == other.content_generation
        &&& self.structural_generation == other.structural_generation
        &&& self.dir_topology_generation == other.dir_topology_generation
    }

    /// The two indices hold the same names.
    pub open spec fn same_names(&self, other: &VolumeIndex) -> bool {
        &&& self.dict_appends_since_dedup == other.dict_appends_since_dedup
        &&& self.dict_off == other.dict_off
        &&& self.dict_pool == other.dict_pool
        &&& self.orig_pool == other.orig_pool
    }

    /// The names of this index are those of `before` and one more: how far the
    /// dictionary and the pools have grown.
    pub open spec fn one_name_more(
        &self,
        before: &VolumeIndex,
        name: Seq<u8>,
        lower: Seq<u8>,
    ) -> bool {
        &&& self.dict_appends_since_dedup == before.dict_appends_since_dedup + 1
        &&& self.dict_off@.len() == before.dict_off@.len() + 1
        &&& self.dict_pool@.len() == before.dict_pool@.len() + lower.len()
        &&& self.orig_pool@.len() == before.orig_pool@.len() + (if name == lower {
            0
        } else {
            name.len() as int
        })
    }

    /// Append an entry whose name bytes are given.
    pub(crate) fn push_named(
        &mut self,
        name: &[u8],
        lower: &[u8],
        parent: EntryId,
        facts: EntryFacts,
    ) -> (r: EntryId)
        requires
            old(self).wf(),
            name@.len() == lower@.len(),
            old(self).has_room(0, name@, lower@),
            parent == NO_PARENT || parent <= old(self).count(),
        ensures
            final(self).wf(),
            r == old(self).count(),
            final(self).rows() == old(self).rows().push(
                old(self).new_row(name@, lower@, parent, facts),
            ),
            final(self).same_orders(old(self)),
            final(self).stat_generation == old(self).stat_generation,
            final(self).exclusion_tree_dirty == old(self).exclusion_tree_dirty,
            final(self).tombstones == old(self).tombstones,
            final(self).dead_name_bytes == old(self).dead_name_bytes,
            final(self).one_name_more(old(self), name@, lower@),
            old(self).owned_fits() ==> final(self).owned_fits(),
    {
        let ghost n = self.count();
        let ghost row = self.new_row(name@, lower@, parent, facts);
        let id: EntryId = self.name_id.len() as u32;
        let (name_id, orig_off): (u32, u32) = self.push_name(name, lower);
        let parent_excluded: bool = (parent as usize) < self.flag.len() && self.flag[parent as usize]
            & EXCLUDED != 0;
        self.name_id.push(name_id);
        self.orig_off.push(orig_off);
        self.parent.push(parent);
        if facts.size >= NONE as u64 {
            self.size_lo.push(NONE);
            size_map_insert(&mut self.size_ovf, id, facts.size);
        } else {
            self.size_lo.push(facts.size as u32);
        }
        self.mtime.push(mtime_ticks_to_secs(facts.mtime));
        self.frn.push(facts.frn.0);
        let mut f: u8 = put_bit(0, IS_DIR, facts.is_dir);
        f = put_bit(f, REPARSE, facts.is_reparse);
        f = put_bit(f, HIDDEN, facts.is_hidden);
        f = put_bit(f, SYSTEM, facts.is_system);
        f = put_bit(f, EXCLUDED, facts.is_hidden || facts.is_system || parent_excluded);
        self.flag.push(f);
        proof {
            let before = old(self);
            lemma_raw_flags(facts.is_dir, facts.is_reparse, facts.is_hidden, facts.is_system);
            lemma_with_bit(
                raw_flags(facts.is_dir, facts.is_reparse, facts.is_hidden, facts.is_system),
                EXCLUDED,
                facts.is_hidden || facts.is_system || parent_excluded,
                TOMBSTONE,
            );
            assert(self.flag@.drop_last() =~= before.flag@);
            assert forall|i: int| 0 <= i < n implies #[trigger] self.row(i) == before.row(i) by {
                assert(self.name_id@[i] == before.name_id@[i]);
                assert(before.name_id@[i] < before.dict_off@.len());
                assert(self.lower(i) == before.lower(i));
                if before.orig_off@[i] != NONE {
                    assert(self.original(i) =~= before.original(i));
                }
                assert(self.size_lo@[i] == before.size_lo@[i]);
            }
            assert(self.lower(n) == lower@);
            assert(self.original(n) =~= name@);
            assert(self.row(n) == row);
            assert(self.rows() =~= before.rows().push(row));
            assert(self.originals_wf()) by {
                assert forall|i: int|
                    0 <= i < self.orig_off@.len() && #[trigger] self.orig_off@[i] != NONE implies self.orig_off@[i]
                    + self.lower(i).len() <= self.orig_pool@.len() by {
                    if i < n {
                        assert(self.orig_off@[i] == before.orig_off@[i]);
                        assert(self.row(i) == before.row(i));
                        assert(before.orig_off@[i] + before.lower(i).len()
                            <= before.orig_pool@.len());
                    }
                }
            }
            assert(self.sizes_wf()) by {
                assert forall|i: int| 0 <= i < self.size_lo@.len() implies (
                #[trigger] self.size_lo@[i] == NONE <==> self.size_ovf@.contains_key(i as u32)) by {
                    if i < n {
                        assert(self.size_lo@[i] == before.size_lo@[i]);
                    } else {
                        assert(!before.size_ovf@.contains_key(n as u32));
                    }
                }
            }
            self.frn_index.lemma_wf_kept(before.frn@, before.flag@, self.frn@, self.flag@);
            assert forall|i: int| 0 <= i < n implies #[trigger] before.owns_same(self, i) by {
                assert(self.row(i) == before.row(i));
                assert(self.orig_off@[i] == before.orig_off@[i]);
            }
            before.lemma_owned_same(self, n);
        }
        id
    }

    /// Append a name to the dictionary, and its original spelling where it
    /// differs.
    fn push_name(&mut self, name: &[u8], lower: &[u8]) -> (r: (u32, u32))
        requires
            old(self).wf(),
            name@.len() == lower@.len(),
            old(self).has_name_room(0, name@, lower@),
        ensures
            r.0 == old(self).dict_off@.len(),
            r.1 == (if name@ == lower@ {
                NONE
            } else {
                old(self).orig_pool@.len() as u32
            }),
            final(self).dict_pool@ == old(self).dict_pool@ + lower@,
            final(self).dict_off@ == old(self).dict_off@.push(old(self).dict_pool@.len() as u32),
            final(self).orig_pool@ == (if name@ == lower@ {
                old(self).orig_pool@
            } else {
                old(self).orig_pool@ + name@
            }),
            *final(self) == (VolumeIndex {
                dict_pool: final(self).dict_pool,
                dict_off: final(self).dict_off,
                orig_pool: final(self).orig_pool,
                dict_appends_since_dedup: (old(self).dict_appends_since_dedup + 1) as u32,
                ..*old(self)
            }),
            dict_wf(final(self).dict_pool@, final(self).dict_off@),
            forall|k: int|
                0 <= k < old(self).dict_off@.len() ==> #[trigger] dict_name(
                    final(self).dict_pool@,
                    final(self).dict_off@,
                    k,
                ) == dict_name(old(self).dict_pool@, old(self).dict_off@, k),
            dict_name(
                final(self).dict_pool@,
                final(self).dict_off@,
                old(self).dict_off@.len() as int,
            ) == lower@,
    {
        proof {
            lemma_dict_append(self.dict_pool@, self.dict_off@, lower@);
        }
        let name_id: u32 = self.dict_off.len() as u32;
        let off: u32 = self.dict_pool.len() as u32;
        extend(&mut self.dict_pool, lower);
        self.dict_off.push(off);
        self.dict_appends_since_dedup = self.dict_appends_since_dedup + 1;
        match compare_bytes(name, lower) {
            Order::Same => (name_id, NONE),
            _ => {
                let at: u32 = self.orig_pool.len() as u32;
                extend(&mut self.orig_pool, name);
                (name_id, at)
            },
        }
    }

    /// Give an entry another name. The bytes of its old spelling are no longer
    /// used.
    pub(crate) fn set_name(&mut self, id: EntryId, name: &[u8], lower: &[u8])
        requires
            old(self).wf(),
            id < old(self).count(),
            name@.len() == lower@.len(),
            old(self).has_name_room(0, name@, lower@),
        ensures
            final(self).wf(),
            final(self).rows() == old(self).rows_with(
                id as int,
                (Row { name: name@, lower: lower@, ..old(self).row(id as int) }),
            ),
            *final(self) == (VolumeIndex {
                dict_pool: final(self).dict_pool,
                dict_off: final(self).dict_off,
                name_id: final(self).name_id,
                orig_pool: final(self).orig_pool,
                orig_off: final(self).orig_off,
                dead_name_bytes: Self::counted(
                    old(self).dead_name_bytes,
                    old(self).owned_bytes(id as int),
                ),
                dict_appends_since_dedup: (old(self).dict_appends_since_dedup + 1) as u32,
                ..*old(self)
            }),
            final(self).count() == old(self).count(),
            final(self).one_name_more(old(self), name@, lower@),
    {
        let owned: u64 = self.owned_name_bytes(id);
        let (name_id, orig_off): (u32, u32) = self.push_name(name, lower);
        self.dead_name_bytes = self.dead_name_bytes.saturating_add(owned);
        self.name_id[id as usize] = name_id;
        self.orig_off[id as usize] = orig_off;
        proof {
            let before = old(self);
            let n = before.count();
            assert forall|i: int| 0 <= i < n && i != id implies #[trigger] self.row(i)
                == before.row(i) by {
                assert(self.name_id@[i] == before.name_id@[i]);
                assert(before.name_id@[i] < before.dict_off@.len());
                assert(self.lower(i) == before.lower(i));
                assert(self.orig_off@[i] == before.orig_off@[i]);
                if before.orig_off@[i] != NONE {
                    assert(self.original(i) =~= before.original(i));
                }
            }
            assert(self.lower(id as int) == lower@);
            assert(self.original(id as int) =~= name@);
            assert(self.rows() =~= before.rows_with(
                id as int,
                (Row { name: name@, lower: lower@, ..before.row(id as int) }),
            ));
            assert(self.originals_wf()) by {
                assert forall|i: int|
                    0 <= i < self.orig_off@.len() && #[trigger] self.orig_off@[i] != NONE implies self.orig_off@[i]
                    + self.lower(i).len() <= self.orig_pool@.len() by {
                    if i != id {
                        assert(self.orig_off@[i] == before.orig_off@[i]);
                        assert(self.row(i) == before.row(i));
                        assert(before.orig_off@[i] + before.lower(i).len()
                            <= before.orig_pool@.len());
                    }
                }
            }
            assert forall|i: int| 0 <= i < n implies (#[trigger] self.name_id@[i])
                < self.dict_off@.len() by {
                if i != id {
                    assert(before.name_id@[i] < before.dict_off@.len());
                }
            }
        }
    }

    /// Give an entry another parent.
    pub(crate) fn set_parent(&mut self, id: EntryId, parent: EntryId)
        requires
            old(self).wf(),
            id < old(self).count(),
            parent == NO_PARENT || parent < old(self).count(),
        ensures
            final(self).wf(),
            final(self).rows() == old(self).rows_with(
                id as int,
                (Row { parent, ..old(self).row(id as int) }),
            ),
            final(self).parent@ == old(self).parent@.update(id as int, parent),
            *final(self) == (VolumeIndex { parent: final(self).parent, ..*old(self) }),
    {
        self.parent[id as usize] = parent;
        proof {
            let before = old(self);
            assert forall|i: int| 0 <= i < self.count() && i != id implies #[trigger] self.row(i)
                == before.row(i) by {}
            assert(self.rows() =~= before.rows_with(
                id as int,
                (Row { parent, ..before.row(id as int) }),
            ));
            assert(self.originals_wf()) by {
                assert forall|i: int|
                    0 <= i < self.orig_off@.len() && #[trigger] self.orig_off@[i] != NONE implies self.orig_off@[i]
                    + self.lower(i).len() <= self.orig_pool@.len() by {
                    assert(before.orig_off@[i] + before.lower(i).len() <= before.orig_pool@.len());
                }
            }
        }
    }

    /// Give all entries other parents.
    pub(crate) fn set_parents(&mut self, parents: Vec<EntryId>)
        requires
            old(self).wf(),
            parents@.len() == old(self).count(),
            forall|i: int|
                0 <= i < parents@.len() ==> #[trigger] parents@[i] == NO_PARENT || parents@[i]
                    < old(self).count(),
        ensures
            final(self).wf(),
            *final(self) == (VolumeIndex { parent: parents, ..*old(self) }),
    {
        self.parent = parents;
        proof {
            let before = old(self);
            assert(self.originals_wf()) by {
                assert forall|i: int|
                    0 <= i < self.orig_off@.len() && #[trigger] self.orig_off@[i] != NONE implies self.orig_off@[i]
                    + self.lower(i).len() <= self.orig_pool@.len() by {
                    assert(before.orig_off@[i] + before.lower(i).len() <= before.orig_pool@.len());
                }
            }
        }
    }

    /// Append an entry with a resolved parent.
    pub(crate) fn push_raw(&mut self, e: &RawEntry<'_>, parent: EntryId) -> (r: EntryId)
        requires
            old(self).wf(),
            old(self).has_room(
                e.name_utf16@.len() as int,
                wtf8_of(e.name_utf16@),
                lower_of(e.name_utf16@),
            ),
            parent == NO_PARENT || parent <= old(self).count(),
        ensures
            final(self).wf(),
            r == old(self).count(),
            final(self).rows() == old(self).rows().push(
                old(self).new_row(
                    wtf8_of(e.name_utf16@),
                    lower_of(e.name_utf16@),
                    parent,
                    facts_of(*e),
                ),
            ),
            final(self).same_orders(old(self)),
            final(self).stat_generation == old(self).stat_generation,
            final(self).exclusion_tree_dirty == old(self).exclusion_tree_dirty,
            final(self).tombstones == old(self).tombstones,
            final(self).dead_name_bytes == old(self).dead_name_bytes,
            final(self).one_name_more(
                old(self),
                wtf8_of(e.name_utf16@),
                lower_of(e.name_utf16@),
            ),
            old(self).owned_fits() ==> final(self).owned_fits(),
    {
        let mut name: Vec<u8> = Vec::new();
        let mut lower: Vec<u8> = Vec::new();
        push_wtf8_pair(e.name_utf16, &mut name, &mut lower);
        proof {
            lemma_fold_keeps_length(e.name_utf16@);
            assert(name@ =~= wtf8_of(e.name_utf16@));
            assert(lower@ =~= lower_of(e.name_utf16@));
        }
        let facts = EntryFacts {
            frn: e.frn,
            size: e.size,
            mtime: e.mtime,
            is_dir: e.is_dir,
            is_reparse: e.is_reparse,
            is_hidden: e.is_hidden,
            is_system: e.is_system,
        };
        self.push_named(name.as_slice(), lower.as_slice(), parent, facts)
    }

    /// The entries with entry `i` changed to `row`.
    pub open spec fn rows_with(&self, i: int, row: Row) -> Seq<Row> {
        self.rows().update(i, row)
    }

    /// Write the flag bits of `id`; the tombstone bit may only be set.
    pub(crate) fn set_flag(&mut self, id: EntryId, f: u8)
        requires
            old(self).wf(),
            id < old(self).count(),
            bit_set(old(self).flag@[id as int], TOMBSTONE) ==> bit_set(f, TOMBSTONE),
        ensures
            final(self).wf(),
            final(self).rows() == old(self).rows_with(
                id as int,
                (Row { flag: f, ..old(self).row(id as int) }),
            ),
            final(self).flag@ == old(self).flag@.update(id as int, f),
            *final(self) == (VolumeIndex {
                flag: final(self).flag,
                tombstones: final(self).tombstones,
                ..*old(self)
            }),
            final(self).tombstones == old(self).tombstones + (if bit_set(f, TOMBSTONE) && !bit_set(
                old(self).flag@[id as int],
                TOMBSTONE,
            ) {
                1int
            } else {
                0
            }),
    {
        let dies: bool = f & TOMBSTONE != 0 && self.flag[id as usize] & TOMBSTONE == 0;
        proof {
            lemma_dead_count_update(self.flag@, id as int, f);
            lemma_dead_count_bound(self.flag@.update(id as int, f));
        }
        if dies {
            self.tombstones = self.tombstones + 1;
        }
        self.flag[id as usize] = f;
        proof {
            let before = old(self);
            assert forall|i: int| 0 <= i < self.count() && i != id implies #[trigger] self.row(i)
                == before.row(i) by {}
            assert(self.rows() =~= before.rows_with(
                id as int,
                (Row { flag: f, ..before.row(id as int) }),
            ));
            assert(self.originals_wf()) by {
                assert forall|i: int|
                    0 <= i < self.orig_off@.len() && #[trigger] self.orig_off@[i] != NONE implies self.orig_off@[i]
                    + self.lower(i).len() <= self.orig_pool@.len() by {
                    assert(before.orig_off@[i] + before.lower(i).len() <= before.orig_pool@.len());
                }
            }
            self.frn_index.lemma_wf_kept(before.frn@, before.flag@, self.frn@, self.flag@);
        }
    }

    /// The bytes of `id`'s own original spelling.
    pub open spec fn owned_bytes(&self, i: int) -> int {
        if self.orig_off@[i] == NONE {
            0
        } else {
            self.lower(i).len() as int
        }
    }

    /// `a + b`, cut to what the counter holds.
    pub open spec fn counted(a: u64, b: int) -> u64 {
        if a + b > u64::MAX {
            u64::MAX
        } else {
            (a + b) as u64
        }
    }

    /// Name bytes that only `id` uses and a rebuild reclaims: its original
    /// spelling. Folded bytes are shared.
    pub(crate) fn owned_name_bytes(&self, id: EntryId) -> (r: u64)
        requires
            self.columns_wf(),
            id < self.count(),
        ensures
            r == self.owned_bytes(id as int),
    {
        if self.orig_off[id as usize] == NONE {
            0
        } else {
            self.name_len_of(id) as u64
        }
    }

    /// Tombstone a live entry.
    pub fn tombstone_id(&mut self, id: EntryId)
        requires
            old(self).wf(),
            id < old(self).count(),
            old(self).live(id as int),
        ensures
            final(self).wf(),
            final(self).rows() == old(self).rows_with(
                id as int,
                (Row {
                    flag: with_bit(old(self).row(id as int).flag, TOMBSTONE, true),
                    ..old(self).row(id as int)
                }),
            ),
            final(self).flag@ == old(self).flag@.update(
                id as int,
                with_bit(old(self).flag@[id as int], TOMBSTONE, true),
            ),
            *final(self) == (VolumeIndex {
                flag: final(self).flag,
                tombstones: (old(self).tombstones + 1) as u32,
                dead_name_bytes: Self::counted(
                    old(self).dead_name_bytes,
                    old(self).owned_bytes(id as int),
                ),
                ..*old(self)
            }),
            old(self).tombstones < u32::MAX,
    {
        let f: u8 = put_bit(self.flag[id as usize], TOMBSTONE, true);
        let owned: u64 = self.owned_name_bytes(id);
        proof {
            lemma_with_bit(self.flag@[id as int], TOMBSTONE, true, TOMBSTONE);
        }
        self.set_flag(id, f);
        let ghost middle = *self;
        self.dead_name_bytes = self.dead_name_bytes.saturating_add(owned);
        proof {
            assert forall|i: int| 0 <= i < self.count() implies #[trigger] self.row(i)
                == middle.row(i) by {}
            assert(self.rows() =~= middle.rows());
            assert(self.originals_wf()) by {
                assert forall|i: int|
                    0 <= i < self.orig_off@.len() && #[trigger] self.orig_off@[i] != NONE implies self.orig_off@[i]
                    + self.lower(i).len() <= self.orig_pool@.len() by {
                    assert(middle.orig_off@[i] + middle.lower(i).len() <= middle.orig_pool@.len());
                }
            }
        }
    }

    /// The exclusion bit that goes with an entry's own bits and its parent.
    pub open spec fn derived_flag(&self, i: int) -> u8 {
        let p = self.parent@[i];
        with_bit(
            self.flag@[i],
            EXCLUDED,
            hidden_or_system(self.flag@[i]) || (p != NO_PARENT && p != i && bit_set(
                self.flag@[p as int],
                EXCLUDED,
            )),
        )
    }

    /// Derive the exclusion of `id` from its own bits and its current parent.
    pub(crate) fn recompute_excluded(&mut self, id: EntryId)
        requires
            old(self).wf(),
            id < old(self).count(),
        ensures
            final(self).wf(),
            final(self).rows() == old(self).rows_with(
                id as int,
                (Row { flag: old(self).derived_flag(id as int), ..old(self).row(id as int) }),
            ),
            final(self).flag@ == old(self).flag@.update(
                id as int,
                old(self).derived_flag(id as int),
            ),
            *final(self) == (VolumeIndex { flag: final(self).flag, ..*old(self) }),
    {
        let p: u32 = self.parent[id as usize];
        let f: u8 = self.flag[id as usize];
        let inherited: bool = p != NO_PARENT && p != id && self.flag[p as usize] & EXCLUDED != 0;
        let own: bool = f & HIDDEN != 0 || f & SYSTEM != 0;
        let g: u8 = put_bit(f, EXCLUDED, own || inherited);
        proof {
            lemma_with_bit(f, EXCLUDED, own || inherited, TOMBSTONE);
        }
        self.set_flag(id, g);
    }

    /// The size and time of `id`, replaced where they differ; says whether
    /// they did.
    pub(crate) fn update_stat_id(&mut self, id: EntryId, size: u64, mtime: i64) -> (changed: bool)
        requires
            old(self).wf(),
            id < old(self).count(),
        ensures
            final(self).wf(),
            changed == (old(self).row(id as int).size != size || old(self).row(id as int).mtime
                != ticks_to_secs(mtime)),
            final(self).rows() == old(self).rows_with(
                id as int,
                (Row { size, mtime: ticks_to_secs(mtime), ..old(self).row(id as int) }),
            ),
            *final(self) == (VolumeIndex {
                size_lo: final(self).size_lo,
                size_ovf: final(self).size_ovf,
                mtime: final(self).mtime,
                ..*old(self)
            }),
    {
        let secs: u32 = mtime_ticks_to_secs(mtime);
        let ghost before = *self;
        if self.size(id) == size && self.mtime[id as usize] == secs {
            proof {
                assert(self.rows() =~= before.rows_with(
                    id as int,
                    (Row { size, mtime: secs, ..before.row(id as int) }),
                ));
            }
            return false;
        }
        self.set_size(id, size);
        let ghost middle = *self;
        self.mtime[id as usize] = secs;
        proof {
            assert forall|i: int| 0 <= i < self.count() && i != id implies #[trigger] self.row(i)
                == before.row(i) by {
                assert(middle.bytes_of(i) == before.bytes_of(i));
            }
            assert(self.bytes_of(id as int) == middle.bytes_of(id as int));
            assert(self.rows() =~= before.rows_with(
                id as int,
                (Row { size, mtime: secs, ..before.row(id as int) }),
            ));
            assert(self.originals_wf()) by {
                assert forall|i: int|
                    0 <= i < self.orig_off@.len() && #[trigger] self.orig_off@[i] != NONE implies self.orig_off@[i]
                    + self.lower(i).len() <= self.orig_pool@.len() by {
                    assert(before.orig_off@[i] + before.lower(i).len() <= before.orig_pool@.len());
                }
            }
        }
        true
    }
}

} // verus!
