//! Compaction: a copy of an index without tombstoned entries and without name
//! bytes that are no longer used.
//!
//! Live entries keep their relative order, so what is sorted stays sorted
//! when the dead are left out and the others renumbered.

use vstd::prelude::*;
use crate::dates::lemma_secs_round_trip;
use crate::hashed::{new_size_map, size_map_shrink};
use crate::order::{
    is_permutation, lemma_ascending_unique, lemma_distinct_below, lemma_onto_len,
    lemma_permutation_onto, occurs, strictly_ascends,
};
use super::columns::{dead_count, Row, VolumeIndex, NONE};
use super::exclusion::all_derived;
use super::flags::{bit_set, TOMBSTONE};
use super::frn::{frn_before, is_link, lemma_links_up, links_up, FrnIndex};
use super::rows::EntryFacts;
use super::{EntryId, NO_PARENT};

verus! {

/// Below this size dead entries alone are not worth a rebuild.
pub const COMPACT_MIN_ENTRIES: usize = 100_000;

/// Unused name bytes that are worth a rebuild whatever the size.
pub const COMPACT_DEAD_NAME_BYTES: u64 = 33_554_432;

/// The live ones of the first `n` entries.
pub open spec fn live_ids(flag: Seq<u8>, n: int) -> Seq<u32>
    decreases n,
{
    if n <= 0 {
        Seq::empty()
    } else if !bit_set(flag[n - 1], TOMBSTONE) {
        live_ids(flag, n - 1).push((n - 1) as u32)
    } else {
        live_ids(flag, n - 1)
    }
}

/// The number that entry `i` gets: how many live entries are before it.
pub open spec fn new_id(flag: Seq<u8>, i: int) -> int {
    live_ids(flag, i).len() as int
}

/// The live entries ascend, and each is found at its new number.
pub proof fn lemma_live_ids(flag: Seq<u8>, n: int)
    requires
        0 <= n <= flag.len(),
        n <= 0xFFFF_FFFF,
    ensures
        live_ids(flag, n).len() <= n,
        forall|k: int|
            0 <= k < live_ids(flag, n).len() ==> (#[trigger] live_ids(flag, n)[k]) < n && !bit_set(
                flag[live_ids(flag, n)[k] as int],
                TOMBSTONE,
            ) && new_id(flag, live_ids(flag, n)[k] as int) == k,
        forall|i: int|
            0 <= i < n && !bit_set(#[trigger] flag[i], TOMBSTONE) ==> new_id(flag, i) < live_ids(
                flag,
                n,
            ).len() && live_ids(flag, n)[new_id(flag, i)] == i,
    decreases n,
{
    if n > 0 {
        lemma_live_ids(flag, n - 1);
        let s = live_ids(flag, n);
        let t = live_ids(flag, n - 1);
        assert forall|k: int| 0 <= k < s.len() implies (#[trigger] s[k]) < n && !bit_set(
            flag[s[k] as int],
            TOMBSTONE,
        ) && new_id(flag, s[k] as int) == k by {
            if k < t.len() {
                assert(s[k] == t[k]);
            }
        }
        assert forall|i: int| 0 <= i < n && !bit_set(#[trigger] flag[i], TOMBSTONE) implies new_id(
            flag,
            i,
        ) < s.len() && s[new_id(flag, i)] == i by {
            if i < n - 1 {
                assert(s[new_id(flag, i)] == t[new_id(flag, i)]);
            }
        }
    }
}

/// Live entries keep their order.
pub proof fn lemma_new_id_grows(flag: Seq<u8>, i: int, j: int)
    requires
        0 <= i < j,
        !bit_set(flag[i], TOMBSTONE),
    ensures
        new_id(flag, i) < new_id(flag, j),
    decreases j,
{
    if i < j - 1 {
        lemma_new_id_grows(flag, i, j - 1);
    }
}

/// The items that are live, by their new numbers.
pub open spec fn renumbered(ids: Seq<u32>, flag: Seq<u8>) -> Seq<u32>
    decreases ids.len(),
{
    if ids.len() == 0 {
        Seq::empty()
    } else if !bit_set(flag[ids.last() as int], TOMBSTONE) {
        renumbered(ids.drop_last(), flag).push(new_id(flag, ids.last() as int) as u32)
    } else {
        renumbered(ids.drop_last(), flag)
    }
}

/// `q[x]` is the new number of `ids[at[x]]`, and `at` ascends.
spec fn picks(ids: Seq<u32>, flag: Seq<u8>, q: Seq<u32>, at: Seq<int>) -> bool {
    &&& at.len() == q.len()
    &&& forall|x: int|
        0 <= x < q.len() ==> 0 <= (#[trigger] at[x]) < ids.len() && !bit_set(
            flag[ids[at[x]] as int],
            TOMBSTONE,
        ) && q[x] == new_id(flag, ids[at[x]] as int)
    &&& forall|x: int, y: int| 0 <= x < y < q.len() ==> (#[trigger] at[x]) < (#[trigger] at[y])
}

/// What renumbering keeps: the order, and every live item.
proof fn lemma_renumbered(ids: Seq<u32>, flag: Seq<u8>) -> (at: Seq<int>)
    requires
        flag.len() <= 0xFFFF_FFFF,
        forall|i: int| 0 <= i < ids.len() ==> (#[trigger] ids[i]) < flag.len(),
    ensures
        picks(ids, flag, renumbered(ids, flag), at),
        forall|i: int|
            0 <= i < ids.len() && !bit_set(flag[(#[trigger] ids[i]) as int], TOMBSTONE) ==> occurs(
                renumbered(ids, flag),
                new_id(flag, ids[i] as int),
            ),
        renumbered(ids, flag).len() <= ids.len(),
    decreases ids.len(),
{
    let q = renumbered(ids, flag);
    if ids.len() == 0 {
        Seq::empty()
    } else {
        let d = ids.drop_last();
        let last = ids.last() as int;
        assert forall|i: int| 0 <= i < d.len() implies (#[trigger] d[i]) < flag.len() by {
            assert(d[i] == ids[i]);
        }
        let at = lemma_renumbered(d, flag);
        let p = renumbered(d, flag);
        assert(ids[ids.len() - 1] == last);
        lemma_live_ids(flag, last);
        let r = if !bit_set(flag[last], TOMBSTONE) {
            at.push(ids.len() - 1)
        } else {
            at
        };
        assert forall|x: int| 0 <= x < q.len() implies 0 <= (#[trigger] r[x]) < ids.len()
            && !bit_set(flag[ids[r[x]] as int], TOMBSTONE) && q[x] == new_id(
            flag,
            ids[r[x]] as int,
        ) by {
            if x < p.len() {
                assert(r[x] == at[x]);
                assert(ids[at[x]] == d[at[x]]);
            }
        }
        assert forall|x: int, y: int| 0 <= x < y < q.len() implies (#[trigger] r[x]) < (
        #[trigger] r[y]) by {
            assert(r[x] == at[x]);
            if y < p.len() {
                assert(r[y] == at[y]);
            }
        }
        assert forall|i: int|
            0 <= i < ids.len() && !bit_set(
                flag[(#[trigger] ids[i]) as int],
                TOMBSTONE,
            ) implies occurs(q, new_id(flag, ids[i] as int)) by {
            if i < d.len() {
                assert(d[i] == ids[i]);
                assert(occurs(p, new_id(flag, ids[i] as int)));
                let k = choose|k: int|
                    0 <= k < p.len() && #[trigger] p[k] == new_id(flag, ids[i] as int);
                assert(q[k] == new_id(flag, ids[i] as int));
            } else {
                assert(q[p.len() as int] == new_id(flag, ids[i] as int));
            }
        }
        r
    }
}

/// Leave out the dead and renumber the others.
fn renumber(ids: &Vec<u32>, remap: &Vec<u32>, Ghost(flag): Ghost<Seq<u8>>) -> (r: Vec<u32>)
    requires
        remap_of(remap@, flag),
        forall|i: int| 0 <= i < ids@.len() ==> (#[trigger] ids@[i]) < flag.len(),
    ensures
        r@ == renumbered(ids@, flag),
{
    let mut r: Vec<u32> = Vec::new();
    let mut i: usize = 0;
    assert(ids@.take(0) =~= Seq::empty());
    while i < ids.len()
        invariant
            i <= ids@.len(),
            remap_of(remap@, flag),
            forall|k: int| 0 <= k < ids@.len() ==> (#[trigger] ids@[k]) < flag.len(),
            r@ == renumbered(ids@.take(i as int), flag),
        decreases ids@.len() - i,
    {
        let id: u32 = ids[i];
        proof {
            assert(ids@.take(i + 1).drop_last() =~= ids@.take(i as int));
            assert(ids@.take(i + 1).last() == id);
            lemma_live_ids(flag, id as int);
        }
        let n: u32 = remap[id as usize];
        if n != NO_PARENT {
            r.push(n);
        }
        i = i + 1;
    }
    assert(ids@.take(i as int) =~= ids@);
    r
}

/// The new number of each live entry.
pub open spec fn remap_of(remap: Seq<u32>, flag: Seq<u8>) -> bool {
    &&& remap.len() == flag.len()
    &&& flag.len() < NONE
    &&& forall|i: int|
        0 <= i < flag.len() ==> #[trigger] remap[i] == (if bit_set(flag[i], TOMBSTONE) {
            NO_PARENT
        } else {
            new_id(flag, i) as u32
        })
}

/// `Vec::shrink_to_fit`: the vector holds what it held.
#[verifier::external_body]
pub(crate) fn shrink<T>(v: &mut Vec<T>)
    ensures
        final(v)@ == old(v)@,
{
    v.shrink_to_fit();
}

impl FrnIndex {
    /// Give back memory that is not used; what is held stays. How much is
    /// given back, the allocator decides.
    pub fn shrink_to_fit(&mut self)
        ensures
            final(self).ids@ == old(self).ids@,
            final(self).covers == old(self).covers,
    {
        shrink(&mut self.ids);
    }

    /// A copy for the renumbered entries. Record numbers stay, and the order
    /// of entries is kept, so the array stays sorted.
    pub(crate) fn compact(
        &self,
        remap: &Vec<u32>,
        new_len: u32,
        Ghost(frn): Ghost<Seq<u64>>,
        Ghost(flag): Ghost<Seq<u8>>,
    ) -> (r: FrnIndex)
        requires
            self.wf(frn, flag),
            self.covers == frn.len(),
            remap_of(remap@, flag),
            new_len == live_ids(flag, flag.len() as int).len(),
        ensures
            r.covers == new_len,
            r.wf(live_frns(frn, flag), live_flags(flag)),
    {
        let ids: Vec<u32> = renumber(&self.ids, remap, Ghost(flag));
        let r = FrnIndex { ids, covers: new_len };
        proof {
            let fs = live_frns(frn, flag);
            let gs = live_flags(flag);
            let n = flag.len() as int;
            let all = live_ids(flag, n);
            let o = self.ids@;
            let q = r.ids@;
            let at = lemma_renumbered(o, flag);
            lemma_live_ids(flag, n);
            assert forall|x: int| 0 <= x < q.len() implies (#[trigger] q[x]) < new_len by {
                let i = o[at[x]] as int;
                assert(!bit_set(flag[i], TOMBSTONE));
            }
            assert forall|x: int, y: int| 0 <= x < y < q.len() implies frn_before(
                fs,
                #[trigger] q[x],
                #[trigger] q[y],
            ) by {
                let i = o[at[x]];
                let j = o[at[y]];
                assert(at[x] < at[y]);
                assert(frn_before(frn, i, j));
                assert(!bit_set(flag[i as int], TOMBSTONE) && !bit_set(flag[j as int], TOMBSTONE));
                assert(fs[q[x] as int] == frn[i as int]);
                assert(fs[q[y] as int] == frn[j as int]);
                if i < j {
                    lemma_new_id_grows(flag, i as int, j as int);
                }
            }
            assert forall|x: int|
                0 <= x < r.covers && !bit_set(#[trigger] gs[x], TOMBSTONE) implies occurs(q, x) by {
                let i = all[x] as int;
                assert(!bit_set(flag[i], TOMBSTONE));
                assert(occurs(o, i));
                let k = choose|k: int| 0 <= k < o.len() && #[trigger] o[k] == i;
                assert(occurs(q, new_id(flag, o[k] as int)));
            }
        }
        r
    }
}

/// The references of the live entries.
pub open spec fn live_frns(frn: Seq<u64>, flag: Seq<u8>) -> Seq<u64> {
    let ids = live_ids(flag, flag.len() as int);
    Seq::new(ids.len(), |k: int| frn[ids[k] as int])
}

/// The flags of the live entries.
pub open spec fn live_flags(flag: Seq<u8>) -> Seq<u8> {
    let ids = live_ids(flag, flag.len() as int);
    Seq::new(ids.len(), |k: int| flag[ids[k] as int])
}

impl VolumeIndex {
    /// Compaction is worth while for an index of at least `min_entries`
    /// entries: more than an eighth of the entries is dead; or, whatever the
    /// size, unused name bytes or repeated names have piled up.
    pub open spec fn worth_compacting(&self, min_entries: usize) -> bool {
        let n = self.count();
        let dead = dead_count(self.flag@);
        ||| n >= min_entries && n >= 1 && dead * 8 > n
        ||| self.dead_name_bytes > COMPACT_DEAD_NAME_BYTES
        ||| self.dict_appends_since_dedup > (n - dead) / 4
    }

    /// Should this index be compacted?
    pub fn compaction_due(&self) -> (r: bool)
        requires
            self.columns_wf(),
        ensures
            r == self.worth_compacting(COMPACT_MIN_ENTRIES),
    {
        self.compaction_due_past(COMPACT_MIN_ENTRIES)
    }

    /// [`VolumeIndex::compaction_due`] with another size below which dead
    /// entries alone do not count.
    pub fn compaction_due_past(&self, min_entries: usize) -> (r: bool)
        requires
            self.columns_wf(),
        ensures
            r == self.worth_compacting(min_entries),
    {
        let (dead, n): (u32, usize) = self.tombstone_share();
        let sparse: bool = n >= min_entries && n >= 1 && dead as u64 * 8 > n as u64;
        let garbage: bool = self.dead_name_bytes > COMPACT_DEAD_NAME_BYTES;
        let churn: bool = self.dict_appends_since_dedup as usize > self.live_len() / 4;
        sparse || garbage || churn
    }

    /// Give back memory that is not used; every column keeps what it holds.
    /// How much is given back, the allocator decides.
    pub fn shrink_to_fit(&mut self)
        requires
            old(self).wf(),
        ensures
            final(self).wf(),
            final(self).rows() == old(self).rows(),
            final(self).perm_name@ == old(self).perm_name@,
            old(self).name_sorted() ==> final(self).name_sorted(),
            final(self).dict_pool@ == old(self).dict_pool@,
            final(self).dict_off@ == old(self).dict_off@,
            final(self).name_id@ == old(self).name_id@,
            final(self).orig_pool@ == old(self).orig_pool@,
            final(self).orig_off@ == old(self).orig_off@,
            final(self).frn_index.covers == old(self).frn_index.covers,
            final(self).frn_index.ids@ == old(self).frn_index.ids@,
            final(self).parent@ == old(self).parent@,
            final(self).size_lo@ == old(self).size_lo@,
            final(self).size_ovf@ == old(self).size_ovf@,
            final(self).mtime@ == old(self).mtime@,
            final(self).frn@ == old(self).frn@,
            final(self).flag@ == old(self).flag@,
            final(self).content_generation == old(self).content_generation,
            final(self).structural_generation == old(self).structural_generation,
            final(self).stat_generation == old(self).stat_generation,
            final(self).dir_topology_generation == old(self).dir_topology_generation,
            final(self).exclusion_tree_dirty == old(self).exclusion_tree_dirty,
            final(self).tombstones == old(self).tombstones,
            final(self).dead_name_bytes == old(self).dead_name_bytes,
            final(self).dict_appends_since_dedup == old(self).dict_appends_since_dedup,
    {
        let ghost before = *self;
        self.frn_index.shrink_to_fit();
        shrink(&mut self.dict_pool);
        shrink(&mut self.dict_off);
        shrink(&mut self.name_id);
        shrink(&mut self.orig_pool);
        shrink(&mut self.orig_off);
        shrink(&mut self.parent);
        shrink(&mut self.size_lo);
        size_map_shrink(&mut self.size_ovf);
        shrink(&mut self.mtime);
        shrink(&mut self.frn);
        shrink(&mut self.flag);
        shrink(&mut self.perm_name);
        proof {
            assert forall|i: int| #[trigger] self.lower(i) == before.lower(i) by {}
            assert(self.rows() =~= before.rows());
            assert(self.originals_wf()) by {
                assert forall|i: int|
                    0 <= i < self.orig_off@.len() && #[trigger] self.orig_off@[i] != NONE implies self.orig_off@[i]
                    + self.lower(i).len() <= self.orig_pool@.len() by {
                    assert(before.orig_off@[i] + before.lower(i).len() <= before.orig_pool@.len());
                }
            }
            if before.name_sorted() {
                assert forall|a: int, b: int|
                    0 <= a < b < self.perm_name@.len() implies self.name_before(
                    (#[trigger] self.perm_name@[a]) as int,
                    (#[trigger] self.perm_name@[b]) as int,
                ) by {
                    assert(before.name_before(
                        before.perm_name@[a] as int,
                        before.perm_name@[b] as int,
                    ));
                }
            }
        }
    }

    /// The bytes of the folded names of the live ones of the first `n`
    /// entries.
    pub open spec fn live_bytes(&self, n: int) -> int
        decreases n,
    {
        if n <= 0 {
            0
        } else {
            self.live_bytes(n - 1) + if self.live(n - 1) {
                self.lower(n - 1).len() as int
            } else {
                0
            }
        }
    }

    proof fn lemma_live_bytes_grow(&self, m: int, n: int)
        requires
            0 <= m <= n,
        ensures
            0 <= self.live_bytes(m) <= self.live_bytes(n),
        decreases n,
    {
        if m < n {
            self.lemma_live_bytes_grow(m, n - 1);
        } else if m > 0 {
            self.lemma_live_bytes_grow(m - 1, m - 1);
        }
    }

    /// The parent of entry `i` after renumbering; below a dead directory it
    /// is the root.
    pub open spec fn compact_parent(&self, i: int) -> u32 {
        let p = self.parent@[i];
        if p == NO_PARENT {
            NO_PARENT
        } else if self.live(p as int) {
            new_id(self.flag@, p as int) as u32
        } else {
            0
        }
    }

    /// What compaction gives: the live entries in their order, below their
    /// renumbered parents, with exclusion derived anew, and every order kept.
    pub open spec fn compacts_to(&self, out: &VolumeIndex) -> bool {
        let ids = live_ids(self.flag@, self.count());
        &&& out.wf()
        &&& out.count() == ids.len()
        &&& forall|k: int|
            0 <= k < ids.len() ==> #[trigger] out.row(k) == (Row {
                parent: self.compact_parent(ids[k] as int),
                flag: out.flag@[k],
                ..self.row(ids[k] as int)
            })
        &&& out.flag@ == all_derived(out.parent@, live_flags(self.flag@))
        &&& out.perm_name@ == renumbered(self.perm_name@, self.flag@)
        &&& out.perm_name@.len() == out.count()
        &&& self.name_sorted() ==> out.name_sorted()
        &&& out.frn_index.covers == out.count()
        &&& out.originals_shared()
        &&& out.content_generation == 0
        &&& out.structural_generation == 0
        &&& out.stat_generation == 0
        &&& out.dir_topology_generation == 0
        &&& !out.exclusion_tree_dirty
        &&& out.tombstones == 0
        &&& out.dead_name_bytes == 0
        &&& out.dict_appends_since_dedup == 0
    }

    /// An index without entries.
    pub(crate) fn empty() -> (r: VolumeIndex)
        ensures
            r.wf(),
            r.count() == 0,
            r.perm_name@.len() == 0,
            r.frn_index.covers == 0,
            r.dict_pool@.len() == 0,
            r.dict_off@.len() == 0,
            r.orig_pool@.len() == 0,
            r.owned_fits(),
            r.content_generation == 0,
            r.structural_generation == 0,
            r.stat_generation == 0,
            r.dir_topology_generation == 0,
            !r.exclusion_tree_dirty,
            r.tombstones == 0,
            r.dead_name_bytes == 0,
            r.dict_appends_since_dedup == 0,
    {
        let r = VolumeIndex {
            dict_pool: Vec::new(),
            dict_off: Vec::new(),
            name_id: Vec::new(),
            orig_pool: Vec::new(),
            orig_off: Vec::new(),
            parent: Vec::new(),
            size_lo: Vec::new(),
            size_ovf: new_size_map(),
            mtime: Vec::new(),
            frn: Vec::new(),
            flag: Vec::new(),
            frn_index: FrnIndex::empty(),
            perm_name: Vec::new(),
            content_generation: 0,
            structural_generation: 0,
            stat_generation: 0,
            dir_topology_generation: 0,
            exclusion_tree_dirty: false,
            tombstones: 0,
            dead_name_bytes: 0,
            dict_appends_since_dedup: 0,
        };
        proof {
            assert forall|k: u32| !(#[trigger] r.size_ovf@.contains_key(k)) by {
                assert(!r.size_ovf@.dom().contains(k));
            }
        }
        r
    }

    /// The new number of each live entry, and how many there are.
    fn numbering(&self) -> (r: (Vec<u32>, u32))
        requires
            self.wf(),
        ensures
            remap_of(r.0@, self.flag@),
            r.1 == live_ids(self.flag@, self.count()).len(),
    {
        let n: u32 = self.len() as u32;
        let mut remap: Vec<u32> = Vec::new();
        let mut live: u32 = 0;
        let mut id: u32 = 0;
        while id < n
            invariant
                self.wf(),
                n == self.count(),
                id <= n,
                live <= id,
                live == new_id(self.flag@, id as int),
                remap@.len() == id,
                forall|i: int|
                    0 <= i < id ==> #[trigger] remap@[i] == (if bit_set(self.flag@[i], TOMBSTONE) {
                        NO_PARENT
                    } else {
                        new_id(self.flag@, i) as u32
                    }),
            decreases n - id,
        {
            if self.is_live(id) {
                remap.push(live);
                live = live + 1;
            } else {
                remap.push(NO_PARENT);
            }
            id = id + 1;
        }
        (remap, live)
    }

    /// A copy of the live entries, all below the root for now.
    fn copy_live(&self) -> (out: VolumeIndex)
        requires
            self.wf(),
            self.live_bytes(self.count()) < NONE,
        ensures
            out.wf(),
            out.count() == live_ids(self.flag@, self.count()).len(),
            forall|k: int|
                0 <= k < out.count() ==> #[trigger] out.row(k) == (Row {
                    parent: 0,
                    ..self.row(live_ids(self.flag@, self.count())[k] as int)
                }),
            out.owned_fits(),
            out.orig_pool@.len() < NONE,
            out.content_generation == 0,
            out.structural_generation == 0,
            out.stat_generation == 0,
            out.dir_topology_generation == 0,
            !out.exclusion_tree_dirty,
            out.tombstones == 0,
            out.dead_name_bytes == 0,
            out.perm_name@.len() == 0,
    {
        let mut out = VolumeIndex::empty();
        let n: u32 = self.len() as u32;
        let mut id: u32 = 0;
        while id < n
            invariant
                self.wf(),
                n == self.count(),
                id <= n,
                self.live_bytes(n as int) < NONE,
                out.wf(),
                out.count() == live_ids(self.flag@, id as int).len(),
                out.count() <= id,
                forall|k: int|
                    0 <= k < out.count() ==> #[trigger] out.row(k) == (Row {
                        parent: 0,
                        ..self.row(live_ids(self.flag@, id as int)[k] as int)
                    }),
                out.owned_fits(),
                out.dict_off@.len() == out.count(),
                out.dict_pool@.len() == self.live_bytes(id as int),
                out.orig_pool@.len() <= self.live_bytes(id as int),
                out.content_generation == 0,
                out.structural_generation == 0,
                out.stat_generation == 0,
                out.dir_topology_generation == 0,
                !out.exclusion_tree_dirty,
                out.tombstones == 0,
                out.dead_name_bytes == 0,
                out.perm_name@.len() == 0,
            decreases n - id,
        {
            proof {
                self.lemma_live_bytes_grow(id + 1, n as int);
                self.lemma_live_bytes_grow(id as int, n as int);
            }
            if self.is_live(id) {
                let ghost before = out;
                let ghost ids = live_ids(self.flag@, id as int);
                let ghost ids2 = live_ids(self.flag@, id + 1);
                proof {
                    self.lemma_lower(id as int);
                    lemma_secs_round_trip(self.mtime@[id as int]);
                    assert(self.live(id as int));
                    assert(ids2 =~= ids.push(id));
                }
                let f: u8 = self.flag[id as usize];
                let facts = EntryFacts {
                    frn: self.frn(id),
                    size: self.size(id),
                    mtime: self.mtime(id),
                    is_dir: false,
                    is_reparse: false,
                    is_hidden: false,
                    is_system: false,
                };
                let at: EntryId = out.push_named(
                    self.name(id),
                    self.lower_name(id),
                    Self::ROOT,
                    facts,
                );
                let ghost pushed = out;
                assert(pushed.rows().len() == before.rows().len() + 1);
                out.set_flag(at, f);
                proof {
                    assert(out.tombstones == 0) by {
                        assert(!bit_set(f, TOMBSTONE));
                    }
                    assert forall|k: int| 0 <= k < out.count() implies #[trigger] out.row(k)
                        == (Row { parent: 0, ..self.row(ids2[k] as int) }) by {
                        assert(out.row(k) == out.rows()[k]);
                        assert(pushed.row(k) == pushed.rows()[k]);
                        if k < before.count() {
                            assert(before.row(k) == before.rows()[k]);
                            assert(ids2[k] == ids[k]);
                        }
                    }
                    assert forall|i: int| 0 <= i < out.count() implies #[trigger] pushed.owns_same(&out, i) by {
                        lemma_all_live(&pushed, i);
                        lemma_all_live(&out, i);
                        assert(out.row(i).lower == pushed.row(i).lower);
                    }
                    pushed.lemma_owned_same(&out, out.count());
                }
            }
            id = id + 1;
        }
        out
    }
}

impl VolumeIndex {
    /// The parent of a live entry after renumbering.
    fn parent_after(&self, id: EntryId, remap: &Vec<u32>) -> (q: EntryId)
        requires
            self.wf(),
            self.count() > 0,
            self.live(0),
            id < self.count(),
            remap_of(remap@, self.flag@),
        ensures
            q == self.compact_parent(id as int),
            q == NO_PARENT || q < live_ids(self.flag@, self.count()).len(),
    {
        let ghost flag = self.flag@;
        proof {
            lemma_live_ids(flag, self.count());
            assert(!bit_set(flag[0], TOMBSTONE));
        }
        let p: EntryId = self.parent[id as usize];
        if p == NO_PARENT {
            return NO_PARENT;
        }
        proof {
            lemma_live_ids(flag, p as int);
            assert(bit_set(flag[p as int], TOMBSTONE) || new_id(flag, p as int) < live_ids(
                flag,
                self.count(),
            ).len());
        }
        let r: u32 = remap[p as usize];
        if r == NO_PARENT {
            Self::ROOT
        } else {
            r
        }
    }

    /// Put the copied entries below their renumbered parents.
    fn link_live(&self, out: &mut VolumeIndex, remap: &Vec<u32>)
        requires
            self.wf(),
            self.count() > 0,
            self.live(0),
            remap_of(remap@, self.flag@),
            old(out).wf(),
            old(out).tombstones == 0,
            old(out).count() == live_ids(self.flag@, self.count()).len(),
        ensures
            final(out).wf(),
            *final(out) == (VolumeIndex { parent: final(out).parent, ..*old(out) }),
            forall|k: int|
                0 <= k < old(out).count() ==> #[trigger] final(out).parent@[k]
                    == self.compact_parent(live_ids(self.flag@, self.count())[k] as int),
    {
        let n: u32 = self.len() as u32;
        let ghost flag = self.flag@;
        let ghost all = live_ids(flag, n as int);
        let ghost before = *out;
        proof {
            lemma_live_ids(flag, n as int);
            assert(!bit_set(flag[0], TOMBSTONE));
        }
        let mut id: u32 = 0;
        while id < n
            invariant
                self.wf(),
                self.count() > 0,
                self.live(0),
                n == self.count(),
                id <= n,
                flag == self.flag@,
                all == live_ids(flag, n as int),
                all.len() > 0,
                remap_of(remap@, flag),
                out.wf(),
                before.count() == all.len(),
                *out == (VolumeIndex { parent: out.parent, ..before }),
                forall|k: int|
                    0 <= k < all.len() ==> (#[trigger] all[k]) < n && !bit_set(
                        flag[all[k] as int],
                        TOMBSTONE,
                    ) && new_id(flag, all[k] as int) == k,
                forall|i: int|
                    0 <= i < n && !bit_set(#[trigger] flag[i], TOMBSTONE) ==> new_id(flag, i)
                        < all.len() && all[new_id(flag, i)] == i,
                forall|k: int|
                    0 <= k < new_id(flag, id as int) && k < all.len() ==> #[trigger] out.parent@[k]
                        == self.compact_parent(all[k] as int),
            decreases n - id,
        {
            let at: u32 = remap[id as usize];
            if at != NO_PARENT {
                proof {
                    assert(!bit_set(flag[id as int], TOMBSTONE));
                    assert(all[at as int] == id);
                }
                let q: EntryId = self.parent_after(id, remap);
                out.set_parent(at, q);
            } else {
                proof {
                    lemma_live_ids(flag, id as int);
                    assert(bit_set(flag[id as int], TOMBSTONE));
                }
            }
            id = id + 1;
        }
    }

    /// The live entries below their renumbered parents, with every order kept.
    fn gathered(&self) -> (out: VolumeIndex)
        requires
            self.wf(),
            self.count() > 0,
            self.live(0),
            self.perm_name@.len() == self.count(),
            self.frn_index.covers == self.count(),
            self.live_bytes(self.count()) < NONE,
        ensures
            out.wf(),
            out.count() == live_ids(self.flag@, self.count()).len(),
            out.count() > 0,
            forall|k: int|
                0 <= k < out.count() ==> #[trigger] out.row(k) == (Row {
                    parent: self.compact_parent(live_ids(self.flag@, self.count())[k] as int),
                    ..self.row(live_ids(self.flag@, self.count())[k] as int)
                }),
            out.flag@ == live_flags(self.flag@),
            out.perm_name@ == renumbered(self.perm_name@, self.flag@),
            out.perm_name@.len() == out.count(),
            self.name_sorted() ==> out.name_sorted(),
            out.frn_index.covers == out.count(),
            out.owned_fits(),
            out.orig_pool@.len() < NONE,
            out.content_generation == 0,
            out.structural_generation == 0,
            out.stat_generation == 0,
            out.dir_topology_generation == 0,
            !out.exclusion_tree_dirty,
            out.tombstones == 0,
            out.dead_name_bytes == 0,
    {
        let (remap, live): (Vec<u32>, u32) = self.numbering();
        let ghost flag = self.flag@;
        let ghost n = self.count();
        let ghost ids = live_ids(flag, n);
        let mut out: VolumeIndex = self.copy_live();
        let ghost copied = out;
        self.link_live(&mut out, &remap);
        let ghost linked = out;
        out.perm_name = renumber(&self.perm_name, &remap, Ghost(flag));
        out.frn_index = self.frn_index.compact(&remap, live, Ghost(self.frn@), Ghost(flag));
        let ghost ordered = out;
        proof {
            lemma_live_ids(flag, n);
            assert(!bit_set(flag[0], TOMBSTONE));
            assert forall|k: int| 0 <= k < ids.len() implies #[trigger] ordered.row(k) == (Row {
                parent: self.compact_parent(ids[k] as int),
                ..self.row(ids[k] as int)
            }) by {
                assert(copied.row(k) == (Row { parent: 0, ..self.row(ids[k] as int) }));
                assert(linked.parent@[k] == self.compact_parent(ids[k] as int));
            }
            assert(ordered.frn@ =~= live_frns(self.frn@, flag)) by {
                assert forall|k: int| 0 <= k < ids.len() implies #[trigger] ordered.frn@[k]
                    == self.frn@[ids[k] as int] by {
                    assert(ordered.row(k).frn == self.row(ids[k] as int).frn);
                }
            }
            assert(ordered.flag@ =~= live_flags(flag)) by {
                assert forall|k: int| 0 <= k < ids.len() implies #[trigger] ordered.flag@[k]
                    == flag[ids[k] as int] by {
                    assert(ordered.row(k).flag == self.row(ids[k] as int).flag);
                }
            }
            self.lemma_perm_renumbered(&ordered);
            ordered.lemma_originals_same(&linked);
            assert forall|i: int| 0 <= i < ids.len() implies #[trigger] copied.owns_same(&ordered, i) by {}
            copied.lemma_owned_same(&ordered, ordered.count());
        }
        out
    }

    /// Store equal names once, derive exclusion anew, and give back memory,
    /// where no entry is tombstoned.
    fn tidy(&mut self)
        requires
            old(self).wf(),
            old(self).count() > 0,
            old(self).tombstones == 0,
            old(self).owned_fits(),
            old(self).orig_pool@.len() < NONE,
        ensures
            final(self).wf(),
            final(self).rows() == old(self).rows_flagged(final(self).flag@),
            final(self).parent@ == old(self).parent@,
            final(self).flag@ == all_derived(old(self).parent@, old(self).flag@),
            final(self).perm_name@ == old(self).perm_name@,
            old(self).name_sorted() ==> final(self).name_sorted(),
            final(self).frn_index.covers == old(self).frn_index.covers,
            final(self).originals_shared(),
            final(self).content_generation == old(self).content_generation,
            final(self).structural_generation == old(self).structural_generation,
            final(self).stat_generation == old(self).stat_generation,
            final(self).dir_topology_generation == old(self).dir_topology_generation,
            final(self).exclusion_tree_dirty == old(self).exclusion_tree_dirty,
            final(self).tombstones == 0,
            final(self).dead_name_bytes == old(self).dead_name_bytes,
            final(self).dict_appends_since_dedup == 0,
    {
        let ghost before = *self;
        let ghost n = self.count();
        proof {
            lemma_all_live(&before, 0);
            assert(before.first_live(0));
        }
        self.dedup_dict();
        let ghost deduped = *self;
        proof {
            assert forall|i: int| 0 <= i < n implies #[trigger] before.owns_same(&deduped, i) by {
                lemma_all_live(&before, i);
            }
            before.lemma_owned_same(&deduped, n);
        }
        self.dedup_orig();
        let ghost spelled = *self;
        self.recompute_all_excluded();
        let ghost derived = *self;
        proof {
            assert(derived.rows() =~= before.rows_flagged(derived.flag@)) by {
                assert forall|k: int| 0 <= k < n implies #[trigger] derived.row(k) == (Row {
                    flag: derived.flag@[k],
                    ..before.row(k)
                }) by {
                    lemma_all_live(&before, k);
                    lemma_all_live(&deduped, k);
                    assert(spelled.row(k) == deduped.row(k));
                    assert(deduped.row(k) == before.row(k));
                    assert(derived.row(k) == (Row { flag: derived.flag@[k], ..spelled.row(k) }));
                }
            }
            before.lemma_same_names(&derived);
            assert(derived.originals_shared()) by {
                assert forall|i: int, j: int|
                    0 <= i < j < derived.count() && derived.live(i) && derived.live(j)
                        && #[trigger] derived.orig_off@[i] != NONE && #[trigger] derived.orig_off@[j]
                        != NONE && derived.original(i) == derived.original(j) implies derived.orig_off@[i]
                    == derived.orig_off@[j] by {
                    lemma_all_live(&spelled, i);
                    lemma_all_live(&spelled, j);
                    assert(spelled.original(i) == derived.original(i));
                    assert(spelled.original(j) == derived.original(j));
                }
            }
        }
        self.shrink_to_fit();
        proof {
            assert forall|i: int, j: int|
                0 <= i < j < self.count() && self.live(i) && self.live(j)
                    && #[trigger] self.orig_off@[i] != NONE && #[trigger] self.orig_off@[j] != NONE
                    && self.original(i) == self.original(j) implies self.orig_off@[i]
                == self.orig_off@[j] by {
                assert(self.rows().len() == derived.rows().len());
                assert(self.rows()[i] == self.row(i) && derived.rows()[i] == derived.row(i));
                assert(self.rows()[j] == self.row(j) && derived.rows()[j] == derived.row(j));
                assert(derived.orig_off@[i] != NONE && derived.orig_off@[j] != NONE);
            }
        }
    }

    /// Where the folded names are the same, the name order is.
    proof fn lemma_same_names(&self, other: &VolumeIndex)
        requires
            self.order_wf(),
            other.perm_name@ == self.perm_name@,
            other.count() == self.count(),
            forall|k: int|
                0 <= k < self.count() ==> (#[trigger] other.rows()[k]).lower == self.row(k).lower,
        ensures
            self.name_sorted() ==> other.name_sorted(),
    {
        if self.name_sorted() {
            assert forall|a: int, b: int|
                0 <= a < b < other.perm_name@.len() implies other.name_before(
                (#[trigger] other.perm_name@[a]) as int,
                (#[trigger] other.perm_name@[b]) as int,
            ) by {
                let x = self.perm_name@[a] as int;
                let y = self.perm_name@[b] as int;
                assert(self.name_before(x, y));
                assert(other.rows()[x] == other.row(x));
                assert(other.rows()[y] == other.row(y));
            }
        }
    }

    /// The index is between two batches, its root is live, and the names of
    /// the live entries can be stored one by one.
    pub open spec fn compactable(&self) -> bool {
        &&& self.count() > 0
        &&& self.live(0)
        &&& self.perm_name@.len() == self.count()
        &&& self.frn_index.covers == self.count()
        &&& self.live_bytes(self.count()) < NONE
    }

    /// Whether a compacted copy can be made.
    pub fn can_compact(&self) -> (r: bool)
        requires
            self.wf(),
        ensures
            r == self.compactable(),
    {
        let n: usize = self.len();
        if n == 0 || !self.is_live(Self::ROOT) || self.perm_name.len() != n
            || self.frn_index.covers as usize != n {
            return false;
        }
        let mut bytes: usize = 0;
        let mut id: u32 = 0;
        while id < n as u32
            invariant
                self.wf(),
                n == self.count(),
                n <= u32::MAX,
                id <= n,
                bytes == self.live_bytes(id as int),
                bytes < NONE,
            decreases n - id,
        {
            proof {
                self.lemma_live_bytes_grow(id + 1, n as int);
            }
            if self.is_live(id) {
                let len: usize = self.lower_name(id).len();
                if len >= NONE as usize - bytes {
                    return false;
                }
                bytes = bytes + len;
            }
            id = id + 1;
        }
        true
    }

    /// A compacted copy: live entries only, names stored once, orders kept
    /// without sorting. Children of a dead directory go below the root.
    ///
    /// For the boundary between two batches: the permutation and the index by
    /// record number cover every entry.
    pub fn compacted(&self) -> (out: VolumeIndex)
        requires
            self.wf(),
            self.compactable(),
        ensures
            self.compacts_to(&out),
    {
        let mut out: VolumeIndex = self.gathered();
        let ghost gathered = out;
        out.tidy();
        proof {
            let ids = live_ids(self.flag@, self.count());
            assert(out.rows().len() == gathered.count());
            assert forall|k: int| 0 <= k < ids.len() implies #[trigger] out.row(k) == (Row {
                parent: self.compact_parent(ids[k] as int),
                flag: out.flag@[k],
                ..self.row(ids[k] as int)
            }) by {
                assert(out.row(k) == out.rows()[k]);
                assert(gathered.row(k) == (Row {
                    parent: self.compact_parent(ids[k] as int),
                    ..self.row(ids[k] as int)
                }));
            }
        }
        out
    }

    /// The renumbered permutation is one of the renumbered entries, and stays
    /// in name order.
    proof fn lemma_perm_renumbered(&self, out: &VolumeIndex)
        requires
            self.wf(),
            self.perm_name@.len() == self.count(),
            out.perm_name@ == renumbered(self.perm_name@, self.flag@),
            out.count() == live_ids(self.flag@, self.count()).len(),
            forall|k: int|
                0 <= k < out.count() ==> (#[trigger] out.row(k)).lower == self.row(
                    live_ids(self.flag@, self.count())[k] as int,
                ).lower,
        ensures
            is_permutation(out.perm_name@),
            out.perm_name@.len() == out.count(),
            self.name_sorted() ==> out.name_sorted(),
    {
        let flag = self.flag@;
        let n = self.count();
        let ids = live_ids(flag, n);
        let o = self.perm_name@;
        let q = out.perm_name@;
        let m = ids.len() as int;
        let at = lemma_renumbered(o, flag);
        lemma_live_ids(flag, n);
        assert forall|x: int| 0 <= x < q.len() implies (#[trigger] q[x]) < m && ids[q[x] as int]
            == o[at[x]] by {
            let i = o[at[x]] as int;
            assert(!bit_set(flag[i], TOMBSTONE));
        }
        assert forall|x: int, y: int| 0 <= x < y < q.len() implies #[trigger] q[x]
            != #[trigger] q[y] by {
            assert(at[x] < at[y]);
            assert(o[at[x]] != o[at[y]]);
            assert(ids[q[x] as int] == o[at[x]] && ids[q[y] as int] == o[at[y]]);
        }
        lemma_distinct_below(q, m);
        assert forall|k: int| 0 <= k < m implies #[trigger] occurs(q, k) by {
            let i = ids[k];
            let j = lemma_permutation_onto(o, i);
            assert(!bit_set(flag[o[j] as int], TOMBSTONE));
            assert(occurs(q, new_id(flag, o[j] as int)));
        }
        lemma_onto_len(q, m);
        if self.name_sorted() {
            assert forall|x: int, y: int| 0 <= x < y < q.len() implies out.name_before(
                (#[trigger] q[x]) as int,
                (#[trigger] q[y]) as int,
            ) by {
                let i = o[at[x]];
                let j = o[at[y]];
                assert(at[x] < at[y]);
                assert(self.name_before(i as int, j as int));
                assert(out.row(q[x] as int).lower == self.row(i as int).lower);
                assert(out.row(q[y] as int).lower == self.row(j as int).lower);
                if i < j {
                    assert(!bit_set(flag[i as int], TOMBSTONE));
                    lemma_new_id_grows(flag, i as int, j as int);
                }
            }
        }
    }
}

/// Where no entry is tombstoned, every entry is live.
pub(crate) proof fn lemma_all_live(index: &VolumeIndex, i: int)
    requires
        index.columns_wf(),
        index.tombstones == 0,
        0 <= i < index.count(),
    ensures
        index.live(i),
{
    lemma_no_dead(index.flag@, i);
}

proof fn lemma_no_dead(flag: Seq<u8>, i: int)
    requires
        dead_count(flag) == 0,
        0 <= i < flag.len(),
    ensures
        !bit_set(flag[i], TOMBSTONE),
    decreases flag.len(),
{
    if i < flag.len() - 1 {
        lemma_no_dead(flag.drop_last(), i);
        assert(flag.drop_last()[i] == flag[i]);
    } else {
        assert(flag.last() == flag[i]);
    }
}

/// Compaction keeps every live link of every record, in order, under its new
/// number: lookups find the same links before and after.
pub proof fn lemma_compaction_keeps_links(before: &VolumeIndex, out: &VolumeIndex, key: u64)
    requires
        before.wf(),
        before.frn_index.covers == before.count(),
        before.compacts_to(out),
    ensures
        out.record_links(key) == renumbered(before.record_links(key), before.flag@),
{
    let flag = before.flag@;
    let n = before.count();
    let ids = live_ids(flag, n);
    let old_links = before.record_links(key);
    let new_links = out.record_links(key);
    let moved = renumbered(old_links, flag);
    lemma_live_ids(flag, n);
    before.lemma_record_links(key);
    out.lemma_record_links(key);
    lemma_links_up(before.frn@, flag, key, 0, n);
    lemma_links_up(out.frn@, out.flag@, key, 0, out.count());
    assert(old_links =~= links_up(before.frn@, flag, key, 0, n));
    assert(new_links =~= links_up(out.frn@, out.flag@, key, 0, out.count()));
    assert forall|i: int| 0 <= i < old_links.len() implies (#[trigger] old_links[i]) < flag.len() by {}
    let at = lemma_renumbered(old_links, flag);
    assert(strictly_ascends(moved)) by {
        assert forall|x: int, y: int| 0 <= x < y < moved.len() implies (#[trigger] moved[x]) < (
        #[trigger] moved[y]) by {
            assert(at[x] < at[y]);
            assert(old_links[at[x]] < old_links[at[y]]);
            lemma_new_id_grows(flag, old_links[at[x]] as int, old_links[at[y]] as int);
        }
    }
    assert forall|x: int| #[trigger] occurs(moved, x) <==> occurs(new_links, x) by {
        if occurs(moved, x) {
            let k = choose|k: int| 0 <= k < moved.len() && #[trigger] moved[k] == x;
            let i = old_links[at[k]] as int;
            assert(is_link(before.frn@, flag, key, i));
            assert(!bit_set(flag[i], TOMBSTONE));
            assert(ids[x] == i);
            assert(out.row(x).frn == before.row(i).frn);
            lemma_all_live(out, x);
            assert(is_link(out.frn@, out.flag@, key, x));
            assert(occurs(new_links, x));
        }
        if occurs(new_links, x) {
            let i = ids[x] as int;
            assert(out.row(x).frn == before.row(i).frn);
            assert(is_link(before.frn@, flag, key, i));
            assert(occurs(old_links, i));
            let j = choose|j: int| 0 <= j < old_links.len() && #[trigger] old_links[j] == i;
            assert(occurs(moved, new_id(flag, old_links[j] as int)));
        }
    }
    lemma_ascending_unique(moved, new_links);
}

} // verus!
