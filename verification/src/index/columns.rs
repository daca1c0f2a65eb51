//! The index itself: its columns, and reading entries, sizes, names and paths.

use vstd::prelude::*;
use vstd::slice::slice_subrange;
use rustc_hash::FxHashMap;
use crate::dates::{mtime_secs_to_ticks, secs_to_ticks};
use crate::hashed::{size_map_get, size_map_insert, size_map_remove};
use crate::order::{bytes_lt, is_permutation};
use super::flags::{bit_set, EXCLUDED, IS_DIR, REPARSE, TOMBSTONE};
use super::frn::FrnIndex;
use super::{EntryId, Frn, PathBuildError, NO_PARENT};

verus! {

/// The mark of a size or an original name that is stored elsewhere or not at
/// all.
pub const NONE: u32 = 0xFFFF_FFFF;

/// Longest path that is built: 32,767 UTF-16 units of at most three bytes.
pub const MAX_PATH_WTF8_BYTES: usize = 98_301;

/// In-memory index of one volume.
///
/// An entry is one directory link, not necessarily one object: hard-linked
/// paths are distinct entries that share a full reference.
pub struct VolumeIndex {
    /// The bytes of the distinct folded names, one behind the other.
    pub dict_pool: Vec<u8>,
    /// Where each folded name starts; it ends where the next one starts.
    pub dict_off: Vec<u32>,
    /// The folded name of each entry.
    pub name_id: Vec<u32>,
    /// The bytes of original spellings that differ from their folded form.
    pub orig_pool: Vec<u8>,
    /// Where each entry's original spelling starts, or [`NONE`] where the
    /// folded form is the original.
    pub orig_off: Vec<u32>,
    /// The parent directory of each entry.
    pub parent: Vec<u32>,
    /// The size of each entry, or [`NONE`] where it is in `size_ovf`.
    pub size_lo: Vec<u32>,
    /// The sizes that do not fit the column.
    pub size_ovf: FxHashMap<u32, u64>,
    /// Modification times in Unix seconds; 0 is not known.
    pub mtime: Vec<u32>,
    /// Full references.
    pub frn: Vec<u64>,
    /// Flag bits.
    pub flag: Vec<u8>,
    /// Entries by record number.
    pub frn_index: FrnIndex,
    /// Entries in name order.
    pub perm_name: Vec<u32>,
    /// Bumped by every batch of changes.
    pub content_generation: u64,
    /// Bumped when entries are renumbered.
    pub structural_generation: u64,
    /// Bumped when the size or time of an entry changes.
    pub stat_generation: u64,
    /// Bumped when a directory's name or parent changes.
    pub dir_topology_generation: u64,
    /// Inherited exclusion is to be derived anew at the end of the batch.
    pub exclusion_tree_dirty: bool,
    /// How many entries are tombstoned.
    pub tombstones: u32,
    /// Bytes of original spellings that are no longer used.
    pub dead_name_bytes: u64,
    /// Dictionary entries appended since the names were made distinct.
    pub dict_appends_since_dedup: u32,
}

/// Where name `k` of a dictionary ends.
pub open spec fn dict_end(pool: Seq<u8>, off: Seq<u32>, k: int) -> int {
    if k + 1 < off.len() {
        off[k + 1] as int
    } else {
        pool.len() as int
    }
}

/// Name `k` of a dictionary.
pub open spec fn dict_name(pool: Seq<u8>, off: Seq<u32>, k: int) -> Seq<u8> {
    pool.subrange(off[k] as int, dict_end(pool, off, k))
}

/// The names of a dictionary follow each other inside its pool.
pub open spec fn dict_wf(pool: Seq<u8>, off: Seq<u32>) -> bool {
    &&& pool.len() <= NONE
    &&& off.len() <= NONE
    &&& forall|i: int, j: int|
        0 <= i <= j < off.len() ==> (#[trigger] off[i]) <= (#[trigger] off[j])
    &&& forall|i: int| 0 <= i < off.len() ==> (#[trigger] off[i]) <= pool.len()
}

/// The number of tombstoned flags.
pub open spec fn dead_count(flag: Seq<u8>) -> nat
    decreases flag.len(),
{
    if flag.len() == 0 {
        0
    } else {
        dead_count(flag.drop_last()) + if bit_set(flag.last(), TOMBSTONE) {
            1nat
        } else {
            0
        }
    }
}

pub proof fn lemma_dead_count_bound(flag: Seq<u8>)
    ensures
        dead_count(flag) <= flag.len(),
    decreases flag.len(),
{
    if flag.len() > 0 {
        lemma_dead_count_bound(flag.drop_last());
    }
}

pub proof fn lemma_dead_count_update(flag: Seq<u8>, i: int, f: u8)
    requires
        0 <= i < flag.len(),
    ensures
        dead_count(flag.update(i, f)) == dead_count(flag) + (if bit_set(f, TOMBSTONE) {
            1int
        } else {
            0
        }) - (if bit_set(flag[i], TOMBSTONE) {
            1int
        } else {
            0
        }),
    decreases flag.len(),
{
    let g = flag.update(i, f);
    if i == flag.len() - 1 {
        assert(g.drop_last() =~= flag.drop_last());
    } else {
        assert(g.drop_last() =~= flag.drop_last().update(i, f));
        lemma_dead_count_update(flag.drop_last(), i, f);
    }
}

/// One entry, as its readers see it.
pub struct Row {
    /// The original name.
    pub name: Seq<u8>,
    /// The folded name.
    pub lower: Seq<u8>,
    /// The parent directory.
    pub parent: u32,
    /// The size in bytes.
    pub size: u64,
    /// The modification time in Unix seconds.
    pub mtime: u32,
    /// The full reference.
    pub frn: u64,
    /// The flag bits.
    pub flag: u8,
}

/// One step towards the root: from an entry to its parent, from the root and
/// from nowhere to nowhere.
pub open spec fn step_up(parent: Seq<u32>, e: u32) -> u32 {
    if e == NO_PARENT || e == 0 || e >= parent.len() {
        NO_PARENT
    } else {
        parent[e as int]
    }
}

/// `k` steps towards the root.
pub open spec fn walk_up(parent: Seq<u32>, e: u32, k: nat) -> u32
    decreases k,
{
    if k == 0 {
        e
    } else {
        step_up(parent, walk_up(parent, e, (k - 1) as nat))
    }
}

/// Starting one step further up is one step more.
pub proof fn lemma_walk_up_shift(parent: Seq<u32>, e: u32, k: nat)
    ensures
        walk_up(parent, step_up(parent, e), k) == walk_up(parent, e, k + 1),
    decreases k,
{
    if k == 0 {
        assert(walk_up(parent, e, 0) == e);
        assert(walk_up(parent, step_up(parent, e), 0) == step_up(parent, e));
    } else {
        lemma_walk_up_shift(parent, e, (k - 1) as nat);
    }
}

/// Walks compose.
pub proof fn lemma_walk_up_add(parent: Seq<u32>, e: u32, j: nat, k: nat)
    ensures
        walk_up(parent, walk_up(parent, e, j), k) == walk_up(parent, e, j + k),
    decreases k,
{
    if k > 0 {
        lemma_walk_up_add(parent, e, j, (k - 1) as nat);
    }
}

proof fn lemma_walk_up_nowhere(parent: Seq<u32>, k: nat)
    ensures
        walk_up(parent, NO_PARENT, k) == NO_PARENT,
    decreases k,
{
    if k > 0 {
        lemma_walk_up_nowhere(parent, (k - 1) as nat);
    }
}

impl VolumeIndex {
    /// The volume root's entry.
    pub const ROOT: EntryId = 0;

    /// The folded name of entry `i`.
    pub open spec fn lower(&self, i: int) -> Seq<u8> {
        dict_name(self.dict_pool@, self.dict_off@, self.name_id@[i] as int)
    }

    /// The original name of entry `i`.
    pub open spec fn original(&self, i: int) -> Seq<u8> {
        if self.orig_off@[i] == NONE {
            self.lower(i)
        } else {
            self.orig_pool@.subrange(
                self.orig_off@[i] as int,
                self.orig_off@[i] + self.lower(i).len(),
            )
        }
    }

    /// The size of entry `i`.
    pub open spec fn bytes_of(&self, i: int) -> u64 {
        if self.size_lo@[i] == NONE {
            self.size_ovf@[i as u32]
        } else {
            self.size_lo@[i] as u64
        }
    }

    /// Entry `i`.
    pub open spec fn row(&self, i: int) -> Row {
        Row {
            name: self.original(i),
            lower: self.lower(i),
            parent: self.parent@[i],
            size: self.bytes_of(i),
            mtime: self.mtime@[i],
            frn: self.frn@[i],
            flag: self.flag@[i],
        }
    }

    /// The number of entries.
    pub open spec fn count(&self) -> int {
        self.name_id@.len() as int
    }

    /// All entries.
    pub open spec fn rows(&self) -> Seq<Row> {
        Seq::new(self.name_id@.len(), |i: int| self.row(i))
    }

    /// Entry `i` is not tombstoned.
    pub open spec fn live(&self, i: int) -> bool {
        !bit_set(self.flag@[i], TOMBSTONE)
    }

    /// The sizes that do not fit the column are exactly those in the map.
    pub open spec fn sizes_wf(&self) -> bool {
        &&& forall|i: int|
            0 <= i < self.size_lo@.len() ==> (#[trigger] self.size_lo@[i] == NONE
                <==> self.size_ovf@.contains_key(i as u32))
        &&& forall|k: u32| #[trigger]
            self.size_ovf@.contains_key(k) ==> k < self.size_lo@.len() && self.size_ovf@[k] >= NONE
    }

    /// Every original spelling that is stored lies inside its pool.
    pub open spec fn originals_wf(&self) -> bool {
        &&& self.orig_pool@.len() <= NONE
        &&& forall|i: int|
            0 <= i < self.orig_off@.len() && #[trigger] self.orig_off@[i] != NONE
                ==> self.orig_off@[i] + self.lower(i).len() <= self.orig_pool@.len()
    }

    /// Every entry has a value in every column, and every value is in range.
    pub open spec fn columns_wf(&self) -> bool {
        let n = self.name_id@.len();
        &&& n < NONE
        &&& self.orig_off@.len() == n
        &&& self.parent@.len() == n
        &&& self.size_lo@.len() == n
        &&& self.mtime@.len() == n
        &&& self.frn@.len() == n
        &&& self.flag@.len() == n
        &&& dict_wf(self.dict_pool@, self.dict_off@)
        &&& forall|i: int| 0 <= i < n ==> (#[trigger] self.name_id@[i]) < self.dict_off@.len()
        &&& self.originals_wf()
        &&& self.sizes_wf()
        &&& forall|i: int|
            0 <= i < n ==> #[trigger] self.parent@[i] == NO_PARENT || self.parent@[i] < n
        &&& self.tombstones == dead_count(self.flag@)
        &&& self.dict_appends_since_dedup <= self.dict_off@.len()
    }

    /// The name permutation holds the entries before some entry, once each.
    pub open spec fn order_wf(&self) -> bool {
        is_permutation(self.perm_name@) && self.perm_name@.len() <= self.name_id@.len()
    }

    /// Entry `i` comes before entry `j` in name order; entries of one name
    /// are in the order of their numbers.
    pub open spec fn name_before(&self, i: int, j: int) -> bool {
        bytes_lt(self.lower(i), self.lower(j)) || (self.lower(i) == self.lower(j) && i < j)
    }

    /// The name permutation is in name order.
    pub open spec fn name_sorted(&self) -> bool {
        forall|a: int, b: int|
            0 <= a < b < self.perm_name@.len() ==> self.name_before(
                (#[trigger] self.perm_name@[a]) as int,
                (#[trigger] self.perm_name@[b]) as int,
            )
    }

    /// The name of an entry lies inside the dictionary.
    pub proof fn lemma_lower(&self, i: int)
        requires
            self.columns_wf(),
            0 <= i < self.count(),
        ensures
            ({
                let k = self.name_id@[i] as int;
                &&& 0 <= k < self.dict_off@.len()
                &&& self.dict_off@[k] <= dict_end(self.dict_pool@, self.dict_off@, k)
                    <= self.dict_pool@.len()
                &&& self.lower(i).len() == dict_end(self.dict_pool@, self.dict_off@, k)
                    - self.dict_off@[k]
                &&& self.original(i).len() == self.lower(i).len()
            }),
    {
        let k = self.name_id@[i] as int;
        assert(self.name_id@[i] < self.dict_off@.len());
        if k + 1 < self.dict_off@.len() {
            assert(self.dict_off@[k] <= self.dict_off@[k + 1]);
        }
    }

    /// Total entry slots, live plus tombstoned.
    pub fn len(&self) -> (r: usize)
        ensures
            r == self.count(),
    {
        self.name_id.len()
    }

    /// True when no entries have ever been appended.
    pub fn is_empty(&self) -> (r: bool)
        ensures
            r == (self.count() == 0),
    {
        self.name_id.len() == 0
    }

    /// Live entry count: total slots minus tombstones.
    pub fn live_len(&self) -> (r: usize)
        requires
            self.columns_wf(),
        ensures
            r == self.count() - dead_count(self.flag@),
    {
        proof {
            lemma_dead_count_bound(self.flag@);
        }
        self.name_id.len() - self.tombstones as usize
    }

    /// The tombstoned entries and all entries: how much of the index is dead.
    pub fn tombstone_share(&self) -> (r: (u32, usize))
        requires
            self.columns_wf(),
        ensures
            r.0 == dead_count(self.flag@),
            r.1 == self.count(),
    {
        (self.tombstones, self.name_id.len())
    }

    /// The length of the folded name of `id`, which is that of its original.
    pub fn name_len_of(&self, id: EntryId) -> (r: usize)
        requires
            self.columns_wf(),
            id < self.count(),
        ensures
            r == self.lower(id as int).len(),
            r <= NONE,
    {
        proof {
            self.lemma_lower(id as int);
        }
        let nid: usize = self.name_id[id as usize] as usize;
        let off: usize = self.dict_off[nid] as usize;
        let end: usize = if nid + 1 < self.dict_off.len() {
            self.dict_off[nid + 1] as usize
        } else {
            self.dict_pool.len()
        };
        end - off
    }

    /// The folded name of `id`, the form names are compared by.
    pub fn lower_name(&self, id: EntryId) -> (r: &[u8])
        requires
            self.columns_wf(),
            id < self.count(),
        ensures
            r@ == self.lower(id as int),
    {
        proof {
            self.lemma_lower(id as int);
        }
        let nid: usize = self.name_id[id as usize] as usize;
        let off: usize = self.dict_off[nid] as usize;
        let end: usize = if nid + 1 < self.dict_off.len() {
            self.dict_off[nid + 1] as usize
        } else {
            self.dict_pool.len()
        };
        slice_subrange(self.dict_pool.as_slice(), off, end)
    }

    /// The original name of `id`.
    pub fn name(&self, id: EntryId) -> (r: &[u8])
        requires
            self.columns_wf(),
            id < self.count(),
        ensures
            r@ == self.original(id as int),
    {
        let off: u32 = self.orig_off[id as usize];
        if off == NONE {
            return self.lower_name(id);
        }
        let len: usize = self.name_len_of(id);
        slice_subrange(self.orig_pool.as_slice(), off as usize, off as usize + len)
    }

    /// True when the original spelling of `id` is its folded form.
    pub fn is_fold_identical(&self, id: EntryId) -> (r: bool)
        requires
            self.columns_wf(),
            id < self.count(),
        ensures
            r == (self.orig_off@[id as int] == NONE),
            r ==> self.original(id as int) == self.lower(id as int),
    {
        self.orig_off[id as usize] == NONE
    }

    /// True while `id` is a real entry: false once it has been tombstoned.
    pub fn is_live(&self, id: EntryId) -> (r: bool)
        requires
            self.columns_wf(),
            id < self.count(),
        ensures
            r == self.live(id as int),
    {
        self.flag[id as usize] & TOMBSTONE == 0
    }

    /// Hidden or system, or under such a branch: skipped by default queries.
    pub fn is_excluded(&self, id: EntryId) -> (r: bool)
        requires
            self.columns_wf(),
            id < self.count(),
        ensures
            r == bit_set(self.row(id as int).flag, EXCLUDED),
    {
        self.flag[id as usize] & EXCLUDED != 0
    }

    /// True when `id` is a directory rather than a file.
    pub fn is_dir(&self, id: EntryId) -> (r: bool)
        requires
            self.columns_wf(),
            id < self.count(),
        ensures
            r == bit_set(self.row(id as int).flag, IS_DIR),
    {
        self.flag[id as usize] & IS_DIR != 0
    }

    /// True when `id` is a reparse point (symlink, junction, mount point).
    pub fn is_reparse(&self, id: EntryId) -> (r: bool)
        requires
            self.columns_wf(),
            id < self.count(),
        ensures
            r == bit_set(self.row(id as int).flag, REPARSE),
    {
        self.flag[id as usize] & REPARSE != 0
    }

    /// File size of `id` in bytes.
    pub fn size(&self, id: EntryId) -> (r: u64)
        requires
            self.columns_wf(),
            id < self.count(),
        ensures
            r == self.bytes_of(id as int),
    {
        let lo: u32 = self.size_lo[id as usize];
        if lo == NONE {
            match size_map_get(&self.size_ovf, id) {
                Some(size) => size,
                None => 0,
            }
        } else {
            lo as u64
        }
    }

    /// Last-modification time of `id` as FILETIME ticks, to the second; 0
    /// where it is not known.
    pub fn mtime(&self, id: EntryId) -> (r: i64)
        requires
            self.columns_wf(),
            id < self.count(),
        ensures
            r == secs_to_ticks(self.row(id as int).mtime),
    {
        mtime_secs_to_ticks(self.mtime[id as usize])
    }

    /// The entry of the parent directory of `id` ([`NO_PARENT`] at the root).
    pub fn parent(&self, id: EntryId) -> (r: EntryId)
        requires
            self.columns_wf(),
            id < self.count(),
        ensures
            r == self.row(id as int).parent,
    {
        self.parent[id as usize]
    }

    /// The full reference of `id`.
    pub fn frn(&self, id: EntryId) -> (r: Frn)
        requires
            self.columns_wf(),
            id < self.count(),
        ensures
            r == Frn(self.row(id as int).frn),
    {
        Frn(self.frn[id as usize])
    }

    /// The entries in name order.
    pub fn name_permutation(&self) -> (r: &[EntryId])
        ensures
            r@ == self.perm_name@,
    {
        self.perm_name.as_slice()
    }

    /// The generation that every batch of changes bumps. Results that are
    /// open stay readable across it.
    pub fn content_generation(&self) -> (r: u64)
        ensures
            r == self.content_generation,
    {
        self.content_generation
    }

    /// The generation that changes only when entries are renumbered: open
    /// results are lost then.
    pub fn structural_generation(&self) -> (r: u64)
        ensures
            r == self.structural_generation,
    {
        self.structural_generation
    }

    /// The generation that moves when a directory's name or parent changes.
    pub fn dir_topology_generation(&self) -> (r: u64)
        ensures
            r == self.dir_topology_generation,
    {
        self.dir_topology_generation
    }

    /// The generation that moves when a size or a time changes.
    pub fn stat_generation(&self) -> (r: u64)
        ensures
            r == self.stat_generation,
    {
        self.stat_generation
    }

    /// Carry the structural generation across a rebuild: the index reads as
    /// strictly newer than one whose generation was `prev`.
    pub fn bump_structural_from(&mut self, prev: u64)
        requires
            prev < u64::MAX,
        ensures
            *final(self) == (VolumeIndex { structural_generation: (prev + 1) as u64, ..*old(self) }),
    {
        self.structural_generation = prev + 1;
    }

    /// Write the size of `id`, in the column or in the map.
    pub(crate) fn set_size(&mut self, id: EntryId, v: u64)
        requires
            old(self).columns_wf(),
            id < old(self).count(),
        ensures
            final(self).columns_wf(),
            final(self).bytes_of(id as int) == v,
            forall|i: int|
                0 <= i < old(self).count() && i != id ==> #[trigger] final(self).bytes_of(i) == old(self).bytes_of(i),
            *final(self) == (VolumeIndex {
                size_lo: final(self).size_lo,
                size_ovf: final(self).size_ovf,
                ..*old(self)
            }),
    {
        if v >= NONE as u64 {
            self.size_lo[id as usize] = NONE;
            size_map_insert(&mut self.size_ovf, id, v);
        } else {
            self.size_lo[id as usize] = v as u32;
            size_map_remove(&mut self.size_ovf, id);
        }
        proof {
            self.lemma_originals_kept(old(self));
        }
    }

    proof fn lemma_originals_kept(&self, before: &VolumeIndex)
        requires
            before.originals_wf(),
            self.orig_pool == before.orig_pool,
            self.orig_off == before.orig_off,
            self.dict_pool == before.dict_pool,
            self.dict_off == before.dict_off,
            self.name_id == before.name_id,
        ensures
            self.originals_wf(),
    {
        assert forall|i: int|
            0 <= i < self.orig_off@.len() && #[trigger] self.orig_off@[i] != NONE implies self.orig_off@[i]
            + self.lower(i).len() <= self.orig_pool@.len() by {
            assert(self.lower(i) == before.lower(i));
        }
    }

    /// The length of the text of the first `k` parents: each name and one
    /// separator.
    pub open spec fn path_len(&self, start: u32, k: nat) -> int
        decreases k,
    {
        if k == 0 {
            0
        } else {
            self.path_len(start, (k - 1) as nat) + self.original(
                walk_up(self.parent@, start, (k - 1) as nat) as int,
            ).len() + 1
        }
    }

    /// The text of the first `k` parents, the last of them first, each
    /// followed by a separator.
    pub open spec fn path_text(&self, start: u32, k: nat) -> Seq<u8>
        decreases k,
    {
        if k == 0 {
            Seq::empty()
        } else {
            self.original(walk_up(self.parent@, start, (k - 1) as nat) as int).push(0x5C)
                + self.path_text(start, (k - 1) as nat)
        }
    }

    /// The parents from `start` on end after `k`.
    pub open spec fn chain_ends(&self, start: u32, k: nat) -> bool {
        &&& walk_up(self.parent@, start, k) == NO_PARENT
        &&& forall|j: nat| j < k ==> #[trigger] walk_up(self.parent@, start, j) != NO_PARENT
    }

    /// A walk from `start` and one of twice its speed meet after `t` steps,
    /// and not before.
    pub open spec fn walks_meet(&self, start: u32, t: nat) -> bool {
        &&& t >= 1
        &&& walk_up(self.parent@, start, t) == walk_up(self.parent@, start, 2 * t)
        &&& walk_up(self.parent@, start, t) != NO_PARENT
        &&& forall|s: nat|
            1 <= s < t ==> #[trigger] walk_up(self.parent@, start, s) != walk_up(
                self.parent@,
                start,
                2 * s,
            )
    }

    /// The text of the parents exceeds the limit for the first time with the
    /// `k`-th.
    pub open spec fn first_too_long(&self, start: u32, k: nat) -> bool {
        &&& k >= 1
        &&& self.path_len(start, k) > MAX_PATH_WTF8_BYTES
        &&& self.path_len(start, (k - 1) as nat) <= MAX_PATH_WTF8_BYTES
    }

    /// What building the path of the parents of `id` gives: their text, or
    /// why there is none.
    pub open spec fn parent_path_is(
        &self,
        id: u32,
        r: Result<Seq<u8>, PathBuildError>,
    ) -> bool {
        let start = step_up(self.parent@, id);
        if id >= self.count() {
            r == Err::<Seq<u8>, PathBuildError>(
                PathBuildError::EntryOutOfRange { entry: id, entries: self.count() as usize },
            )
        } else {
            match r {
                Ok(text) => exists|k: nat| #[trigger]
                    self.chain_ends(start, k) && self.path_len(start, k) <= MAX_PATH_WTF8_BYTES
                        && text == self.path_text(start, k),
                Err(e) => {
                    ||| e == (PathBuildError::ParentCycle { entry: id }) && exists|t: nat|
                        #[trigger] self.walks_meet(start, t) && self.path_len(start, t)
                            <= MAX_PATH_WTF8_BYTES
                    ||| exists|k: nat| #[trigger]
                        self.first_too_long(start, k) && (forall|j: nat|
                            j < k ==> #[trigger] walk_up(self.parent@, start, j) != NO_PARENT)
                            && (forall|t: nat| #[trigger] self.walks_meet(start, t) ==> k <= t)
                            && e == (PathBuildError::PathTooLong {
                            entry: id,
                            bytes: self.path_len(start, k) as usize,
                            maximum: MAX_PATH_WTF8_BYTES,
                        })
                },
            }
        }
    }

    /// One step towards the root.
    fn step(&self, e: EntryId) -> (r: EntryId)
        requires
            self.columns_wf(),
            e == NO_PARENT || e < self.count(),
        ensures
            r == step_up(self.parent@, e),
            r == NO_PARENT || r < self.count(),
    {
        if e == NO_PARENT || e == Self::ROOT {
            NO_PARENT
        } else {
            self.parent[e as usize]
        }
    }

    /// Append the path of `id`'s parent directory, including a trailing
    /// separator. Where that fails, nothing is appended.
    pub fn append_parent_path(&self, id: EntryId, out: &mut Vec<u8>) -> (r: Result<
        (),
        PathBuildError,
    >)
        requires
            self.columns_wf(),
        ensures
            match r {
                Ok(_) => exists|text: Seq<u8>| #[trigger]
                    self.parent_path_is(id, Ok(text)) && final(out)@ == old(out)@ + text,
                Err(e) => self.parent_path_is(id, Err(e)) && final(out)@ == old(out)@,
            },
    {
        if id as usize >= self.len() {
            return Err(PathBuildError::EntryOutOfRange { entry: id, entries: self.len() });
        }
        let ghost parent = self.parent@;
        let start: EntryId = self.step(id);
        // Two walks, one of twice the other's speed, meet exactly in a cycle.
        let mut slow: EntryId = start;
        let mut fast: EntryId = start;
        let mut path_len: u64 = 0;
        let ghost mut k: nat = 0;
        loop
            invariant_except_break
                slow == walk_up(parent, start, k),
                fast == walk_up(parent, start, 2 * k),
                slow == NO_PARENT || slow < self.count(),
                fast == NO_PARENT || fast < self.count(),
                slow == NO_PARENT ==> k == 0,
                path_len == self.path_len(start, k),
                path_len <= MAX_PATH_WTF8_BYTES,
                forall|j: nat| j < k ==> #[trigger] walk_up(parent, start, j) != NO_PARENT,
                forall|s: nat|
                    1 <= s <= k ==> #[trigger] walk_up(parent, start, s) != walk_up(
                        parent,
                        start,
                        2 * s,
                    ),
            invariant
                self.columns_wf(),
                id < self.count(),
                parent == self.parent@,
                start == step_up(parent, id),
                out@ == old(out)@,
            ensures
                exists|m: nat| walk_up(parent, start, m) == NO_PARENT,
                forall|t: nat| !(#[trigger] self.walks_meet(start, t)),
            decreases MAX_PATH_WTF8_BYTES - path_len,
        {
            if slow != NO_PARENT {
                let len: usize = self.name_len_of(slow);
                proof {
                    self.lemma_lower(slow as int);
                    assert(self.path_len(start, k + 1) == self.path_len(start, k) + len + 1);
                }
                path_len = path_len + len as u64 + 1;
                if path_len > MAX_PATH_WTF8_BYTES as u64 {
                    proof {
                        assert(self.first_too_long(start, k + 1));
                        assert forall|t: nat| #[trigger] self.walks_meet(start, t) implies k + 1
                            <= t by {
                            if t <= k {
                                assert(walk_up(parent, start, t) != walk_up(parent, start, 2 * t));
                            }
                        }
                        assert forall|j: nat| j < k + 1 implies #[trigger] walk_up(
                            parent,
                            start,
                            j,
                        ) != NO_PARENT by {
                            if j < k {
                            }
                        }
                    }
                    return Err(
                        PathBuildError::PathTooLong {
                            entry: id,
                            bytes: path_len as usize,
                            maximum: MAX_PATH_WTF8_BYTES,
                        },
                    );
                }
            }
            slow = self.step(slow);
            fast = self.step(self.step(fast));
            proof {
                reveal_with_fuel(walk_up, 3);
                assert(walk_up(parent, start, 2 * k + 2) == step_up(
                    parent,
                    walk_up(parent, start, 2 * k + 1),
                ));
                assert(slow == walk_up(parent, start, k + 1));
                assert(fast == walk_up(parent, start, 2 * (k + 1)));
            }
            if slow == NO_PARENT || fast == NO_PARENT {
                proof {
                    let m: nat = if slow == NO_PARENT {
                        k + 1
                    } else {
                        2 * (k + 1)
                    };
                    assert(walk_up(parent, start, m) == NO_PARENT);
                    assert forall|t: nat| !(#[trigger] self.walks_meet(start, t)) by {
                        if self.walks_meet(start, t) {
                            lemma_never_meets(parent, start, t, m);
                        }
                    }
                }
                break;
            }
            if slow == fast {
                proof {
                    assert(self.walks_meet(start, k + 1)) by {
                        assert forall|s: nat| 1 <= s < k + 1 implies #[trigger] walk_up(
                            parent,
                            start,
                            s,
                        ) != walk_up(parent, start, 2 * s) by {}
                    }
                }
                return Err(PathBuildError::ParentCycle { entry: id });
            }
            proof {
                assert forall|s: nat| 1 <= s <= k + 1 implies #[trigger] walk_up(parent, start, s)
                    != walk_up(parent, start, 2 * s) by {}
                assert forall|j: nat| j < k + 1 implies #[trigger] walk_up(parent, start, j)
                    != NO_PARENT by {
                    if j == k && walk_up(parent, start, k) == NO_PARENT {
                        assert(k == 0);
                        assert(step_up(parent, NO_PARENT) == NO_PARENT);
                    }
                }
                k = k + 1;
            }
        }
        let mut chain: Vec<EntryId> = Vec::new();
        path_len = 0;
        let mut cur: EntryId = start;
        while cur != NO_PARENT
            invariant
                self.columns_wf(),
                id < self.count(),
                parent == self.parent@,
                start == step_up(parent, id),
                cur == walk_up(parent, start, chain@.len()),
                cur == NO_PARENT || cur < self.count(),
                path_len == self.path_len(start, chain@.len()),
                path_len <= MAX_PATH_WTF8_BYTES,
                forall|t: nat| !(#[trigger] self.walks_meet(start, t)),
                forall|j: int|
                    0 <= j < chain@.len() ==> #[trigger] chain@[j] == walk_up(
                        parent,
                        start,
                        j as nat,
                    ) && chain@[j] < self.count(),
                out@ == old(out)@,
            decreases MAX_PATH_WTF8_BYTES - path_len,
        {
            let len: usize = self.name_len_of(cur);
            let ghost c = chain@.len();
            proof {
                self.lemma_lower(cur as int);
                assert(self.path_len(start, c + 1) == self.path_len(start, c) + len + 1);
            }
            path_len = path_len + len as u64 + 1;
            if path_len > MAX_PATH_WTF8_BYTES as u64 {
                proof {
                    assert(self.first_too_long(start, c + 1));
                    assert forall|j: nat| j < c + 1 implies #[trigger] walk_up(parent, start, j)
                        != NO_PARENT by {
                        if j < c {
                            assert(chain@[j as int] == walk_up(parent, start, j));
                        }
                    }
                }
                return Err(
                    PathBuildError::PathTooLong {
                        entry: id,
                        bytes: path_len as usize,
                        maximum: MAX_PATH_WTF8_BYTES,
                    },
                );
            }
            chain.push(cur);
            cur = self.step(cur);
        }
        let ghost m = chain@.len();
        proof {
            assert(self.chain_ends(start, m)) by {
                assert forall|j: nat| j < m implies #[trigger] walk_up(parent, start, j)
                    != NO_PARENT by {
                    assert(chain@[j as int] == walk_up(parent, start, j));
                }
            }
        }
        let ghost base = out@;
        let mut i: usize = chain.len();
        assert(self.path_text(start, m) =~= Seq::<u8>::empty() + self.path_text(start, m));
        let ghost mut written: Seq<u8> = Seq::empty();
        while i > 0
            invariant
                self.columns_wf(),
                i <= m,
                m == chain@.len(),
                parent == self.parent@,
                forall|j: int|
                    0 <= j < chain@.len() ==> #[trigger] chain@[j] == walk_up(
                        parent,
                        start,
                        j as nat,
                    ) && chain@[j] < self.count(),
                out@ == base + written,
                self.path_text(start, m) == written + self.path_text(start, i as nat),
            decreases i,
        {
            i = i - 1;
            let c: EntryId = chain[i];
            let ghost name = self.original(c as int);
            extend(out, self.name(c));
            out.push(0x5C);
            proof {
                assert(self.path_text(start, (i + 1) as nat) == name.push(0x5C) + self.path_text(
                    start,
                    i as nat,
                ));
                let next = written + name.push(0x5C);
                assert(written + (name.push(0x5C) + self.path_text(start, i as nat)) =~= next
                    + self.path_text(start, i as nat));
                assert(out@ =~= base + next);
                written = next;
            }
        }
        proof {
            assert(self.path_text(start, 0) =~= Seq::empty());
            assert(self.path_text(start, m) =~= written);
            assert(self.parent_path_is(id, Ok(written)));
        }
        Ok(())
    }

    /// Append the full path of `id` to `out`. Where that fails, nothing is
    /// appended.
    pub fn append_path(&self, id: EntryId, out: &mut Vec<u8>) -> (r: Result<(), PathBuildError>)
        requires
            self.columns_wf(),
        ensures
            match r {
                Ok(_) => exists|text: Seq<u8>| #[trigger]
                    self.parent_path_is(id, Ok(text)) && final(out)@ == old(out)@ + text + (if id
                        == 0 {
                        Seq::empty()
                    } else {
                        self.original(id as int)
                    }) && (id != 0 ==> text.len() + self.original(id as int).len()
                        <= MAX_PATH_WTF8_BYTES),
                Err(e) => final(out)@ == old(out)@ && (self.parent_path_is(id, Err(e)) || (id != 0
                    && exists|text: Seq<u8>| #[trigger]
                    self.parent_path_is(id, Ok(text)) && text.len() + self.original(id as int).len()
                        > MAX_PATH_WTF8_BYTES && e == (PathBuildError::PathTooLong {
                        entry: id,
                        bytes: (text.len() + self.original(id as int).len()) as usize,
                        maximum: MAX_PATH_WTF8_BYTES,
                    }))),
            },
    {
        let mut text: Vec<u8> = Vec::new();
        match self.append_parent_path(id, &mut text) {
            Ok(_) => {},
            Err(e) => {
                return Err(e);
            },
        }
        let ghost parents = choose|t: Seq<u8>| #[trigger]
            self.parent_path_is(id, Ok(t)) && text@ == Seq::<u8>::empty() + t;
        assert(text@ =~= parents);
        let ghost base = out@;
        if id != Self::ROOT {
            proof {
                self.lemma_lower(id as int);
                let start = step_up(self.parent@, id);
                let k = choose|k: nat| #[trigger]
                    self.chain_ends(start, k) && self.path_len(start, k) <= MAX_PATH_WTF8_BYTES
                        && parents == self.path_text(start, k);
                self.lemma_text_len(start, k);
            }
            let required: u64 = text.len() as u64 + self.name_len_of(id) as u64;
            if required > MAX_PATH_WTF8_BYTES as u64 {
                return Err(
                    PathBuildError::PathTooLong {
                        entry: id,
                        bytes: required as usize,
                        maximum: MAX_PATH_WTF8_BYTES,
                    },
                );
            }
            extend(out, text.as_slice());
            extend(out, self.name(id));
        } else {
            extend(out, text.as_slice());
            assert(out@ =~= base + parents + Seq::<u8>::empty());
        }
        Ok(())
    }

    proof fn lemma_text_len(&self, start: u32, k: nat)
        ensures
            self.path_text(start, k).len() == self.path_len(start, k),
        decreases k,
    {
        if k > 0 {
            self.lemma_text_len(start, (k - 1) as nat);
        }
    }
}

/// Walks that reach the end do not meet before it.
proof fn lemma_never_meets(parent: Seq<u32>, start: u32, t: nat, m: nat)
    requires
        t >= 1,
        walk_up(parent, start, t) == walk_up(parent, start, 2 * t),
        walk_up(parent, start, m) == NO_PARENT,
    ensures
        walk_up(parent, start, t) == NO_PARENT,
{
    lemma_walk_cycles(parent, start, t, m);
    // After t steps the walk repeats every t steps, and after m it is over.
    let far = t * (m + 1);
    assert(far >= m) by (nonlinear_arith)
        requires
            far == t * (m + 1),
            t >= 1,
    ;
    lemma_walk_up_add(parent, start, m, (far - m) as nat);
    lemma_walk_up_nowhere(parent, (far - m) as nat);
}

proof fn lemma_walk_cycles(parent: Seq<u32>, start: u32, t: nat, c: nat)
    requires
        t >= 1,
        walk_up(parent, start, t) == walk_up(parent, start, 2 * t),
    ensures
        walk_up(parent, start, t * (c + 1)) == walk_up(parent, start, t),
    decreases c,
{
    if c == 0 {
        assert(t * 1 == t) by (nonlinear_arith);
    } else {
        lemma_walk_cycles(parent, start, t, (c - 1) as nat);
        assert(t * c + t == t * (c + 1)) by (nonlinear_arith);
        lemma_walk_up_add(parent, start, t * c, t);
        lemma_walk_up_add(parent, start, t, t);
    }
}

/// Append the bytes.
pub(crate) fn extend(out: &mut Vec<u8>, bytes: &[u8])
    ensures
        final(out)@ == old(out)@ + bytes@,
{
    let ghost base = out@;
    let mut i: usize = 0;
    while i < bytes.len()
        invariant
            i <= bytes@.len(),
            out@ == base + bytes@.take(i as int),
        decreases bytes@.len() - i,
    {
        out.push(bytes[i]);
        i = i + 1;
        assert(out@ =~= base + bytes@.take(i as int));
    }
    assert(bytes@.take(i as int) =~= bytes@);
}

} // verus!
