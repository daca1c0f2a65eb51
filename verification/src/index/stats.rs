//! What an index takes in memory.

use vstd::prelude::*;
use rustc_hash::FxHashMap;
use crate::metrics::IndexStats;
use super::columns::VolumeIndex;

verus! {

/// The bytes of a slot of the map of large sizes: the pair and one byte of
/// bookkeeping.
pub const SIZE_SLOT_BYTES: u64 = 17;

/// `Vec::capacity`: at least as many values as the vector holds. How many
/// more, the allocator decides.
#[verifier::external_body]
fn capacity<T>(v: &Vec<T>) -> (r: usize)
    ensures
        r >= v@.len(),
{
    v.capacity()
}

/// `HashMap::capacity`: at least as many pairs as the map holds. How many
/// more, the allocator decides.
#[verifier::external_body]
fn size_map_capacity(m: &FxHashMap<u32, u64>) -> (r: usize)
    ensures
        r >= m@.dom().len(),
{
    m.capacity()
}

/// How many values each column has room for.
#[derive(Clone, Copy, Debug, PartialEq, Eq, Structural)]
pub struct Capacities {
    /// The pool of original spellings.
    pub orig_pool: u64,
    /// The pool of folded names.
    pub dict_pool: u64,
    /// The names of entries.
    pub name_id: u64,
    /// Where folded names start.
    pub dict_off: u64,
    /// Where original spellings start.
    pub orig_off: u64,
    /// Parents.
    pub parent: u64,
    /// Sizes.
    pub size_lo: u64,
    /// Large sizes.
    pub size_ovf: u64,
    /// Modification times.
    pub mtime: u64,
    /// References.
    pub frn: u64,
    /// Flags.
    pub flag: u64,
    /// The name permutation.
    pub perm_name: u64,
    /// The index by record number.
    pub frn_index: u64,
}

/// A number of bytes, or the largest where it does not fit.
pub open spec fn capped(n: int) -> u64 {
    if n <= u64::MAX {
        n as u64
    } else {
        u64::MAX
    }
}

fn times(a: u64, b: u64) -> (r: u64)
    ensures
        r == capped(a * b),
{
    proof {
        assert(a as u128 * b as u128 <= u128::MAX) by (nonlinear_arith)
            requires
                a <= u64::MAX,
                b <= u64::MAX,
        ;
    }
    let n: u128 = a as u128 * b as u128;
    if n <= u64::MAX as u128 {
        n as u64
    } else {
        u64::MAX
    }
}

fn plus(a: u64, b: u64) -> (r: u64)
    ensures
        r == capped(a + b),
{
    if b <= u64::MAX - a {
        a + b
    } else {
        u64::MAX
    }
}

/// The accounts of columns that have room for so many values.
pub open spec fn accounts(c: Capacities, s: IndexStats) -> bool {
    &&& s.name_pool_bytes == c.orig_pool
    &&& s.lower_pool_bytes == c.dict_pool
    &&& s.offsets_bytes == capped(4 * c.name_id + 4 * c.dict_off + 4 * c.orig_off)
    &&& s.parent_bytes == capped(4 * c.parent)
    &&& s.size_bytes == capped(4 * c.size_lo + SIZE_SLOT_BYTES * c.size_ovf)
    &&& s.mtime_bytes == capped(4 * c.mtime)
    &&& s.frn_bytes == capped(8 * c.frn)
    &&& s.flag_bytes == c.flag
    &&& s.permutations_bytes == capped(4 * c.perm_name)
    &&& s.frn_map_bytes == capped(4 * c.frn_index)
    &&& s.derived_cache_bytes == 0
    &&& s.total_bytes == capped(
        s.name_pool_bytes + s.lower_pool_bytes + s.offsets_bytes + s.parent_bytes + s.size_bytes
            + s.mtime_bytes + s.frn_bytes + s.flag_bytes + s.permutations_bytes + s.frn_map_bytes,
    )
}

impl VolumeIndex {
    /// The columns have room for what they hold.
    pub open spec fn room(&self, c: Capacities) -> bool {
        &&& c.orig_pool >= self.orig_pool@.len()
        &&& c.dict_pool >= self.dict_pool@.len()
        &&& c.name_id >= self.name_id@.len()
        &&& c.dict_off >= self.dict_off@.len()
        &&& c.orig_off >= self.orig_off@.len()
        &&& c.parent >= self.parent@.len()
        &&& c.size_lo >= self.size_lo@.len()
        &&& c.size_ovf >= self.size_ovf@.dom().len()
        &&& c.mtime >= self.mtime@.len()
        &&& c.frn >= self.frn@.len()
        &&& c.flag >= self.flag@.len()
        &&& c.perm_name >= self.perm_name@.len()
        &&& c.frn_index >= self.frn_index.ids@.len()
    }

    /// What the columns take, given what they have room for.
    pub fn account(&self, volume: &str, c: Capacities) -> (s: IndexStats)
        requires
            self.columns_wf(),
        ensures
            accounts(c, s),
            s.volume@ == volume@,
            s.entries == self.count(),
            s.live_entries == self.count() - self.tombstones,
            s.tombstones == self.tombstones,
            s.dead_name_bytes == self.dead_name_bytes,
            s.content_generation == self.content_generation,
            s.structural_generation == self.structural_generation,
    {
        let offsets: u64 = plus(plus(times(4, c.name_id), times(4, c.dict_off)), times(4, c.orig_off));
        let parent: u64 = times(4, c.parent);
        let size: u64 = plus(times(4, c.size_lo), times(SIZE_SLOT_BYTES, c.size_ovf));
        let mtime: u64 = times(4, c.mtime);
        let frn: u64 = times(8, c.frn);
        let perms: u64 = times(4, c.perm_name);
        let map: u64 = times(4, c.frn_index);
        let names: u64 = plus(plus(c.orig_pool, c.dict_pool), offsets);
        let facts: u64 = plus(plus(plus(plus(parent, size), mtime), frn), c.flag);
        let total: u64 = plus(plus(names, facts), plus(perms, map));
        IndexStats {
            volume: volume.to_owned(),
            entries: self.len() as u64,
            live_entries: self.live_len() as u64,
            tombstones: self.tombstones as u64,
            name_pool_bytes: c.orig_pool,
            lower_pool_bytes: c.dict_pool,
            offsets_bytes: offsets,
            parent_bytes: parent,
            size_bytes: size,
            mtime_bytes: mtime,
            frn_bytes: frn,
            flag_bytes: c.flag,
            permutations_bytes: perms,
            frn_map_bytes: map,
            dead_name_bytes: self.dead_name_bytes,
            derived_cache_bytes: 0,
            total_bytes: total,
            content_generation: self.content_generation,
            structural_generation: self.structural_generation,
        }
    }

    /// What the columns take. How much room they have, the allocator decides.
    pub fn stats(&self, volume: &str) -> (s: IndexStats)
        requires
            self.columns_wf(),
        ensures
            exists|c: Capacities| #[trigger] accounts(c, s) && self.room(c),
            s.volume@ == volume@,
            s.entries == self.count(),
            s.live_entries == self.count() - self.tombstones,
            s.tombstones == self.tombstones,
            s.dead_name_bytes == self.dead_name_bytes,
            s.content_generation == self.content_generation,
            s.structural_generation == self.structural_generation,
    {
        let c: Capacities = Capacities {
            orig_pool: capacity(&self.orig_pool) as u64,
            dict_pool: capacity(&self.dict_pool) as u64,
            name_id: capacity(&self.name_id) as u64,
            dict_off: capacity(&self.dict_off) as u64,
            orig_off: capacity(&self.orig_off) as u64,
            parent: capacity(&self.parent) as u64,
            size_lo: capacity(&self.size_lo) as u64,
            size_ovf: size_map_capacity(&self.size_ovf) as u64,
            mtime: capacity(&self.mtime) as u64,
            frn: capacity(&self.frn) as u64,
            flag: capacity(&self.flag) as u64,
            perm_name: capacity(&self.perm_name) as u64,
            frn_index: capacity(&self.frn_index.ids) as u64,
        };
        self.account(volume, c)
    }
}

} // verus!
