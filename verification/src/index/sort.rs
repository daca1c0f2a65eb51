//! Sorting all entries by name, size or time.

use vstd::prelude::*;
use vstd::slice::slice_subrange;
use crate::order::{
    bytes_lt, compare_bytes, is_permutation, key_le, lemma_bytes_total, par_sort_keys,
    par_sort_named, reordered, same_items, Order,
};
use super::columns::{dict_name, VolumeIndex};
use super::merge::ascends;
use super::{EntryId, SortKey};

verus! {

/// Each name of the dictionary has its place in the order of names.
pub open spec fn ranks(rank: Seq<u32>, pool: Seq<u8>, off: Seq<u32>) -> bool {
    &&& rank.len() == off.len()
    &&& forall|a: int, b: int|
        0 <= a < off.len() && 0 <= b < off.len() && a != b ==> #[trigger] rank[a]
            != #[trigger] rank[b]
    &&& forall|a: int, b: int|
        0 <= a < off.len() && 0 <= b < off.len() && (#[trigger] rank[a]) < (#[trigger] rank[b])
            ==> bytes_lt(dict_name(pool, off, a), dict_name(pool, off, b))
}

/// Entry `id` comes with its key.
pub open spec fn keyed_by(index: VolumeIndex, key: SortKey, id: int) -> int {
    match key {
        SortKey::Name => 0,
        SortKey::Size => index.bytes_of(id) as int,
        SortKey::Mtime => index.mtime@[id] as int,
    }
}

impl VolumeIndex {
    /// Entry `a` comes before entry `b` in the order of `key`; entries of one
    /// key are in the order of their numbers.
    pub open spec fn sorts_before(&self, key: SortKey, a: int, b: int) -> bool {
        match key {
            SortKey::Name => self.name_before(a, b),
            _ => keyed_by(*self, key, a) < keyed_by(*self, key, b) || (keyed_by(*self, key, a)
                == keyed_by(*self, key, b) && a < b),
        }
    }

    /// Name `k` of the dictionary.
    fn name_of_dict(&self, k: usize) -> (r: &[u8])
        requires
            self.columns_wf(),
            k < self.dict_off@.len(),
        ensures
            r@ == dict_name(self.dict_pool@, self.dict_off@, k as int),
    {
        proof {
            let off = self.dict_off@;
            assert(off[k as int] <= self.dict_pool@.len());
            if k + 1 < off.len() {
                assert(off[k as int] <= off[k + 1] <= self.dict_pool@.len());
            }
        }
        let start: usize = self.dict_off[k] as usize;
        let end: usize = if k + 1 < self.dict_off.len() {
            self.dict_off[k + 1] as usize
        } else {
            self.dict_pool.len()
        };
        slice_subrange(self.dict_pool.as_slice(), start, end)
    }

    /// Rank the distinct names of the dictionary by their bytes.
    fn rank_names(&self) -> (rank: Vec<u32>)
        requires
            self.columns_wf(),
            self.dict_distinct(),
        ensures
            ranks(rank@, self.dict_pool@, self.dict_off@),
    {
        let ghost pool = self.dict_pool@;
        let ghost off = self.dict_off@;
        let d: usize = self.dict_off.len();
        let mut order: Vec<(&[u8], u32)> = Vec::new();
        let mut rank: Vec<u32> = Vec::new();
        let mut k: usize = 0;
        while k < d
            invariant
                self.columns_wf(),
                pool == self.dict_pool@,
                off == self.dict_off@,
                d == off.len(),
                k <= d,
                order@.len() == k,
                rank@.len() == k,
                forall|i: int|
                    0 <= i < k ==> (#[trigger] order@[i]).1 == i && order@[i].0@ == dict_name(
                        pool,
                        off,
                        i,
                    ),
            decreases d - k,
        {
            order.push((self.name_of_dict(k), k as u32));
            rank.push(0);
            k = k + 1;
        }
        let ghost unsorted = order@;
        par_sort_named(&mut order);
        let ghost sorted = order@;
        let ghost (p, q) = choose|p: Seq<int>, q: Seq<int>| reordered(unsorted, sorted, p, q);
        proof {
            assert(reordered(unsorted, sorted, p, q));
            assert forall|i: int| 0 <= i < d implies (#[trigger] sorted[i]).1 == p[i]
                && sorted[i].0@ == dict_name(pool, off, p[i]) by {
                assert(sorted[i] == unsorted[p[i]]);
            }
        }
        let mut r: usize = 0;
        while r < d
            invariant
                d == off.len(),
                off.len() <= 0xFFFF_FFFF,
                r <= d,
                order@ == sorted,
                sorted.len() == d,
                reordered(unsorted, sorted, p, q),
                unsorted.len() == d,
                forall|i: int| 0 <= i < d ==> (#[trigger] sorted[i]).1 == p[i],
                rank@.len() == d,
                forall|i: int| 0 <= i < r ==> #[trigger] rank@[p[i]] == i,
            decreases d - r,
        {
            let nid: u32 = order[r].1;
            let ghost before = rank@;
            assert(nid == p[r as int]);
            rank[nid as usize] = r as u32;
            proof {
                assert forall|i: int| 0 <= i < r + 1 implies #[trigger] rank@[p[i]] == i by {
                    if i < r {
                        assert(q[p[i]] == i && q[p[r as int]] == r);
                        assert(before[p[i]] == i);
                    }
                }
            }
            r = r + 1;
        }
        proof {
            assert forall|a: int| 0 <= a < d implies #[trigger] rank@[a] == q[a] by {
                assert(p[q[a]] == a);
                assert(rank@[p[q[a]]] == q[a]);
            }
            assert forall|a: int, b: int| 0 <= a < d && 0 <= b < d && a != b implies #[trigger] rank@[a]
                != #[trigger] rank@[b] by {
                assert(p[q[a]] == a && p[q[b]] == b);
            }
            assert forall|a: int, b: int|
                0 <= a < d && 0 <= b < d && (#[trigger] rank@[a]) < (
                #[trigger] rank@[b]) implies bytes_lt(
                dict_name(pool, off, a),
                dict_name(pool, off, b),
            ) by {
                assert(p[q[a]] == a && p[q[b]] == b);
                let x = sorted[q[a]];
                let y = sorted[q[b]];
                assert(x.0@ == dict_name(pool, off, a) && y.0@ == dict_name(pool, off, b));
                assert(dict_name(pool, off, a) != dict_name(pool, off, b)) by {
                    if a < b {
                        assert(dict_name(pool, off, a) != dict_name(pool, off, b));
                    } else {
                        assert(dict_name(pool, off, b) != dict_name(pool, off, a));
                    }
                }
            }
        }
        rank
    }

    /// All entries in name order, by the ranks of their names.
    pub(crate) fn sorted_by_name(&self) -> (r: Vec<EntryId>)
        requires
            self.columns_wf(),
            self.dict_distinct(),
        ensures
            is_permutation(r@),
            r@.len() == self.count(),
            ascends(r@, self.name_order()),
    {
        let rank: Vec<u32> = self.rank_names();
        let n: u32 = self.len() as u32;
        let mut keyed: Vec<(u64, u32)> = Vec::new();
        let mut id: u32 = 0;
        while id < n
            invariant
                self.columns_wf(),
                ranks(rank@, self.dict_pool@, self.dict_off@),
                n == self.count(),
                id <= n,
                keyed@.len() == id,
                forall|i: int|
                    0 <= i < id ==> (#[trigger] keyed@[i]).1 == i && keyed@[i].0
                        == rank@[self.name_id@[i] as int],
            decreases n - id,
        {
            let nid: u32 = self.name_id[id as usize];
            keyed.push((rank[nid as usize] as u64, id));
            id = id + 1;
        }
        let ghost unsorted = keyed@;
        par_sort_keys(&mut keyed);
        let ghost sorted = keyed@;
        let r: Vec<EntryId> = numbers(&keyed);
        proof {
            lemma_numbers(unsorted, sorted, r@);
            let (p, q) = choose|p: Seq<int>, q: Seq<int>| reordered(unsorted, sorted, p, q);
            assert(reordered(unsorted, sorted, p, q));
            let ord = self.name_order();
            assert forall|x: int, y: int| 0 <= x < y < r@.len() implies ord(
                #[trigger] r@[x],
                #[trigger] r@[y],
            ) by {
                assert(key_le(sorted[x], sorted[y]));
                assert(sorted[x] == unsorted[p[x]] && sorted[y] == unsorted[p[y]]);
                let i = r@[x] as int;
                let j = r@[y] as int;
                let a = self.name_id@[i] as int;
                let b = self.name_id@[j] as int;
                assert(r@[x] != r@[y]);
                assert(sorted[x].0 == rank@[a] && sorted[y].0 == rank@[b]);
                if rank@[a] < rank@[b] {
                } else {
                    assert(a == b);
                }
            }
        }
        r
    }

    /// All entries in the order of a key.
    pub fn permutation(&self, key: SortKey) -> (r: Vec<EntryId>)
        requires
            self.wf(),
            self.perm_name@.len() == self.count(),
            self.name_sorted(),
        ensures
            is_permutation(r@),
            r@.len() == self.count(),
            forall|x: int, y: int|
                0 <= x < y < r@.len() ==> self.sorts_before(
                    key,
                    (#[trigger] r@[x]) as int,
                    (#[trigger] r@[y]) as int,
                ),
            key == SortKey::Name ==> r@ == self.perm_name@,
            key == SortKey::Name ==> forall|x: int, y: int|
                0 <= x < y < r@.len() ==> bytes_lt(
                    self.lower((#[trigger] r@[x]) as int),
                    self.lower((#[trigger] r@[y]) as int),
                ) || (self.lower(r@[x] as int) == self.lower(r@[y] as int) && r@[x] < r@[y]),
            key == SortKey::Size ==> forall|x: int, y: int|
                0 <= x < y < r@.len() ==> self.row((#[trigger] r@[x]) as int).size < self.row(
                    (#[trigger] r@[y]) as int,
                ).size || (self.row(r@[x] as int).size == self.row(r@[y] as int).size && r@[x]
                    < r@[y]),
            key == SortKey::Mtime ==> forall|x: int, y: int|
                0 <= x < y < r@.len() ==> self.mtime@[(#[trigger] r@[x]) as int]
                    < self.mtime@[(#[trigger] r@[y]) as int] || (self.mtime@[r@[x] as int]
                    == self.mtime@[r@[y] as int] && r@[x] < r@[y]),
    {
        let n: u32 = self.len() as u32;
        let mut keyed: Vec<(u64, u32)> = Vec::new();
        match key {
            SortKey::Name => {
                let mut r: Vec<EntryId> = Vec::new();
                let mut i: usize = 0;
                while i < self.perm_name.len()
                    invariant
                        i <= self.perm_name@.len(),
                        r@ == self.perm_name@.take(i as int),
                    decreases self.perm_name@.len() - i,
                {
                    r.push(self.perm_name[i]);
                    assert(self.perm_name@.take(i + 1) =~= self.perm_name@.take(i as int).push(
                        self.perm_name@[i as int],
                    ));
                    i = i + 1;
                }
                assert(self.perm_name@.take(i as int) =~= self.perm_name@);
                return r;
            },
            _ => {},
        }
        let mut id: u32 = 0;
        while id < n
            invariant
                self.wf(),
                n == self.count(),
                id <= n,
                key != SortKey::Name,
                keyed@.len() == id,
                forall|i: int|
                    0 <= i < id ==> (#[trigger] keyed@[i]).1 == i && keyed@[i].0 == keyed_by(
                        *self,
                        key,
                        i,
                    ),
            decreases n - id,
        {
            let k: u64 = match key {
                SortKey::Name => 0,
                SortKey::Size => self.size(id),
                SortKey::Mtime => self.mtime[id as usize] as u64,
            };
            keyed.push((k, id));
            id = id + 1;
        }
        let ghost unsorted = keyed@;
        par_sort_keys(&mut keyed);
        let ghost sorted = keyed@;
        let r: Vec<EntryId> = numbers(&keyed);
        proof {
            lemma_numbers(unsorted, sorted, r@);
            let (p, q) = choose|p: Seq<int>, q: Seq<int>| reordered(unsorted, sorted, p, q);
            assert(reordered(unsorted, sorted, p, q));
            assert forall|x: int, y: int| 0 <= x < y < r@.len() implies self.sorts_before(
                key,
                (#[trigger] r@[x]) as int,
                (#[trigger] r@[y]) as int,
            ) by {
                assert(key_le(sorted[x], sorted[y]));
                assert(sorted[x] == unsorted[p[x]] && sorted[y] == unsorted[p[y]]);
                assert(r@[x] != r@[y]);
            }
        }
        r
    }
}

/// The numbers of the pairs.
fn numbers(pairs: &Vec<(u64, u32)>) -> (r: Vec<u32>)
    ensures
        r@.len() == pairs@.len(),
        forall|i: int| 0 <= i < r@.len() ==> #[trigger] r@[i] == pairs@[i].1,
{
    let mut r: Vec<u32> = Vec::new();
    let mut i: usize = 0;
    while i < pairs.len()
        invariant
            i <= pairs@.len(),
            r@.len() == i,
            forall|k: int| 0 <= k < i ==> #[trigger] r@[k] == pairs@[k].1,
        decreases pairs@.len() - i,
    {
        r.push(pairs[i].1);
        i = i + 1;
    }
    r
}

/// The numbers of reordered pairs of all numbers are a permutation.
proof fn lemma_numbers(unsorted: Seq<(u64, u32)>, sorted: Seq<(u64, u32)>, r: Seq<u32>)
    requires
        same_items(unsorted, sorted),
        forall|i: int| 0 <= i < unsorted.len() ==> (#[trigger] unsorted[i]).1 == i,
        r.len() == sorted.len(),
        forall|i: int| 0 <= i < r.len() ==> #[trigger] r[i] == sorted[i].1,
    ensures
        is_permutation(r),
{
    let (p, q) = choose|p: Seq<int>, q: Seq<int>| reordered(unsorted, sorted, p, q);
    assert(reordered(unsorted, sorted, p, q));
    assert forall|i: int| 0 <= i < r.len() implies (#[trigger] r[i]) < r.len() by {
        assert(sorted[i] == unsorted[p[i]]);
    }
    assert forall|i: int, j: int| 0 <= i < j < r.len() implies #[trigger] r[i] != #[trigger] r[j] by {
        assert(sorted[i] == unsorted[p[i]] && sorted[j] == unsorted[p[j]]);
        assert(q[p[i]] == i && q[p[j]] == j);
    }
}

impl VolumeIndex {
    /// How two entries are ordered by a key; entries of one key are in the
    /// order of their numbers.
    pub fn order_by(&self, key: SortKey, a: EntryId, b: EntryId) -> (r: Order)
        requires
            self.columns_wf(),
            a < self.count(),
            b < self.count(),
        ensures
            r == Order::Less <==> self.sorts_before(key, a as int, b as int),
            r == Order::Same <==> a == b,
            r == Order::Greater <==> self.sorts_before(key, b as int, a as int),
            key == SortKey::Name && bytes_lt(self.lower(a as int), self.lower(b as int)) ==> r
                == Order::Less,
            key == SortKey::Name && bytes_lt(self.lower(b as int), self.lower(a as int)) ==> r
                == Order::Greater,
            key == SortKey::Size && self.row(a as int).size < self.row(b as int).size ==> r
                == Order::Less,
            key == SortKey::Size && self.row(a as int).size > self.row(b as int).size ==> r
                == Order::Greater,
            key == SortKey::Mtime && self.mtime@[a as int] < self.mtime@[b as int] ==> r
                == Order::Less,
            key == SortKey::Mtime && self.mtime@[a as int] > self.mtime@[b as int] ==> r
                == Order::Greater,
    {
        proof {
            lemma_bytes_total(self.lower(a as int), self.lower(b as int));
            lemma_bytes_total(self.lower(b as int), self.lower(a as int));
        }
        let (x, y): (u64, u64) = match key {
            SortKey::Name => match compare_bytes(self.lower_name(a), self.lower_name(b)) {
                Order::Less => (0, 1),
                Order::Same => (0, 0),
                Order::Greater => (1, 0),
            },
            SortKey::Size => (self.size(a), self.size(b)),
            SortKey::Mtime => (self.mtime[a as usize] as u64, self.mtime[b as usize] as u64),
        };
        if x < y || (x == y && a < b) {
            Order::Less
        } else if x == y && a == b {
            Order::Same
        } else {
            Order::Greater
        }
    }

    /// What coming before means: by name, the smaller folded name; by size, the
    /// smaller size; by time, the earlier one; and of equals the entry with the
    /// smaller number.
    pub proof fn lemma_sorts_before(&self, key: SortKey, a: int, b: int)
        ensures
            key == SortKey::Name ==> (self.sorts_before(key, a, b) <==> bytes_lt(
                self.lower(a),
                self.lower(b),
            ) || (self.lower(a) == self.lower(b) && a < b)),
            key == SortKey::Size ==> (self.sorts_before(key, a, b) <==> self.row(a).size < self.row(
                b,
            ).size || (self.row(a).size == self.row(b).size && a < b)),
            key == SortKey::Mtime ==> (self.sorts_before(key, a, b) <==> self.mtime@[a]
                < self.mtime@[b] || (self.mtime@[a] == self.mtime@[b] && a < b)),
    {
    }

    /// Of two entries exactly one comes before the other, whatever the key.
    pub proof fn lemma_sorts_one_way(&self, key: SortKey, a: int, b: int)
        requires
            a != b,
        ensures
            self.sorts_before(key, a, b) <==> !self.sorts_before(key, b, a),
    {
        lemma_bytes_total(self.lower(a), self.lower(b));
    }

    /// Where all entries are in the order of a key, those ahead of an entry are
    /// those that come before it: the sizes and the times never fall.
    pub proof fn lemma_sorted_never_falls(&self, key: SortKey, r: Seq<u32>)
        requires
            forall|x: int, y: int|
                0 <= x < y < r.len() ==> self.sorts_before(
                    key,
                    (#[trigger] r[x]) as int,
                    (#[trigger] r[y]) as int,
                ),
        ensures
            key == SortKey::Size ==> forall|x: int, y: int|
                0 <= x <= y < r.len() ==> self.row((#[trigger] r[x]) as int).size <= self.row(
                    (#[trigger] r[y]) as int,
                ).size,
            key == SortKey::Mtime ==> forall|x: int, y: int|
                0 <= x <= y < r.len() ==> self.mtime@[(#[trigger] r[x]) as int]
                    <= self.mtime@[(#[trigger] r[y]) as int],
            key == SortKey::Name ==> forall|x: int, y: int|
                0 <= x < y < r.len() ==> !bytes_lt(
                    self.lower((#[trigger] r[y]) as int),
                    self.lower((#[trigger] r[x]) as int),
                ),
    {
        assert forall|x: int, y: int| 0 <= x < y < r.len() && key == SortKey::Name implies !bytes_lt(
            self.lower((#[trigger] r[y]) as int),
            self.lower((#[trigger] r[x]) as int),
        ) by {
            assert(self.sorts_before(key, r[x] as int, r[y] as int));
            lemma_bytes_total(self.lower(r[x] as int), self.lower(r[y] as int));
        }
        assert forall|x: int, y: int| 0 <= x <= y < r.len() && key == SortKey::Size implies self.row(
            (#[trigger] r[x]) as int,
        ).size <= self.row((#[trigger] r[y]) as int).size by {
            if x < y {
                assert(self.sorts_before(key, r[x] as int, r[y] as int));
            }
        }
        assert forall|x: int, y: int|
            0 <= x <= y < r.len() && key == SortKey::Mtime implies self.mtime@[(
        #[trigger] r[x]) as int] <= self.mtime@[(#[trigger] r[y]) as int] by {
            if x < y {
                assert(self.sorts_before(key, r[x] as int, r[y] as int));
            }
        }
    }
}

} // verus!
