//! From record number to entries, as a sorted array of entry numbers.
//!
//! Appended entries collect in a tail that lookups scan, until the batch ends
//! and the tail is merged in. Deletions never touch the array: a tombstoned
//! entry fails the liveness filter. Several live entries may share one full
//! reference: each is one directory link of the same object.

use vstd::prelude::*;
use crate::order::{
    key_le, keys_sorted, lemma_ascending_unique, occurs, par_sort_keys, reordered, same_items,
    sort_keys, strictly_ascends,
};
use super::flags::{bit_set, IS_DIR, TOMBSTONE};
use super::merge::{
    ascends, lemma_woven_ascends, lemma_woven_items, lemma_woven_len, places, places_fit, places_wf,
    weave, woven,
};
use super::record_of;

verus! {

/// Entry numbers in the order of their record numbers.
pub struct FrnIndex {
    /// Entries ordered by record number, then by their own number.
    pub ids: Vec<u32>,
    /// The entries before this one are represented.
    pub covers: u32,
}

/// Entry `a` comes before entry `b`: by record number, then by entry number.
pub open spec fn frn_before(frn: Seq<u64>, a: u32, b: u32) -> bool {
    record_of(frn[a as int]) < record_of(frn[b as int]) || (record_of(frn[a as int]) == record_of(
        frn[b as int],
    ) && a < b)
}

/// Entry `i` is a live link of record `key`.
pub open spec fn is_link(frn: Seq<u64>, flag: Seq<u8>, key: u64, i: int) -> bool {
    record_of(frn[i]) == key && !bit_set(flag[i], TOMBSTONE)
}

/// The live links of record `key` among the entries `lo..hi`, ascending.
pub open spec fn links_up(frn: Seq<u64>, flag: Seq<u8>, key: u64, lo: int, hi: int) -> Seq<u32>
    decreases hi - lo,
{
    if hi <= lo {
        Seq::empty()
    } else if is_link(frn, flag, key, hi - 1) {
        links_up(frn, flag, key, lo, hi - 1).push((hi - 1) as u32)
    } else {
        links_up(frn, flag, key, lo, hi - 1)
    }
}

/// The live links of record `key` among the entries `lo..hi`, descending.
pub open spec fn links_down(frn: Seq<u64>, flag: Seq<u8>, key: u64, lo: int, hi: int) -> Seq<u32>
    decreases hi - lo,
{
    if hi <= lo {
        Seq::empty()
    } else if is_link(frn, flag, key, hi - 1) {
        seq![(hi - 1) as u32] + links_down(frn, flag, key, lo, hi - 1)
    } else {
        links_down(frn, flag, key, lo, hi - 1)
    }
}

/// An item of the ascending links is a link, and every link is an item.
pub proof fn lemma_links_up(frn: Seq<u64>, flag: Seq<u8>, key: u64, lo: int, hi: int)
    requires
        0 <= lo,
        hi <= 0x1_0000_0000,
    ensures
        strictly_ascends(links_up(frn, flag, key, lo, hi)),
        forall|x: int| #[trigger]
            occurs(links_up(frn, flag, key, lo, hi), x) <==> lo <= x < hi && is_link(
                frn,
                flag,
                key,
                x,
            ),
    decreases hi - lo,
{
    let s = links_up(frn, flag, key, lo, hi);
    if hi > lo {
        lemma_links_up(frn, flag, key, lo, hi - 1);
        let t = links_up(frn, flag, key, lo, hi - 1);
        assert forall|i: int| 0 <= i < t.len() implies (#[trigger] t[i]) < hi - 1 by {
            assert(t[i] == t[i] as int);
            assert(occurs(t, t[i] as int));
        }
        assert forall|x: int| #[trigger] occurs(s, x) <==> lo <= x < hi && is_link(
            frn,
            flag,
            key,
            x,
        ) by {
            assert(occurs(t, x) <==> lo <= x < hi - 1 && is_link(frn, flag, key, x));
            if occurs(t, x) {
                let i = choose|i: int| 0 <= i < t.len() && #[trigger] t[i] == x;
                assert(s[i] == x);
            }
            if is_link(frn, flag, key, hi - 1) {
                assert(s[t.len() as int] == hi - 1);
                if occurs(s, x) {
                    let i = choose|i: int| 0 <= i < s.len() && #[trigger] s[i] == x;
                    if i < t.len() {
                        assert(t[i] == x);
                    }
                }
            }
        }
    } else {
        assert forall|x: int| #[trigger] occurs(s, x) <==> lo <= x < hi && is_link(
            frn,
            flag,
            key,
            x,
        ) by {}
    }
}

/// An item of the descending links is a link, and every link is an item.
pub proof fn lemma_links_down(frn: Seq<u64>, flag: Seq<u8>, key: u64, lo: int, hi: int)
    requires
        0 <= lo,
        hi <= 0x1_0000_0000,
    ensures
        forall|x: int| #[trigger]
            occurs(links_down(frn, flag, key, lo, hi), x) <==> lo <= x < hi && is_link(
                frn,
                flag,
                key,
                x,
            ),
        forall|i: int, j: int|
            0 <= i < j < links_down(frn, flag, key, lo, hi).len() ==> (#[trigger] links_down(
                frn,
                flag,
                key,
                lo,
                hi,
            )[i]) > (#[trigger] links_down(frn, flag, key, lo, hi)[j]),
    decreases hi - lo,
{
    let s = links_down(frn, flag, key, lo, hi);
    if hi > lo {
        lemma_links_down(frn, flag, key, lo, hi - 1);
        let t = links_down(frn, flag, key, lo, hi - 1);
        assert forall|i: int| 0 <= i < t.len() implies (#[trigger] t[i]) < hi - 1 by {
            assert(t[i] == t[i] as int);
            assert(occurs(t, t[i] as int));
        }
        if is_link(frn, flag, key, hi - 1) {
            assert forall|i: int, j: int| 0 <= i < j < s.len() implies (#[trigger] s[i]) > (
            #[trigger] s[j]) by {
                assert(s[j] == t[j - 1]);
                if i > 0 {
                    assert(s[i] == t[i - 1]);
                }
            }
        }
        assert forall|x: int| #[trigger] occurs(s, x) <==> lo <= x < hi && is_link(
            frn,
            flag,
            key,
            x,
        ) by {
            assert(occurs(t, x) <==> lo <= x < hi - 1 && is_link(frn, flag, key, x));
            if is_link(frn, flag, key, hi - 1) {
                assert(s[0] == hi - 1);
                if occurs(t, x) {
                    let i = choose|i: int| 0 <= i < t.len() && #[trigger] t[i] == x;
                    assert(s[i + 1] == x);
                }
                if occurs(s, x) {
                    let i = choose|i: int| 0 <= i < s.len() && #[trigger] s[i] == x;
                    if i > 0 {
                        assert(t[i - 1] == x);
                    }
                }
            }
        }
    } else {
        assert forall|x: int| #[trigger] occurs(s, x) <==> lo <= x < hi && is_link(
            frn,
            flag,
            key,
            x,
        ) by {}
    }
}

/// Of the first `n` entries, live ones that share a record number share the
/// full reference, and are files: several links of one object. A directory
/// has one entry.
pub open spec fn groups_valid(frn: Seq<u64>, flag: Seq<u8>, n: int) -> bool {
    forall|i: int, j: int|
        0 <= i < n && 0 <= j < n && i != j && !bit_set(#[trigger] flag[i], TOMBSTONE) && !bit_set(
            #[trigger] flag[j],
            TOMBSTONE,
        ) && record_of(frn[i]) == record_of(frn[j]) ==> frn[i] == frn[j] && !bit_set(flag[i], IS_DIR)
            && !bit_set(flag[j], IS_DIR)
}

impl FrnIndex {
    /// The covered live entries are in the array, which is in order.
    pub open spec fn wf(&self, frn: Seq<u64>, flag: Seq<u8>) -> bool {
        &&& self.covers <= frn.len()
        &&& frn.len() == flag.len()
        &&& frn.len() <= 0xFFFF_FFFF
        &&& forall|i: int| 0 <= i < self.ids@.len() ==> (#[trigger] self.ids@[i]) < self.covers
        &&& forall|a: int, b: int|
            0 <= a < b < self.ids@.len() ==> frn_before(
                frn,
                #[trigger] self.ids@[a],
                #[trigger] self.ids@[b],
            )
        &&& forall|x: int|
            0 <= x < self.covers && !bit_set(#[trigger] flag[x], TOMBSTONE) ==> occurs(self.ids@, x)
    }

    /// The live links of a record: those behind the covered ones, newest
    /// first, then the covered ones, oldest first.
    pub open spec fn links(&self, frn: Seq<u64>, flag: Seq<u8>, key: u64) -> Seq<u32> {
        links_down(frn, flag, key, self.covers as int, frn.len() as int) + links_up(
            frn,
            flag,
            key,
            0,
            self.covers as int,
        )
    }

    /// The array stays in order when entries are appended and tombstoned.
    pub proof fn lemma_wf_kept(&self, frn: Seq<u64>, flag: Seq<u8>, frn2: Seq<u64>, flag2: Seq<u8>)
        requires
            self.wf(frn, flag),
            frn2.len() == flag2.len(),
            frn2.len() <= 0xFFFF_FFFF,
            frn.is_prefix_of(frn2),
            forall|x: int|
                0 <= x < self.covers && !bit_set(#[trigger] flag2[x], TOMBSTONE) ==> !bit_set(
                    flag[x],
                    TOMBSTONE,
                ),
        ensures
            self.wf(frn2, flag2),
    {
        assert forall|a: int, b: int| 0 <= a < b < self.ids@.len() implies frn_before(
            frn2,
            #[trigger] self.ids@[a],
            #[trigger] self.ids@[b],
        ) by {
            assert(frn_before(frn, self.ids@[a], self.ids@[b]));
            assert(frn2[self.ids@[a] as int] == frn[self.ids@[a] as int]);
            assert(frn2[self.ids@[b] as int] == frn[self.ids@[b] as int]);
        }
    }

    /// An index that covers nothing.
    pub fn empty() -> (r: FrnIndex)
        ensures
            r.ids@ == Seq::<u32>::empty(),
            r.covers == 0,
    {
        FrnIndex { ids: Vec::new(), covers: 0 }
    }

    /// The live entries in the order of their record numbers.
    pub fn sorted_ids(&self) -> (r: &[u32])
        ensures
            r@ == self.ids@,
    {
        self.ids.as_slice()
    }

    /// Build from scratch over every live entry.
    pub fn build(frn: &[u64], flag: &[u8]) -> (r: FrnIndex)
        requires
            frn@.len() == flag@.len(),
            frn@.len() <= 0xFFFF_FFFF,
        ensures
            r.wf(frn@, flag@),
            r.covers == frn@.len(),
            forall|x: int| #[trigger]
                occurs(r.ids@, x) <==> 0 <= x < frn@.len() && !bit_set(flag@[x], TOMBSTONE),
    {
        let mut pairs: Vec<(u64, u32)> = live_pairs(frn, flag, 0);
        let ghost unsorted = pairs@;
        par_sort_keys(&mut pairs);
        let n: u32 = frn.len() as u32;
        let ids: Vec<u32> = numbers_of(&pairs);
        let r = FrnIndex { ids, covers: n };
        proof {
            lemma_sorted_pairs(frn@, flag@, 0, unsorted, pairs@, ids@);
            assert forall|x: int|
                0 <= x < r.covers && !bit_set(#[trigger] flag@[x], TOMBSTONE) implies occurs(
                r.ids@,
                x,
            ) by {}
        }
        r
    }

    /// Where the entries with a record number of at least `key` start.
    fn lower_bound(&self, frn: &[u64], flag: &[u8], key: u64) -> (r: usize)
        requires
            self.wf(frn@, flag@),
        ensures
            r <= self.ids@.len(),
            forall|i: int| 0 <= i < r ==> record_of(frn@[(#[trigger] self.ids@[i]) as int]) < key,
            forall|i: int|
                r <= i < self.ids@.len() ==> record_of(frn@[(#[trigger] self.ids@[i]) as int])
                    >= key,
    {
        let mut lo: usize = 0;
        let mut hi: usize = self.ids.len();
        while lo < hi
            invariant
                lo <= hi <= self.ids@.len(),
                self.wf(frn@, flag@),
                forall|i: int|
                    0 <= i < lo ==> record_of(frn@[(#[trigger] self.ids@[i]) as int]) < key,
                forall|i: int|
                    hi <= i < self.ids@.len() ==> record_of(frn@[(#[trigger] self.ids@[i]) as int])
                        >= key,
            decreases hi - lo,
        {
            let mid: usize = lo + (hi - lo) / 2;
            let id: u32 = self.ids[mid];
            if frn[id as usize] % 0x1_0000_0000_0000 < key {
                proof {
                    assert forall|i: int| 0 <= i < mid + 1 implies record_of(
                        frn@[(#[trigger] self.ids@[i]) as int],
                    ) < key by {
                        if i < mid {
                            assert(frn_before(frn@, self.ids@[i], self.ids@[mid as int]));
                        }
                    }
                }
                lo = mid + 1;
            } else {
                proof {
                    assert forall|i: int| mid <= i < self.ids@.len() implies record_of(
                        frn@[(#[trigger] self.ids@[i]) as int],
                    ) >= key by {
                        if i > mid {
                            assert(frn_before(frn@, self.ids@[mid as int], self.ids@[i]));
                        }
                    }
                }
                hi = mid;
            }
        }
        lo
    }

    /// Every live link of record `key`: the unmerged tail, newest first, then
    /// the sorted body.
    pub fn lookup_all(&self, key: u64, frn: &[u64], flag: &[u8]) -> (r: Vec<u32>)
        requires
            self.wf(frn@, flag@),
        ensures
            r@ == self.links(frn@, flag@, key),
    {
        let ghost fs = frn@;
        let ghost gs = flag@;
        let n: u32 = frn.len() as u32;
        let mut found: Vec<u32> = Vec::new();
        let mut id: u32 = n;
        let ghost tail = links_down(fs, gs, key, self.covers as int, n as int);
        assert(Seq::<u32>::empty() + tail =~= tail);
        while id > self.covers
            invariant
                self.wf(fs, gs),
                fs == frn@,
                gs == flag@,
                self.covers <= id <= n,
                n == fs.len(),
                tail == links_down(fs, gs, key, self.covers as int, n as int),
                tail == found@ + links_down(fs, gs, key, self.covers as int, id as int),
            decreases id,
        {
            let ghost rest = links_down(fs, gs, key, self.covers as int, id - 1);
            id = id - 1;
            if frn[id as usize] % 0x1_0000_0000_0000 == key && flag[id as usize] & TOMBSTONE == 0 {
                assert(found@ + (seq![id] + rest) =~= found@.push(id) + rest);
                found.push(id);
            }
        }
        assert(found@ =~= tail);
        let start: usize = self.lower_bound(frn, flag, key);
        let mut i: usize = start;
        let ghost mut body: Seq<u32> = Seq::empty();
        assert(found@ =~= tail + body);
        while i < self.ids.len() && frn[self.ids[i] as usize] % 0x1_0000_0000_0000 == key
            invariant
                self.wf(fs, gs),
                fs == frn@,
                gs == flag@,
                start <= i <= self.ids@.len(),
                found@ == tail + body,
                strictly_ascends(body),
                forall|k: int|
                    start <= k < i ==> record_of(fs[(#[trigger] self.ids@[k]) as int]) == key,
                forall|k: int|
                    0 <= k < start ==> record_of(fs[(#[trigger] self.ids@[k]) as int]) < key,
                forall|k: int|
                    start <= k < self.ids@.len() ==> record_of(fs[(#[trigger] self.ids@[k]) as int])
                        >= key,
                forall|k: int|
                    start <= k < i && !bit_set(gs[(#[trigger] self.ids@[k]) as int], TOMBSTONE)
                        ==> occurs(body, self.ids@[k] as int),
                forall|k: int|
                    0 <= k < body.len() ==> #[trigger] is_link(fs, gs, key, body[k] as int)
                        && body[k] < self.covers,
                i > start && i < self.ids@.len() ==> true,
                forall|k: int, l: int|
                    0 <= k < body.len() && i <= l < self.ids@.len() ==> frn_before(
                        fs,
                        #[trigger] body[k],
                        #[trigger] self.ids@[l],
                    ),
            decreases self.ids@.len() - i,
        {
            let id: u32 = self.ids[i];
            let ghost before = body;
            if flag[id as usize] & TOMBSTONE == 0 {
                proof {
                    body = before.push(id);
                    assert(tail + before.push(id) =~= (tail + before).push(id));
                    assert forall|k: int| 0 <= k < body.len() implies #[trigger] is_link(
                        fs,
                        gs,
                        key,
                        body[k] as int,
                    ) && body[k] < self.covers by {
                        if k < before.len() {
                            assert(body[k] == before[k]);
                            assert(is_link(fs, gs, key, before[k] as int));
                        }
                    }
                    assert forall|x: int, y: int| 0 <= x < y < body.len() implies (
                    #[trigger] body[x]) < (#[trigger] body[y]) by {
                        if y == before.len() {
                            assert(frn_before(fs, before[x], self.ids@[i as int]));
                            assert(is_link(fs, gs, key, before[x] as int));
                        }
                    }
                    assert(body[before.len() as int] == id);
                }
                found.push(id);
            }
            proof {
                assert forall|k: int|
                    start <= k < i + 1 && !bit_set(
                        gs[(#[trigger] self.ids@[k]) as int],
                        TOMBSTONE,
                    ) implies occurs(body, self.ids@[k] as int) by {
                    if k < i {
                        assert(occurs(before, self.ids@[k] as int));
                        let j = choose|j: int|
                            0 <= j < before.len() && #[trigger] before[j] == self.ids@[k] as int;
                        assert(body[j] == self.ids@[k]);
                    }
                }
                assert forall|k: int, l: int|
                    0 <= k < body.len() && i + 1 <= l < self.ids@.len() implies frn_before(
                    fs,
                    #[trigger] body[k],
                    #[trigger] self.ids@[l],
                ) by {
                    if k < before.len() {
                        assert(body[k] == before[k]);
                    } else {
                        assert(frn_before(fs, self.ids@[i as int], self.ids@[l]));
                    }
                }
            }
            i = i + 1;
        }
        proof {
            let up = links_up(fs, gs, key, 0, self.covers as int);
            lemma_links_up(fs, gs, key, 0, self.covers as int);
            assert forall|x: int| #[trigger] occurs(body, x) <==> occurs(up, x) by {
                if occurs(body, x) {
                    let k = choose|k: int| 0 <= k < body.len() && #[trigger] body[k] == x;
                    assert(is_link(fs, gs, key, body[k] as int));
                }
                if occurs(up, x) {
                    assert(occurs(self.ids@, x));
                    let k = choose|k: int| 0 <= k < self.ids@.len() && #[trigger] self.ids@[k] == x;
                    if k >= i {
                        if i < self.ids@.len() {
                            assert(record_of(fs[self.ids@[i as int] as int]) > key);
                            if k > i {
                                assert(frn_before(fs, self.ids@[i as int], self.ids@[k]));
                            }
                        }
                    }
                    assert(start <= k < i);
                    assert(occurs(body, self.ids@[k] as int));
                }
            }
            lemma_ascending_unique(body, up);
        }
        found
    }

    /// One live entry of record `key`, if any: the first link.
    pub fn lookup(&self, key: u64, frn: &[u64], flag: &[u8]) -> (r: Option<u32>)
        requires
            self.wf(frn@, flag@),
        ensures
            r == (if self.links(frn@, flag@, key).len() > 0 {
                Some(self.links(frn@, flag@, key)[0])
            } else {
                None
            }),
    {
        let all: Vec<u32> = self.lookup_all(key, frn, flag);
        if all.len() > 0 {
            Some(all[0])
        } else {
            None
        }
    }

    /// Whether the covered live entries form unambiguous objects.
    pub fn has_valid_live_object_groups(&self, frn: &[u64], flag: &[u8]) -> (ok: bool)
        requires
            self.wf(frn@, flag@),
        ensures
            ok == groups_valid(frn@, flag@, self.covers as int),
    {
        let ghost fs = frn@;
        let ghost gs = flag@;
        let ghost ids = self.ids@;
        let mut previous: Option<u32> = None;
        let mut i: usize = 0;
        let ghost mut at: int = -1;
        while i < self.ids.len()
            invariant
                self.wf(fs, gs),
                fs == frn@,
                gs == flag@,
                ids == self.ids@,
                i <= ids.len(),
                -1 <= at < i,
                previous is Some <==> at >= 0,
                at >= 0 ==> previous == Some(ids[at]) && !bit_set(gs[ids[at] as int], TOMBSTONE),
                forall|k: int| at < k < i ==> bit_set(gs[(#[trigger] ids[k]) as int], TOMBSTONE),
                forall|a: int, b: int|
                    0 <= a < b < i && !bit_set(gs[(#[trigger] ids[a]) as int], TOMBSTONE) && !bit_set(
                        gs[(#[trigger] ids[b]) as int],
                        TOMBSTONE,
                    ) && record_of(fs[ids[a] as int]) == record_of(fs[ids[b] as int])
                        ==> fs[ids[a] as int] == fs[ids[b] as int] && !bit_set(
                        gs[ids[a] as int],
                        IS_DIR,
                    ) && !bit_set(gs[ids[b] as int], IS_DIR),
            decreases ids.len() - i,
        {
            let id: u32 = self.ids[i];
            if flag[id as usize] & TOMBSTONE == 0 {
                let full: u64 = frn[id as usize];
                let record: u64 = full % 0x1_0000_0000_0000;
                let is_dir: bool = flag[id as usize] & IS_DIR != 0;
                match previous {
                    Some(prev) => {
                        let prev_full: u64 = frn[prev as usize];
                        let prev_dir: bool = flag[prev as usize] & IS_DIR != 0;
                        if prev_full % 0x1_0000_0000_0000 == record && (prev_full != full || prev_dir
                            != is_dir || is_dir) {
                            assert(frn_before(fs, ids[at], ids[i as int]));
                            return false;
                        }
                    },
                    None => {},
                }
                proof {
                    assert forall|a: int, b: int|
                        0 <= a < b < i + 1 && !bit_set(gs[(#[trigger] ids[a]) as int], TOMBSTONE)
                            && !bit_set(gs[(#[trigger] ids[b]) as int], TOMBSTONE) && record_of(
                            fs[ids[a] as int],
                        ) == record_of(fs[ids[b] as int]) implies fs[ids[a] as int]
                        == fs[ids[b] as int] && !bit_set(gs[ids[a] as int], IS_DIR) && !bit_set(
                        gs[ids[b] as int],
                        IS_DIR,
                    ) by {
                        if b == i {
                            assert(a <= at);
                            if a < at {
                                assert(frn_before(fs, ids[a], ids[at]));
                            }
                            assert(frn_before(fs, ids[at], ids[i as int]));
                        }
                    }
                    at = i as int;
                }
                previous = Some(id);
            }
            i = i + 1;
        }
        proof {
            assert forall|x: int, y: int|
                0 <= x < self.covers && 0 <= y < self.covers && x != y && !bit_set(
                    #[trigger] gs[x],
                    TOMBSTONE,
                ) && !bit_set(#[trigger] gs[y], TOMBSTONE) && record_of(fs[x]) == record_of(
                    fs[y],
                ) implies fs[x] == fs[y] && !bit_set(gs[x], IS_DIR) && !bit_set(gs[y], IS_DIR) by {
                assert(occurs(ids, x) && occurs(ids, y));
                let a = choose|a: int| 0 <= a < ids.len() && #[trigger] ids[a] == x;
                let b = choose|b: int| 0 <= b < ids.len() && #[trigger] ids[b] == y;
                if a < b {
                    assert(ids[a] as int == x && ids[b] as int == y);
                } else {
                    assert(ids[b] as int == y && ids[a] as int == x);
                }
            }
        }
        true
    }

    /// Fold the appended live entries into the array.
    pub fn merge_appended(&mut self, frn: &[u64], flag: &[u8])
        requires
            old(self).wf(frn@, flag@),
        ensures
            final(self).wf(frn@, flag@),
            final(self).covers == frn@.len(),
            forall|x: int| #[trigger]
                occurs(final(self).ids@, x) <==> occurs(old(self).ids@, x) || (old(self).covers <= x
                    < frn@.len() && !bit_set(flag@[x], TOMBSTONE)),
    {
        let ghost fs = frn@;
        let ghost gs = flag@;
        let ghost o = self.ids@;
        let first: u32 = self.covers;
        let n: u32 = frn.len() as u32;
        let mut pairs: Vec<(u64, u32)> = live_pairs(frn, flag, first);
        let ghost unsorted = pairs@;
        sort_keys(&mut pairs);
        let batch: Vec<u32> = numbers_of(&pairs);
        let ghost b = batch@;
        proof {
            lemma_sorted_pairs(fs, gs, first as int, unsorted, pairs@, b);
        }
        let pos: Vec<usize> = self.insertion_places(frn, flag, &batch);
        proof {
            crate::order::lemma_distinct_below(o, first as int);
            let shifted = Seq::new(b.len(), |i: int| (b[i] - first) as u32);
            assert forall|i: int| 0 <= i < shifted.len() implies (#[trigger] shifted[i]) < n
                - first by {
                assert(first <= b[i] < n);
            }
            assert forall|i: int, j: int| 0 <= i < j < shifted.len() implies #[trigger] shifted[i]
                != #[trigger] shifted[j] by {
                assert(b[i] != b[j]);
                assert(first <= b[i] && first <= b[j]);
            }
            crate::order::lemma_distinct_below(shifted, n - first);
        }
        weave(&mut self.ids, batch.as_slice(), &pos);
        self.covers = n;
        proof {
            let p = places(pos@);
            let before = |x: u32, y: u32| frn_before(fs, x, y);
            let w = self.ids@;
            lemma_woven_len(o, b, p, b.len() as int, o.len() as int);
            lemma_woven_ascends(o, b, p, b.len() as int, o.len() as int, before);
            assert forall|i: int| 0 <= i < w.len() implies (#[trigger] w[i]) < n by {
                lemma_woven_items(o, b, p, b.len() as int, o.len() as int, i);
            }
            assert forall|i: int, j: int| 0 <= i < j < w.len() implies frn_before(
                fs,
                #[trigger] w[i],
                #[trigger] w[j],
            ) by {
                assert(before(w[i], w[j]));
            }
            assert forall|x: int| #[trigger] occurs(w, x) <==> occurs(o, x) || (first <= x < n
                && !bit_set(gs[x], TOMBSTONE)) by {
                lemma_woven_occurs(o, b, p, b.len() as int, o.len() as int, x);
                assert(o.take(o.len() as int) =~= o);
                assert(b.take(b.len() as int) =~= b);
                assert(occurs(b, x) <==> first <= x < n && !bit_set(gs[x], TOMBSTONE));
            }
        }
    }

    /// Where each batch entry goes among the covered ones: behind those whose
    /// record number is not larger.
    fn insertion_places(&self, frn: &[u64], flag: &[u8], batch: &Vec<u32>) -> (pos: Vec<usize>)
        requires
            self.wf(frn@, flag@),
            forall|j: int| 0 <= j < batch@.len() ==> self.covers <= (#[trigger] batch@[j]) < frn@.len(),
            ascends(batch@, |x: u32, y: u32| frn_before(frn@, x, y)),
        ensures
            pos@.len() == batch@.len(),
            places_wf(places(pos@), batch@.len() as int, self.ids@.len() as int),
            ascends(self.ids@, |x: u32, y: u32| frn_before(frn@, x, y)),
            places_fit(
                self.ids@,
                batch@,
                places(pos@),
                batch@.len() as int,
                |x: u32, y: u32| frn_before(frn@, x, y),
            ),
    {
        let ghost fs = frn@;
        let mut pos: Vec<usize> = Vec::new();
        let mut j: usize = 0;
        while j < batch.len()
            invariant
                self.wf(fs, flag@),
                fs == frn@,
                j <= batch@.len(),
                pos@.len() == j,
                forall|j: int|
                    0 <= j < batch@.len() ==> self.covers <= (#[trigger] batch@[j]) < fs.len(),
                forall|k: int| 0 <= k < j ==> (#[trigger] pos@[k]) <= self.ids@.len(),
                forall|k: int, i: int|
                    0 <= k < j && 0 <= i < pos@[k] ==> record_of(
                        fs[(#[trigger] self.ids@[i]) as int],
                    ) <= record_of(fs[(#[trigger] batch@[k]) as int]),
                forall|k: int, i: int|
                    0 <= k < j && pos@[k] <= i < self.ids@.len() ==> record_of(
                        fs[(#[trigger] self.ids@[i]) as int],
                    ) > record_of(fs[(#[trigger] batch@[k]) as int]),
            decreases batch@.len() - j,
        {
            let key: u64 = frn[batch[j] as usize] % 0x1_0000_0000_0000;
            let p: usize = self.lower_bound(frn, flag, key + 1);
            pos.push(p);
            j = j + 1;
        }
        proof {
            let p = places(pos@);
            let b = batch@;
            let o = self.ids@;
            let before = |x: u32, y: u32| frn_before(fs, x, y);
            assert forall|x: int, y: int| 0 <= x <= y < b.len() implies (#[trigger] p[x]) <= (
            #[trigger] p[y]) by {
                if x < y {
                    assert(before(b[x], b[y]));
                    if p[x] > p[y] {
                        let i = p[y];
                        assert(record_of(fs[o[i] as int]) <= record_of(fs[b[x] as int]));
                        assert(record_of(fs[o[i] as int]) > record_of(fs[b[y] as int]));
                    }
                }
            }
            assert forall|i: int, k: int| 0 <= k < b.len() && 0 <= i < p[k] implies before(
                #[trigger] o[i],
                #[trigger] b[k],
            ) by {
                assert(record_of(fs[o[i] as int]) <= record_of(fs[b[k] as int]));
                assert(o[i] < self.covers <= b[k]);
            }
            assert forall|i: int, k: int| 0 <= k < b.len() && p[k] <= i < o.len() implies before(
                #[trigger] b[k],
                #[trigger] o[i],
            ) by {
                assert(record_of(fs[o[i] as int]) > record_of(fs[b[k] as int]));
            }
        }
        pos
    }
}

/// A woven sequence holds the first items of both.
pub proof fn lemma_woven_occurs(
    o: Seq<u32>,
    b: Seq<u32>,
    pos: Seq<int>,
    m: int,
    hi: int,
    x: int,
)
    requires
        0 <= m <= b.len(),
        0 <= hi <= o.len(),
        places_wf(pos, m, hi),
    ensures
        occurs(woven(o, b, pos, m, hi), x) <==> occurs(o.take(hi), x) || occurs(b.take(m), x),
    decreases m,
{
    let w = woven(o, b, pos, m, hi);
    lemma_woven_len(o, b, pos, m, hi);
    if m <= 0 {
        assert(b.take(0) =~= Seq::empty());
    } else {
        let p = pos[m - 1];
        assert(places_wf(pos, m - 1, p)) by {
            assert forall|i: int| 0 <= i < m - 1 implies 0 <= (#[trigger] pos[i]) <= p by {
                assert(pos[i] <= pos[m - 1]);
            }
        }
        lemma_woven_len(o, b, pos, m - 1, p);
        lemma_woven_occurs(o, b, pos, m - 1, p, x);
        let v = woven(o, b, pos, m - 1, p);
        if occurs(w, x) {
            let i = choose|i: int| 0 <= i < w.len() && #[trigger] w[i] == x;
            if i < p + m - 1 {
                assert(v[i] == x);
                assert(occurs(v, x));
                if occurs(o.take(p), x) {
                    let k = choose|k: int| 0 <= k < p && #[trigger] o.take(p)[k] == x;
                    assert(o.take(hi)[k] == x);
                } else {
                    let k = choose|k: int| 0 <= k < m - 1 && #[trigger] b.take(m - 1)[k] == x;
                    assert(b.take(m)[k] == x);
                }
            } else if i == p + m - 1 {
                assert(b.take(m)[m - 1] == x);
            } else {
                assert(o.take(hi)[i - m] == x);
            }
        }
        if occurs(o.take(hi), x) {
            let k = choose|k: int| 0 <= k < hi && #[trigger] o.take(hi)[k] == x;
            if k < p {
                assert(o.take(p)[k] == x);
                assert(occurs(v, x));
                let i = choose|i: int| 0 <= i < v.len() && #[trigger] v[i] == x;
                assert(w[i] == x);
            } else {
                assert(w[k + m] == x);
            }
        }
        if occurs(b.take(m), x) {
            let k = choose|k: int| 0 <= k < m && #[trigger] b.take(m)[k] == x;
            if k < m - 1 {
                assert(b.take(m - 1)[k] == x);
                assert(occurs(v, x));
                let i = choose|i: int| 0 <= i < v.len() && #[trigger] v[i] == x;
                assert(w[i] == x);
            } else {
                assert(w[p + m - 1] == x);
            }
        }
    }
}

/// The live entries from `first` on, with their record numbers.
fn live_pairs(frn: &[u64], flag: &[u8], first: u32) -> (r: Vec<(u64, u32)>)
    requires
        frn@.len() == flag@.len(),
        first <= frn@.len() <= 0xFFFF_FFFF,
    ensures
        pairs_of(frn@, flag@, first as int, r@),
{
    let n: u32 = frn.len() as u32;
    let mut pairs: Vec<(u64, u32)> = Vec::new();
    let mut id: u32 = first;
    let ghost mut place: Map<int, int> = Map::empty();
    while id < n
        invariant
            first <= id <= n,
            n == frn@.len(),
            frn@.len() == flag@.len(),
            forall|i: int|
                0 <= i < pairs@.len() ==> first <= (#[trigger] pairs@[i]).1 < id && pairs@[i].0
                    == record_of(frn@[pairs@[i].1 as int]) && !bit_set(
                    flag@[pairs@[i].1 as int],
                    TOMBSTONE,
                ),
            forall|i: int, j: int|
                0 <= i < j < pairs@.len() ==> (#[trigger] pairs@[i]).1 < (#[trigger] pairs@[j]).1,
            forall|x: int|
                first <= x < id && !bit_set(#[trigger] flag@[x], TOMBSTONE) ==> 0 <= place[x]
                    < pairs@.len() && pairs@[place[x]].1 == x,
        decreases n - id,
    {
        if flag[id as usize] & TOMBSTONE == 0 {
            let ghost before = pairs@;
            pairs.push((frn[id as usize] % 0x1_0000_0000_0000, id));
            proof {
                place = place.insert(id as int, before.len() as int);
            }
        }
        id = id + 1;
    }
    proof {
        assert forall|x: int|
            first <= x < n && !bit_set(#[trigger] flag@[x], TOMBSTONE) implies exists|i: int|
            0 <= i < pairs@.len() && (#[trigger] pairs@[i]).1 == x by {
            assert(pairs@[place[x]].1 == x);
        }
    }
    pairs
}

/// The live entries from `first` on, once each, with their record numbers.
spec fn pairs_of(frn: Seq<u64>, flag: Seq<u8>, first: int, s: Seq<(u64, u32)>) -> bool {
    &&& forall|i: int|
        0 <= i < s.len() ==> first <= (#[trigger] s[i]).1 < frn.len() && s[i].0 == record_of(
            frn[s[i].1 as int],
        ) && !bit_set(flag[s[i].1 as int], TOMBSTONE)
    &&& forall|i: int, j: int| 0 <= i < j < s.len() ==> (#[trigger] s[i]).1 < (#[trigger] s[j]).1
    &&& forall|x: int|
        first <= x < frn.len() && !bit_set(#[trigger] flag[x], TOMBSTONE) ==> exists|i: int|
            0 <= i < s.len() && (#[trigger] s[i]).1 == x
}

/// The numbers of keys with numbers.
fn numbers_of(pairs: &Vec<(u64, u32)>) -> (r: Vec<u32>)
    ensures
        r@.len() == pairs@.len(),
        forall|i: int| 0 <= i < r@.len() ==> #[trigger] r@[i] == pairs@[i].1,
{
    let mut out: Vec<u32> = Vec::new();
    let mut i: usize = 0;
    while i < pairs.len()
        invariant
            i <= pairs@.len(),
            out@.len() == i,
            forall|k: int| 0 <= k < i ==> #[trigger] out@[k] == pairs@[k].1,
        decreases pairs@.len() - i,
    {
        out.push(pairs[i].1);
        i = i + 1;
    }
    out
}

/// The numbers of the sorted live entries ascend, and are the live entries.
proof fn lemma_sorted_pairs(
    frn: Seq<u64>,
    flag: Seq<u8>,
    first: int,
    unsorted: Seq<(u64, u32)>,
    sorted: Seq<(u64, u32)>,
    ids: Seq<u32>,
)
    requires
        0 <= first <= frn.len(),
        pairs_of(frn, flag, first, unsorted),
        same_items(unsorted, sorted),
        keys_sorted(sorted),
        ids.len() == sorted.len(),
        forall|i: int| 0 <= i < ids.len() ==> #[trigger] ids[i] == sorted[i].1,
    ensures
        forall|i: int| 0 <= i < ids.len() ==> first <= (#[trigger] ids[i]) < frn.len(),
        forall|i: int, j: int|
            0 <= i < j < ids.len() ==> frn_before(frn, #[trigger] ids[i], #[trigger] ids[j]),
        ascends(ids, |x: u32, y: u32| frn_before(frn, x, y)),
        forall|i: int, j: int| 0 <= i < j < ids.len() ==> #[trigger] ids[i] != #[trigger] ids[j],
        forall|x: int| #[trigger]
            occurs(ids, x) <==> first <= x < frn.len() && !bit_set(flag[x], TOMBSTONE),
{
    let (p, q): (Seq<int>, Seq<int>) = choose|p: Seq<int>, q: Seq<int>|
        reordered(unsorted, sorted, p, q);
    assert forall|i: int| 0 <= i < ids.len() implies first <= (#[trigger] ids[i]) < frn.len()
        && sorted[i].0 == record_of(frn[ids[i] as int]) && !bit_set(
        flag[ids[i] as int],
        TOMBSTONE,
    ) by {
        assert(sorted[i] == unsorted[p[i]]);
    }
    assert forall|i: int, j: int| 0 <= i < j < ids.len() implies frn_before(
        frn,
        #[trigger] ids[i],
        #[trigger] ids[j],
    ) by {
        assert(key_le(sorted[i], sorted[j]));
        assert(sorted[i] == unsorted[p[i]] && sorted[j] == unsorted[p[j]]);
        assert(p[i] != p[j]);
        if p[i] < p[j] {
            assert(unsorted[p[i]].1 < unsorted[p[j]].1);
        } else {
            assert(unsorted[p[j]].1 < unsorted[p[i]].1);
        }
    }
    assert forall|x: int| #[trigger] occurs(ids, x) <==> first <= x < frn.len() && !bit_set(
        flag[x],
        TOMBSTONE,
    ) by {
        if first <= x < frn.len() && !bit_set(flag[x], TOMBSTONE) {
            let k = choose|k: int| 0 <= k < unsorted.len() && (#[trigger] unsorted[k]).1 == x;
            assert(p[q[k]] == k);
            assert(sorted[q[k]] == unsorted[k]);
            assert(ids[q[k]] == x);
        }
    }
}

} // verus!
