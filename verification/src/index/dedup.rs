//! Storing equal names once.

use vstd::prelude::*;
use rustc_hash::FxHashMap;
use crate::hashed::{name_map_get, name_map_insert, names_seen, new_name_map};
use super::columns::{dict_end, dict_name, dict_wf, extend, Row, VolumeIndex, NONE};
use super::flags::{bit_set, TOMBSTONE};
use super::rows::lemma_dict_append;

verus! {

/// The length of name `k` of a dictionary.
spec fn name_len(pool: Seq<u8>, off: Seq<u32>, k: int) -> int {
    dict_end(pool, off, k) - off[k]
}

/// The bytes of those of the first `n` names of a dictionary that are used.
spec fn used_bytes(pool: Seq<u8>, off: Seq<u32>, used: Set<int>, n: int) -> int
    decreases n,
{
    if n <= 0 {
        0
    } else {
        used_bytes(pool, off, used, n - 1) + if used.contains(n - 1) {
            name_len(pool, off, n - 1)
        } else {
            0
        }
    }
}

proof fn lemma_used_insert(pool: Seq<u8>, off: Seq<u32>, used: Set<int>, k: int, n: int)
    requires
        !used.contains(k),
    ensures
        used_bytes(pool, off, used.insert(k), n) == used_bytes(pool, off, used, n) + (if 0 <= k
            < n {
            name_len(pool, off, k)
        } else {
            0
        }),
    decreases n,
{
    if n > 0 {
        lemma_used_insert(pool, off, used, k, n - 1);
    }
}

proof fn lemma_used_none(pool: Seq<u8>, off: Seq<u32>, n: int)
    ensures
        used_bytes(pool, off, Set::empty(), n) == 0,
    decreases n,
{
    if n > 0 {
        lemma_used_none(pool, off, n - 1);
    }
}

proof fn lemma_used_bound(pool: Seq<u8>, off: Seq<u32>, used: Set<int>, n: int)
    requires
        dict_wf(pool, off),
        0 <= n <= off.len(),
    ensures
        0 <= used_bytes(pool, off, used, n) <= (if n == 0 {
            0
        } else {
            dict_end(pool, off, n - 1)
        }),
    decreases n,
{
    if n > 0 {
        lemma_used_bound(pool, off, used, n - 1);
        assert(off[n - 1] <= pool.len());
        if n < off.len() {
            assert(off[n - 1] <= off[n]);
        }
    }
}

/// Entry `i` has the first name and no original spelling.
spec fn is_blank(name_id: Seq<u32>, orig_off: Seq<u32>, i: int) -> bool {
    name_id[i] == 0 && orig_off[i] == NONE
}

/// Some live entry has name `k`.
pub open spec fn names_a_live(name_id: Seq<u32>, flag: Seq<u8>, k: int) -> bool {
    exists|i: int|
        0 <= i < name_id.len() && !bit_set(flag[i], TOMBSTONE) && #[trigger] name_id[i] == k
}

impl VolumeIndex {
    /// The bytes of the original spellings of the live ones of the first `n`
    /// entries.
    pub open spec fn owned_total(&self, n: int) -> int
        decreases n,
    {
        if n <= 0 {
            0
        } else {
            self.owned_total(n - 1) + if self.live(n - 1) {
                self.owned_bytes(n - 1)
            } else {
                0
            }
        }
    }

    /// The original spellings of the live entries take no more bytes than
    /// their pool has.
    pub open spec fn owned_fits(&self) -> bool {
        self.owned_total(self.count()) <= self.orig_pool@.len()
    }

    /// Entry `i` is live in both or in none, and owns the same bytes.
    pub open spec fn owns_same(&self, other: &VolumeIndex, i: int) -> bool {
        other.live(i) == self.live(i) && other.owned_bytes(i) == self.owned_bytes(i)
    }

    /// The totals of indexes whose entries own the same bytes are the same.
    pub(crate) proof fn lemma_owned_same(&self, other: &VolumeIndex, n: int)
        requires
            forall|i: int| 0 <= i < n ==> #[trigger] self.owns_same(other, i),
        ensures
            other.owned_total(n) == self.owned_total(n),
        decreases n,
    {
        if n > 0 {
            self.lemma_owned_same(other, n - 1);
            assert(self.owns_same(other, n - 1));
        }
    }

    /// Entry `i` is the first that is live.
    pub open spec fn first_live(&self, i: int) -> bool {
        0 <= i < self.count() && self.live(i) && forall|j: int|
            0 <= j < i ==> !(#[trigger] self.live(j))
    }

    /// The names of a dictionary are distinct.
    pub open spec fn dict_distinct(&self) -> bool {
        forall|a: int, b: int|
            0 <= a < b < self.dict_off@.len() ==> #[trigger] dict_name(
                self.dict_pool@,
                self.dict_off@,
                a,
            ) != #[trigger] dict_name(self.dict_pool@, self.dict_off@, b)
    }

    /// Rebuild the dictionary over the distinct folded names of the live
    /// entries. A tombstoned entry gets the first name.
    pub(crate) fn dedup_dict(&mut self)
        requires
            old(self).wf(),
            exists|i: int| old(self).first_live(i),
        ensures
            final(self).wf(),
            final(self).dict_distinct(),
            forall|k: int|
                0 <= k < final(self).dict_off@.len() ==> #[trigger] names_a_live(
                    final(self).name_id@,
                    final(self).flag@,
                    k,
                ),
            *final(self) == (VolumeIndex {
                dict_pool: final(self).dict_pool,
                dict_off: final(self).dict_off,
                name_id: final(self).name_id,
                orig_off: final(self).orig_off,
                dict_appends_since_dedup: 0,
                ..*old(self)
            }),
            final(self).count() == old(self).count(),
            forall|i: int|
                0 <= i < old(self).count() && old(self).live(i) ==> #[trigger] final(self).row(i)
                    == old(self).row(i),
            forall|i: int|
                0 <= i < old(self).count() && !old(self).live(i) ==> #[trigger] final(self).row(i)
                    == (Row {
                    name: old(self).lower(choose|f: int| old(self).first_live(f)),
                    lower: old(self).lower(choose|f: int| old(self).first_live(f)),
                    ..old(self).row(i)
                }),
            forall|i: int|
                0 <= i < old(self).count() && old(self).live(i) ==> #[trigger] final(self).owned_bytes(i) == old(self).owned_bytes(i),
    {
        let ghost first = choose|f: int| self.first_live(f);
        let n: u32 = self.len() as u32;
        let mut new_pool: Vec<u8> = Vec::new();
        let mut new_off: Vec<u32> = Vec::new();
        let mut new_name_id: Vec<u32> = Vec::new();
        let mut new_orig: Vec<u32> = Vec::new();
        let mut seen: FxHashMap<&[u8], u32> = new_name_map();
        let ghost mut used: Set<int> = Set::empty();
        let ghost pool = self.dict_pool@;
        let ghost off = self.dict_off@;
        let mut id: u32 = 0;
        proof {
            lemma_used_none(pool, off, off.len() as int);
        }
        while id < n
            invariant
                self.wf(),
                *self == *old(self),
                n == self.count(),
                id <= n,
                pool == self.dict_pool@,
                off == self.dict_off@,
                self.first_live(first),
                new_name_id@.len() == id,
                new_orig@.len() == id,
                dict_wf(new_pool@, new_off@),
                new_off@.len() <= id,
                new_pool@.len() == used_bytes(pool, off, used, off.len() as int),
                forall|k: int|
                    used.contains(k) ==> 0 <= k < off.len() && exists|j: int|
                        0 <= j < new_off@.len() && #[trigger] dict_name(new_pool@, new_off@, j)
                            == dict_name(pool, off, k),
                forall|s: Seq<u8>| #[trigger]
                    names_seen(seen).contains_key(s) ==> names_seen(seen)[s] < new_off@.len()
                        && dict_name(new_pool@, new_off@, names_seen(seen)[s] as int) == s,
                forall|k: int|
                    0 <= k < new_off@.len() ==> names_seen(seen).contains_key(
                        #[trigger] dict_name(new_pool@, new_off@, k),
                    ) && names_seen(seen)[dict_name(new_pool@, new_off@, k)] == k,
                forall|i: int|
                    0 <= i < id && self.live(i) ==> (#[trigger] new_name_id@[i]) < new_off@.len()
                        && dict_name(new_pool@, new_off@, new_name_id@[i] as int) == self.lower(i)
                        && new_orig@[i] == self.orig_off@[i],
                forall|i: int|
                    0 <= i < id && !self.live(i) ==> #[trigger] is_blank(
                        new_name_id@,
                        new_orig@,
                        i,
                    ),
                forall|k: int|
                    0 <= k < new_off@.len() ==> #[trigger] names_a_live(
                        new_name_id@,
                        self.flag@,
                        k,
                    ),
                id <= first ==> new_off@.len() == 0,
                id > first ==> new_off@.len() > 0 && dict_name(new_pool@, new_off@, 0)
                    == self.lower(first),
            decreases n - id,
        {
            let ghost ids0 = new_name_id@;
            let ghost origs0 = new_orig@;
            if !self.is_live(id) {
                new_name_id.push(0);
                new_orig.push(NONE);
                proof {
                    assert forall|i: int| 0 <= i < id + 1 && !self.live(i) implies #[trigger] is_blank(
                        new_name_id@,
                        new_orig@,
                        i,
                    ) by {
                        if i < id {
                            assert(is_blank(ids0, origs0, i));
                        }
                    }
                    assert forall|k: int| 0 <= k < new_off@.len() implies #[trigger] names_a_live(
                        new_name_id@,
                        self.flag@,
                        k,
                    ) by {
                        assert(names_a_live(ids0, self.flag@, k));
                        let i = choose|i: int|
                            0 <= i < ids0.len() && !bit_set(self.flag@[i], TOMBSTONE)
                                && #[trigger] ids0[i] == k;
                        assert(new_name_id@[i] == k);
                    }
                }
                id = id + 1;
                continue;
            }
            let folded: &[u8] = self.lower_name(id);
            let ghost nid = self.name_id@[id as int] as int;
            let ghost off1 = new_off@;
            proof {
                assert(self.live(id as int));
                assert(id >= first);
            }
            match name_map_get(&seen, folded) {
                Some(k) => {
                    new_name_id.push(k);
                },
                None => {
                    let ghost pool0 = new_pool@;
                    let ghost off0 = new_off@;
                    let ghost seen0 = names_seen(seen);
                    let ghost used0 = used;
                    proof {
                        assert(!used.contains(nid)) by {
                            if used.contains(nid) {
                                let j = choose|j: int|
                                    0 <= j < new_off@.len() && #[trigger] dict_name(
                                        new_pool@,
                                        new_off@,
                                        j,
                                    ) == dict_name(pool, off, nid);
                                assert(names_seen(seen).contains_key(
                                    dict_name(new_pool@, new_off@, j),
                                ));
                            }
                        }
                        assert(nid < off.len());
                        lemma_used_insert(pool, off, used, nid, off.len() as int);
                        lemma_used_bound(pool, off, used.insert(nid), off.len() as int);
                        self.lemma_lower(id as int);
                        assert(new_pool@.len() + folded@.len() <= pool.len());
                        lemma_dict_append(new_pool@, new_off@, folded@);
                        used = used.insert(nid);
                    }
                    let assigned: u32 = new_off.len() as u32;
                    new_off.push(new_pool.len() as u32);
                    extend(&mut new_pool, folded);
                    name_map_insert(&mut seen, folded, assigned);
                    new_name_id.push(assigned);
                    proof {
                        assert(new_pool@ == pool0 + folded@);
                        assert(dict_name(new_pool@, new_off@, assigned as int) == folded@);
                        assert forall|k: int| used.contains(k) implies 0 <= k < off.len()
                            && exists|j: int|
                            0 <= j < new_off@.len() && #[trigger] dict_name(new_pool@, new_off@, j)
                                == dict_name(pool, off, k) by {
                            if k != nid {
                                assert(used0.contains(k));
                                let j = choose|j: int|
                                    0 <= j < off0.len() && #[trigger] dict_name(pool0, off0, j)
                                        == dict_name(pool, off, k);
                                assert(dict_name(new_pool@, new_off@, j) == dict_name(pool, off, k));
                            }
                        }
                        assert forall|s: Seq<u8>| #[trigger]
                            names_seen(seen).contains_key(s) implies names_seen(seen)[s]
                            < new_off@.len() && dict_name(
                            new_pool@,
                            new_off@,
                            names_seen(seen)[s] as int,
                        ) == s by {
                            if s != folded@ {
                                assert(seen0.contains_key(s));
                            }
                        }
                        assert forall|k: int| 0 <= k < new_off@.len() implies names_seen(
                            seen,
                        ).contains_key(#[trigger] dict_name(new_pool@, new_off@, k)) && names_seen(
                            seen,
                        )[dict_name(new_pool@, new_off@, k)] == k by {
                            if k < off0.len() {
                                assert(dict_name(new_pool@, new_off@, k) == dict_name(
                                    pool0,
                                    off0,
                                    k,
                                ));
                                assert(seen0.contains_key(dict_name(pool0, off0, k)));
                            }
                        }
                        assert forall|i: int| 0 <= i < id && self.live(i) implies (
                        #[trigger] new_name_id@[i]) < new_off@.len() && dict_name(
                            new_pool@,
                            new_off@,
                            new_name_id@[i] as int,
                        ) == self.lower(i) && new_orig@[i] == self.orig_off@[i] by {
                            assert(new_name_id@[i] == ids0[i]);
                        }
                    }
                },
            }
            new_orig.push(self.orig_off[id as usize]);
            proof {
                assert forall|i: int| 0 <= i < id + 1 && !self.live(i) implies #[trigger] is_blank(
                    new_name_id@,
                    new_orig@,
                    i,
                ) by {
                    assert(is_blank(ids0, origs0, i));
                }
                assert forall|k: int| 0 <= k < new_off@.len() implies #[trigger] names_a_live(
                    new_name_id@,
                    self.flag@,
                    k,
                ) by {
                    if new_name_id@[id as int] != k {
                        assert(k < off1.len());
                        assert(names_a_live(ids0, self.flag@, k));
                        let i = choose|i: int|
                            0 <= i < ids0.len() && !bit_set(self.flag@[i], TOMBSTONE)
                                && #[trigger] ids0[i] == k;
                        assert(new_name_id@[i] == k);
                    }
                }
            }
            id = id + 1;
        }
        self.dict_pool = new_pool;
        self.dict_off = new_off;
        self.name_id = new_name_id;
        self.orig_off = new_orig;
        self.dict_appends_since_dedup = 0;
        proof {
            let before = old(self);
            assert forall|i: int| 0 <= i < n implies (#[trigger] self.name_id@[i])
                < self.dict_off@.len() by {
                if !before.live(i) {
                    assert(is_blank(new_name_id@, new_orig@, i));
                }
            }
            assert forall|i: int| 0 <= i < n && before.live(i) implies #[trigger] self.row(i)
                == before.row(i) by {
                assert(new_name_id@[i] < new_off@.len());
                assert(self.original(i) =~= before.original(i));
            }
            assert forall|i: int| 0 <= i < n && !before.live(i) implies #[trigger] self.row(i)
                == (Row { name: before.lower(first), lower: before.lower(first), ..before.row(i) }) by {
                assert(is_blank(new_name_id@, new_orig@, i));
            }
            assert(self.originals_wf()) by {
                assert forall|i: int|
                    0 <= i < self.orig_off@.len() && #[trigger] self.orig_off@[i] != NONE implies self.orig_off@[i]
                    + self.lower(i).len() <= self.orig_pool@.len() by {
                    assert(before.live(i)) by {
                        if !before.live(i) {
                            assert(is_blank(new_name_id@, new_orig@, i));
                        }
                    }
                    assert(self.row(i) == before.row(i));
                    assert(new_name_id@[i] < new_off@.len());
                    assert(self.orig_off@[i] == before.orig_off@[i]);
                    assert(before.orig_off@[i] + before.lower(i).len() <= before.orig_pool@.len());
                }
            }
            assert forall|i: int| 0 <= i < n && before.live(i) implies #[trigger] self.owned_bytes(
                i,
            ) == before.owned_bytes(i) by {
                assert(new_name_id@[i] < new_off@.len());
                assert(self.row(i) == before.row(i));
            }
            assert forall|a: int, b: int| 0 <= a < b < self.dict_off@.len() implies #[trigger] dict_name(
                self.dict_pool@,
                self.dict_off@,
                a,
            ) != #[trigger] dict_name(self.dict_pool@, self.dict_off@, b) by {
                assert(names_seen(seen)[dict_name(new_pool@, new_off@, a)] == a);
                assert(names_seen(seen)[dict_name(new_pool@, new_off@, b)] == b);
            }
        }
    }

    pub(crate) proof fn lemma_owned_grows(&self, m: int, n: int)
        requires
            self.columns_wf(),
            0 <= m <= n <= self.count(),
        ensures
            0 <= self.owned_total(m) <= self.owned_total(n),
        decreases n,
    {
        if m < n {
            self.lemma_owned_grows(m, n - 1);
        } else if m > 0 {
            self.lemma_owned_grows(m - 1, m - 1);
        }
    }

    /// Live entries of one original spelling share its bytes.
    pub open spec fn originals_shared(&self) -> bool {
        forall|i: int, j: int|
            0 <= i < j < self.count() && self.live(i) && self.live(j) && #[trigger] self.orig_off@[i]
                != NONE && #[trigger] self.orig_off@[j] != NONE && self.original(i)
                == self.original(j) ==> self.orig_off@[i] == self.orig_off@[j]
    }

    /// Rebuild the pool of original spellings over the distinct ones of the
    /// live entries. A tombstoned entry keeps none.
    pub(crate) fn dedup_orig(&mut self)
        requires
            old(self).wf(),
            old(self).owned_total(old(self).count()) < NONE,
        ensures
            final(self).wf(),
            final(self).originals_shared(),
            *final(self) == (VolumeIndex {
                orig_pool: final(self).orig_pool,
                orig_off: final(self).orig_off,
                ..*old(self)
            }),
            forall|i: int|
                0 <= i < old(self).count() && old(self).live(i) ==> #[trigger] final(self).row(i)
                    == old(self).row(i),
            forall|i: int|
                0 <= i < old(self).count() && !old(self).live(i) ==> #[trigger] final(self).row(i)
                    == (Row { name: old(self).lower(i), ..old(self).row(i) }),
    {
        let n: u32 = self.len() as u32;
        let mut new_pool: Vec<u8> = Vec::new();
        let mut new_off: Vec<u32> = Vec::new();
        let mut seen: FxHashMap<&[u8], u32> = new_name_map();
        let mut id: u32 = 0;
        while id < n
            invariant
                self.wf(),
                *self == *old(self),
                n == self.count(),
                id <= n,
                self.owned_total(n as int) < NONE,
                new_off@.len() == id,
                new_pool@.len() <= self.owned_total(id as int),
                forall|s: Seq<u8>| #[trigger]
                    names_seen(seen).contains_key(s) ==> spelled_at(
                        new_pool@,
                        names_seen(seen)[s] as int,
                        s,
                    ) && names_seen(seen)[s] != NONE,
                forall|i: int|
                    0 <= i < id && self.live(i) && self.orig_off@[i] != NONE ==> bound_to(
                        names_seen(seen),
                        self.original(i),
                        #[trigger] new_off@[i],
                    ),
                forall|i: int|
                    0 <= i < id && !(self.live(i) && self.orig_off@[i] != NONE)
                        ==> #[trigger] new_off@[i] == NONE,
            decreases n - id,
        {
            proof {
                self.lemma_owned_grows(id as int, n as int);
                self.lemma_owned_grows(id + 1, n as int);
            }
            if !self.is_live(id) || self.orig_off[id as usize] == NONE {
                new_off.push(NONE);
                id = id + 1;
                continue;
            }
            let original: &[u8] = self.name(id);
            let ghost pool0 = new_pool@;
            let ghost seen0 = names_seen(seen);
            let ghost off0 = new_off@;
            proof {
                self.lemma_lower(id as int);
            }
            let at: u32 = match name_map_get(&seen, original) {
                Some(at) => at,
                None => {
                    let at: u32 = new_pool.len() as u32;
                    extend(&mut new_pool, original);
                    name_map_insert(&mut seen, original, at);
                    proof {
                        assert(new_pool@ == pool0 + original@);
                        assert(new_pool@.subrange(at as int, at + original@.len()) =~= original@);
                        assert forall|s: Seq<u8>| #[trigger]
                            names_seen(seen).contains_key(s) implies spelled_at(
                            new_pool@,
                            names_seen(seen)[s] as int,
                            s,
                        ) && names_seen(seen)[s] != NONE by {
                            if s != original@ {
                                assert(seen0.contains_key(s));
                                assert(new_pool@.subrange(
                                    seen0[s] as int,
                                    seen0[s] + s.len(),
                                ) =~= pool0.subrange(seen0[s] as int, seen0[s] + s.len()));
                            }
                        }
                    }
                    at
                },
            };
            new_off.push(at);
            proof {
                assert forall|i: int|
                    0 <= i < id + 1 && self.live(i) && self.orig_off@[i] != NONE implies bound_to(
                    names_seen(seen),
                    self.original(i),
                    #[trigger] new_off@[i],
                ) by {
                    if i < id {
                        assert(new_off@[i] == off0[i]);
                        assert(bound_to(seen0, self.original(i), off0[i]));
                    }
                }
                assert forall|i: int|
                    0 <= i < id + 1 && !(self.live(i) && self.orig_off@[i] != NONE) implies #[trigger] new_off@[i]
                    == NONE by {
                    assert(new_off@[i] == off0[i]);
                }
            }
            id = id + 1;
        }
        self.orig_pool = new_pool;
        self.orig_off = new_off;
        proof {
            let before = old(self);
            assert forall|i: int| 0 <= i < n implies #[trigger] self.lower(i) == before.lower(i) by {}
            assert forall|i: int| 0 <= i < n && before.live(i) implies #[trigger] self.row(i)
                == before.row(i) by {
                assert(new_off@[i] == self.orig_off@[i]);
                before.lemma_lower(i);
                if before.orig_off@[i] != NONE {
                    assert(spelled_at(new_pool@, new_off@[i] as int, before.original(i)));
                }
                assert(self.original(i) =~= before.original(i));
            }
            assert forall|i: int| 0 <= i < n && !before.live(i) implies #[trigger] self.row(i)
                == (Row { name: before.lower(i), ..before.row(i) }) by {
                assert(new_off@[i] == NONE);
            }
            assert(self.originals_wf()) by {
                assert forall|i: int|
                    0 <= i < self.orig_off@.len() && #[trigger] self.orig_off@[i] != NONE implies self.orig_off@[i]
                    + self.lower(i).len() <= self.orig_pool@.len() by {
                    assert(new_off@[i] == self.orig_off@[i]);
                    before.lemma_lower(i);
                    assert(spelled_at(new_pool@, new_off@[i] as int, before.original(i)));
                }
            }
            assert forall|i: int, j: int|
                0 <= i < j < self.count() && self.live(i) && self.live(j)
                    && #[trigger] self.orig_off@[i] != NONE && #[trigger] self.orig_off@[j] != NONE
                    && self.original(i) == self.original(j) implies self.orig_off@[i]
                == self.orig_off@[j] by {
                assert(self.row(i) == before.row(i));
                assert(self.row(j) == before.row(j));
                assert(new_off@[i] == self.orig_off@[i] && new_off@[j] == self.orig_off@[j]);
            }
        }
    }
}

/// The map binds `s` to the number.
spec fn bound_to(m: Map<Seq<u8>, u32>, s: Seq<u8>, number: u32) -> bool {
    m.contains_key(s) && m[s] == number
}

/// The bytes `s` stand at `at` in the pool.
spec fn spelled_at(pool: Seq<u8>, at: int, s: Seq<u8>) -> bool {
    0 <= at && at + s.len() <= pool.len() && pool.subrange(at, at + s.len()) == s
}

} // verus!
