//! Finding entries by record number, by full reference and by exact link.

use vstd::prelude::*;
use rustc_hash::FxHashSet;
use crate::hashed::{link_set_insert, links_seen, new_link_set};
use crate::order::{compare_bytes, occurs, Order};
use crate::wtf8::{push_wtf8_pair, wtf8_of};
use super::columns::VolumeIndex;
use super::flags::{bit_set, TOMBSTONE};
use super::frn::{frn_before, is_link, lemma_links_down, lemma_links_up, links_down, links_up};
use super::{has_sequence, record_of, EntryId, Frn, NO_PARENT};

verus! {

/// The items of `s` that pass, in their order.
pub open spec fn selected(s: Seq<u32>, pass: spec_fn(u32) -> bool) -> Seq<u32>
    decreases s.len(),
{
    if s.len() == 0 {
        Seq::empty()
    } else if pass(s.last()) {
        selected(s.drop_last(), pass).push(s.last())
    } else {
        selected(s.drop_last(), pass)
    }
}

/// An item is selected exactly where it is in the sequence and passes.
pub proof fn lemma_selected(s: Seq<u32>, pass: spec_fn(u32) -> bool)
    ensures
        forall|x: int| #[trigger]
            occurs(selected(s, pass), x) <==> occurs(s, x) && pass(x as u32),
        selected(s, pass).len() <= s.len(),
    decreases s.len(),
{
    let t = selected(s, pass);
    if s.len() == 0 {
        assert forall|x: int| #[trigger] occurs(t, x) <==> occurs(s, x) && pass(x as u32) by {}
    } else {
        let d = s.drop_last();
        let u = selected(d, pass);
        lemma_selected(d, pass);
        assert forall|x: int| #[trigger] occurs(t, x) <==> occurs(s, x) && pass(x as u32) by {
            assert(occurs(u, x) <==> occurs(d, x) && pass(x as u32));
            if occurs(t, x) {
                let k = choose|k: int| 0 <= k < t.len() && #[trigger] t[k] == x;
                if k < u.len() {
                    assert(u[k] == x);
                    assert(occurs(d, x));
                    let j = choose|j: int| 0 <= j < d.len() && #[trigger] d[j] == x;
                    assert(s[j] == x);
                } else {
                    assert(s[s.len() - 1] == x);
                }
            }
            if occurs(s, x) && pass(x as u32) {
                let k = choose|k: int| 0 <= k < s.len() && #[trigger] s[k] == x;
                if k < d.len() {
                    assert(d[k] == x);
                    assert(occurs(d, x));
                    assert(occurs(u, x));
                    let j = choose|j: int| 0 <= j < u.len() && #[trigger] u[j] == x;
                    assert(t[j] == x);
                } else {
                    assert(s.last() == x as u32);
                    assert(t[u.len() as int] == x);
                }
            }
        }
    }
}

/// Selecting from distinct items gives distinct items.
pub proof fn lemma_selected_distinct(s: Seq<u32>, pass: spec_fn(u32) -> bool)
    requires
        forall|i: int, j: int| 0 <= i < j < s.len() ==> #[trigger] s[i] != #[trigger] s[j],
    ensures
        forall|i: int, j: int|
            0 <= i < j < selected(s, pass).len() ==> #[trigger] selected(s, pass)[i]
                != #[trigger] selected(s, pass)[j],
    decreases s.len(),
{
    if s.len() > 0 {
        let d = s.drop_last();
        lemma_selected_distinct(d, pass);
        lemma_selected(d, pass);
        let u = selected(d, pass);
        let t = selected(s, pass);
        assert forall|i: int, j: int| 0 <= i < j < t.len() implies #[trigger] t[i]
            != #[trigger] t[j] by {
            if j == u.len() {
                assert(u[i] == t[i] as int);
                assert(occurs(u, t[i] as int));
                let k = choose|k: int| 0 <= k < d.len() && #[trigger] d[k] == t[i] as int;
                assert(s[k] != s[s.len() - 1]);
            } else {
                assert(u[i] == t[i] && u[j] == t[j]);
            }
        }
    }
}

/// The first selected item is the first that passes.
pub proof fn lemma_selected_first(s: Seq<u32>, pass: spec_fn(u32) -> bool) -> (k: int)
    requires
        selected(s, pass).len() > 0,
    ensures
        0 <= k < s.len(),
        selected(s, pass)[0] == s[k],
        pass(s[k]),
        forall|j: int| 0 <= j < k ==> !pass(#[trigger] s[j]),
    decreases s.len(),
{
    let d = s.drop_last();
    if selected(d, pass).len() > 0 {
        let k = lemma_selected_first(d, pass);
        assert(d[k] == s[k]);
        assert forall|j: int| 0 <= j < k implies !pass(#[trigger] s[j]) by {
            assert(d[j] == s[j]);
        }
        k
    } else {
        lemma_selected(d, pass);
        let k = s.len() - 1;
        assert forall|j: int| 0 <= j < k implies !pass(#[trigger] s[j]) by {
            if pass(s[j]) {
                assert(d[j] == s[j] as int);
                assert(occurs(d, s[j] as int));
                assert(occurs(selected(d, pass), s[j] as int));
            }
        }
        k
    }
}

/// The entries whose full reference is `wanted`.
pub open spec fn refers_to(frn: Seq<u64>, wanted: u64) -> spec_fn(u32) -> bool {
    |id: u32| frn[id as int] == wanted
}

impl VolumeIndex {
    /// The live links of record `key`.
    pub open spec fn record_links(&self, key: u64) -> Seq<u32> {
        self.frn_index.links(self.frn@, self.flag@, key)
    }

    /// The live links of the object whose full reference is `frn`.
    pub open spec fn object_links(&self, frn: u64) -> Seq<u32> {
        selected(self.record_links(record_of(frn)), refers_to(self.frn@, frn))
    }

    /// Every link of a record is a live entry of it, and occurs once.
    pub proof fn lemma_record_links(&self, key: u64)
        requires
            self.wf(),
        ensures
            forall|x: int| #[trigger]
                occurs(self.record_links(key), x) <==> 0 <= x < self.count() && is_link(
                    self.frn@,
                    self.flag@,
                    key,
                    x,
                ),
            forall|i: int|
                0 <= i < self.record_links(key).len() ==> (#[trigger] self.record_links(key)[i])
                    < self.count() && is_link(
                    self.frn@,
                    self.flag@,
                    key,
                    self.record_links(key)[i] as int,
                ),
            forall|i: int, j: int|
                0 <= i < j < self.record_links(key).len() ==> #[trigger] self.record_links(key)[i]
                    != #[trigger] self.record_links(key)[j],
    {
        let fs = self.frn@;
        let gs = self.flag@;
        let c = self.frn_index.covers as int;
        let n = fs.len() as int;
        let down = links_down(fs, gs, key, c, n);
        let up = links_up(fs, gs, key, 0, c);
        lemma_links_down(fs, gs, key, c, n);
        lemma_links_up(fs, gs, key, 0, c);
        let all = self.record_links(key);
        assert forall|x: int| #[trigger] occurs(all, x) <==> 0 <= x < n && is_link(
            fs,
            gs,
            key,
            x,
        ) by {
            assert(occurs(down, x) <==> c <= x < n && is_link(fs, gs, key, x));
            assert(occurs(up, x) <==> 0 <= x < c && is_link(fs, gs, key, x));
            if occurs(all, x) {
                let i = choose|i: int| 0 <= i < all.len() && #[trigger] all[i] == x;
                if i < down.len() {
                    assert(down[i] == x);
                } else {
                    assert(up[i - down.len()] == x);
                }
            }
            if occurs(down, x) {
                let i = choose|i: int| 0 <= i < down.len() && #[trigger] down[i] == x;
                assert(all[i] == x);
            }
            if occurs(up, x) {
                let i = choose|i: int| 0 <= i < up.len() && #[trigger] up[i] == x;
                assert(all[i + down.len()] == x);
            }
        }
        assert forall|i: int| 0 <= i < all.len() implies (#[trigger] all[i]) < n && is_link(
            fs,
            gs,
            key,
            all[i] as int,
        ) by {
            assert(all[i] == all[i] as int);
            assert(occurs(all, all[i] as int));
        }
        assert forall|i: int, j: int| 0 <= i < j < all.len() implies #[trigger] all[i]
            != #[trigger] all[j] by {
            if j < down.len() {
                assert(down[i] == all[i] && down[j] == all[j]);
            } else if i >= down.len() {
                assert(up[i - down.len()] == all[i] && up[j - down.len()] == all[j]);
            } else {
                assert(down[i] == all[i] as int);
                assert(occurs(down, all[i] as int));
                assert(up[j - down.len()] == all[j] as int);
                assert(occurs(up, all[j] as int));
            }
        }
    }

    /// Every link of an object is a live entry with its reference, and occurs
    /// once.
    pub proof fn lemma_object_links(&self, frn: u64)
        requires
            self.wf(),
        ensures
            forall|x: int| #[trigger]
                occurs(self.object_links(frn), x) <==> 0 <= x < self.count() && self.frn@[x] == frn
                    && self.live(x),
            forall|i: int|
                0 <= i < self.object_links(frn).len() ==> (#[trigger] self.object_links(frn)[i])
                    < self.count() && self.frn@[self.object_links(frn)[i] as int] == frn
                    && self.live(self.object_links(frn)[i] as int),
            forall|i: int, j: int|
                0 <= i < j < self.object_links(frn).len() ==> #[trigger] self.object_links(frn)[i]
                    != #[trigger] self.object_links(frn)[j],
    {
        let key = record_of(frn);
        let pass = refers_to(self.frn@, frn);
        self.lemma_record_links(key);
        lemma_selected(self.record_links(key), pass);
        lemma_selected_distinct(self.record_links(key), pass);
        let s = self.object_links(frn);
        assert forall|x: int| #[trigger] occurs(s, x) <==> 0 <= x < self.count() && self.frn@[x]
            == frn && self.live(x) by {
            assert(occurs(s, x) <==> occurs(self.record_links(key), x) && pass(x as u32));
            assert(occurs(self.record_links(key), x) <==> 0 <= x < self.count() && is_link(
                self.frn@,
                self.flag@,
                key,
                x,
            ));
        }
        assert forall|i: int| 0 <= i < s.len() implies (#[trigger] s[i]) < self.count()
            && self.frn@[s[i] as int] == frn && self.live(s[i] as int) by {
            assert(s[i] == s[i] as int);
            assert(occurs(s, s[i] as int));
        }
    }

    /// Every live link of a record number: those not yet merged, newest
    /// first, then the merged ones, oldest first.
    pub fn entries_by_record(&self, record: u64) -> (r: Vec<EntryId>)
        requires
            self.wf(),
        ensures
            r@ == self.record_links(record),
    {
        self.frn_index.lookup_all(record, self.frn.as_slice(), self.flag.as_slice())
    }

    /// One live entry for a record number, if any.
    ///
    /// Files with hard links have several entries: code that is sensitive to
    /// links must look at all of them.
    pub fn entry_by_record(&self, record: u64) -> (r: Option<EntryId>)
        requires
            self.wf(),
        ensures
            r == (if self.record_links(record).len() > 0 {
                Some(self.record_links(record)[0])
            } else {
                None
            }),
    {
        self.frn_index.lookup(record, self.frn.as_slice(), self.flag.as_slice())
    }

    /// Every live link whose full reference is `frn`.
    pub fn entries_by_frn(&self, frn: Frn) -> (r: Vec<EntryId>)
        requires
            self.wf(),
        ensures
            r@ == self.object_links(frn.0),
    {
        let all: Vec<EntryId> = self.entries_by_record(frn.record().0);
        let ghost pass = refers_to(self.frn@, frn.0);
        let mut found: Vec<EntryId> = Vec::new();
        let mut i: usize = 0;
        proof {
            self.lemma_record_links(record_of(frn.0));
        }
        while i < all.len()
            invariant
                i <= all@.len(),
                self.wf(),
                all@ == self.record_links(record_of(frn.0)),
                forall|k: int| 0 <= k < all@.len() ==> (#[trigger] all@[k]) < self.count(),
                pass == refers_to(self.frn@, frn.0),
                found@ == selected(all@.take(i as int), pass),
            decreases all@.len() - i,
        {
            let id: EntryId = all[i];
            assert(all@.take(i + 1).drop_last() =~= all@.take(i as int));
            assert(all@.take(i + 1).last() == id);
            if self.frn[id as usize] == frn.0 {
                found.push(id);
            }
            i = i + 1;
        }
        assert(all@.take(i as int) =~= all@);
        found
    }

    /// One live entry whose full reference is `frn`, if any.
    pub fn entry_by_frn(&self, frn: Frn) -> (r: Option<EntryId>)
        requires
            self.wf(),
        ensures
            r == (if self.object_links(frn.0).len() > 0 {
                Some(self.object_links(frn.0)[0])
            } else {
                None
            }),
    {
        let all: Vec<EntryId> = self.entries_by_frn(frn);
        if all.len() > 0 {
            Some(all[0])
        } else {
            None
        }
    }

    /// The root's reference carries no sequence number: the index was made
    /// for a fixture, not from a volume.
    pub open spec fn synthetic(&self) -> bool {
        !has_sequence(self.frn@[0])
    }

    /// Whether this index was made for a fixture: roots of volumes carry a
    /// sequence number.
    pub fn is_synthetic_fixture(&self) -> (r: bool)
        requires
            self.wf(),
            self.count() > 0,
        ensures
            r == self.synthetic(),
    {
        self.frn[0] < 0x1_0000_0000_0000
    }

    /// Entry `i` is the link of that name in the directory `parent_frn`.
    pub open spec fn link_is(&self, i: int, parent_frn: u64, name: Seq<u8>) -> bool {
        let p = self.parent@[i];
        &&& p != NO_PARENT
        &&& self.frn@[p as int] == parent_frn || (p == 0 && self.synthetic() && record_of(
            self.frn@[0],
        ) == record_of(parent_frn))
        &&& self.original(i) == name
    }

    /// Find one exact directory link: object, parent directory and original
    /// spelling.
    pub fn entry_by_link_wtf8(&self, frn: Frn, parent_frn: Frn, name_wtf8: &[u8]) -> (r: Option<
        EntryId,
    >)
        requires
            self.wf(),
        ensures
            ({
                let links = self.object_links(frn.0);
                match r {
                    Some(id) => exists|k: int|
                        0 <= k < links.len() && id == #[trigger] links[k] && self.link_is(
                            id as int,
                            parent_frn.0,
                            name_wtf8@,
                        ) && forall|j: int|
                            0 <= j < k ==> !self.link_is(
                                (#[trigger] links[j]) as int,
                                parent_frn.0,
                                name_wtf8@,
                            ),
                    None => forall|j: int|
                        0 <= j < links.len() ==> !self.link_is(
                            (#[trigger] links[j]) as int,
                            parent_frn.0,
                            name_wtf8@,
                        ),
                }
            }),
    {
        let links: Vec<EntryId> = self.entries_by_frn(frn);
        proof {
            self.lemma_object_links(frn.0);
        }
        let mut i: usize = 0;
        while i < links.len()
            invariant
                i <= links@.len(),
                self.wf(),
                links@ == self.object_links(frn.0),
                forall|k: int| 0 <= k < links@.len() ==> (#[trigger] links@[k]) < self.count(),
                forall|j: int|
                    0 <= j < i ==> !self.link_is(
                        (#[trigger] links@[j]) as int,
                        parent_frn.0,
                        name_wtf8@,
                    ),
            decreases links@.len() - i,
        {
            let id: EntryId = links[i];
            let p: EntryId = self.parent[id as usize];
            if p != NO_PARENT {
                let stored: u64 = self.frn[p as usize];
                let same_dir: bool = stored == parent_frn.0 || (p == Self::ROOT
                    && self.is_synthetic_fixture() && stored % 0x1_0000_0000_0000 == parent_frn.0
                    % 0x1_0000_0000_0000);
                if same_dir {
                    match compare_bytes(self.name(id), name_wtf8) {
                        Order::Same => {
                            return Some(id);
                        },
                        _ => {},
                    }
                }
            }
            i = i + 1;
        }
        None
    }

    /// [`VolumeIndex::entry_by_link_wtf8`] for a name in UTF-16 units.
    pub fn entry_by_link(&self, frn: Frn, parent_frn: Frn, name_utf16: &[u16]) -> (r: Option<
        EntryId,
    >)
        requires
            self.wf(),
        ensures
            ({
                let links = self.object_links(frn.0);
                let name = wtf8_of(name_utf16@);
                match r {
                    Some(id) => exists|k: int|
                        0 <= k < links.len() && id == #[trigger] links[k] && self.link_is(
                            id as int,
                            parent_frn.0,
                            name,
                        ) && forall|j: int|
                            0 <= j < k ==> !self.link_is(
                                (#[trigger] links[j]) as int,
                                parent_frn.0,
                                name,
                            ),
                    None => forall|j: int|
                        0 <= j < links.len() ==> !self.link_is(
                            (#[trigger] links[j]) as int,
                            parent_frn.0,
                            name,
                        ),
                }
            }),
    {
        let mut name: Vec<u8> = Vec::new();
        let mut folded: Vec<u8> = Vec::new();
        push_wtf8_pair(name_utf16, &mut name, &mut folded);
        assert(name@ =~= wtf8_of(name_utf16@));
        self.entry_by_link_wtf8(frn, parent_frn, name.as_slice())
    }

    /// Entries `i` and `j` are the same link of the same object.
    pub open spec fn same_link(&self, i: int, j: int) -> bool {
        self.frn@[i] == self.frn@[j] && self.parent@[i] == self.parent@[j] && self.original(i)
            == self.original(j)
    }

    /// Entry `i` is live and repeats a link of a live, covered entry before
    /// it.
    pub open spec fn repeats(&self, i: int) -> bool {
        self.live(i) && exists|j: int|
            0 <= j < i && j < self.frn_index.covers && #[trigger] self.live(j) && self.same_link(
                j,
                i,
            )
    }

    /// Covered live entries that repeat a link, in the order of their records.
    pub open spec fn repeated_links(&self) -> Seq<u32> {
        selected(self.frn_index.ids@, |id: u32| self.repeats(id as int))
    }

    /// Find the covered live entries that repeat a link.
    pub(crate) fn duplicate_links(&self) -> (r: Vec<EntryId>)
        requires
            self.wf(),
        ensures
            r@ == self.repeated_links(),
    {
        let ghost ids = self.frn_index.ids@;
        let ghost pass = |id: u32| self.repeats(id as int);
        let mut found: Vec<EntryId> = Vec::new();
        let mut start: usize = 0;
        assert(ids.take(0) =~= Seq::empty());
        while start < self.frn_index.ids.len()
            invariant
                self.wf(),
                ids == self.frn_index.ids@,
                pass == |id: u32| self.repeats(id as int),
                start <= ids.len(),
                found@ == selected(ids.take(start as int), pass),
                forall|a: int, b: int|
                    0 <= a < start <= b < ids.len() ==> record_of(
                        self.frn@[(#[trigger] ids[a]) as int],
                    ) < record_of(self.frn@[(#[trigger] ids[b]) as int]),
            decreases ids.len() - start,
        {
            let first: EntryId = self.frn_index.ids[start];
            let record: u64 = self.frn[first as usize] % 0x1_0000_0000_0000;
            let mut seen: FxHashSet<(u64, u32, Vec<u8>)> = new_link_set();
            let mut i: usize = start;
            while i < self.frn_index.ids.len() && self.frn[self.frn_index.ids[i] as usize]
                % 0x1_0000_0000_0000 == record
                invariant
                    self.wf(),
                    ids == self.frn_index.ids@,
                    pass == |id: u32| self.repeats(id as int),
                    start < ids.len(),
                    start <= i <= ids.len(),
                    record == record_of(self.frn@[ids[start as int] as int]),
                    found@ == selected(ids.take(i as int), pass),
                    forall|a: int, b: int|
                        0 <= a < start <= b < ids.len() ==> record_of(
                            self.frn@[(#[trigger] ids[a]) as int],
                        ) < record_of(self.frn@[(#[trigger] ids[b]) as int]),
                    forall|k: int|
                        start <= k < i ==> record_of(self.frn@[(#[trigger] ids[k]) as int])
                            == record,
                    forall|x: (u64, u32, Seq<u8>)| #[trigger]
                        links_seen(seen).contains(x) ==> exists|k: int|
                            start <= k < i && self.live((#[trigger] ids[k]) as int) && x == (
                                self.frn@[ids[k] as int],
                                self.parent@[ids[k] as int],
                                self.original(ids[k] as int),
                            ),
                    forall|k: int|
                        start <= k < i && self.live((#[trigger] ids[k]) as int) ==> links_seen(
                            seen,
                        ).contains(
                            (
                                self.frn@[ids[k] as int],
                                self.parent@[ids[k] as int],
                                self.original(ids[k] as int),
                            ),
                        ),
                decreases ids.len() - i,
            {
                let id: EntryId = self.frn_index.ids[i];
                let ghost before = links_seen(seen);
                let ghost key = (
                    self.frn@[id as int],
                    self.parent@[id as int],
                    self.original(id as int),
                );
                proof {
                    assert(ids.take(i + 1).drop_last() =~= ids.take(i as int));
                    assert(ids.take(i + 1).last() == id);
                }
                if self.is_live(id) {
                    let fresh: bool = link_set_insert(
                        &mut seen,
                        self.frn[id as usize],
                        self.parent[id as usize],
                        self.name(id),
                    );
                    proof {
                        if !fresh {
                            let k = choose|k: int|
                                start <= k < i && self.live((#[trigger] ids[k]) as int) && key == (
                                    self.frn@[ids[k] as int],
                                    self.parent@[ids[k] as int],
                                    self.original(ids[k] as int),
                                );
                            assert(frn_before(self.frn@, ids[k], ids[i as int]));
                            assert(self.same_link(ids[k] as int, id as int));
                            assert(self.live(ids[k] as int));
                            assert(self.repeats(id as int));
                        } else if self.repeats(id as int) {
                            let j = choose|j: int|
                                0 <= j < id && j < self.frn_index.covers && #[trigger] self.live(j)
                                    && self.same_link(j, id as int);
                            assert(!bit_set(self.flag@[j], TOMBSTONE));
                            assert(occurs(ids, j));
                            let k = choose|k: int| 0 <= k < ids.len() && #[trigger] ids[k] == j;
                            assert(record_of(self.frn@[ids[k] as int]) == record);
                            if k < start {
                                assert(record_of(self.frn@[ids[k] as int]) < record_of(
                                    self.frn@[ids[start as int] as int],
                                ));
                            }
                            if k > i {
                                assert(frn_before(self.frn@, ids[i as int], ids[k]));
                            }
                            assert(start <= k < i);
                            assert(self.live(ids[k] as int));
                        }
                        assert forall|x: (u64, u32, Seq<u8>)| #[trigger]
                            links_seen(seen).contains(x) implies exists|k: int|
                            start <= k < i + 1 && self.live((#[trigger] ids[k]) as int) && x == (
                                self.frn@[ids[k] as int],
                                self.parent@[ids[k] as int],
                                self.original(ids[k] as int),
                            ) by {
                            if x == key {
                                assert(self.live(ids[i as int] as int));
                            } else {
                                assert(before.contains(x));
                                let k = choose|k: int|
                                    start <= k < i && self.live((#[trigger] ids[k]) as int) && x
                                        == (
                                        self.frn@[ids[k] as int],
                                        self.parent@[ids[k] as int],
                                        self.original(ids[k] as int),
                                    );
                                assert(self.live(ids[k] as int));
                            }
                        }
                    }
                    if !fresh {
                        found.push(id);
                    }
                }
                i = i + 1;
            }
            proof {
                assert(i > start);
                assert forall|a: int, b: int| 0 <= a < i <= b < ids.len() implies record_of(
                    self.frn@[(#[trigger] ids[a]) as int],
                ) < record_of(self.frn@[(#[trigger] ids[b]) as int]) by {
                    if a >= start {
                        assert(frn_before(self.frn@, ids[a], ids[i as int]) || a == i);
                        assert(record_of(self.frn@[ids[i as int] as int]) != record);
                        if b > i {
                            assert(frn_before(self.frn@, ids[i as int], ids[b]));
                        }
                    }
                }
            }
            start = i;
        }
        assert(ids.take(start as int) =~= ids);
        found
    }

    /// No two live entries below `n` are the same link of the same object.
    pub open spec fn links_unique(&self, n: int) -> bool {
        forall|i: int, j: int|
            0 <= i < j < n && #[trigger] self.live(i) && #[trigger] self.live(j)
                ==> !self.same_link(i, j)
    }

    /// Whether every covered live link occurs once.
    pub(crate) fn has_unique_live_link_identities(&self) -> (ok: bool)
        requires
            self.wf(),
        ensures
            ok == self.links_unique(self.frn_index.covers as int),
    {
        let repeated: Vec<EntryId> = self.duplicate_links();
        proof {
            let ids = self.frn_index.ids@;
            let pass = |id: u32| self.repeats(id as int);
            lemma_selected(ids, pass);
            if repeated@.len() > 0 {
                let id = repeated@[0];
                assert(repeated@[0] == id as int);
                assert(occurs(repeated@, id as int));
                assert(occurs(ids, id as int));
                assert(pass(id));
                let j = choose|j: int|
                    0 <= j < id && j < self.frn_index.covers && #[trigger] self.live(j)
                        && self.same_link(j, id as int);
                let k = choose|k: int| 0 <= k < ids.len() && #[trigger] ids[k] == id as int;
                assert(self.live(j) && self.live(id as int));
            } else {
                assert forall|i: int, j: int|
                    0 <= i < j < self.frn_index.covers && #[trigger] self.live(i)
                        && #[trigger] self.live(j) implies !self.same_link(i, j) by {
                    if self.same_link(i, j) {
                        assert(!bit_set(self.flag@[j], TOMBSTONE));
                        assert(occurs(ids, j));
                        assert(self.repeats(j));
                        assert(pass(j as u32));
                        assert(occurs(repeated@, j));
                    }
                }
            }
        }
        repeated.len() == 0
    }
}

} // verus!
