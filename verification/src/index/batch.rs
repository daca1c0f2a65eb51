//! The end of a batch of changes: appended entries are merged into the name
//! permutation and the index by record number.

use vstd::prelude::*;
use crate::order::{is_permutation, reordered, sort_named};
use super::columns::VolumeIndex;
use super::exclusion::all_derived;
use super::merge::{
    ascends, lemma_woven_ascends, lemma_woven_distinct, lemma_woven_items, lemma_woven_len, places,
    places_fit, places_wf, weave,
};
use super::topology::IndexMutationError;
use super::EntryId;

verus! {

impl VolumeIndex {
    /// The entries from `first` on, in name order.
    fn sorted_batch(&self, first: EntryId) -> (batch: Vec<EntryId>)
        requires
            self.columns_wf(),
            first <= self.count(),
        ensures
            batch@.len() == self.count() - first,
            forall|k: int| 0 <= k < batch@.len() ==> first <= (#[trigger] batch@[k]) < self.count(),
            forall|i: int, j: int|
                0 <= i < j < batch@.len() ==> #[trigger] batch@[i] != #[trigger] batch@[j],
            ascends(batch@, self.name_order()),
    {
        let n: u32 = self.len() as u32;
        let mut named: Vec<(&[u8], u32)> = Vec::new();
        let mut id: u32 = first;
        while id < n
            invariant
                first <= id <= n,
                n == self.count(),
                self.columns_wf(),
                named@.len() == id - first,
                forall|k: int|
                    0 <= k < named@.len() ==> (#[trigger] named@[k]).1 == first + k && named@[k].0@
                        == self.lower(first + k),
            decreases n - id,
        {
            named.push((self.lower_name(id), id));
            id = id + 1;
        }
        let ghost unsorted = named@;
        sort_named(&mut named);
        let ghost sorted = named@;
        let mut batch: Vec<EntryId> = Vec::new();
        let mut i: usize = 0;
        while i < named.len()
            invariant
                i <= named@.len(),
                named@ == sorted,
                batch@.len() == i,
                forall|k: int| 0 <= k < i ==> #[trigger] batch@[k] == sorted[k].1,
            decreases named@.len() - i,
        {
            batch.push(named[i].1);
            i = i + 1;
        }
        proof {
            let (p, q) = choose|p: Seq<int>, q: Seq<int>| reordered(unsorted, sorted, p, q);
            assert(reordered(unsorted, sorted, p, q));
            assert forall|k: int| 0 <= k < batch@.len() implies first <= (#[trigger] batch@[k])
                < self.count() && sorted[k].0@ == self.lower(batch@[k] as int) by {
                assert(sorted[k] == unsorted[p[k]]);
            }
            assert forall|a: int, b: int| 0 <= a < b < batch@.len() implies #[trigger] batch@[a]
                != #[trigger] batch@[b] by {
                assert(sorted[a] == unsorted[p[a]]);
                assert(sorted[b] == unsorted[p[b]]);
                assert(q[p[a]] == a && q[p[b]] == b);
            }
            let ord = self.name_order();
            assert forall|a: int, b: int| 0 <= a < b < batch@.len() implies ord(
                #[trigger] batch@[a],
                #[trigger] batch@[b],
            ) by {
                assert(batch@[a] != batch@[b]);
                assert(sorted[a].0@ == self.lower(batch@[a] as int));
                assert(sorted[b].0@ == self.lower(batch@[b] as int));
            }
        }
        batch
    }

    /// Where each entry of a batch goes in the name permutation.
    fn batch_places(&self, batch: &Vec<EntryId>) -> (pos: Vec<usize>)
        requires
            self.columns_wf(),
            self.order_wf(),
            forall|k: int|
                0 <= k < batch@.len() ==> self.perm_name@.len() <= (#[trigger] batch@[k])
                    < self.count(),
            ascends(batch@, self.name_order()),
        ensures
            pos@.len() == batch@.len(),
            places_wf(places(pos@), batch@.len() as int, self.perm_name@.len() as int),
            ascends(self.perm_name@, self.name_order()) ==> places_fit(
                self.perm_name@,
                batch@,
                places(pos@),
                batch@.len() as int,
                self.name_order(),
            ),
    {
        let ghost o = self.perm_name@;
        let ghost b = batch@;
        let ghost ord = self.name_order();
        let ghost sorted = ascends(o, ord);
        let mut pos: Vec<usize> = Vec::new();
        let mut from: usize = 0;
        let mut j: usize = 0;
        while j < batch.len()
            invariant
                self.columns_wf(),
                self.order_wf(),
                o == self.perm_name@,
                b == batch@,
                ord == self.name_order(),
                sorted == ascends(o, ord),
                ascends(b, ord),
                forall|k: int| 0 <= k < b.len() ==> o.len() <= (#[trigger] b[k]) < self.count(),
                j <= b.len(),
                pos@.len() == j,
                from <= o.len(),
                from == (if j == 0 {
                    0
                } else {
                    pos@[j - 1]
                }),
                forall|i: int, k: int|
                    0 <= i <= k < j ==> (#[trigger] pos@[i]) <= (#[trigger] pos@[k]),
                forall|i: int| 0 <= i < j ==> (#[trigger] pos@[i]) <= o.len(),
                sorted ==> forall|i: int, k: int|
                    0 <= k < j && 0 <= i < pos@[k] ==> ord(#[trigger] o[i], #[trigger] b[k]),
                sorted ==> forall|i: int, k: int|
                    0 <= k < j && pos@[k] <= i < o.len() ==> ord(#[trigger] b[k], #[trigger] o[i]),
            decreases b.len() - j,
        {
            let id: EntryId = batch[j];
            proof {
                assert forall|k: int| 0 <= k < o.len() implies (#[trigger] o[k]) < self.count()
                    && o[k] != id by {
                    assert(o[k] < o.len());
                    assert(b[j as int] >= o.len());
                }
            }
            let at: usize = self.place_of(&self.perm_name, id, from);
            proof {
                if sorted {
                    assert forall|i: int| 0 <= i < at implies ord(#[trigger] o[i], b[j as int]) by {
                        if i < from {
                            assert(ord(o[i], b[j - 1]));
                            assert(ord(b[j - 1], b[j as int]));
                            self.lemma_name_transitive(
                                o[i] as int,
                                b[j - 1] as int,
                                b[j as int] as int,
                            );
                        }
                    }
                }
            }
            pos.push(at);
            from = at;
            j = j + 1;
        }
        proof {
            let p = places(pos@);
            assert(places_wf(p, b.len() as int, o.len() as int)) by {
                assert forall|i: int, k: int| 0 <= i <= k < b.len() implies (#[trigger] p[i]) <= (
                #[trigger] p[k]) by {
                    assert(pos@[i] <= pos@[k]);
                }
                assert forall|i: int| 0 <= i < b.len() implies 0 <= (#[trigger] p[i])
                    <= o.len() by {
                    assert(pos@[i] <= o.len());
                }
            }
            if sorted {
                assert forall|i: int, k: int|
                    0 <= k < b.len() && 0 <= i < p[k] implies ord(
                    #[trigger] o[i],
                    #[trigger] b[k],
                ) by {
                    assert(p[k] == pos@[k]);
                }
                assert forall|i: int, k: int|
                    0 <= k < b.len() && p[k] <= i < o.len() implies ord(
                    #[trigger] b[k],
                    #[trigger] o[i],
                ) by {
                    assert(p[k] == pos@[k]);
                }
            }
        }
        pos
    }

    /// Merge the entries from `first_new` on into the name permutation and
    /// the index by record number, derive exclusion anew where it is owed,
    /// and bump the content generation: the end of a batch.
    ///
    /// The merge is always complete. Where the live entries of a volume no
    /// longer form one exact rooted forest, that is reported: the batch is to
    /// be discarded and the volume to be scanned anew.
    pub fn merge_new_into_permutations(&mut self, first_new: EntryId) -> (r: Result<
        (),
        IndexMutationError,
    >)
        requires
            old(self).wf(),
            old(self).count() > 0,
            first_new == old(self).perm_name@.len(),
            old(self).content_generation < u64::MAX,
        ensures
            final(self).wf(),
            r == (if old(self).synthetic() {
                Ok::<(), IndexMutationError>(())
            } else {
                old(self).topology(old(self).count())
            }),
            final(self).perm_name@.len() == old(self).count(),
            old(self).name_sorted() ==> final(self).name_sorted(),
            final(self).frn_index.covers == old(self).count(),
            final(self).flag@ == (if old(self).exclusion_tree_dirty {
                all_derived(old(self).parent@, old(self).flag@)
            } else {
                old(self).flag@
            }),
            final(self).rows() == old(self).rows_flagged(final(self).flag@),
            *final(self) == (VolumeIndex {
                frn_index: final(self).frn_index,
                flag: final(self).flag,
                perm_name: final(self).perm_name,
                exclusion_tree_dirty: false,
                content_generation: (old(self).content_generation + 1) as u64,
                ..*old(self)
            }),
    {
        let ghost before = *self;
        self.frn_index.merge_appended(self.frn.as_slice(), self.flag.as_slice());
        proof {
            self.lemma_originals_same(&before);
        }
        let verdict: Result<(), IndexMutationError> = if self.is_synthetic_fixture() {
            Ok(())
        } else {
            self.validate_live_topology()
        };
        proof {
            if !before.synthetic() {
                before.lemma_same_topology(self, before.count());
            }
        }
        if self.exclusion_tree_dirty {
            self.recompute_all_excluded();
            let ghost derived = *self;
            self.exclusion_tree_dirty = false;
            proof {
                self.lemma_originals_same(&derived);
            }
        }
        let ghost ready = *self;
        let batch: Vec<EntryId> = self.sorted_batch(first_new);
        let pos: Vec<usize> = self.batch_places(&batch);
        let ghost o = self.perm_name@;
        let ghost b = batch@;
        weave(&mut self.perm_name, batch.as_slice(), &pos);
        self.content_generation = self.content_generation + 1;
        proof {
            let p = places(pos@);
            let m = b.len() as int;
            let hi = o.len() as int;
            let w = self.perm_name@;
            let ord = ready.name_order();
            lemma_woven_len(o, b, p, m, hi);
            assert forall|i: int, j: int| 0 <= i < o.len() && 0 <= j < b.len() implies #[trigger] o[i]
                != #[trigger] b[j] by {
                assert(o[i] < first_new);
            }
            lemma_woven_distinct(o, b, p, m, hi);
            assert forall|i: int| 0 <= i < w.len() implies (#[trigger] w[i]) < w.len() by {
                lemma_woven_items(o, b, p, m, hi, i);
            }
            assert(is_permutation(w));
            assert forall|i: int| #[trigger] self.lower(i) == before.lower(i) by {}
            assert forall|i: int| #[trigger] ready.lower(i) == before.lower(i) by {}
            if before.name_sorted() {
                assert forall|x: int, y: int| 0 <= x < y < o.len() implies ord(
                    #[trigger] o[x],
                    #[trigger] o[y],
                ) by {
                    assert(before.name_before(o[x] as int, o[y] as int));
                    assert(ready.lower(o[x] as int) == before.lower(o[x] as int));
                    assert(ready.lower(o[y] as int) == before.lower(o[y] as int));
                }
                lemma_woven_ascends(o, b, p, m, hi, ord);
                assert forall|x: int, y: int| 0 <= x < y < w.len() implies self.name_before(
                    (#[trigger] w[x]) as int,
                    (#[trigger] w[y]) as int,
                ) by {
                    assert(ord(w[x], w[y]));
                    assert(ready.lower(w[x] as int) == self.lower(w[x] as int));
                    assert(ready.lower(w[y] as int) == self.lower(w[y] as int));
                }
            }
            self.lemma_originals_same(&before);
            assert(self.rows() =~= before.rows_flagged(self.flag@));
        }
        verdict
    }

    /// What is found of the live entries depends on the entries alone.
    proof fn lemma_same_topology(&self, other: &VolumeIndex, covered: int)
        requires
            *other == (VolumeIndex { frn_index: other.frn_index, ..*self }),
        ensures
            other.topology(covered) == self.topology(covered),
    {
        assert forall|i: int| #[trigger] other.entry_fault(i) == self.entry_fault(i) by {}
        assert forall|i: int, j: int| other.same_link(i, j) == self.same_link(i, j) by {}
        assert forall|i: int| #[trigger] other.live(i) == self.live(i) by {}
        assert(other.links_unique(covered) == self.links_unique(covered)) by {
            if self.links_unique(covered) {
                assert forall|i: int, j: int|
                    0 <= i < j < covered && #[trigger] other.live(i) && #[trigger] other.live(
                        j,
                    ) implies !other.same_link(i, j) by {
                    assert(self.live(i) && self.live(j));
                }
            }
            if other.links_unique(covered) {
                assert forall|i: int, j: int|
                    0 <= i < j < covered && #[trigger] self.live(i) && #[trigger] self.live(
                        j,
                    ) implies !self.same_link(i, j) by {
                    assert(other.live(i) && other.live(j));
                }
            }
        }
        assert forall|i: int| #[trigger] other.first_fault(i) == self.first_fault(i) by {
            if self.first_fault(i) {
                assert forall|j: int|
                    0 < j < i && #[trigger] other.live(j) implies other.entry_fault(j) is None by {
                    assert(self.live(j));
                }
            }
            if other.first_fault(i) {
                assert forall|j: int|
                    0 < j < i && #[trigger] self.live(j) implies self.entry_fault(j) is None by {
                    assert(other.live(j));
                }
            }
        }
        let c = choose|i: int| self.first_fault(i);
        let d = choose|i: int| other.first_fault(i);
        if exists|i: int| self.first_fault(i) {
            assert(self.first_fault(c));
            assert(other.first_fault(c));
            assert(other.first_fault(d));
            assert(self.first_fault(d));
            assert(self.live(c) && self.live(d));
        }
        if exists|i: int| other.first_fault(i) {
            assert(other.first_fault(d));
            assert(self.first_fault(d));
        }
        if exists|i: int| 0 < i < self.count() && #[trigger] self.live(i) && !super::topology::rooted(self.parent@, i) {
            let i = choose|i: int| 0 < i < self.count() && #[trigger] self.live(i) && !super::topology::rooted(self.parent@, i);
            assert(other.live(i));
        }
        if exists|i: int| 0 < i < other.count() && #[trigger] other.live(i) && !super::topology::rooted(other.parent@, i) {
            let i = choose|i: int| 0 < i < other.count() && #[trigger] other.live(i) && !super::topology::rooted(other.parent@, i);
            assert(self.live(i));
        }
    }
}

} // verus!
