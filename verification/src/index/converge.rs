//! What making the links of a file what a set of them says leads to.

use vstd::prelude::*;
use crate::dates::ticks_to_secs;
use crate::order::occurs;
use crate::wtf8::{lower_of, wtf8_of};
use super::columns::{Row, VolumeIndex};
use super::flags::{
    bit_set, lemma_raw_flags, lemma_with_bit, lemma_with_bit_same, EXCLUDED, HIDDEN, IS_DIR,
    REPARSE, SYSTEM, TOMBSTONE,
};
use super::lookup::{lemma_selected, lemma_selected_distinct};
use super::mutate::buried_flags;
use super::reconcile::{
    attrs_stale, flags_of, is_current, other_generation, parents_of, refreshed, stat_stale,
};
use super::rows::facts_of;
use super::topology::{is_directory, IndexMutationError};
use super::update::attrs_are;
use super::{record_of, Frn, RawEntry, NO_PARENT};

verus! {

/// Refreshing entries keeps which of them are live links of the object, and
/// makes those what `e` says.
proof fn lemma_refreshed(rows: Seq<Row>, frn: u64, e: RawEntry<'_>, i: int)
    requires
        0 <= i < rows.len(),
    ensures
        refreshed(rows, frn, e).len() == rows.len(),
        is_current(refreshed(rows, frn, e)[i], frn) == is_current(rows[i], frn),
        refreshed(rows, frn, e)[i].name == rows[i].name,
        refreshed(rows, frn, e)[i].parent == rows[i].parent,
        refreshed(rows, frn, e)[i].frn == rows[i].frn,
        bit_set(refreshed(rows, frn, e)[i].flag, TOMBSTONE) == bit_set(rows[i].flag, TOMBSTONE),
        !is_current(rows[i], frn) ==> refreshed(rows, frn, e)[i] == rows[i],
        is_current(rows[i], frn) ==> {
            &&& refreshed(rows, frn, e)[i].size == e.size
            &&& refreshed(rows, frn, e)[i].mtime == ticks_to_secs(e.mtime)
            &&& attrs_are(refreshed(rows, frn, e)[i].flag, e.is_reparse, e.is_hidden, e.is_system)
            &&& bit_set(refreshed(rows, frn, e)[i].flag, IS_DIR) == bit_set(rows[i].flag, IS_DIR)
        },
{
    broadcast use lemma_with_bit;

    assert(parents_of(rows)[i] == rows[i].parent);
    assert(flags_of(rows)[i] == rows[i].flag);
}

impl VolumeIndex {
    /// The entry is the link that `e` wants, and says of the file what `e`
    /// says.
    pub open spec fn link_row(&self, frn: Frn, e: RawEntry<'_>, row: Row) -> bool {
        &&& row.frn == frn.0
        &&& row.parent == self.wanted_parent(frn, e)
        &&& row.name == wtf8_of(e.name_utf16@)
        &&& row.size == e.size
        &&& row.mtime == ticks_to_secs(e.mtime)
        &&& attrs_are(row.flag, e.is_reparse, e.is_hidden, e.is_system)
        &&& !bit_set(row.flag, IS_DIR)
    }

    /// The entry is one of the wanted links.
    pub open spec fn is_wanted(&self, frn: Frn, desired: Seq<RawEntry<'_>>, row: Row) -> bool {
        exists|j: int| 0 <= j < desired.len() && self.link_row(frn, #[trigger] desired[j], row)
    }

    /// A live entry is the link that `e` wants.
    pub open spec fn is_there(&self, frn: Frn, e: RawEntry<'_>, rows: Seq<Row>) -> bool {
        exists|i: int|
            0 <= i < rows.len() && is_current(#[trigger] rows[i], frn.0) && self.link_row(
                frn,
                e,
                rows[i],
            )
    }

    /// The entries once the links of a file are what a set of them says.
    pub open spec fn reconciled(&self, frn: Frn, desired: Seq<RawEntry<'_>>) -> Seq<Row> {
        refreshed(self.converged(frn, desired), frn.0, desired[0])
    }

    /// The entry that is appended for a wanted link.
    spec fn link_new(&self, frn: Frn, e: RawEntry<'_>) -> Row {
        self.new_row(
            wtf8_of(e.name_utf16@),
            lower_of(e.name_utf16@),
            self.wanted_parent(frn, e),
            facts_of(e),
        )
    }

    /// The wanted link for which an entry was appended.
    proof fn lemma_appended_for(&self, frn: Frn, desired: Seq<RawEntry<'_>>, n: int, x: int) -> (j:
        int)
        requires
            0 <= n <= desired.len(),
            0 <= x < self.new_links(frn, desired, n).len(),
        ensures
            0 <= j < n,
            self.lacks(frn, desired[j]),
            self.new_links(frn, desired, j).len() == x,
            self.new_links(frn, desired, n)[x] == self.link_new(frn, desired[j]),
        decreases n,
    {
        let s = self.new_links(frn, desired, n - 1);
        if self.lacks(frn, desired[n - 1]) && x == s.len() {
            n - 1
        } else {
            self.lemma_appended_for(frn, desired, n - 1, x)
        }
    }

    /// For every link that lacks, an entry was appended.
    proof fn lemma_appended(&self, frn: Frn, desired: Seq<RawEntry<'_>>, n: int, j: int) -> (x: int)
        requires
            0 <= j < n <= desired.len(),
            self.lacks(frn, desired[j]),
        ensures
            0 <= x < self.new_links(frn, desired, n).len(),
            self.new_links(frn, desired, n)[x] == self.link_new(frn, desired[j]),
        decreases n,
    {
        if j == n - 1 {
            self.new_links(frn, desired, j).len() as int
        } else {
            self.lemma_appended(frn, desired, n - 1, j)
        }
    }

    /// An appended entry is a live link of the file.
    proof fn lemma_link_new(&self, frn: Frn, desired: Seq<RawEntry<'_>>, j: int)
        requires
            self.links_refused(frn, desired) is None,
            0 <= j < desired.len(),
        ensures
            is_current(self.link_new(frn, desired[j]), frn.0),
            !bit_set(self.link_new(frn, desired[j]).flag, IS_DIR),
    {
        broadcast use lemma_with_bit;

        self.lemma_no_fault_before(frn, desired, desired.len() as int, j);
        let e = desired[j];
        lemma_raw_flags(e.is_dir, e.is_reparse, e.is_hidden, e.is_system);
    }

    /// An entry that was there is, while it is a live link of the file, one of
    /// its links that stay.
    proof fn lemma_stayed(&self, frn: Frn, desired: Seq<RawEntry<'_>>, i: int) -> (k: int)
        requires
            self.wf(),
            0 <= i < self.count(),
            is_current(self.converged(frn, desired)[i], frn.0),
        ensures
            0 <= k < self.object_links(frn.0).len(),
            self.object_links(frn.0)[k] == i,
            self.keeps(frn, desired, k),
            self.converged(frn, desired)[i] == self.row(i),
    {
        let gone = self.gone_links(frn, desired);
        let links = self.object_links(frn.0);
        self.lemma_gone(frn, desired);
        self.lemma_object_links(frn.0);
        lemma_with_bit(self.flag@[i], TOMBSTONE, true, TOMBSTONE);
        assert(self.converged(frn, desired)[i] == (Row {
            flag: buried_flags(self.flag@, gone)[i],
            ..self.row(i)
        }));
        assert(occurs(links, i));
        let k = choose|k: int| 0 <= k < links.len() && #[trigger] links[k] == i;
        assert(!occurs(gone, links[k] as int));
        k
    }

    /// A link that stays is live.
    proof fn lemma_stays(&self, frn: Frn, desired: Seq<RawEntry<'_>>, k: int)
        requires
            self.wf(),
            0 <= k < self.object_links(frn.0).len(),
            self.keeps(frn, desired, k),
        ensures
            is_current(self.converged(frn, desired)[self.object_links(frn.0)[k] as int], frn.0),
            self.converged(frn, desired)[self.object_links(frn.0)[k] as int] == self.row(
                self.object_links(frn.0)[k] as int,
            ),
    {
        let gone = self.gone_links(frn, desired);
        let i = self.object_links(frn.0)[k] as int;
        self.lemma_gone(frn, desired);
        self.lemma_object_links(frn.0);
        assert(!occurs(gone, i));
        assert(self.converged(frn, desired)[i] == (Row {
            flag: buried_flags(self.flag@, gone)[i],
            ..self.row(i)
        }));
    }

    /// Of the links that a wanted one hits, the first stays.
    proof fn lemma_first_hit_stays(
        &self,
        frn: Frn,
        desired: Seq<RawEntry<'_>>,
        j: int,
        n: int,
    ) -> (k: int)
        requires
            self.wf(),
            0 <= j < desired.len(),
            0 <= n <= self.object_links(frn.0).len(),
            exists|k: int|
                0 <= k < n && self.hits(
                    frn,
                    desired[j],
                    (#[trigger] self.object_links(frn.0)[k]) as int,
                ),
        ensures
            0 <= k < n,
            self.hits(frn, desired[j], self.object_links(frn.0)[k] as int),
            self.keeps(frn, desired, k),
        decreases n,
    {
        let links = self.object_links(frn.0);
        if exists|k: int| 0 <= k < n - 1 && self.hits(frn, desired[j], (#[trigger] links[k]) as int) {
            self.lemma_first_hit_stays(frn, desired, j, n - 1)
        } else {
            assert(self.hits(frn, desired[j], links[n - 1] as int));
            assert forall|i: int| 0 <= i < n - 1 implies !self.same_link(
                (#[trigger] links[i]) as int,
                links[n - 1] as int,
            ) by {
                assert(!self.hits(frn, desired[j], links[i] as int));
            }
            n - 1
        }
    }

    /// A live link of the file is one of the wanted ones.
    proof fn lemma_only_wanted(&self, frn: Frn, desired: Seq<RawEntry<'_>>, i: int)
        requires
            self.wf(),
            self.links_refused(frn, desired) is None,
            0 <= i < self.reconciled(frn, desired).len(),
            is_current(self.reconciled(frn, desired)[i], frn.0),
        ensures
            self.is_wanted(frn, desired, self.reconciled(frn, desired)[i]),
    {
        let rows = self.converged(frn, desired);
        let m = desired.len() as int;
        lemma_refreshed(rows, frn.0, desired[0], i);
        let j = if i < self.count() {
            let k = self.lemma_stayed(frn, desired, i);
            self.lemma_object_links(frn.0);
            let links = self.object_links(frn.0);
            assert(!bit_set(self.flag@[links[k] as int], IS_DIR));
            choose|j: int|
                0 <= j < desired.len() && self.hits(frn, #[trigger] desired[j], links[k] as int)
        } else {
            let j = self.lemma_appended_for(frn, desired, m, i - self.count());
            self.lemma_link_new(frn, desired, j);
            j
        };
        self.lemma_no_fault_before(frn, desired, m, j);
        assert(self.link_row(frn, desired[j], self.reconciled(frn, desired)[i]));
    }

    /// Every wanted link is there.
    proof fn lemma_every_wanted(&self, frn: Frn, desired: Seq<RawEntry<'_>>, j: int)
        requires
            self.wf(),
            self.links_refused(frn, desired) is None,
            0 <= j < desired.len(),
        ensures
            self.is_there(frn, desired[j], self.reconciled(frn, desired)),
    {
        let rows = self.converged(frn, desired);
        let links = self.object_links(frn.0);
        let m = desired.len() as int;
        self.lemma_object_links(frn.0);
        self.lemma_no_fault_before(frn, desired, m, j);
        let i = if self.lacks(frn, desired[j]) {
            let x = self.lemma_appended(frn, desired, m, j);
            self.lemma_link_new(frn, desired, j);
            assert(rows[self.count() + x] == self.link_new(frn, desired[j]));
            self.count() + x
        } else {
            let k = self.lemma_first_hit_stays(frn, desired, j, links.len() as int);
            self.lemma_stays(frn, desired, k);
            assert(!bit_set(self.flag@[links[k] as int], IS_DIR));
            links[k] as int
        };
        lemma_refreshed(rows, frn.0, desired[0], i);
        assert(is_current(self.reconciled(frn, desired)[i], frn.0));
        assert(self.link_row(frn, desired[j], self.reconciled(frn, desired)[i]));
    }

    /// No two live links of the file are the same.
    proof fn lemma_links_differ(&self, frn: Frn, desired: Seq<RawEntry<'_>>, a: int, b: int)
        requires
            self.wf(),
            self.links_refused(frn, desired) is None,
            0 <= a < b < self.converged(frn, desired).len(),
            is_current(self.converged(frn, desired)[a], frn.0),
            is_current(self.converged(frn, desired)[b], frn.0),
        ensures
            self.converged(frn, desired)[a].parent != self.converged(frn, desired)[b].parent
                || self.converged(frn, desired)[a].name != self.converged(frn, desired)[b].name,
    {
        let rows = self.converged(frn, desired);
        let links = self.object_links(frn.0);
        let n = self.count();
        let m = desired.len() as int;
        self.lemma_object_links(frn.0);
        if b < n {
            let k = self.lemma_stayed(frn, desired, a);
            let l = self.lemma_stayed(frn, desired, b);
            if k < l {
                assert(!self.same_link(links[k] as int, links[l] as int));
            } else {
                assert(!self.same_link(links[l] as int, links[k] as int));
            }
        } else {
            let j = self.lemma_appended_for(frn, desired, m, b - n);
            assert(rows[b] == self.link_new(frn, desired[j]));
            if a < n {
                let k = self.lemma_stayed(frn, desired, a);
                assert(!self.hits(frn, desired[j], links[k] as int));
            } else {
                let i = self.lemma_appended_for(frn, desired, m, a - n);
                assert(rows[a] == self.link_new(frn, desired[i]));
                self.lemma_no_fault_before(frn, desired, m, i);
                self.lemma_no_fault_before(frn, desired, m, j);
                assert(i != j);
            }
        }
    }

    /// A complete set of links that is accepted becomes the links of the file,
    /// one for one: every live link of the file is one of the set, every one
    /// of the set is a live link, and no link is there twice. Of the record no
    /// other generation stays live, and entries of other records stay as they
    /// are.
    pub proof fn lemma_reconciled_links(&self, frn: Frn, desired: Seq<RawEntry<'_>>)
        requires
            self.wf(),
            self.links_refused(frn, desired) is None,
        ensures
            ({
                let rows = self.reconciled(frn, desired);
                &&& forall|i: int|
                    0 <= i < rows.len() && is_current(#[trigger] rows[i], frn.0) ==> self.is_wanted(
                        frn,
                        desired,
                        rows[i],
                    )
                &&& forall|j: int|
                    0 <= j < desired.len() ==> self.is_there(frn, #[trigger] desired[j], rows)
                &&& forall|a: int, b: int|
                    0 <= a < b < rows.len() && is_current(#[trigger] rows[a], frn.0) && is_current(
                        #[trigger] rows[b],
                        frn.0,
                    ) ==> rows[a].parent != rows[b].parent || rows[a].name != rows[b].name
                &&& forall|i: int|
                    0 <= i < rows.len() && !bit_set((#[trigger] rows[i]).flag, TOMBSTONE)
                        && record_of(rows[i].frn) == record_of(frn.0) ==> rows[i].frn == frn.0
                &&& forall|i: int|
                    0 <= i < self.count() && record_of(self.frn@[i]) != record_of(frn.0)
                        ==> #[trigger] rows[i] == self.row(i)
            }),
    {
        let rows = self.reconciled(frn, desired);
        let base = self.converged(frn, desired);
        let m = desired.len() as int;
        let gone = self.gone_links(frn, desired);
        let record = record_of(frn.0);
        let all = self.record_links(record);
        let stale = self.stale_links(frn);
        self.lemma_record_links(record);
        self.lemma_object_links(frn.0);
        lemma_selected(all, other_generation(self.frn@, frn.0));
        self.lemma_gone(frn, desired);
        assert forall|i: int| 0 <= i < rows.len() && is_current(#[trigger] rows[i], frn.0) implies self.is_wanted(
            frn,
            desired,
            rows[i],
        ) by {
            self.lemma_only_wanted(frn, desired, i);
        }
        assert forall|j: int| 0 <= j < desired.len() implies self.is_there(
            frn,
            #[trigger] desired[j],
            rows,
        ) by {
            self.lemma_every_wanted(frn, desired, j);
        }
        assert forall|a: int, b: int|
            0 <= a < b < rows.len() && is_current(#[trigger] rows[a], frn.0) && is_current(
                #[trigger] rows[b],
                frn.0,
            ) implies rows[a].parent != rows[b].parent || rows[a].name != rows[b].name by {
            lemma_refreshed(base, frn.0, desired[0], a);
            lemma_refreshed(base, frn.0, desired[0], b);
            self.lemma_links_differ(frn, desired, a, b);
        }
        assert forall|i: int|
            0 <= i < rows.len() && !bit_set((#[trigger] rows[i]).flag, TOMBSTONE) && record_of(
                rows[i].frn,
            ) == record implies rows[i].frn == frn.0 by {
            lemma_refreshed(base, frn.0, desired[0], i);
            if i < self.count() {
                lemma_with_bit(self.flag@[i], TOMBSTONE, true, TOMBSTONE);
                assert(base[i] == (Row { flag: buried_flags(self.flag@, gone)[i], ..self.row(i) }));
                if self.frn@[i] != frn.0 {
                    assert(self.live(i));
                    assert(occurs(all, i));
                    assert(occurs(stale, i));
                    let x = choose|x: int| 0 <= x < stale.len() && #[trigger] stale[x] == i;
                    assert(gone[x] == i);
                    assert(occurs(gone, i));
                }
            } else {
                let j = self.lemma_appended_for(frn, desired, m, i - self.count());
                self.lemma_link_new(frn, desired, j);
            }
        }
        assert forall|i: int|
            0 <= i < self.count() && record_of(self.frn@[i]) != record implies #[trigger] rows[i]
            == self.row(i) by {
            lemma_refreshed(base, frn.0, desired[0], i);
            assert(base[i] == (Row { flag: buried_flags(self.flag@, gone)[i], ..self.row(i) }));
            if occurs(gone, i) {
                let x = choose|x: int| 0 <= x < gone.len() && #[trigger] gone[x] == i;
                if x < stale.len() {
                    assert(stale[x] == i);
                    assert(occurs(stale, i));
                    assert(occurs(all, i));
                } else {
                    let links = self.object_links(frn.0);
                    self.lemma_dropped(frn, desired, links.len() as int);
                    let d = self.dropped_links(frn, desired, links.len() as int);
                    assert(d[x - stale.len()] == i);
                    assert(self.drops(frn, desired, links.len() as int, d[x - stale.len()]));
                    let k = choose|k: int|
                        0 <= k < links.len() && #[trigger] links[k] == d[x - stale.len()]
                            && !self.keeps(frn, desired, k);
                    assert(self.frn@[links[k] as int] == frn.0);
                }
            }
        }
    }

    /// The live directory entries of an object.
    proof fn lemma_directories(&self, frn: u64)
        requires
            self.wf(),
        ensures
            forall|x: int| #[trigger]
                occurs(self.directory_links(frn), x) <==> 0 <= x < self.count() && self.frn@[x] == frn
                    && self.live(x) && bit_set(self.flag@[x], IS_DIR),
            forall|i: int, j: int|
                0 <= i < j < self.directory_links(frn).len()
                    ==> #[trigger] self.directory_links(frn)[i]
                    != #[trigger] self.directory_links(frn)[j],
    {
        let links = self.object_links(frn);
        let pass = is_directory(self.flag@);
        self.lemma_object_links(frn);
        lemma_selected(links, pass);
        lemma_selected_distinct(links, pass);
        assert forall|x: int| #[trigger] occurs(self.directory_links(frn), x) <==> 0 <= x
            < self.count() && self.frn@[x] == frn && self.live(x) && bit_set(self.flag@[x], IS_DIR) by {
            assert(occurs(links, x) <==> 0 <= x < self.count() && self.frn@[x] == frn && self.live(x));
        }
    }

    /// Links without a fault have no first one.
    proof fn lemma_faultless(&self, frn: Frn, desired: Seq<RawEntry<'_>>, n: int)
        requires
            forall|i: int|
                0 <= i < n ==> self.link_fault(frn, desired, i) is None && (#[trigger] desired[i])
                    == desired[i],
        ensures
            self.first_link_fault(frn, desired, n) is None,
        decreases n,
    {
        if n > 0 {
            self.lemma_faultless(frn, desired, n - 1);
            assert(desired[n - 1] == desired[n - 1]);
        }
    }

    /// Where nothing lacks, nothing is appended.
    proof fn lemma_nothing_new(&self, frn: Frn, desired: Seq<RawEntry<'_>>, n: int)
        requires
            forall|i: int| 0 <= i < n ==> !self.lacks(frn, #[trigger] desired[i]),
        ensures
            self.new_links(frn, desired, n) == Seq::<Row>::empty(),
        decreases n,
    {
        if n > 0 {
            self.lemma_nothing_new(frn, desired, n - 1);
            assert(!self.lacks(frn, desired[n - 1]));
        }
    }

    /// Where every link stays, none is dropped.
    proof fn lemma_nothing_dropped(&self, frn: Frn, desired: Seq<RawEntry<'_>>, n: int)
        requires
            forall|k: int| 0 <= k < n ==> #[trigger] self.keeps(frn, desired, k),
        ensures
            self.dropped_links(frn, desired, n) == Seq::<u32>::empty(),
        decreases n,
    {
        if n > 0 {
            self.lemma_nothing_dropped(frn, desired, n - 1);
            assert(self.keeps(frn, desired, n - 1));
        }
    }

    /// The entries of another record are, after reconciling, those that were
    /// there, and no more.
    proof fn lemma_others_stay(
        &self,
        after: &VolumeIndex,
        frn: Frn,
        desired: Seq<RawEntry<'_>>,
        i: int,
    )
        requires
            self.wf(),
            self.links_refused(frn, desired) is None,
            after.rows() == self.reconciled(frn, desired),
            0 <= i < after.count(),
        ensures
            after.row(i) == self.reconciled(frn, desired)[i],
            self.count() <= after.count(),
            i < self.count() ==> after.frn@[i] == self.frn@[i],
            i < self.count() && record_of(self.frn@[i]) != record_of(frn.0) ==> after.row(i)
                == self.row(i),
            i >= self.count() ==> after.frn@[i] == frn.0,
    {
        let base = self.converged(frn, desired);
        self.lemma_reconciled_links(frn, desired);
        assert(after.row(i) == after.rows()[i]);
        lemma_refreshed(base, frn.0, desired[0], i);
        if i >= self.count() {
            let j = self.lemma_appended_for(frn, desired, desired.len() as int, i - self.count());
            self.lemma_link_new(frn, desired, j);
        } else {
            assert(base[i] == (Row {
                flag: buried_flags(self.flag@, self.gone_links(frn, desired))[i],
                ..self.row(i)
            }));
        }
    }

    /// `after` is what reconciling leads to.
    spec fn leads_to(&self, after: &VolumeIndex, frn: Frn, desired: Seq<RawEntry<'_>>) -> bool {
        &&& self.wf()
        &&& self.count() > 0
        &&& self.links_refused(frn, desired) is None
        &&& after.wf()
        &&& after.rows() == self.reconciled(frn, desired)
    }

    /// The directories of another record are the same after reconciling.
    proof fn lemma_same_directories(
        &self,
        after: &VolumeIndex,
        frn: Frn,
        desired: Seq<RawEntry<'_>>,
        parent: u64,
    )
        requires
            self.leads_to(after, frn, desired),
            record_of(parent) != record_of(frn.0),
            self.directory_links(parent).len() <= 1,
        ensures
            after.directory_links(parent) == self.directory_links(parent),
    {
        let was = self.directory_links(parent);
        let is = after.directory_links(parent);
        self.lemma_directories(parent);
        after.lemma_directories(parent);
        assert(after.rows().len() >= self.count());
        assert forall|x: int| #[trigger] occurs(is, x) <==> occurs(was, x) by {
            if 0 <= x < after.count() {
                self.lemma_others_stay(after, frn, desired, x);
                assert(after.row(x).frn == after.frn@[x] && after.row(x).flag == after.flag@[x]);
            } else {
                self.lemma_others_stay(after, frn, desired, 0);
            }
            if 0 <= x < self.count() {
                assert(self.row(x).frn == self.frn@[x] && self.row(x).flag == self.flag@[x]);
            }
        }
        if is.len() > 0 {
            assert(is[0] == is[0] as int);
            assert(occurs(is, is[0] as int));
            assert(occurs(was, is[0] as int));
            assert(was.len() == 1 && was[0] == is[0]);
            if is.len() > 1 {
                assert(is[1] == is[1] as int);
                assert(occurs(is, is[1] as int));
                assert(occurs(was, is[1] as int));
            }
        } else if was.len() > 0 {
            assert(was[0] == was[0] as int);
            assert(occurs(was, was[0] as int));
            assert(occurs(is, was[0] as int));
        }
        assert(is =~= was);
    }

    /// A live link of the file after reconciling is a file.
    proof fn lemma_links_are_files(
        &self,
        after: &VolumeIndex,
        frn: Frn,
        desired: Seq<RawEntry<'_>>,
    )
        requires
            self.leads_to(after, frn, desired),
        ensures
            forall|k: int|
                0 <= k < after.object_links(frn.0).len() ==> is_current(
                    self.reconciled(frn, desired)[(#[trigger] after.object_links(frn.0)[k]) as int],
                    frn.0,
                ) && !bit_set(after.flag@[after.object_links(frn.0)[k] as int], IS_DIR),
            after.directory_links(frn.0).len() == 0,
    {
        let rows = self.reconciled(frn, desired);
        let links = after.object_links(frn.0);
        let own = after.directory_links(frn.0);
        after.lemma_object_links(frn.0);
        after.lemma_directories(frn.0);
        assert forall|k: int| 0 <= k < links.len() implies is_current(
            rows[(#[trigger] links[k]) as int],
            frn.0,
        ) && !bit_set(after.flag@[links[k] as int], IS_DIR) by {
            let x = links[k] as int;
            assert(after.rows()[x] == after.row(x));
            self.lemma_only_wanted(frn, desired, x);
        }
        if own.len() > 0 {
            let x = own[0] as int;
            assert(own[0] == x);
            assert(occurs(own, x));
            assert(after.rows()[x] == after.row(x));
            self.lemma_only_wanted(frn, desired, x);
        }
    }

    /// The directory of a wanted link is found again after reconciling.
    proof fn lemma_same_parent(
        &self,
        after: &VolumeIndex,
        frn: Frn,
        desired: Seq<RawEntry<'_>>,
        j: int,
    )
        requires
            self.leads_to(after, frn, desired),
            0 <= j < desired.len(),
        ensures
            after.resolved_parent(frn, desired[j].parent_frn) == self.resolved_parent(
                frn,
                desired[j].parent_frn,
            ),
            self.resolved_parent(frn, desired[j].parent_frn) is Ok,
    {
        let parent = desired[j].parent_frn;
        let p = self.wanted_parent(frn, desired[j]);
        self.lemma_no_fault_before(frn, desired, desired.len() as int, j);
        self.lemma_wanted_parent(frn, desired[j]);
        assert(after.rows().len() >= self.count());
        self.lemma_others_stay(after, frn, desired, 0);
        self.lemma_others_stay(after, frn, desired, p as int);
        self.lemma_same_directories(after, frn, desired, parent.0);
        self.lemma_links_are_files(after, frn, desired);
        assert(self.named_parent(frn, parent) == Ok::<u32, IndexMutationError>(p));
        assert(after.named_parent(frn, parent) == Ok::<u32, IndexMutationError>(p));
        assert(after.cycle_check(frn, p) is Ok);
    }

    /// Entries that were refreshed are not changed by refreshing them again.
    proof fn lemma_refreshed_again(&self, frn: Frn, desired: Seq<RawEntry<'_>>)
        requires
            self.wf(),
            self.count() > 0,
            self.links_refused(frn, desired) is None,
        ensures
            ({
                let rows = self.reconciled(frn, desired);
                &&& refreshed(rows, frn.0, desired[0]) == rows
                &&& !stat_stale(rows, frn.0, desired[0])
                &&& !attrs_stale(rows, frn.0, desired[0])
            }),
    {
        broadcast use lemma_with_bit;

        let e = desired[0];
        let base = self.converged(frn, desired);
        let rows = self.reconciled(frn, desired);
        assert forall|i: int| 0 <= i < rows.len() implies refreshed(rows, frn.0, e)[i] == (
        #[trigger] rows[i]) by {
            lemma_refreshed(base, frn.0, e, i);
            if is_current(rows[i], frn.0) {
                self.lemma_converged(frn, desired, i);
                let p = base[i].parent as int;
                lemma_refreshed(base, frn.0, e, p);
                assert(parents_of(rows)[i] == rows[i].parent);
                assert(flags_of(rows)[i] == rows[i].flag);
                assert(flags_of(rows)[p] == flags_of(base)[p]);
                assert(parents_of(base)[i] == base[i].parent);
                let f = rows[i].flag;
                lemma_with_bit_same(f, REPARSE, e.is_reparse);
                lemma_with_bit_same(f, HIDDEN, e.is_hidden);
                lemma_with_bit_same(f, SYSTEM, e.is_system);
                let excluded = e.is_hidden || e.is_system || (base[i].parent != NO_PARENT
                    && base[i].parent != i && bit_set(base[p].flag, EXCLUDED));
                assert(bit_set(f, EXCLUDED) == excluded);
                lemma_with_bit_same(f, EXCLUDED, excluded);
            }
        }
        assert(refreshed(rows, frn.0, e) =~= rows);
        assert forall|i: int| 0 <= i < rows.len() && is_current(#[trigger] rows[i], frn.0) implies {
            &&& rows[i].size == e.size
            &&& rows[i].mtime == ticks_to_secs(e.mtime)
            &&& attrs_are(rows[i].flag, e.is_reparse, e.is_hidden, e.is_system)
        } by {
            lemma_refreshed(base, frn.0, e, i);
        }
    }

    /// A set of links that was accepted is accepted again.
    proof fn lemma_accepted_again(
        &self,
        after: &VolumeIndex,
        frn: Frn,
        desired: Seq<RawEntry<'_>>,
    )
        requires
            self.leads_to(after, frn, desired),
        ensures
            after.links_refused(frn, desired) is None,
            forall|j: int|
                0 <= j < desired.len() ==> after.wanted_parent(frn, #[trigger] desired[j])
                    == self.wanted_parent(frn, desired[j]),
    {
        let m = desired.len() as int;
        self.lemma_links_are_files(after, frn, desired);
        assert forall|j: int| 0 <= j < m implies after.wanted_parent(frn, #[trigger] desired[j])
            == self.wanted_parent(frn, desired[j]) by {
            self.lemma_same_parent(after, frn, desired, j);
        }
        assert forall|j: int| 0 <= j < m implies after.link_fault(frn, desired, j) is None && (
        #[trigger] desired[j]) == desired[j] by {
            self.lemma_same_parent(after, frn, desired, j);
            self.lemma_no_fault_before(frn, desired, m, j);
        }
        after.lemma_faultless(frn, desired, m);
        assert(after.rows().len() >= self.count());
        self.lemma_others_stay(after, frn, desired, 0);
    }

    /// After reconciling, no wanted link lacks.
    proof fn lemma_none_lacks(&self, after: &VolumeIndex, frn: Frn, desired: Seq<RawEntry<'_>>, j: int)
        requires
            self.leads_to(after, frn, desired),
            0 <= j < desired.len(),
        ensures
            !after.lacks(frn, desired[j]),
    {
        let rows = self.reconciled(frn, desired);
        let links = after.object_links(frn.0);
        self.lemma_every_wanted(frn, desired, j);
        self.lemma_same_parent(after, frn, desired, j);
        after.lemma_object_links(frn.0);
        let i = choose|i: int|
            0 <= i < rows.len() && is_current(#[trigger] rows[i], frn.0) && self.link_row(
                frn,
                desired[j],
                rows[i],
            );
        assert(after.rows()[i] == after.row(i));
        assert(occurs(links, i));
        let k = choose|k: int| 0 <= k < links.len() && #[trigger] links[k] == i;
        assert(after.hits(frn, desired[j], links[k] as int));
    }

    /// After reconciling, every link stays.
    proof fn lemma_all_stay(&self, after: &VolumeIndex, frn: Frn, desired: Seq<RawEntry<'_>>, k: int)
        requires
            self.leads_to(after, frn, desired),
            0 <= k < after.object_links(frn.0).len(),
        ensures
            after.keeps(frn, desired, k),
    {
        let rows = self.reconciled(frn, desired);
        let base = self.converged(frn, desired);
        let links = after.object_links(frn.0);
        after.lemma_object_links(frn.0);
        self.lemma_links_are_files(after, frn, desired);
        let x = links[k] as int;
        assert(after.rows()[x] == after.row(x));
        self.lemma_only_wanted(frn, desired, x);
        let j = choose|j: int|
            0 <= j < desired.len() && self.link_row(frn, #[trigger] desired[j], rows[x]);
        self.lemma_same_parent(after, frn, desired, j);
        assert(after.hits(frn, desired[j], x));
        assert forall|i: int| 0 <= i < k implies !after.same_link((#[trigger] links[i]) as int, x) by {
            let y = links[i] as int;
            assert(after.rows()[y] == after.row(y));
            assert(after.rows().len() == base.len());
            lemma_refreshed(base, frn.0, desired[0], x);
            lemma_refreshed(base, frn.0, desired[0], y);
            if x < y {
                self.lemma_links_differ(frn, desired, x, y);
            } else {
                self.lemma_links_differ(frn, desired, y, x);
            }
        }
    }

    /// After reconciling, no link of another generation is left.
    proof fn lemma_no_generation_left(
        &self,
        after: &VolumeIndex,
        frn: Frn,
        desired: Seq<RawEntry<'_>>,
    )
        requires
            self.leads_to(after, frn, desired),
        ensures
            after.stale_links(frn).len() == 0,
    {
        let stale = after.stale_links(frn);
        let record = record_of(frn.0);
        if stale.len() > 0 {
            let x = stale[0] as int;
            self.lemma_reconciled_links(frn, desired);
            after.lemma_record_links(record);
            lemma_selected(after.record_links(record), other_generation(after.frn@, frn.0));
            assert(stale[0] == x);
            assert(occurs(stale, x));
            assert(occurs(after.record_links(record), x));
            assert(after.rows()[x] == after.row(x));
            assert(self.reconciled(frn, desired)[x].frn == frn.0);
        }
    }

    /// To make the links of a file what they were made already is accepted
    /// and changes nothing: no link is appended or goes, and no size, time or
    /// attribute changes.
    pub proof fn lemma_reconcile_again(
        &self,
        after: &VolumeIndex,
        frn: Frn,
        desired: Seq<RawEntry<'_>>,
    )
        requires
            self.wf(),
            self.count() > 0,
            self.links_refused(frn, desired) is None,
            after.wf(),
            after.rows() == self.reconciled(frn, desired),
        ensures
            after.links_refused(frn, desired) is None,
            after.gone_links(frn, desired).len() == 0,
            after.converged(frn, desired) == after.rows(),
            after.reconciled(frn, desired) == after.rows(),
            !stat_stale(after.rows(), frn.0, desired[0]),
            !attrs_stale(after.rows(), frn.0, desired[0]),
    {
        let m = desired.len() as int;
        let n = after.object_links(frn.0).len() as int;
        self.lemma_refreshed_again(frn, desired);
        self.lemma_accepted_again(after, frn, desired);
        self.lemma_no_generation_left(after, frn, desired);
        assert forall|j: int| 0 <= j < m implies !after.lacks(frn, #[trigger] desired[j]) by {
            self.lemma_none_lacks(after, frn, desired, j);
        }
        after.lemma_nothing_new(frn, desired, m);
        assert forall|k: int| 0 <= k < n implies #[trigger] after.keeps(frn, desired, k) by {
            self.lemma_all_stay(after, frn, desired, k);
        }
        after.lemma_nothing_dropped(frn, desired, n);
        assert(after.gone_links(frn, desired).len() == 0);
        assert(after.converged(frn, desired) =~= after.rows()) by {
            assert(buried_flags(after.flag@, after.gone_links(frn, desired)) =~= after.flag@);
        }
    }

    /// The wanted links among the first `n` that the object has.
    spec fn met(&self, frn: Frn, desired: Seq<RawEntry<'_>>, n: int) -> Set<int> {
        Set::new(|i: int| 0 <= i < n && !self.lacks(frn, desired[i]))
    }

    /// The places of those of the first `n` links of the object that stay.
    spec fn staying(&self, frn: Frn, desired: Seq<RawEntry<'_>>, n: int) -> Set<int> {
        Set::new(|k: int| 0 <= k < n && self.keeps(frn, desired, k))
    }

    /// The wanted links that the object has are those that are not appended.
    proof fn lemma_met_counted(&self, frn: Frn, desired: Seq<RawEntry<'_>>, n: int)
        requires
            0 <= n,
        ensures
            self.met(frn, desired, n).finite(),
            self.met(frn, desired, n).len() == n - self.new_links(frn, desired, n).len(),
        decreases n,
    {
        if n == 0 {
            assert(self.met(frn, desired, n) =~= Set::empty());
        } else {
            self.lemma_met_counted(frn, desired, n - 1);
            let s = self.met(frn, desired, n - 1);
            if self.lacks(frn, desired[n - 1]) {
                assert(self.met(frn, desired, n) =~= s);
            } else {
                assert(self.met(frn, desired, n) =~= s.insert(n - 1));
            }
        }
    }

    /// The links that stay are those that are not dropped.
    proof fn lemma_staying_counted(&self, frn: Frn, desired: Seq<RawEntry<'_>>, n: int)
        requires
            0 <= n,
        ensures
            self.staying(frn, desired, n).finite(),
            self.staying(frn, desired, n).len() == n - self.dropped_links(frn, desired, n).len(),
        decreases n,
    {
        if n == 0 {
            assert(self.staying(frn, desired, n) =~= Set::empty());
        } else {
            self.lemma_staying_counted(frn, desired, n - 1);
            let s = self.staying(frn, desired, n - 1);
            if self.keeps(frn, desired, n - 1) {
                assert(self.staying(frn, desired, n) =~= s.insert(n - 1));
            } else {
                assert(self.staying(frn, desired, n) =~= s);
            }
        }
    }

    /// The `k`-th link of the object is the first that is the one `e` wants.
    spec fn hits_first(&self, frn: Frn, e: RawEntry<'_>, k: int) -> bool {
        let links = self.object_links(frn.0);
        &&& 0 <= k < links.len()
        &&& self.hits(frn, e, links[k] as int)
        &&& forall|j: int| 0 <= j < k ==> !self.hits(frn, e, (#[trigger] links[j]) as int)
    }

    /// Of the links that are the one `e` wants, one comes first.
    proof fn lemma_one_hits_first(&self, frn: Frn, e: RawEntry<'_>, k: int) -> (f: int)
        requires
            0 <= k < self.object_links(frn.0).len(),
            self.hits(frn, e, self.object_links(frn.0)[k] as int),
        ensures
            f <= k,
            self.hits_first(frn, e, f),
        decreases k,
    {
        let links = self.object_links(frn.0);
        if self.hits_first(frn, e, k) {
            k
        } else {
            let j = choose|j: int| 0 <= j < k && self.hits(frn, e, (#[trigger] links[j]) as int);
            self.lemma_one_hits_first(frn, e, j)
        }
    }

    /// The place of the first link that is the one `e` wants.
    spec fn first_hit(&self, frn: Frn, e: RawEntry<'_>) -> int {
        choose|k: int| self.hits_first(frn, e, k)
    }

    /// The links that stay are, one for one, the wanted links that the object
    /// has.
    proof fn lemma_met_stay(&self, frn: Frn, desired: Seq<RawEntry<'_>>)
        requires
            self.wf(),
            self.links_refused(frn, desired) is None,
        ensures
            self.met(frn, desired, desired.len() as int).len() == self.staying(
                frn,
                desired,
                self.object_links(frn.0).len() as int,
            ).len(),
    {
        let m = desired.len() as int;
        let links = self.object_links(frn.0);
        let n = links.len() as int;
        let met = self.met(frn, desired, m);
        let stay = self.staying(frn, desired, n);
        let f = |i: int| self.first_hit(frn, desired[i]);
        self.lemma_met_counted(frn, desired, m);
        self.lemma_object_links(frn.0);
        assert forall|i: int| met.contains(i) implies self.hits_first(
            frn,
            desired[i],
            #[trigger] f(i),
        ) && stay.contains(f(i)) by {
            let e = desired[i];
            let k = choose|k: int| 0 <= k < n && self.hits(frn, e, (#[trigger] links[k]) as int);
            let w = self.lemma_one_hits_first(frn, e, k);
            assert(self.hits_first(frn, e, f(i)));
            assert forall|j: int| 0 <= j < f(i) implies !self.same_link(
                (#[trigger] links[j]) as int,
                links[f(i)] as int,
            ) by {}
            assert(self.keeps(frn, desired, f(i)));
        }
        assert forall|i: int, j: int|
            met.contains(i) && met.contains(j) && #[trigger] f(i) == #[trigger] f(j) implies i
            == j by {
            assert(self.hits_first(frn, desired[i], f(i)));
            assert(self.hits_first(frn, desired[j], f(j)));
            self.lemma_no_fault_before(frn, desired, m, i);
            self.lemma_no_fault_before(frn, desired, m, j);
        }
        assert(met.map(f) =~= stay) by {
            assert forall|k: int| stay.contains(k) implies met.map(f).contains(k) by {
                let i = choose|i: int|
                    0 <= i < m && self.hits(frn, #[trigger] desired[i], links[k] as int);
                assert(links[k] == links[k]);
                assert(!self.lacks(frn, desired[i]));
                assert(met.contains(i));
                let first = f(i);
                assert(self.hits_first(frn, desired[i], first));
                assert(links[first] < self.count() && links[k] < self.count());
                if first < k {
                    assert(self.same_link(links[first] as int, links[k] as int));
                }
                if k < first {
                    assert(!self.hits(frn, desired[i], links[k] as int));
                }
                assert(f(i) == k);
            }
        }
        vstd::set_lib::lemma_map_size(met, stay, f);
    }

    /// Every wanted link is either appended or a link that stays: the numbers
    /// of the two add up to what is wanted.
    pub proof fn lemma_links_accounted(&self, frn: Frn, desired: Seq<RawEntry<'_>>)
        requires
            self.wf(),
            self.links_refused(frn, desired) is None,
        ensures
            self.new_links(frn, desired, desired.len() as int).len() + (self.object_links(
                frn.0,
            ).len() - self.dropped_links(
                frn,
                desired,
                self.object_links(frn.0).len() as int,
            ).len()) == desired.len(),
    {
        self.lemma_met_counted(frn, desired, desired.len() as int);
        self.lemma_staying_counted(frn, desired, self.object_links(frn.0).len() as int);
        self.lemma_met_stay(frn, desired);
    }
}

} // verus!
