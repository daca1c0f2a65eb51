//! What a finished build promises: the entries form one exact rooted forest.

use vstd::prelude::*;
use crate::order::occurs;
use super::builder::{
    all_links, exact_dirs, exact_links, FinalizeMode, VolumeIndexBuilder,
};
use super::columns::VolumeIndex;
use super::compact::lemma_all_live;
use super::flags::{bit_set, lemma_with_bit, EXCLUDED, IS_DIR, TOMBSTONE};
use super::frn::{frn_before, groups_valid, lemma_links_up};
use super::lookup::{lemma_selected, refers_to};
use super::topology::{is_directory, rooted};
use super::{has_sequence, record_of};

verus! {

impl VolumeIndexBuilder {
    proof fn lemma_all_sequenced(&self, i: int)
        requires
            forall|k: int| !self.first_unsequenced(k),
            0 <= i < self.idx.count(),
        ensures
            has_sequence(self.idx.frn@[i]),
        decreases i,
    {
        assert forall|j: int| 0 <= j < i implies has_sequence(#[trigger] self.idx.frn@[j]) by {
            self.lemma_all_sequenced(j);
        }
        assert(!self.first_unsequenced(i));
    }

    proof fn lemma_all_parents_found(&self, i: int)
        requires
            forall|k: int| !self.first_parent_fault(k),
            0 < i < self.idx.count(),
        ensures
            self.fault_above(i) is None,
        decreases i,
    {
        assert forall|j: int| 0 < j < i implies #[trigger] self.fault_above(j) is None by {
            self.lemma_all_parents_found(j);
        }
        assert(!self.first_parent_fault(i));
    }

    proof fn lemma_all_rooted(&self, i: int)
        requires
            forall|k: int| !self.first_adrift(k),
            0 < i < self.idx.count(),
        ensures
            rooted(self.parents(), i),
        decreases i,
    {
        assert forall|j: int| 0 < j < i implies rooted(self.parents(), j) by {
            self.lemma_all_rooted(j);
        }
        assert(!self.first_adrift(i));
    }

    /// Of the first `n` entries that repeat a link, one comes first.
    proof fn lemma_some_first_repeat(&self, n: int, i: int) -> (k: int)
        requires
            0 <= i < n <= self.idx.count(),
            self.idx.count() <= 0xFFFF_FFFF,
            self.repeats(i),
        ensures
            0 <= k < n,
            self.repeats(k),
            forall|j: int|
                0 <= j < n && j != k && #[trigger] self.repeats(j) ==> frn_before(
                    self.idx.frn@,
                    k as u32,
                    j as u32,
                ),
        decreases n,
    {
        let last = n - 1;
        if i == last && !exists|j: int| 0 <= j < last && #[trigger] self.repeats(j) {
            last
        } else {
            let other = if i == last {
                choose|j: int| 0 <= j < last && #[trigger] self.repeats(j)
            } else {
                i
            };
            let k = self.lemma_some_first_repeat(last, other);
            if self.repeats(last) && frn_before(self.idx.frn@, last as u32, k as u32) {
                last
            } else {
                k
            }
        }
    }

    proof fn lemma_none_repeats(&self, i: int)
        requires
            forall|k: int| !self.first_repeat(k),
            self.idx.count() <= 0xFFFF_FFFF,
        ensures
            !self.repeats(i),
    {
        if self.repeats(i) {
            let k = self.lemma_some_first_repeat(self.idx.count(), i);
            assert(self.first_repeat(k));
        }
    }

    /// The parent that a strict build gives entry `i` is a directory of the
    /// reference that the entry names.
    proof fn lemma_parent_found(&self, i: int)
        requires
            self.wf(),
            self.mode == FinalizeMode::StrictProduction,
            0 < i < self.idx.count(),
            self.fault_above(i) is None,
        ensures
            ({
                let p = self.parents()[i];
                &&& p < self.idx.count()
                &&& bit_set(self.idx.flag@[p as int], IS_DIR)
                &&& self.idx.frn@[p as int] == self.parent_frns@[i].0
                &&& self.idx.frn@[i] != self.parent_frns@[i].0
            }),
    {
        let frn = self.idx.frn@;
        let flag = self.idx.flag@;
        let wanted = self.parent_frns@[i].0;
        let dirs = exact_dirs(frn, flag, wanted);
        let exact = exact_links(frn, flag, wanted);
        let all = all_links(frn, flag, record_of(wanted));
        assert(dirs.len() == 1);
        let p = dirs[0];
        assert(dirs[0] == p as int);
        assert(occurs(dirs, p as int));
        lemma_selected(exact, is_directory(flag));
        assert(occurs(exact, p as int));
        assert(is_directory(flag)(p as int as u32));
        lemma_selected(all, refers_to(frn, wanted));
        assert(occurs(all, p as int));
        assert(refers_to(frn, wanted)(p as int as u32));
        lemma_links_up(frn, flag, record_of(wanted), 0, frn.len() as int);
        assert(0 <= p < frn.len());
    }

    /// A strict build that succeeds gives one exact rooted forest: the root is
    /// a directory without a parent, every object has one generation, no link
    /// occurs twice, every parent is a live directory, and every entry leads
    /// to the root.
    pub proof fn lemma_strict_build_is_forest(&self, out: &VolumeIndex)
        requires
            self.wf(),
            self.mode == FinalizeMode::StrictProduction,
            self.fault() is None,
            self.settles(out),
        ensures
            out.topology(out.count()) is Ok,
    {
        let n = self.idx.count();
        let flag = self.idx.flag@;
        assert forall|i: int| !self.first_unsequenced(i) by {}
        assert forall|i: int| !self.first_parent_fault(i) by {
            if self.first_parent_fault(i) {
                let c = choose|c: int| self.first_parent_fault(c);
                assert(self.first_parent_fault(c));
                assert(self.fault_above(c) is Some);
            }
        }
        assert forall|i: int| !self.first_repeat(i) by {}
        assert forall|i: int| !self.first_adrift(i) by {}
        assert(groups_valid(self.idx.frn@, flag, n));
        assert forall|i: int| 0 <= i < n implies #[trigger] out.live(i) && bit_set(
            out.flag@[i],
            IS_DIR,
        ) == bit_set(flag[i], IS_DIR) && out.frn@[i] == self.idx.frn@[i] && out.parent@[i]
            == self.parents()[i] && out.original(i) == self.idx.original(i) by {
            lemma_all_live(&self.idx, i);
            assert(!self.dropped(i));
            assert(self.kept_flags()[i] == flag[i]);
            let f = out.flag@[i];
            lemma_with_bit(flag[i], EXCLUDED, bit_set(f, EXCLUDED), TOMBSTONE);
            lemma_with_bit(flag[i], EXCLUDED, bit_set(f, EXCLUDED), IS_DIR);
            lemma_with_bit(flag[i], EXCLUDED, true, TOMBSTONE);
            lemma_with_bit(flag[i], EXCLUDED, true, IS_DIR);
            lemma_with_bit(flag[i], EXCLUDED, false, TOMBSTONE);
            lemma_with_bit(flag[i], EXCLUDED, false, IS_DIR);
            assert(out.row(i).frn == self.idx.row(i).frn);
            assert(out.row(i).name == self.idx.row(i).name);
        }
        assert(out.live(0));
        assert(out.root_valid());
        assert(groups_valid(out.frn@, out.flag@, n)) by {
            assert forall|i: int, j: int|
                0 <= i < n && 0 <= j < n && i != j && !bit_set(#[trigger] out.flag@[i], TOMBSTONE)
                    && !bit_set(#[trigger] out.flag@[j], TOMBSTONE) && record_of(out.frn@[i])
                    == record_of(out.frn@[j]) implies out.frn@[i] == out.frn@[j] && !bit_set(
                out.flag@[i],
                IS_DIR,
            ) && !bit_set(out.flag@[j], IS_DIR) by {
                assert(out.live(i) && out.live(j));
                lemma_all_live(&self.idx, i);
                lemma_all_live(&self.idx, j);
                assert(!bit_set(flag[i], TOMBSTONE) && !bit_set(flag[j], TOMBSTONE));
            }
        }
        assert(out.links_unique(n)) by {
            assert forall|i: int, j: int|
                0 <= i < j < n && #[trigger] out.live(i) && #[trigger] out.live(
                    j,
                ) implies !out.same_link(i, j) by {
                self.lemma_none_repeats(j);
                if out.same_link(i, j) {
                    assert(self.idx.frn@[i] == self.idx.frn@[j]);
                    assert(self.repeats(j));
                }
            }
        }
        assert forall|i: int| 0 < i < n implies out.entry_fault(i) is None by {
            self.lemma_all_sequenced(i);
            self.lemma_all_parents_found(i);
            self.lemma_parent_found(i);
            let p = self.parents()[i] as int;
            assert(out.live(i) && out.live(p));
            if record_of(out.frn@[i]) == record_of(out.frn@[p]) {
                assert(i != p);
                lemma_all_live(&self.idx, i);
                lemma_all_live(&self.idx, p);
                assert(!bit_set(flag[i], TOMBSTONE) && !bit_set(flag[p], TOMBSTONE));
            }
        }
        assert forall|i: int| !out.first_fault(i) by {}
        assert(out.parent@ =~= self.parents()) by {
            assert forall|i: int| 0 <= i < n implies out.parent@[i] == self.parents()[i] by {
                assert(out.live(i));
            }
        }
        assert forall|i: int| 0 < i < n && #[trigger] out.live(i) implies rooted(out.parent@, i) by {
            self.lemma_all_rooted(i);
        }
    }

    /// In a strict build that succeeds every entry but the root hangs below
    /// the one directory that bears the reference given for its parent.
    pub proof fn lemma_built_below_its_parent(&self, out: &VolumeIndex, i: int)
        requires
            self.wf(),
            self.mode == FinalizeMode::StrictProduction,
            self.fault() is None,
            self.settles(out),
            0 < i < self.idx.count(),
        ensures
            out.parent@[i] < out.count(),
            out.frn@[out.parent@[i] as int] == self.parent_frns@[i].0,
            bit_set(out.flag@[out.parent@[i] as int], IS_DIR),
            self.idx.frn@[i] >= 0x1_0000_0000_0000,
    {
        assert forall|k: int| !self.first_unsequenced(k) by {}
        assert forall|k: int| !self.first_parent_fault(k) by {
            if self.first_parent_fault(k) {
                let c = choose|c: int| self.first_parent_fault(c);
                assert(self.first_parent_fault(c));
                assert(self.fault_above(c) is Some);
            }
        }
        self.lemma_all_sequenced(i);
        self.lemma_all_parents_found(i);
        self.lemma_parent_found(i);
        let p = self.parents()[i] as int;
        assert(!self.dropped(i) && !self.dropped(p));
        assert(out.row(i).parent == p);
        assert(out.row(p).frn == self.idx.row(p).frn);
        assert(self.kept_flags()[p] == self.idx.flag@[p]);
        lemma_with_bit(self.idx.flag@[p], EXCLUDED, true, IS_DIR);
        lemma_with_bit(self.idx.flag@[p], EXCLUDED, false, IS_DIR);
    }
}

} // verus!
