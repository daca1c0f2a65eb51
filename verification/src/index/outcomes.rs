//! What building, excluding and compacting make of the entries.

use vstd::prelude::*;
use crate::order::occurs;
use super::builder::{
    all_links, exact_dirs, exact_links, fixture_parent, parent_fault, FinalizeMode,
    IndexBuildError, VolumeIndexBuilder,
};
use super::columns::{dead_count, VolumeIndex};
use super::compact::{lemma_live_ids, lemma_new_id_grows, live_ids, new_id, remap_of};
use super::derived::DerivedSlot;
use super::exclusion::{all_derived, lemma_marked_step, marked};
use super::flags::{
    bit_set, lemma_with_bit, with_bit, EXCLUDED, HIDDEN, IS_DIR, REPARSE, SYSTEM, TOMBSTONE,
};
use super::frn::{lemma_links_down, lemma_links_up, links_down, links_up};
use super::lookup::{lemma_selected, lemma_selected_first, refers_to};
use super::topology::is_directory;
use super::{record_of, Frn, NO_PARENT};

verus! {

/// An entry is excluded where it is hidden or a system file itself, or its
/// directory is excluded; nothing else of its flags changes.
pub proof fn lemma_exclusion_inherited(parent: Seq<u32>, flag: Seq<u8>, i: int)
    requires
        0 <= i < flag.len(),
        parent.len() == flag.len(),
    ensures
        ({
            let now = all_derived(parent, flag);
            let p = parent[i] as int;
            &&& now.len() == flag.len()
            &&& bit_set(now[i], EXCLUDED) == (bit_set(flag[i], HIDDEN) || bit_set(flag[i], SYSTEM)
                || (p < flag.len() && bit_set(now[p], EXCLUDED)))
            &&& bit_set(now[i], HIDDEN) == bit_set(flag[i], HIDDEN)
            &&& bit_set(now[i], SYSTEM) == bit_set(flag[i], SYSTEM)
            &&& bit_set(now[i], IS_DIR) == bit_set(flag[i], IS_DIR)
            &&& bit_set(now[i], REPARSE) == bit_set(flag[i], REPARSE)
            &&& bit_set(now[i], TOMBSTONE) == bit_set(flag[i], TOMBSTONE)
        }),
{
    broadcast use lemma_with_bit;

    let p = parent[i] as int;
    lemma_marked_step(parent, flag, i);
    if p < flag.len() {
        assert(all_derived(parent, flag)[p] == with_bit(flag[p], EXCLUDED, marked(parent, flag, p)));
    } else {
        assert(!marked(parent, flag, p)) by {
            if marked(parent, flag, p) {
                let k = choose|k: nat| super::exclusion::marked_within(parent, flag, p, k);
                assert(super::exclusion::marked_within(parent, flag, p, k));
            }
        }
    }
}

/// An entry from which the way up meets nothing hidden and no system file and
/// ends is not excluded.
pub proof fn lemma_plain_is_shown(parent: Seq<u32>, flag: Seq<u8>, way: Seq<int>)
    requires
        parent.len() == flag.len(),
        way.len() > 0,
        forall|k: int|
            0 <= k < way.len() ==> 0 <= (#[trigger] way[k]) < flag.len() && !bit_set(
                flag[way[k]],
                HIDDEN,
            ) && !bit_set(flag[way[k]], SYSTEM),
        forall|k: int, l: int|
            0 <= k < way.len() && l == k + 1 && l < way.len() ==> parent[#[trigger] way[k]] == (
            #[trigger] way[l]),
        parent[way.last()] >= flag.len(),
    ensures
        !bit_set(all_derived(parent, flag)[way[0]], EXCLUDED),
    decreases way.len(),
{
    lemma_exclusion_inherited(parent, flag, way[0]);
    if way.len() > 1 {
        let rest = way.skip(1);
        assert forall|k: int| 0 <= k < rest.len() implies 0 <= (#[trigger] rest[k]) < flag.len()
            && !bit_set(flag[rest[k]], HIDDEN) && !bit_set(flag[rest[k]], SYSTEM) by {
            assert(rest[k] == way[k + 1]);
        }
        assert forall|k: int, l: int|
            0 <= k < rest.len() && l == k + 1 && l < rest.len() implies parent[#[trigger] rest[k]]
            == (#[trigger] rest[l]) by {
            assert(rest[k] == way[k + 1]);
            assert(rest[l] == way[l + 1]);
        }
        assert(rest.last() == way.last());
        lemma_plain_is_shown(parent, flag, rest);
        assert(parent[way[0]] == way[1]);
        assert(rest[0] == way[1]);
    }
}

/// The directories of a reference are the live entries that bear it and are
/// directories, the lowest first.
pub proof fn lemma_exact_dirs_are(frn: Seq<u64>, flag: Seq<u8>, wanted: u64, x: int)
    requires
        frn.len() == flag.len(),
        frn.len() <= 0x1_0000_0000,
    ensures
        occurs(exact_dirs(frn, flag, wanted), x) <==> {
            &&& 0 <= x < frn.len()
            &&& frn[x] == wanted
            &&& !bit_set(flag[x], TOMBSTONE)
            &&& bit_set(flag[x], IS_DIR)
        },
        occurs(exact_links(frn, flag, wanted), x) <==> {
            &&& 0 <= x < frn.len()
            &&& frn[x] == wanted
            &&& !bit_set(flag[x], TOMBSTONE)
        },
        occurs(exact_dirs(frn, flag, wanted), x) ==> exact_dirs(frn, flag, wanted)[0] <= x,
{
    let all = all_links(frn, flag, record_of(wanted));
    let exact = exact_links(frn, flag, wanted);
    let dirs = exact_dirs(frn, flag, wanted);
    lemma_links_up(frn, flag, record_of(wanted), 0, frn.len() as int);
    lemma_selected(all, refers_to(frn, wanted));
    lemma_selected(exact, is_directory(flag));
    if occurs(dirs, x) {
        let k = lemma_selected_first(exact, is_directory(flag));
        assert(occurs(exact, x));
        let m = choose|m: int| 0 <= m < exact.len() && #[trigger] exact[m] == x;
        if m < k {
            assert(!is_directory(flag)(exact[m]));
        }
        lemma_selected_ascends(all, refers_to(frn, wanted));
        assert(exact[k] <= exact[m]);
    }
}

proof fn lemma_selected_ascends(s: Seq<u32>, pass: spec_fn(u32) -> bool)
    requires
        crate::order::strictly_ascends(s),
    ensures
        crate::order::strictly_ascends(super::lookup::selected(s, pass)),
    decreases s.len(),
{
    if s.len() > 0 {
        let front = s.drop_last();
        assert(crate::order::strictly_ascends(front)) by {
            assert forall|i: int, j: int| 0 <= i < j < front.len() implies (#[trigger] front[i]) < (
            #[trigger] front[j]) by {
                assert(front[i] == s[i] && front[j] == s[j]);
            }
        }
        lemma_selected_ascends(front, pass);
        lemma_selected(front, pass);
        if pass(s.last()) {
            let sel = super::lookup::selected(front, pass);
            assert forall|i: int| 0 <= i < sel.len() implies (#[trigger] sel[i]) < s.last() by {
                assert(occurs(sel, sel[i] as int));
                assert(occurs(front, sel[i] as int));
                let k = choose|k: int| 0 <= k < front.len() && #[trigger] front[k] == sel[i] as int;
                assert(front[k] == s[k]);
            }
        }
    }
}

/// Below which directory an entry of a synthetic tree is put: the lowest that
/// bears the reference given; where none does and it is a bare record number,
/// the lowest of that record; the root where there is none of either.
pub proof fn lemma_fixture_parent_is(frn: Seq<u64>, flag: Seq<u8>, wanted: u64, x: int)
    requires
        frn.len() == flag.len(),
        frn.len() <= 0x1_0000_0000,
        0 <= x < frn.len(),
        !bit_set(flag[x], TOMBSTONE),
        bit_set(flag[x], IS_DIR),
    ensures
        frn[x] == wanted ==> {
            let p = fixture_parent(frn, flag, wanted) as int;
            p <= x && frn[p] == wanted && bit_set(flag[p], IS_DIR)
        },
        wanted < 0x1_0000_0000_0000 && frn[x] % 0x1_0000_0000_0000 == wanted ==> {
            let p = fixture_parent(frn, flag, wanted) as int;
            p < frn.len() && frn[p] % 0x1_0000_0000_0000 == wanted && bit_set(flag[p], IS_DIR)
        },
{
    let dirs = exact_dirs(frn, flag, wanted);
    let all = all_links(frn, flag, record_of(wanted));
    let same = super::lookup::selected(all, is_directory(flag));
    lemma_exact_dirs_are(frn, flag, wanted, x);
    lemma_links_up(frn, flag, record_of(wanted), 0, frn.len() as int);
    lemma_selected(all, is_directory(flag));
    if frn[x] == wanted {
        assert(occurs(dirs, x));
        assert(dirs.len() > 0);
        assert(occurs(dirs, dirs[0] as int));
        lemma_exact_dirs_are(frn, flag, wanted, dirs[0] as int);
    }
    if wanted < 0x1_0000_0000_0000 && frn[x] % 0x1_0000_0000_0000 == wanted {
        assert(record_of(wanted) == wanted);
        assert(occurs(all, x));
        assert(occurs(same, x));
        assert(same.len() > 0);
        assert(occurs(same, same[0] as int));
        if dirs.len() > 0 {
            assert(occurs(dirs, dirs[0] as int));
            lemma_exact_dirs_are(frn, flag, wanted, dirs[0] as int);
        }
    }
}

/// An entry of a strict build is at fault where its parent is itself, where
/// more than one directory bears the parent's reference, where what bears it is
/// no directory, and where nothing does.
pub proof fn lemma_parent_fault_is(frn: Seq<u64>, flag: Seq<u8>, i: int, wanted: Frn, x: int)
    requires
        frn.len() == flag.len(),
        frn.len() <= 0x1_0000_0000,
        0 <= x < frn.len(),
        frn[x] == wanted.0,
        !bit_set(flag[x], TOMBSTONE),
    ensures
        frn[i] == wanted.0 <==> parent_fault(frn, flag, i, wanted) == Some(
            IndexBuildError::SelfParent { entry: i as u32, child: Frn(frn[i]), parent: wanted },
        ),
        parent_fault(frn, flag, i, wanted) != Some(
            IndexBuildError::UnresolvedParent {
                entry: i as u32,
                child: Frn(frn[i]),
                parent: wanted,
            },
        ),
        bit_set(flag[x], IS_DIR) ==> parent_fault(frn, flag, i, wanted) != Some(
            IndexBuildError::ParentNotDirectory {
                entry: i as u32,
                child: Frn(frn[i]),
                parent: wanted,
            },
        ),
{
    let dirs = exact_dirs(frn, flag, wanted.0);
    let links = exact_links(frn, flag, wanted.0);
    lemma_exact_dirs_are(frn, flag, wanted.0, x);
    assert(occurs(links, x));
    assert(links.len() > 0);
    if bit_set(flag[x], IS_DIR) {
        assert(occurs(dirs, x));
        assert(dirs.len() > 0);
    }
}

impl VolumeIndexBuilder {
    /// A finished build says of every entry that it keeps what was given for
    /// it: name, size, time, reference, kind and attributes.
    pub proof fn lemma_built_entry_tells(&self, out: &VolumeIndex, i: int)
        requires
            self.wf(),
            self.settles(out),
            0 <= i < self.idx.count(),
            !self.dropped(i),
        ensures
            ({
                let now = out.row(i);
                let given = self.idx.row(i);
                &&& now.name == given.name
                &&& now.lower == given.lower
                &&& now.size == given.size
                &&& now.mtime == given.mtime
                &&& now.frn == given.frn
                &&& bit_set(now.flag, IS_DIR) == bit_set(given.flag, IS_DIR)
                &&& bit_set(now.flag, REPARSE) == bit_set(given.flag, REPARSE)
                &&& bit_set(now.flag, HIDDEN) == bit_set(given.flag, HIDDEN)
                &&& bit_set(now.flag, SYSTEM) == bit_set(given.flag, SYSTEM)
                &&& bit_set(now.flag, TOMBSTONE) == bit_set(given.flag, TOMBSTONE)
            }),
            out.perm_name@.len() == self.idx.count(),
            out.name_sorted(),
    {
        assert(self.kept_flags()[i] == self.idx.flag@[i]);
        assert(self.parents().len() == self.kept_flags().len());
        lemma_exclusion_inherited(self.parents(), self.kept_flags(), i);
    }

    /// What a finished build shows as excluded is what is hidden or a system
    /// file, and everything below it.
    pub proof fn lemma_built_exclusion(&self, out: &VolumeIndex, i: int)
        requires
            self.wf(),
            self.settles(out),
            0 <= i < self.idx.count(),
            !self.dropped(i),
        ensures
            bit_set(out.flag@[i], EXCLUDED) == (bit_set(self.idx.flag@[i], HIDDEN) || bit_set(
                self.idx.flag@[i],
                SYSTEM,
            ) || (out.parent@[i] < out.count() && bit_set(
                out.flag@[out.parent@[i] as int],
                EXCLUDED,
            ))),
    {
        assert(self.kept_flags()[i] == self.idx.flag@[i]);
        assert(self.parents().len() == self.kept_flags().len());
        lemma_exclusion_inherited(self.parents(), self.kept_flags(), i);
        assert(out.row(i).parent == self.parents()[i]);
    }

    /// Only a synthetic build drops an entry, and only one that repeats an
    /// earlier one in reference, directory and name.
    pub proof fn lemma_dropped_repeats(&self, i: int)
        requires
            self.dropped(i),
        ensures
            self.mode == FinalizeMode::SyntheticFixture,
            exists|j: int|
                {
                    &&& 0 <= j < i
                    &&& #[trigger] self.idx.frn@[j] == self.idx.frn@[i]
                    &&& self.parents()[j] == self.parents()[i]
                    &&& self.idx.original(j) == self.idx.original(i)
                },
    {
    }
}

impl VolumeIndex {
    /// A compacted index says of every live entry what the index said, below
    /// the same directory (the root where that is gone), in the same order of
    /// numbers; it holds nothing else.
    pub proof fn lemma_compaction_keeps_entries(&self, out: &VolumeIndex, i: int)
        requires
            self.wf(),
            self.compacts_to(out),
            0 <= i < self.count(),
            !bit_set(self.flag@[i], TOMBSTONE),
        ensures
            ({
                let a = new_id(self.flag@, i);
                let p = self.parent@[i];
                &&& 0 <= a < out.count()
                &&& out.row(a).name == self.row(i).name
                &&& out.row(a).lower == self.row(i).lower
                &&& out.row(a).size == self.row(i).size
                &&& out.row(a).mtime == self.row(i).mtime
                &&& out.row(a).frn == self.row(i).frn
                &&& bit_set(out.row(a).flag, IS_DIR) == bit_set(self.row(i).flag, IS_DIR)
                &&& bit_set(out.row(a).flag, REPARSE) == bit_set(self.row(i).flag, REPARSE)
                &&& bit_set(out.row(a).flag, HIDDEN) == bit_set(self.row(i).flag, HIDDEN)
                &&& bit_set(out.row(a).flag, SYSTEM) == bit_set(self.row(i).flag, SYSTEM)
                &&& !bit_set(out.row(a).flag, TOMBSTONE)
                &&& p == NO_PARENT ==> out.row(a).parent == NO_PARENT
                &&& p != NO_PARENT && !bit_set(self.flag@[p as int], TOMBSTONE) ==> out.row(a).parent
                    < out.count() && out.row(out.row(a).parent as int).frn == self.row(p as int).frn
                    && out.row(out.row(a).parent as int).name == self.row(p as int).name
                &&& p != NO_PARENT && bit_set(self.flag@[p as int], TOMBSTONE) ==> out.row(a).parent
                    == 0
            }),
            out.count() == self.count() - dead_count(self.flag@),
            forall|j: int|
                i < j < self.count() && !bit_set(#[trigger] self.flag@[j], TOMBSTONE) ==> new_id(
                    self.flag@,
                    i,
                ) < new_id(self.flag@, j),
    {
        let flag = self.flag@;
        let ids = live_ids(flag, self.count());
        lemma_live_ids(flag, self.count());
        assert forall|j: int|
            i < j < self.count() && !bit_set(#[trigger] self.flag@[j], TOMBSTONE) implies new_id(
            self.flag@,
            i,
        ) < new_id(self.flag@, j) by {
            lemma_new_id_grows(flag, i, j);
        }
        let a = new_id(flag, i);
        assert(ids[a] == i);
        assert(out.row(a) == (super::columns::Row {
            parent: self.compact_parent(ids[a] as int),
            flag: out.flag@[a],
            ..self.row(ids[a] as int)
        }));
        let kept = super::compact::live_flags(flag);
        assert(kept[a] == flag[i]);
        lemma_exclusion_inherited(out.parent@, kept, a);
        let p = self.parent@[i];
        if p != NO_PARENT && !bit_set(flag[p as int], TOMBSTONE) {
            let q = new_id(flag, p as int);
            assert(ids[q] == p);
            assert(out.row(q) == (super::columns::Row {
                parent: self.compact_parent(ids[q] as int),
                flag: out.flag@[q],
                ..self.row(ids[q] as int)
            }));
        }
        lemma_live_count(flag, self.count());
        assert(flag.take(self.count()) =~= flag);
    }

    /// When an index is worth compacting: from a size on where more than an
    /// eighth of it is dead, where dead names hold more than 32 MiB, and where
    /// more names were added than a quarter of what lives.
    pub proof fn lemma_when_compacted(&self, min_entries: usize)
        ensures
            self.worth_compacting(min_entries) <==> {
                ||| self.count() > 0 && self.count() >= min_entries && 8 * dead_count(self.flag@)
                    > self.count()
                ||| self.dead_name_bytes > 32 * 1024 * 1024
                ||| self.dict_appends_since_dedup > (self.count() - dead_count(self.flag@)) / 4
            },
            super::compact::COMPACT_MIN_ENTRIES == 100_000,
    {
    }

    /// Of the links of a record those come first that were added since the
    /// index was last sorted, the latest of them first; then the others, the
    /// earliest first.
    pub proof fn lemma_latest_link_first(&self, key: u64, x: int)
        requires
            self.wf(),
            0 <= x < self.count(),
            self.frn@[x] % 0x1_0000_0000_0000 == key,
            !bit_set(self.flag@[x], TOMBSTONE),
        ensures
            self.record_links(key).len() > 0,
            x >= self.frn_index.covers ==> self.record_links(key)[0] >= x,
            x < self.frn_index.covers && self.record_links(key)[0] < self.frn_index.covers
                ==> self.record_links(key)[0] <= x,
    {
        let covers = self.frn_index.covers as int;
        let n = self.frn@.len() as int;
        let new = links_down(self.frn@, self.flag@, key, covers, n);
        let sorted = links_up(self.frn@, self.flag@, key, 0, covers);
        lemma_links_down(self.frn@, self.flag@, key, covers, n);
        lemma_links_up(self.frn@, self.flag@, key, 0, covers);
        let links = self.record_links(key);
        assert(links == new + sorted);
        if x >= covers {
            assert(occurs(new, x));
            let k = choose|k: int| 0 <= k < new.len() && #[trigger] new[k] == x;
            assert(links[0] == new[0]);
            if k > 0 {
                assert(new[0] > new[k]);
            }
        } else {
            assert(occurs(sorted, x));
            let k = choose|k: int| 0 <= k < sorted.len() && #[trigger] sorted[k] == x;
            if new.len() > 0 {
                assert(links[0] == new[0]);
                assert(occurs(new, new[0] as int));
            } else {
                assert(links[0] == sorted[0]);
                if k > 0 {
                    assert(sorted[0] < sorted[k]);
                }
            }
        }
    }
}

proof fn lemma_live_count(flag: Seq<u8>, n: int)
    requires
        0 <= n <= flag.len(),
    ensures
        live_ids(flag, n).len() == n - dead_count(flag.take(n)),
    decreases n,
{
    if n > 0 {
        lemma_live_count(flag, n - 1);
        assert(flag.take(n).drop_last() =~= flag.take(n - 1));
        assert(flag.take(n).last() == flag[n - 1]);
    }
}

/// A number's new one is the count of the living before it; the dead have
/// none.
pub proof fn lemma_remap_is(remap: Seq<u32>, flag: Seq<u8>, i: int)
    requires
        remap_of(remap, flag),
        0 <= i < flag.len(),
    ensures
        bit_set(flag[i], TOMBSTONE) ==> remap[i] == 0xFFFF_FFFF,
        !bit_set(flag[i], TOMBSTONE) ==> remap[i] == i - dead_count(flag.take(i)),
{
    lemma_live_count(flag, i);
}

impl<T> DerivedSlot<T> {
    /// A slot that moves to another generation keeps its value only as the one
    /// before, and one that stays keeps it all.
    pub proof fn lemma_rolled(&self, generation: u64)
        ensures
            self.rolled(generation).generation == generation,
            self.generation != generation ==> self.rolled(generation).current is None
                && self.rolled(generation).prev == self.current,
            self.generation == generation ==> self.rolled(generation) == *self,
    {
    }
}

impl VolumeIndexBuilder {
    /// A synthetic build that is finished holds every entry that it did not
    /// drop, with what was given for it.
    pub proof fn lemma_finished_holds(&self, out: &VolumeIndex, i: int) -> (k: int)
        requires
            self.wf(),
            self.finishes(out),
            0 <= i < self.idx.count(),
            !self.dropped(i),
        ensures
            0 <= k < out.count(),
            out.row(k).name == self.idx.row(i).name,
            out.row(k).lower == self.idx.row(i).lower,
            out.row(k).size == self.idx.row(i).size,
            out.row(k).mtime == self.idx.row(i).mtime,
            out.row(k).frn == self.idx.row(i).frn,
            bit_set(out.row(k).flag, IS_DIR) == bit_set(self.idx.row(i).flag, IS_DIR),
            bit_set(out.row(k).flag, HIDDEN) == bit_set(self.idx.row(i).flag, HIDDEN),
            bit_set(out.row(k).flag, SYSTEM) == bit_set(self.idx.row(i).flag, SYSTEM),
    {
        if exists|j: int| self.dropped(j) {
            let mid = choose|mid: VolumeIndex| #[trigger] self.settles(&mid) && mid.compacts_to(out);
            self.lemma_built_entry_tells(&mid, i);
            super::compact::lemma_all_live(&self.idx, i);
            mid.lemma_compaction_keeps_entries(out, i);
            new_id(mid.flag@, i)
        } else {
            self.lemma_built_entry_tells(out, i);
            i
        }
    }
}

/// A full reference that no directory bears leads below the root, and so does
/// a record number that none has.
pub proof fn lemma_fixture_parent_else(frn: Seq<u64>, flag: Seq<u8>, wanted: u64)
    requires
        frn.len() == flag.len(),
        frn.len() <= 0x1_0000_0000,
        forall|x: int|
            0 <= x < frn.len() && !bit_set(#[trigger] flag[x], TOMBSTONE) && bit_set(
                flag[x],
                IS_DIR,
            ) ==> frn[x] != wanted,
    ensures
        wanted >= 0x1_0000_0000_0000 ==> fixture_parent(frn, flag, wanted) == 0,
        (forall|x: int|
            0 <= x < frn.len() && !bit_set(#[trigger] flag[x], TOMBSTONE) && bit_set(
                flag[x],
                IS_DIR,
            ) ==> frn[x] % 0x1_0000_0000_0000 != wanted % 0x1_0000_0000_0000) ==> fixture_parent(
            frn,
            flag,
            wanted,
        ) == 0,
{
    let dirs = exact_dirs(frn, flag, wanted);
    let all = all_links(frn, flag, record_of(wanted));
    let same = super::lookup::selected(all, is_directory(flag));
    lemma_links_up(frn, flag, record_of(wanted), 0, frn.len() as int);
    lemma_selected(all, is_directory(flag));
    if dirs.len() > 0 {
        assert(occurs(dirs, dirs[0] as int));
        lemma_exact_dirs_are(frn, flag, wanted, dirs[0] as int);
        assert(!bit_set(flag[dirs[0] as int], TOMBSTONE));
    }
    if same.len() > 0 {
        assert(occurs(same, same[0] as int));
        assert(!bit_set(flag[same[0] as int], TOMBSTONE));
    }
}

impl VolumeIndexBuilder {
    /// A builder begins with one entry, the root: a directory that bears the
    /// volume's label and the reference given, below nothing.
    pub proof fn lemma_root_is(&self, label: Seq<char>, root: Frn, mode: FinalizeMode)
        requires
            self.starts(label, root, mode),
        ensures
            self.idx.count() == 1,
            self.idx.row(0).name == vstd::utf8::encode_utf8(label),
            self.idx.row(0).frn == root.0,
            self.idx.row(0).parent == NO_PARENT,
            self.idx.row(0).size == 0 && self.idx.row(0).mtime == 0,
            bit_set(self.idx.row(0).flag, IS_DIR),
            !bit_set(self.idx.row(0).flag, TOMBSTONE),
            !bit_set(self.idx.row(0).flag, HIDDEN) && !bit_set(self.idx.row(0).flag, SYSTEM),
            !bit_set(self.idx.row(0).flag, EXCLUDED) && !bit_set(self.idx.row(0).flag, REPARSE),
            self.mode == mode,
    {
        crate::encoding::lemma_text_is_utf8(label);
        assert(1u8 & 1 != 0 && 1u8 & 2 == 0 && 1u8 & 4 == 0 && 1u8 & 8 == 0 && 1u8 & 16 == 0 && 1u8
            & 32 == 0) by (bit_vector);
    }
}

} // verus!
