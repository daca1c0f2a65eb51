//! What a lookup finds after a change.

use vstd::prelude::*;
use crate::order::occurs;
use crate::wtf8::{lower_of, wtf8_of};
use super::columns::{Row, VolumeIndex};
use super::flags::{bit_set, lemma_raw_flags, lemma_with_bit, TOMBSTONE};
use super::lookup::{lemma_selected, lemma_selected_distinct, selected};
use super::mutate::{buried_flags, is_named_link, is_replaced};
use super::rows::facts_of;
use super::{record_of, RawEntry};

verus! {

/// A list in which one value occurs, once, and no other.
proof fn lemma_only(s: Seq<u32>, x: u32)
    requires
        forall|y: int| #[trigger] occurs(s, y) <==> y == x,
        forall|i: int, j: int| 0 <= i < j < s.len() ==> #[trigger] s[i] != #[trigger] s[j],
    ensures
        s == seq![x],
{
    assert(occurs(s, x as int));
    assert forall|i: int| 0 <= i < s.len() implies (#[trigger] s[i]) == x by {
        assert(s[i] == s[i] as int);
        assert(occurs(s, s[i] as int));
    }
    if s.len() > 1 {
        assert(s[0] != s[1]);
    }
    assert(s =~= seq![x]);
}

impl VolumeIndex {
    /// The entry that a change appends for `e` below `parent`.
    pub open spec fn entry_for(&self, e: RawEntry<'_>, parent: u32) -> Row {
        self.new_row(wtf8_of(e.name_utf16@), lower_of(e.name_utf16@), parent, facts_of(e))
    }

    /// `after` is this index with the entries of `ids` tombstoned and one
    /// appended for `e`.
    pub open spec fn replaces(
        &self,
        after: &VolumeIndex,
        ids: Seq<u32>,
        e: RawEntry<'_>,
        parent: u32,
    ) -> bool {
        &&& self.wf()
        &&& after.wf()
        &&& after.rows() == self.buried(ids).push(self.entry_for(e, parent))
    }

    /// Entry by entry, what tombstoning some and appending one leaves.
    proof fn lemma_replaces(
        &self,
        after: &VolumeIndex,
        ids: Seq<u32>,
        e: RawEntry<'_>,
        parent: u32,
        x: int,
    )
        requires
            self.replaces(after, ids, e, parent),
            0 <= x < after.count(),
        ensures
            after.count() == self.count() + 1,
            x < self.count() ==> after.frn@[x] == self.frn@[x] && after.parent@[x]
                == self.parent@[x] && after.original(x) == self.original(x) && after.live(x) == (
            self.live(x) && !occurs(ids, x)),
            x == self.count() ==> after.row(x) == self.entry_for(e, parent) && after.live(x),
    {
        assert(after.rows().len() == self.count() + 1);
        assert(after.rows()[x] == after.row(x));
        if x < self.count() {
            lemma_with_bit(self.flag@[x], TOMBSTONE, true, TOMBSTONE);
            assert(self.buried(ids)[x] == (Row {
                flag: buried_flags(self.flag@, ids)[x],
                ..self.row(x)
            }));
        } else {
            broadcast use lemma_with_bit;

            lemma_raw_flags(e.is_dir, e.is_reparse, e.is_hidden, e.is_system);
            assert(!bit_set(self.entry_for(e, parent).flag, TOMBSTONE));
        }
    }

    /// An object that was inserted, or replaced as a whole, is found under its
    /// record number and its reference, and is the only thing found there.
    /// What is found under other record numbers stays.
    pub proof fn lemma_upserted_is_found(&self, after: &VolumeIndex, e: RawEntry<'_>, parent: u32)
        requires
            self.replaces(after, self.record_links(record_of(e.frn.0)), e, parent),
        ensures
            after.record_links(record_of(e.frn.0)) == seq![self.count() as u32],
            after.object_links(e.frn.0) == seq![self.count() as u32],
            after.row(self.count()) == self.entry_for(e, parent),
            forall|key: u64, x: int|
                key != record_of(e.frn.0) ==> (#[trigger] occurs(after.record_links(key), x)
                    <==> occurs(self.record_links(key), x)),
    {
        let record = record_of(e.frn.0);
        let ids = self.record_links(record);
        let n = self.count();
        assert(after.rows().len() == n + 1);
        self.lemma_record_links(record);
        after.lemma_record_links(record);
        after.lemma_object_links(e.frn.0);
        self.lemma_replaces(after, ids, e, parent, n);
        assert(after.frn@[n] == e.frn.0);
        assert forall|y: int| #[trigger] occurs(after.record_links(record), y) <==> y == n by {
            if 0 <= y < after.count() {
                self.lemma_replaces(after, ids, e, parent, y);
                assert(y < n ==> (occurs(ids, y) <==> record_of(self.frn@[y]) == record
                    && self.live(y)));
            }
        }
        assert forall|y: int| #[trigger] occurs(after.object_links(e.frn.0), y) <==> y == n by {
            if 0 <= y < after.count() {
                self.lemma_replaces(after, ids, e, parent, y);
                assert(y < n ==> (occurs(ids, y) <==> record_of(self.frn@[y]) == record
                    && self.live(y)));
            }
        }
        lemma_only(after.record_links(record), n as u32);
        lemma_only(after.object_links(e.frn.0), n as u32);
        assert forall|key: u64, x: int| key != record implies (#[trigger] occurs(
            after.record_links(key),
            x,
        ) <==> occurs(self.record_links(key), x)) by {
            self.lemma_record_links(key);
            after.lemma_record_links(key);
            if 0 <= x < after.count() {
                self.lemma_replaces(after, ids, e, parent, x);
                assert(occurs(ids, x) ==> record_of(self.frn@[x]) == record);
            }
        }
    }

    /// Entry `p` is the directory that a reference names.
    pub open spec fn is_directory_named(&self, p: u32, parent_frn: u64) -> bool {
        self.frn@[p as int] == parent_frn || (p == 0 && self.synthetic() && record_of(self.frn@[0])
            == record_of(parent_frn))
    }

    /// A directory that was resolved is the one that the reference names.
    proof fn lemma_resolved_is_named(&self, e: RawEntry<'_>)
        requires
            self.wf(),
            self.count() > 0,
            self.resolved_parent(e.frn, e.parent_frn) is Ok,
        ensures
            self.resolved_parent(e.frn, e.parent_frn)->Ok_0 < self.count(),
            self.is_directory_named(
                self.resolved_parent(e.frn, e.parent_frn)->Ok_0,
                e.parent_frn.0,
            ),
    {
        let p = self.resolved_parent(e.frn, e.parent_frn)->Ok_0;
        let links = self.object_links(e.parent_frn.0);
        let dirs = self.directory_links(e.parent_frn.0);
        self.lemma_object_links(e.parent_frn.0);
        lemma_selected(links, super::topology::is_directory(self.flag@));
        if dirs.len() == 1 {
            assert(dirs[0] == p as int);
            assert(occurs(dirs, p as int));
            assert(occurs(links, p as int));
        }
    }

    /// A link that was inserted or refreshed is the one found under its
    /// object, directory and name. The other links of the object stay, links
    /// of other generations of the record go, and what is found under other
    /// record numbers stays.
    pub proof fn lemma_upserted_link_is_found(&self, after: &VolumeIndex, e: RawEntry<'_>)
        requires
            self.count() > 0,
            self.upsert_link_verdict(e) is Ok,
            self.replaces(after, self.replaced_links(e), e, self.upsert_link_verdict(e)->Ok_0),
        ensures
            after.exact_link(e.frn.0, e.parent_frn.0, wtf8_of(e.name_utf16@)) == Some(
                self.count() as u32,
            ),
            after.row(self.count()) == self.entry_for(e, self.upsert_link_verdict(e)->Ok_0),
            forall|x: int| #[trigger]
                occurs(after.object_links(e.frn.0), x) <==> x == self.count() || (occurs(
                    self.object_links(e.frn.0),
                    x,
                ) && !self.link_is(x, e.parent_frn.0, wtf8_of(e.name_utf16@))),
            forall|x: int| #[trigger]
                occurs(after.record_links(record_of(e.frn.0)), x) ==> after.frn@[x] == e.frn.0,
            forall|key: u64, x: int|
                key != record_of(e.frn.0) ==> (#[trigger] occurs(after.record_links(key), x)
                    <==> occurs(self.record_links(key), x)),
    {
        let record = record_of(e.frn.0);
        let all = self.record_links(record);
        let ids = self.replaced_links(e);
        let name = wtf8_of(e.name_utf16@);
        let pass = is_replaced(*self, e.frn.0, e.parent_frn.0, name);
        let parent = self.upsert_link_verdict(e)->Ok_0;
        let n = self.count();
        let links = after.object_links(e.frn.0);
        assert(after.rows().len() == n + 1);
        self.lemma_resolved_is_named(e);
        self.lemma_record_links(record);
        after.lemma_record_links(record);
        self.lemma_object_links(e.frn.0);
        after.lemma_object_links(e.frn.0);
        lemma_selected(all, pass);
        self.lemma_replaces(after, ids, e, parent, n);
        self.lemma_replaces(after, ids, e, parent, 0);
        self.lemma_replaces(after, ids, e, parent, parent as int);
        assert(after.frn@[n] == e.frn.0 && after.parent@[n] == parent && after.original(n) == name);
        assert(after.link_is(n, e.parent_frn.0, name));
        assert forall|x: int| 0 <= x < n && #[trigger] self.live(x) && record_of(self.frn@[x])
            == record implies (occurs(ids, x) <==> self.frn@[x] != e.frn.0 || self.link_is(
            x,
            e.parent_frn.0,
            name,
        )) by {
            assert(occurs(all, x));
            assert(pass(x as u32) == (self.frn@[x] != e.frn.0 || self.link_is(
                x,
                e.parent_frn.0,
                name,
            )));
        }
        assert forall|x: int| #[trigger] occurs(links, x) <==> x == n || (occurs(
            self.object_links(e.frn.0),
            x,
        ) && !self.link_is(x, e.parent_frn.0, name)) by {
            if 0 <= x < after.count() {
                self.lemma_replaces(after, ids, e, parent, x);
                if x < n {
                    assert(occurs(self.object_links(e.frn.0), x) <==> self.frn@[x] == e.frn.0
                        && self.live(x));
                }
            }
        }
        assert forall|x: int| #[trigger] occurs(after.record_links(record), x) implies after.frn@[x]
            == e.frn.0 by {
            self.lemma_replaces(after, ids, e, parent, x);
        }
        assert forall|key: u64, x: int| key != record implies (#[trigger] occurs(
            after.record_links(key),
            x,
        ) <==> occurs(self.record_links(key), x)) by {
            self.lemma_record_links(key);
            after.lemma_record_links(key);
            if 0 <= x < after.count() {
                self.lemma_replaces(after, ids, e, parent, x);
                assert(occurs(ids, x) ==> occurs(all, x));
            }
        }
        let named = is_named_link(*after, e.parent_frn.0, name);
        let found = selected(links, named);
        lemma_selected(links, named);
        lemma_selected_distinct(links, named);
        assert forall|y: int| #[trigger] occurs(found, y) <==> y == n by {
            if occurs(links, y) && y < n {
                self.lemma_replaces(after, ids, e, parent, y);
                let p = self.parent@[y];
                assert(!self.link_is(y, e.parent_frn.0, name));
                if p < self.count() {
                    self.lemma_replaces(after, ids, e, parent, p as int);
                }
                assert(!after.link_is(y, e.parent_frn.0, name));
                assert(!named(y as u32));
            }
            if y == n {
                assert(occurs(links, n));
                assert(named(n as u32));
            }
        }
        lemma_only(found, n as u32);
    }

    /// A link that was removed is not found any more, and every other link of
    /// the object still is.
    pub proof fn lemma_deleted_link_is_gone(&self, after: &VolumeIndex, frn: u64, id: u32)
        requires
            self.wf(),
            after.wf(),
            occurs(self.object_links(frn), id as int),
            after.rows() == self.buried(seq![id]),
        ensures
            forall|x: int| #[trigger]
                occurs(after.object_links(frn), x) <==> x != id && occurs(self.object_links(frn), x),
    {
        self.lemma_object_links(frn);
        after.lemma_object_links(frn);
        assert(after.rows().len() == self.count());
        assert forall|x: int| #[trigger] occurs(after.object_links(frn), x) <==> x != id && occurs(
            self.object_links(frn),
            x,
        ) by {
            assert(occurs(self.object_links(frn), x) <==> 0 <= x < self.count() && self.frn@[x]
                == frn && self.live(x));
            if 0 <= x < self.count() {
                lemma_with_bit(self.flag@[x], TOMBSTONE, true, TOMBSTONE);
                assert(after.rows()[x] == after.row(x));
                assert(self.buried(seq![id])[x] == (Row {
                    flag: buried_flags(self.flag@, seq![id])[x],
                    ..self.row(x)
                }));
                assert(seq![id][0] == id);
                assert(occurs(seq![id], x) <==> x == id);
            }
        }
    }
}

} // verus!
