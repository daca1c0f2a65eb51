//! What reconciling the links of a file asks for and leaves.

use vstd::prelude::*;
use crate::dates::ticks_to_secs;
use crate::wtf8::wtf8_of;
use super::columns::{Row, VolumeIndex};
use super::flags::{
    bit_set, lemma_with_bit, EXCLUDED, HIDDEN, IS_DIR, REPARSE, SYSTEM, TOMBSTONE,
};
use super::reconcile::{refreshed, stat_stale};
use super::{Frn, RawEntry};

verus! {

/// The facts of a file reach every live entry of it, each fact its own; what
/// an entry says of its place stays, and no other entry changes.
pub proof fn lemma_refreshed_tells(rows: Seq<Row>, frn: u64, e: RawEntry<'_>, i: int)
    requires
        0 <= i < rows.len(),
    ensures
        ({
            let now = refreshed(rows, frn, e)[i];
            let then = rows[i];
            if then.frn == frn && !bit_set(then.flag, TOMBSTONE) {
                &&& now.size == e.size
                &&& now.mtime == ticks_to_secs(e.mtime)
                &&& bit_set(now.flag, REPARSE) == e.is_reparse
                &&& bit_set(now.flag, HIDDEN) == e.is_hidden
                &&& bit_set(now.flag, SYSTEM) == e.is_system
                &&& bit_set(now.flag, IS_DIR) == bit_set(then.flag, IS_DIR)
                &&& !bit_set(now.flag, TOMBSTONE)
                &&& e.is_hidden || e.is_system ==> bit_set(now.flag, EXCLUDED)
                &&& now.name == then.name
                &&& now.lower == then.lower
                &&& now.parent == then.parent
                &&& now.frn == then.frn
            } else {
                now == then
            }
        }),
        refreshed(rows, frn, e).len() == rows.len(),
{
    broadcast use lemma_with_bit;

}

/// The facts of a file count as changed exactly where one of its live entries
/// says another size or time.
pub proof fn lemma_stat_stale_is(rows: Seq<Row>, frn: u64, e: RawEntry<'_>)
    ensures
        stat_stale(rows, frn, e) <==> exists|i: int|
            {
                &&& 0 <= i < rows.len()
                &&& (#[trigger] rows[i]).frn == frn
                &&& !bit_set(rows[i].flag, TOMBSTONE)
                &&& rows[i].size != e.size || rows[i].mtime != ticks_to_secs(e.mtime)
            },
{
}

impl VolumeIndex {
    /// Links that are accepted are all of the one file, all named, all of the
    /// same facts, all below directories that there are, and no two of them
    /// the same.
    pub proof fn lemma_links_accepted(&self, frn: Frn, desired: Seq<RawEntry<'_>>, i: int, j: int)
        requires
            self.wf(),
            self.links_refused(frn, desired) is None,
            0 <= j < i < desired.len(),
        ensures
            desired[i].frn == frn && !desired[i].is_dir,
            desired[i].name_utf16@.len() > 0,
            desired[i].size == desired[j].size,
            desired[i].mtime == desired[j].mtime,
            desired[i].is_reparse == desired[j].is_reparse,
            desired[i].is_hidden == desired[j].is_hidden,
            desired[i].is_system == desired[j].is_system,
            self.resolved_parent(frn, desired[i].parent_frn) is Ok,
            self.resolved_parent(frn, desired[i].parent_frn) != self.resolved_parent(
                frn,
                desired[j].parent_frn,
            ) || wtf8_of(desired[i].name_utf16@) != wtf8_of(desired[j].name_utf16@),
            frn.0 >= 0x1_0000_0000_0000,
    {
        self.lemma_no_fault_before(frn, desired, desired.len() as int, i);
        self.lemma_no_fault_before(frn, desired, desired.len() as int, j);
        assert(self.link_fault(frn, desired, i) is None);
        assert(self.link_fault(frn, desired, j) is None);
        if self.resolved_parent(frn, desired[i].parent_frn) == self.resolved_parent(
            frn,
            desired[j].parent_frn,
        ) && wtf8_of(desired[i].name_utf16@) == wtf8_of(desired[j].name_utf16@) {
            assert(self.wanted_parent(frn, desired[j]) == self.resolved_parent(
                frn,
                desired[i].parent_frn,
            )->Ok_0);
        }
    }
}

} // verus!
