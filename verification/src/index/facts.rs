//! What an entry says of the object it was made for.

use vstd::prelude::*;
use crate::dates::ticks_to_secs;
use crate::wtf8::{lower_of, wtf8_of};
use super::builder::encoded_facts;
use super::columns::VolumeIndex;
use super::flags::{
    bit_set, lemma_raw_flags, lemma_with_bit, EXCLUDED, HIDDEN, IS_DIR, REPARSE, SYSTEM, TOMBSTONE,
};
use super::rows::facts_of;
use super::{EncodedEntry, RawEntry};

verus! {

impl VolumeIndex {
    /// A new entry says of its object what was given for it: its size, its
    /// time, its reference, its kind and its attributes, each its own. It is
    /// live, and excluded where it is hidden or a system file itself or its
    /// directory is excluded.
    pub proof fn lemma_new_entry_tells(
        &self,
        name: Seq<u8>,
        lower: Seq<u8>,
        parent: u32,
        e: RawEntry<'_>,
    )
        ensures
            ({
                let row = self.new_row(name, lower, parent, facts_of(e));
                &&& row.name == name
                &&& row.lower == lower
                &&& row.parent == parent
                &&& row.size == e.size
                &&& row.mtime == ticks_to_secs(e.mtime)
                &&& row.frn == e.frn.0
                &&& bit_set(row.flag, IS_DIR) == e.is_dir
                &&& bit_set(row.flag, REPARSE) == e.is_reparse
                &&& bit_set(row.flag, HIDDEN) == e.is_hidden
                &&& bit_set(row.flag, SYSTEM) == e.is_system
                &&& !bit_set(row.flag, TOMBSTONE)
                &&& bit_set(row.flag, EXCLUDED) == (e.is_hidden || e.is_system || (parent
                    < self.count() && bit_set(self.flag@[parent as int], EXCLUDED)))
            }),
    {
        broadcast use lemma_with_bit;

        lemma_raw_flags(e.is_dir, e.is_reparse, e.is_hidden, e.is_system);
    }

    /// An entry that was given encoded says the same of its object as one that
    /// was given as units.
    pub proof fn lemma_new_encoded_entry_tells(&self, parent: u32, e: EncodedEntry<'_>)
        ensures
            ({
                let row = self.new_row(e.name_wtf8@, e.lower_wtf8@, parent, encoded_facts(e));
                &&& row.name == e.name_wtf8@
                &&& row.lower == e.lower_wtf8@
                &&& row.parent == parent
                &&& row.size == e.size
                &&& row.mtime == ticks_to_secs(e.mtime)
                &&& row.frn == e.frn.0
                &&& bit_set(row.flag, IS_DIR) == e.is_dir
                &&& bit_set(row.flag, REPARSE) == e.is_reparse
                &&& bit_set(row.flag, HIDDEN) == e.is_hidden
                &&& bit_set(row.flag, SYSTEM) == e.is_system
                &&& !bit_set(row.flag, TOMBSTONE)
                &&& bit_set(row.flag, EXCLUDED) == (e.is_hidden || e.is_system || (parent
                    < self.count() && bit_set(self.flag@[parent as int], EXCLUDED)))
            }),
    {
        broadcast use lemma_with_bit;

        lemma_raw_flags(e.is_dir, e.is_reparse, e.is_hidden, e.is_system);
    }

    /// An entry given as units and one given encoded, of one object, are the
    /// same.
    pub proof fn lemma_encoded_like_raw(&self, parent: u32, e: RawEntry<'_>, x: EncodedEntry<'_>)
        requires
            x.frn == e.frn,
            x.size == e.size,
            x.mtime == e.mtime,
            x.is_dir == e.is_dir,
            x.is_reparse == e.is_reparse,
            x.is_hidden == e.is_hidden,
            x.is_system == e.is_system,
            x.name_wtf8@ == wtf8_of(e.name_utf16@),
            x.lower_wtf8@ == lower_of(e.name_utf16@),
        ensures
            self.new_row(x.name_wtf8@, x.lower_wtf8@, parent, encoded_facts(x)) == self.new_row(
                wtf8_of(e.name_utf16@),
                lower_of(e.name_utf16@),
                parent,
                facts_of(e),
            ),
    {
    }
}

} // verus!
