//! What reading the index answers.

use vstd::prelude::*;
use crate::order::{bytes_lt, lemma_bytes_total, occurs, Order};
use super::columns::{dead_count, VolumeIndex};
use super::flags::{bit_set, EXCLUDED, IS_DIR, REPARSE, TOMBSTONE};
use super::{EntryId, Frn, RecordNo, SortKey};

verus! {

impl VolumeIndex {
    /// Reading a number of an entry answers what its row says: its size, its
    /// directory and its reference.
    pub proof fn lemma_numbers_told(&self, id: EntryId, size: u64, parent: EntryId, frn: Frn)
        requires
            call_ensures(VolumeIndex::size, (self, id), size),
            call_ensures(VolumeIndex::parent, (self, id), parent),
            call_ensures(VolumeIndex::frn, (self, id), frn),
        ensures
            size == self.row(id as int).size,
            parent == self.row(id as int).parent,
            frn.0 == self.row(id as int).frn,
    {
    }

    /// Reading the time of an entry answers the ticks of the second its row
    /// says.
    pub proof fn lemma_time_told(&self, id: EntryId, r: i64)
        requires
            call_ensures(VolumeIndex::mtime, (self, id), r),
        ensures
            self.mtime@[id as int] == 0 ==> r == 0,
            self.mtime@[id as int] > 0 ==> r == 116_444_736_000_000_000 + 10_000_000
                * self.mtime@[id as int],
    {
    }

    /// Asking what an entry is answers its own flag.
    pub proof fn lemma_kind_told(
        &self,
        id: EntryId,
        dir: bool,
        live: bool,
        excluded: bool,
        reparse: bool,
    )
        requires
            call_ensures(VolumeIndex::is_dir, (self, id), dir),
            call_ensures(VolumeIndex::is_live, (self, id), live),
            call_ensures(VolumeIndex::is_excluded, (self, id), excluded),
            call_ensures(VolumeIndex::is_reparse, (self, id), reparse),
        ensures
            dir == bit_set(self.flag@[id as int], IS_DIR),
            live == !bit_set(self.flag@[id as int], TOMBSTONE),
            excluded == bit_set(self.flag@[id as int], EXCLUDED),
            reparse == bit_set(self.flag@[id as int], REPARSE),
    {
    }

    /// Reading a name answers the spelling that was given, and the folded name
    /// the folded one.
    pub proof fn lemma_names_told(&self, id: EntryId, name: &[u8], lower: &[u8], len: usize)
        requires
            call_ensures(VolumeIndex::name, (self, id), name),
            call_ensures(VolumeIndex::lower_name, (self, id), lower),
            call_ensures(VolumeIndex::name_len_of, (self, id), len),
        ensures
            name@ == self.row(id as int).name,
            lower@ == self.row(id as int).lower,
            len == lower@.len(),
    {
    }

    /// Counting answers how many entries there are, and how many of them live.
    pub proof fn lemma_counts_told(&self, len: usize, live: usize, empty: bool)
        requires
            call_ensures(VolumeIndex::len, (self,), len),
            call_ensures(VolumeIndex::live_len, (self,), live),
            call_ensures(VolumeIndex::is_empty, (self,), empty),
        ensures
            len == self.rows().len(),
            live == len - dead_count(self.flag@),
            empty <==> self.rows().len() == 0,
    {
    }

    /// The entries of a record are the live ones whose reference names it,
    /// each once.
    pub proof fn lemma_record_answered(&self, record: u64, r: Vec<EntryId>, x: int)
        requires
            self.wf(),
            call_ensures(VolumeIndex::entries_by_record, (self, record), r),
        ensures
            occurs(r@, x) <==> 0 <= x < self.count() && self.frn@[x] % 0x1_0000_0000_0000 == record
                && !bit_set(self.flag@[x], TOMBSTONE),
            forall|i: int, j: int| 0 <= i < j < r@.len() ==> #[trigger] r@[i] != #[trigger] r@[j],
    {
        self.lemma_record_links(record);
    }

    /// The entries of an object are the live ones that bear its reference, each
    /// once.
    pub proof fn lemma_object_answered(&self, frn: Frn, r: Vec<EntryId>, x: int)
        requires
            self.wf(),
            call_ensures(VolumeIndex::entries_by_frn, (self, frn), r),
        ensures
            occurs(r@, x) <==> 0 <= x < self.count() && self.frn@[x] == frn.0 && !bit_set(
                self.flag@[x],
                TOMBSTONE,
            ),
            forall|i: int, j: int| 0 <= i < j < r@.len() ==> #[trigger] r@[i] != #[trigger] r@[j],
    {
        self.lemma_object_links(frn.0);
    }

    /// An entry is found for a reference exactly where a live one bears it, and
    /// the one found does; the same of a record.
    pub proof fn lemma_entry_answered(
        &self,
        frn: Frn,
        by_frn: Option<EntryId>,
        record: u64,
        by_record: Option<EntryId>,
        x: int,
    )
        requires
            self.wf(),
            call_ensures(VolumeIndex::entry_by_frn, (self, frn), by_frn),
            call_ensures(VolumeIndex::entry_by_record, (self, record), by_record),
            0 <= x < self.count(),
            !bit_set(self.flag@[x], TOMBSTONE),
        ensures
            self.frn@[x] == frn.0 ==> by_frn is Some,
            by_frn matches Some(id) ==> id < self.count() && self.frn@[id as int] == frn.0
                && !bit_set(self.flag@[id as int], TOMBSTONE),
            self.frn@[x] % 0x1_0000_0000_0000 == record ==> by_record is Some,
            by_record matches Some(id) ==> id < self.count() && self.frn@[id as int]
                % 0x1_0000_0000_0000 == record && !bit_set(self.flag@[id as int], TOMBSTONE),
    {
        self.lemma_object_links(frn.0);
        self.lemma_record_links(record);
        assert(self.live(x));
        if self.frn@[x] == frn.0 {
            assert(occurs(self.object_links(frn.0), x));
        }
        if self.frn@[x] % 0x1_0000_0000_0000 == record {
            assert(occurs(self.record_links(record), x));
        }
    }

    /// A link that is found bears its object's reference and the spelling
    /// asked for, and lives.
    pub proof fn lemma_link_answered(
        &self,
        frn: Frn,
        parent_frn: Frn,
        name: &[u8],
        r: Option<EntryId>,
    )
        requires
            self.wf(),
            call_ensures(VolumeIndex::entry_by_link_wtf8, (self, frn, parent_frn, name), r),
        ensures
            r matches Some(id) ==> id < self.count() && self.frn@[id as int] == frn.0 && !bit_set(
                self.flag@[id as int],
                TOMBSTONE,
            ) && self.original(id as int) == name@,
    {
        self.lemma_object_links(frn.0);
    }

    /// A sorted list of the entries holds every one once, the lesser before
    /// the greater by the key asked for.
    pub proof fn lemma_permutation_sorts(&self, key: SortKey, r: Vec<EntryId>, x: int, y: int)
        requires
            self.wf(),
            call_ensures(VolumeIndex::permutation, (self, key), r),
            0 <= x < y < r@.len(),
        ensures
            key == SortKey::Mtime ==> self.mtime@[r@[x] as int] <= self.mtime@[r@[y] as int],
            key == SortKey::Size ==> self.row(r@[x] as int).size <= self.row(r@[y] as int).size,
            key == SortKey::Name ==> !bytes_lt(
                self.lower(r@[y] as int),
                self.lower(r@[x] as int),
            ),
            r@[x] != r@[y],
    {
        if key == SortKey::Name {
            lemma_bytes_total(self.lower(r@[x] as int), self.lower(r@[y] as int));
        }
    }

    /// Ordering two entries answers by the key asked for.
    pub proof fn lemma_order_answered(&self, key: SortKey, a: EntryId, b: EntryId, r: Order)
        requires
            call_ensures(VolumeIndex::order_by, (self, key, a, b), r),
        ensures
            key == SortKey::Mtime && self.mtime@[a as int] < self.mtime@[b as int] ==> r
                == Order::Less,
            key == SortKey::Mtime && self.mtime@[a as int] > self.mtime@[b as int] ==> r
                == Order::Greater,
            key == SortKey::Size && self.row(a as int).size < self.row(b as int).size ==> r
                == Order::Less,
            key == SortKey::Size && self.row(a as int).size > self.row(b as int).size ==> r
                == Order::Greater,
            key == SortKey::Name && bytes_lt(self.lower(a as int), self.lower(b as int)) ==> r
                == Order::Less,
            key == SortKey::Name && bytes_lt(self.lower(b as int), self.lower(a as int)) ==> r
                == Order::Greater,
    {
        lemma_bytes_total(self.lower(a as int), self.lower(b as int));
    }

    /// Reading a generation answers that one.
    pub proof fn lemma_generations_told(
        &self,
        content: u64,
        structural: u64,
        topology: u64,
        stat: u64,
    )
        requires
            call_ensures(VolumeIndex::content_generation, (self,), content),
            call_ensures(VolumeIndex::structural_generation, (self,), structural),
            call_ensures(VolumeIndex::dir_topology_generation, (self,), topology),
            call_ensures(VolumeIndex::stat_generation, (self,), stat),
        ensures
            content == self.content_generation,
            structural == self.structural_generation,
            topology == self.dir_topology_generation,
            stat == self.stat_generation,
    {
    }

    /// Compacting is due past a hundred thousand entries of which more than an
    /// eighth are dead, past 32 MiB of dead names, and past as many new names
    /// as a quarter of what lives.
    pub proof fn lemma_compaction_answered(&self, due: bool)
        requires
            call_ensures(VolumeIndex::compaction_due, (self,), due),
        ensures
            due <==> {
                ||| self.count() >= 100_000 && 8 * dead_count(self.flag@) > self.count()
                ||| self.dead_name_bytes > 33_554_432
                ||| self.dict_appends_since_dedup > (self.count() - dead_count(self.flag@)) / 4
            },
    {
    }
}

/// The record of a reference is its lower 48 bits.
pub proof fn lemma_record_told(frn: Frn, r: RecordNo)
    requires
        call_ensures(Frn::record, (frn,), r),
    ensures
        r.0 == frn.0 % 0x1_0000_0000_0000,
        r.0 < 0x1_0000_0000_0000,
{
}

} // verus!
