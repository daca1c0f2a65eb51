//! Checked primitives shared by initial-scan and live `$ATTRIBUTE_LIST`
//! resolution.
//!
//! This module owns the untrusted byte grammar and non-resident run
//! arithmetic; callers own record acquisition and name policy.

use vstd::prelude::*;
use vstd::slice::slice_subrange;
use rustc_hash::{FxHashMap, FxHashSet};
use crate::bytes::{read_u16, read_u32, read_u64, u16_at, u32_at, u64_at};
use crate::hashed::{
    extent_map_insert, extents_seen, new_extent_map, new_target_set, target_set_insert,
};
use super::ntfs::{decode_units, units_of, NtfsAttributeType, ATTRIBUTE_LIST_ENTRY_BYTES};
use crate::order::{pair_le, pairs_sorted, reordered, same_items, sort_pairs};
use super::record::MAX_ATTRIBUTE_TYPE;

pub use super::closure::close_extent_runs;
pub use super::extents::decode_extent_runs;
pub use super::list_stream::{visit_list_stream, ListStreamError};

verus! {

/// Most entries one list may have.
pub const MAX_LIST_ENTRIES: usize = 262_144;

/// Most `$FILE_NAME` entries one list may have: each costs one record
/// resolution.
pub const MAX_FILE_NAME_ENTRIES: usize = 4_096;

/// Most bytes one list may have.
pub const MAX_LIST_BYTES: u64 = 0x100_0000;

/// One decoded `$ATTRIBUTE_LIST` entry: where an attribute of a split file
/// actually lives.
#[derive(Clone, Copy, Debug, PartialEq, Eq, Structural)]
pub struct ListEntry {
    /// Attribute type code of the referenced attribute.
    pub type_id: u32,
    /// UTF-16 code-unit count of the attribute's optional stream name.
    pub name_length: u8,
    /// First virtual cluster the referenced extent covers.
    pub starting_vcn: u64,
    /// Reference of the record holding the referenced attribute.
    pub target_reference: u64,
    /// Instance id of the referenced attribute within its target record.
    pub id: u16,
}

impl ListEntry {
    /// Build an entry for an attribute with no stream name.
    pub fn unnamed(type_id: u32, starting_vcn: u64, target_reference: u64, id: u16) -> (r: Self)
        ensures
            r == (ListEntry { type_id, name_length: 0, starting_vcn, target_reference, id }),
    {
        ListEntry { type_id, name_length: 0, starting_vcn, target_reference, id }
    }

    /// The target reference with its sequence value masked off, i.e. the
    /// plain record number.
    pub fn target_record(self) -> (r: u64)
        ensures
            r == self.target_reference % 0x1_0000_0000_0000,
    {
        self.target_reference % 0x1_0000_0000_0000
    }
}

/// An entry together with the units of its stream name.
pub struct NamedEntry {
    /// The fixed fields.
    pub entry: ListEntry,
    /// The raw stream name.
    pub name: Seq<u16>,
}

/// The declared length of the entry whose header starts `s`.
pub open spec fn entry_length(s: Seq<u8>) -> int {
    u16_at(s, 4) as int
}

/// The header at the start of `s` declares an aligned length that holds it, a
/// known type, a name right behind the header and inside the entry, no name
/// where the type has none, no start cluster where the type cannot be split,
/// and a target with a sequence number.
pub open spec fn entry_header_valid(s: Seq<u8>) -> bool {
    let type_id = u32_at(s, 0);
    let name_length = s[6] as int;
    &&& entry_length(s) >= ATTRIBUTE_LIST_ENTRY_BYTES
    &&& entry_length(s) % 8 == 0
    &&& 0 < type_id <= MAX_ATTRIBUTE_TYPE
    &&& type_id % 0x10 == 0
    &&& name_length > 0 ==> s[7] == ATTRIBUTE_LIST_ENTRY_BYTES && s[7] + 2 * name_length
        <= entry_length(s)
    &&& (type_id == NtfsAttributeType::AttributeList.spec_code() || type_id
        == NtfsAttributeType::FileName.spec_code()) ==> name_length == 0
    &&& type_id == NtfsAttributeType::FileName.spec_code() ==> u64_at(s, 8) == 0
    &&& u64_at(s, 16) >= 0x1_0000_0000_0000
}

/// The entry stored at the start of `s`.
pub open spec fn entry_of(s: Seq<u8>) -> NamedEntry {
    NamedEntry {
        entry: ListEntry {
            type_id: u32_at(s, 0),
            name_length: s[6],
            starting_vcn: u64_at(s, 8),
            target_reference: u64_at(s, 16),
            id: u16_at(s, 24),
        },
        name: if s[6] == 0 {
            Seq::empty()
        } else {
            units_of(s.subrange(s[7] as int, s[7] + 2 * s[6]))
        },
    }
}

/// How a byte sequence ends, read as consecutive entries.
pub enum ListTail {
    /// Right behind an entry.
    Complete,
    /// Inside an entry.
    Truncated,
    /// With a header that is not valid.
    Malformed,
}

/// The entries that `s` holds from `off` on, and how it ends.
pub open spec fn split_list(s: Seq<u8>, off: int) -> (Seq<NamedEntry>, ListTail)
    decreases s.len() - off,
{
    if off < 0 || off >= s.len() {
        (Seq::empty(), ListTail::Complete)
    } else if off + ATTRIBUTE_LIST_ENTRY_BYTES > s.len() {
        (Seq::empty(), ListTail::Truncated)
    } else if !entry_header_valid(s.skip(off)) {
        (Seq::empty(), ListTail::Malformed)
    } else if off + entry_length(s.skip(off)) > s.len() {
        (Seq::empty(), ListTail::Truncated)
    } else {
        let (rest, tail) = split_list(s, off + entry_length(s.skip(off)));
        (seq![entry_of(s.skip(off))] + rest, tail)
    }
}

/// Whether an entry names a `$FILE_NAME` attribute.
pub open spec fn is_file_name(d: NamedEntry) -> bool {
    d.entry.type_id == NtfsAttributeType::FileName.spec_code()
}

/// The number of `$FILE_NAME` entries.
pub open spec fn file_name_count(d: Seq<NamedEntry>) -> nat
    decreases d.len(),
{
    if d.len() == 0 {
        0
    } else {
        file_name_count(d.drop_last()) + if is_file_name(d.last()) {
            1nat
        } else {
            0
        }
    }
}

/// Two entries, the first before the second, that one list may hold: types
/// ascend, no attribute is named twice, and extents of one stream ascend.
pub open spec fn entries_ordered(a: NamedEntry, b: NamedEntry) -> bool {
    &&& a.entry.type_id <= b.entry.type_id
    &&& (a.entry.target_reference, a.entry.id) != (b.entry.target_reference, b.entry.id)
    &&& a.entry.type_id == b.entry.type_id && a.name == b.name && !is_file_name(b)
        ==> a.entry.starting_vcn < b.entry.starting_vcn
}

/// The entries may stand in one list, in this order.
pub open spec fn sequence_valid(d: Seq<NamedEntry>) -> bool {
    &&& d.len() <= MAX_LIST_ENTRIES
    &&& file_name_count(d) <= MAX_FILE_NAME_ENTRIES
    &&& forall|i: int, j: int|
        0 <= i < j < d.len() ==> entries_ordered(#[trigger] d[i], #[trigger] d[j])
}

/// The fixed fields of the entries.
pub open spec fn fields_of(d: Seq<NamedEntry>) -> Seq<ListEntry> {
    Seq::new(d.len(), |i: int| d[i].entry)
}

/// What parsing `s` gives: the entries, when they may stand in one list and
/// `s` ends well; `prefix` allows an incomplete last entry and no entry at
/// all.
pub open spec fn parsed_list(s: Seq<u8>, prefix: bool) -> Option<Seq<ListEntry>> {
    let (d, tail) = split_list(s, 0);
    if s.len() > MAX_LIST_BYTES || !sequence_valid(d) {
        None
    } else {
        match tail {
            ListTail::Malformed => None,
            ListTail::Truncated => if prefix {
                Some(fields_of(d))
            } else {
                None
            },
            ListTail::Complete => if prefix || d.len() > 0 {
                Some(fields_of(d))
            } else {
                None
            },
        }
    }
}

pub(crate) struct DecodedListEntry {
    pub(crate) public: ListEntry,
    pub(crate) name: Vec<u16>,
}

impl DecodedListEntry {
    pub(crate) open spec fn view(&self) -> NamedEntry {
        NamedEntry { entry: self.public, name: self.name@ }
    }
}

/// What was learnt of the entries that were accepted so far.
pub struct EntrySequence {
    previous_type: Option<u32>,
    last_vcn_by_name: FxHashMap<(u32, Vec<u16>), u64>,
    targets: FxHashSet<(u64, u16)>,
    count: usize,
    file_names: usize,
}

impl EntrySequence {
    /// The fields sum up the accepted entries `d`.
    pub closed spec fn sums_up(&self, d: Seq<NamedEntry>) -> bool {
        let vcns = extents_seen(self.last_vcn_by_name);
        &&& sequence_valid(d)
        &&& self.count == d.len()
        &&& self.file_names == file_name_count(d)
        &&& self.previous_type == (if d.len() > 0 {
            Some(d.last().entry.type_id)
        } else {
            None
        })
        &&& forall|t: (u64, u16)| #[trigger]
            self.targets@.contains(t) <==> exists|i: int|
                0 <= i < d.len() && t == ((#[trigger] d[i]).entry.target_reference, d[i].entry.id)
        &&& forall|i: int|
            0 <= i < d.len() && !is_file_name(#[trigger] d[i]) ==> vcns.contains_key(
                (d[i].entry.type_id, d[i].name),
            ) && d[i].entry.starting_vcn <= vcns[(d[i].entry.type_id, d[i].name)]
        &&& forall|k: (u32, Seq<u16>)| #[trigger]
            vcns.contains_key(k) ==> exists|i: int|
                0 <= i < d.len() && !is_file_name(#[trigger] d[i]) && k == (
                    d[i].entry.type_id,
                    d[i].name,
                ) && d[i].entry.starting_vcn == vcns[k]
    }

    pub(crate) fn new() -> (r: EntrySequence)
        ensures
            r.sums_up(Seq::empty()),
    {
        EntrySequence {
            previous_type: None,
            last_vcn_by_name: new_extent_map(),
            targets: new_target_set(),
            count: 0,
            file_names: 0,
        }
    }

    /// What was accepted may stand in one list.
    pub(crate) proof fn lemma_accepted(&self, d: Seq<NamedEntry>)
        requires
            self.sums_up(d),
        ensures
            sequence_valid(d),
    {
    }

    /// Accept the next entry if the list may hold it behind the accepted ones.
    pub(crate) fn accept(&mut self, decoded: &DecodedListEntry, Ghost(d): Ghost<Seq<NamedEntry>>) -> (ok: bool)
        requires
            old(self).sums_up(d),
        ensures
            ok == sequence_valid(d.push(decoded.view())),
            ok ==> final(self).sums_up(d.push(decoded.view())),
    {
        let ghost next = d.push(decoded.view());
        let ghost new = decoded.view();
        proof {
            assert(next.drop_last() =~= d);
            assert(next.last() == new);
            assert(forall|i: int| 0 <= i < d.len() ==> #[trigger] next[i] == d[i]);
            assert(next[d.len() as int] == new);
        }
        if self.count >= MAX_LIST_ENTRIES {
            return false;
        }
        self.count = self.count + 1;
        match self.previous_type {
            Some(previous) => {
                if previous > decoded.public.type_id {
                    proof {
                        assert(!entries_ordered(next[d.len() - 1], next[d.len() as int]));
                    }
                    return false;
                }
            },
            None => {},
        }
        let ghost target = (new.entry.target_reference, new.entry.id);
        if !target_set_insert(
            &mut self.targets,
            (decoded.public.target_reference, decoded.public.id),
        ) {
            proof {
                let i = choose|i: int|
                    0 <= i < d.len() && target == (
                        (#[trigger] d[i]).entry.target_reference,
                        d[i].entry.id,
                    );
                assert(!entries_ordered(next[i], next[d.len() as int]));
            }
            return false;
        }
        self.previous_type = Some(decoded.public.type_id);
        proof {
            assert forall|t: (u64, u16)| #[trigger]
                self.targets@.contains(t) <==> exists|i: int|
                    0 <= i < next.len() && t == (
                        (#[trigger] next[i]).entry.target_reference,
                        next[i].entry.id,
                    ) by {
                if exists|i: int|
                    0 <= i < d.len() && t == (
                        (#[trigger] d[i]).entry.target_reference,
                        d[i].entry.id,
                    ) {
                    let i = choose|i: int|
                        0 <= i < d.len() && t == (
                            (#[trigger] d[i]).entry.target_reference,
                            d[i].entry.id,
                        );
                    assert(next[i] == d[i]);
                }
            }
        }
        let ghost vcns = extents_seen(self.last_vcn_by_name);
        let ghost types_ascend = forall|i: int|
            0 <= i < d.len() ==> (#[trigger] d[i]).entry.type_id <= new.entry.type_id;
        proof {
            assert(types_ascend) by {
                assert forall|i: int| 0 <= i < d.len() implies (#[trigger] d[i]).entry.type_id
                    <= new.entry.type_id by {
                    if i < d.len() - 1 {
                        assert(entries_ordered(d[i], d[d.len() - 1]));
                    }
                }
            }
        }
        if decoded.public.type_id == NtfsAttributeType::FileName.code() {
            if self.file_names >= MAX_FILE_NAME_ENTRIES {
                return false;
            }
            self.file_names = self.file_names + 1;
            proof {
                assert forall|i: int, j: int| 0 <= i < j < next.len() implies entries_ordered(
                    #[trigger] next[i],
                    #[trigger] next[j],
                ) by {
                    if j < d.len() {
                        assert(entries_ordered(d[i], d[j]));
                    } else {
                        assert(next[i] == d[i]);
                    }
                }
                assert forall|k: (u32, Seq<u16>)| #[trigger] vcns.contains_key(k) implies exists|
                    i: int,
                |
                    0 <= i < next.len() && !is_file_name(#[trigger] next[i]) && k == (
                        next[i].entry.type_id,
                        next[i].name,
                    ) && next[i].entry.starting_vcn == vcns[k] by {
                    let i = choose|i: int|
                        0 <= i < d.len() && !is_file_name(#[trigger] d[i]) && k == (
                            d[i].entry.type_id,
                            d[i].name,
                        ) && d[i].entry.starting_vcn == vcns[k];
                    assert(next[i] == d[i]);
                }
            }
            return true;
        }
        let previous: Option<u64> = extent_map_insert(
            &mut self.last_vcn_by_name,
            decoded.public.type_id,
            &decoded.name,
            decoded.public.starting_vcn,
        );
        let ghost key = (new.entry.type_id, new.name);
        match previous {
            Some(last) => {
                if last >= decoded.public.starting_vcn {
                    proof {
                        let i = choose|i: int|
                            0 <= i < d.len() && !is_file_name(#[trigger] d[i]) && key == (
                                d[i].entry.type_id,
                                d[i].name,
                            ) && d[i].entry.starting_vcn == vcns[key];
                        assert(!entries_ordered(next[i], next[d.len() as int]));
                    }
                    return false;
                }
            },
            None => {},
        }
        proof {
            let after = extents_seen(self.last_vcn_by_name);
            assert forall|i: int, j: int| 0 <= i < j < next.len() implies entries_ordered(
                #[trigger] next[i],
                #[trigger] next[j],
            ) by {
                if j < d.len() {
                    assert(entries_ordered(d[i], d[j]));
                } else {
                    assert(next[i] == d[i]);
                    if d[i].entry.type_id == new.entry.type_id && d[i].name == new.name {
                        assert(vcns.contains_key(key));
                    }
                }
            }
            assert forall|i: int|
                0 <= i < next.len() && !is_file_name(#[trigger] next[i]) implies after.contains_key(
                (next[i].entry.type_id, next[i].name),
            ) && next[i].entry.starting_vcn <= after[(next[i].entry.type_id, next[i].name)] by {
                if i < d.len() {
                    assert(next[i] == d[i]);
                    assert(vcns.contains_key((d[i].entry.type_id, d[i].name)));
                }
            }
            assert forall|k: (u32, Seq<u16>)| #[trigger] after.contains_key(k) implies exists|
                i: int,
            |
                0 <= i < next.len() && !is_file_name(#[trigger] next[i]) && k == (
                    next[i].entry.type_id,
                    next[i].name,
                ) && next[i].entry.starting_vcn == after[k] by {
                if k == key {
                    assert(next[d.len() as int] == new);
                } else {
                    assert(vcns.contains_key(k));
                    let i = choose|i: int|
                        0 <= i < d.len() && !is_file_name(#[trigger] d[i]) && k == (
                            d[i].entry.type_id,
                            d[i].name,
                        ) && d[i].entry.starting_vcn == vcns[k];
                    assert(next[i] == d[i]);
                }
            }
        }
        true
    }
}

/// Whether the entry header at the start of `header` is valid.
pub(crate) fn validate_entry_header(header: &[u8]) -> (ok: bool)
    requires
        header@.len() >= ATTRIBUTE_LIST_ENTRY_BYTES,
    ensures
        ok == entry_header_valid(header@),
{
    let len: usize = read_u16(header, 4) as usize;
    if len < ATTRIBUTE_LIST_ENTRY_BYTES || len % 8 != 0 {
        return false;
    }
    let type_id: u32 = read_u32(header, 0);
    if type_id == 0 || type_id > MAX_ATTRIBUTE_TYPE || type_id % 0x10 != 0 {
        return false;
    }
    let name_len: usize = header[6] as usize;
    let name_off: usize = header[7] as usize;
    if name_len > 0 && (name_off != ATTRIBUTE_LIST_ENTRY_BYTES || name_off + 2 * name_len > len) {
        return false;
    }
    let starting_vcn: u64 = read_u64(header, 8);
    let target_reference: u64 = read_u64(header, 16);
    let file_name: bool = type_id == NtfsAttributeType::FileName.code();
    if (file_name || type_id == NtfsAttributeType::AttributeList.code()) && name_len != 0 {
        return false;
    }
    if file_name && starting_vcn != 0 {
        return false;
    }
    target_reference >= 0x1_0000_0000_0000
}

/// Decode the entry at the start of `data`, whose header is valid and which
/// `data` holds whole.
pub(crate) fn decode_list_entry(data: &[u8]) -> (r: DecodedListEntry)
    requires
        data@.len() >= ATTRIBUTE_LIST_ENTRY_BYTES,
        entry_header_valid(data@),
        entry_length(data@) <= data@.len(),
    ensures
        r.view() == entry_of(data@),
{
    let name_len: usize = data[6] as usize;
    let name_off: usize = data[7] as usize;
    let name: Vec<u16> = if name_len == 0 {
        Vec::new()
    } else {
        decode_units(slice_subrange(data, name_off, name_off + 2 * name_len))
    };
    assert(name@ =~= entry_of(data@).name);
    DecodedListEntry {
        public: ListEntry {
            type_id: read_u32(data, 0),
            name_length: data[6],
            starting_vcn: read_u64(data, 8),
            target_reference: read_u64(data, 16),
            id: read_u16(data, 24),
        },
        name,
    }
}

/// A list whose first entries may not stand together is not valid as a whole.
pub(crate) proof fn lemma_prefix_valid(d: Seq<NamedEntry>, rest: Seq<NamedEntry>)
    requires
        sequence_valid(d + rest),
    ensures
        sequence_valid(d),
    decreases rest.len(),
{
    if rest.len() == 0 {
        assert(d + rest =~= d);
    } else {
        let all = d + rest;
        let shorter = d + rest.drop_last();
        assert(all.drop_last() =~= shorter);
        assert forall|i: int, j: int| 0 <= i < j < shorter.len() implies entries_ordered(
            #[trigger] shorter[i],
            #[trigger] shorter[j],
        ) by {
            assert(all[i] == shorter[i] && all[j] == shorter[j]);
        }
        lemma_prefix_valid(d, rest.drop_last());
    }
}

/// Parse the entries of a list.
///
/// `prefix` permits only an incomplete last entry (needed while discovering a
/// non-resident list's continuation extents); a complete stream fails closed
/// on the same bytes.
pub fn parse_list_entries(data: &[u8], prefix: bool) -> (r: Option<Vec<ListEntry>>)
    ensures
        r matches Some(entries) ==> parsed_list(data@, prefix) == Some(entries@),
        r is None ==> parsed_list(data@, prefix) is None,
{
    if data.len() as u64 > MAX_LIST_BYTES {
        return None;
    }
    let ghost s = data@;
    let ghost all = split_list(s, 0);
    let mut entries: Vec<ListEntry> = Vec::new();
    let mut sequence = EntrySequence::new();
    let mut off: usize = 0;
    let ghost mut d: Seq<NamedEntry> = Seq::empty();
    assert(d + split_list(s, 0).0 =~= all.0);
    while off < data.len()
        invariant
            s == data@,
            s.len() <= MAX_LIST_BYTES,
            all == split_list(s, 0),
            off <= s.len(),
            all.0 == d + split_list(s, off as int).0,
            all.1 == split_list(s, off as int).1,
            entries@ == fields_of(d),
            sequence.sums_up(d),
        decreases s.len() - off,
    {
        let remaining: &[u8] = slice_subrange(data, off, data.len());
        assert(remaining@ =~= s.skip(off as int));
        if remaining.len() < ATTRIBUTE_LIST_ENTRY_BYTES {
            assert(all.0 =~= d);
            return if prefix {
                Some(entries)
            } else {
                None
            };
        }
        if !validate_entry_header(remaining) {
            return None;
        }
        let len: usize = read_u16(remaining, 4) as usize;
        if len > remaining.len() {
            assert(all.0 =~= d);
            return if prefix {
                Some(entries)
            } else {
                None
            };
        }
        let decoded: DecodedListEntry = decode_list_entry(remaining);
        let ghost rest = split_list(s, off + len).0;
        let ghost next = d.push(decoded.view());
        proof {
            assert(d + (seq![decoded.view()] + rest) =~= next + rest);
        }
        if !sequence.accept(&decoded, Ghost(d)) {
            proof {
                if sequence_valid(all.0) {
                    lemma_prefix_valid(next, rest);
                }
            }
            return None;
        }
        entries.push(decoded.public);
        assert(entries@ =~= fields_of(next));
        proof {
            d = next;
        }
        off = off + len;
    }
    assert(all.0 =~= d);
    if prefix || entries.len() > 0 {
        Some(entries)
    } else {
        None
    }
}

/// Most runs one list may be spread over.
pub const MAX_LIST_RUNS: usize = 16_384;

/// One decoded extent of a non-resident stream, in absolute bytes.
#[derive(Clone, Copy, Debug, PartialEq, Eq, Structural)]
pub struct StreamRun {
    /// Byte offset within the stream.
    pub logical: u64,
    /// Byte offset on the volume, or `None` for a sparse run.
    pub physical: Option<u64>,
    /// Length of the run in bytes.
    pub len: u64,
}

impl StreamRun {
    /// The stream offset behind the run.
    pub open spec fn end(self) -> int {
        self.logical + self.len
    }
}

/// A run that occupies bytes of the volume.
pub open spec fn run_allocated(run: StreamRun) -> bool {
    run.physical is Some && run.len > 0 && run.physical->0 + run.len <= u64::MAX
}

/// Two runs that share no byte of the volume.
pub open spec fn physically_apart(a: StreamRun, b: StreamRun) -> bool {
    a.physical->0 + a.len <= b.physical->0 || b.physical->0 + b.len <= a.physical->0
}

/// Two runs that share no byte of the stream.
pub open spec fn logically_apart(a: StreamRun, b: StreamRun) -> bool {
    a.end() <= b.logical || b.end() <= a.logical
}

/// All runs are allocated, and no two share a byte of the volume.
pub open spec fn physically_disjoint(runs: Seq<StreamRun>) -> bool {
    &&& forall|i: int| 0 <= i < runs.len() ==> run_allocated(#[trigger] runs[i])
    &&& forall|i: int, j: int|
        0 <= i < j < runs.len() ==> physically_apart(#[trigger] runs[i], #[trigger] runs[j])
}

/// Runs that may belong to one list of `data_size` bytes: no two overlap, on
/// the volume or in the stream, and one of them is the start of the stream.
/// A run may start at or past `data_size`: whole clusters are allocated, and
/// the tail is not released when a stream shrinks.
pub open spec fn runs_partial(runs: Seq<StreamRun>, data_size: int) -> bool {
    &&& 0 < data_size <= MAX_LIST_BYTES
    &&& 0 < runs.len() <= MAX_LIST_RUNS
    &&& physically_disjoint(runs)
    &&& forall|i: int| 0 <= i < runs.len() ==> (#[trigger] runs[i]).end() <= u64::MAX
    &&& forall|i: int, j: int|
        0 <= i < j < runs.len() ==> logically_apart(#[trigger] runs[i], #[trigger] runs[j])
    &&& exists|i: int| 0 <= i < runs.len() && (#[trigger] runs[i]).logical == 0
}

/// Runs without a gap between them that reach `data_size`.
pub open spec fn runs_complete(runs: Seq<StreamRun>, data_size: int) -> bool {
    &&& runs_partial(runs, data_size)
    &&& forall|i: int|
        0 <= i < runs.len() && (#[trigger] runs[i]).logical > 0 ==> exists|j: int|
            0 <= j < runs.len() && (#[trigger] runs[j]).end() == runs[i].logical
    &&& exists|i: int| 0 <= i < runs.len() && (#[trigger] runs[i]).end() >= data_size
}

/// Runs in the order of their stream offsets.
pub open spec fn logically_sorted(runs: Seq<StreamRun>) -> bool {
    forall|i: int, j: int|
        0 <= i <= j < runs.len() ==> (#[trigger] runs[i]).logical <= (#[trigger] runs[j]).logical
}

/// `<[T]>::sort_unstable_by_key` on the stream offset: a reordering of the
/// runs in which the offsets ascend.
#[verifier::external_body]
fn sort_by_logical(runs: &mut Vec<StreamRun>)
    ensures
        same_items(old(runs)@, final(runs)@),
        logically_sorted(final(runs)@),
{
    runs.sort_unstable_by_key(|run| run.logical);
}

/// A copy of the runs in the order of their stream offsets.
pub(crate) fn ordered_runs(runs: &[StreamRun]) -> (r: Vec<StreamRun>)
    ensures
        same_items(runs@, r@),
        logically_sorted(r@),
{
    let mut ordered: Vec<StreamRun> = Vec::new();
    let mut i: usize = 0;
    while i < runs.len()
        invariant
            i <= runs@.len(),
            ordered@ == runs@.take(i as int),
        decreases runs@.len() - i,
    {
        ordered.push(runs[i]);
        i = i + 1;
        assert(ordered@ =~= runs@.take(i as int));
    }
    assert(ordered@ =~= runs@);
    sort_by_logical(&mut ordered);
    ordered
}

/// Whether all runs are allocated and no two share a byte of the volume.
pub(crate) fn physical_ranges_are_disjoint(runs: &[StreamRun]) -> (ok: bool)
    ensures
        ok == physically_disjoint(runs@),
{
    let mut ranges: Vec<(u64, u64)> = Vec::new();
    let mut i: usize = 0;
    while i < runs.len()
        invariant
            i <= runs@.len(),
            ranges@.len() == i,
            forall|k: int|
                0 <= k < i ==> run_allocated(#[trigger] runs@[k]) && ranges@[k] == (
                    runs@[k].physical->0,
                    (runs@[k].physical->0 + runs@[k].len) as u64,
                ),
        decreases runs@.len() - i,
    {
        let run: StreamRun = runs[i];
        match run.physical {
            Some(physical) => match physical.checked_add(run.len) {
                Some(end) => {
                    if run.len == 0 {
                        assert(!run_allocated(runs@[i as int]));
                        return false;
                    }
                    ranges.push((physical, end));
                },
                None => {
                    assert(!run_allocated(runs@[i as int]));
                    return false;
                },
            },
            None => {
                assert(!run_allocated(runs@[i as int]));
                return false;
            },
        }
        i = i + 1;
    }
    let ghost unsorted = ranges@;
    sort_pairs(&mut ranges);
    let ghost (p, q): (Seq<int>, Seq<int>) = choose|p: Seq<int>, q: Seq<int>|
        reordered(unsorted, ranges@, p, q);
    let mut k: usize = 1;
    while k < ranges.len()
        invariant
            1 <= k,
            k <= ranges@.len() || ranges@.len() == 0,
            unsorted.len() == runs@.len(),
            reordered(unsorted, ranges@, p, q),
            pairs_sorted(ranges@),
            forall|j: int|
                0 <= j < runs@.len() ==> run_allocated(#[trigger] runs@[j]) && unsorted[j] == (
                    runs@[j].physical->0,
                    (runs@[j].physical->0 + runs@[j].len) as u64,
                ),
            forall|a: int, b: int|
                0 <= a < b < k && b < ranges@.len() ==> (#[trigger] ranges@[a]).1 <= (
                #[trigger] ranges@[b]).0,
        decreases ranges@.len() - k,
    {
        proof {
            assert(ranges@[k - 1] == unsorted[p[k - 1]]);
            assert(ranges@[k as int] == unsorted[p[k as int]]);
            assert(p[k - 1] != p[k as int]);
            assert(run_allocated(runs@[p[k - 1]]));
            assert(run_allocated(runs@[p[k as int]]));
            assert(pair_le(ranges@[k - 1], ranges@[k as int]));
        }
        if ranges[k - 1].1 > ranges[k].0 {
            proof {
                assert(!physically_apart(runs@[p[k - 1]], runs@[p[k as int]]));
                assert(!physically_apart(runs@[p[k as int]], runs@[p[k - 1]]));
            }
            return false;
        }
        k = k + 1;
    }
    proof {
        assert forall|i: int, j: int| 0 <= i < j < runs@.len() implies physically_apart(
            #[trigger] runs@[i],
            #[trigger] runs@[j],
        ) by {
            assert(p[q[i]] == i && p[q[j]] == j);
            assert(ranges@[q[i]] == unsorted[i]);
            assert(ranges@[q[j]] == unsorted[j]);
        }
    }
    true
}

/// In an order by stream offset, runs that do not overlap end where or before
/// the next one starts.
pub(crate) proof fn lemma_sorted_apart(runs: Seq<StreamRun>, o: Seq<StreamRun>, a: int, b: int)
    requires
        same_items(runs, o),
        logically_sorted(o),
        physically_disjoint(runs),
        forall|i: int, j: int|
            0 <= i < j < runs.len() ==> logically_apart(#[trigger] runs[i], #[trigger] runs[j]),
        0 <= a < b < o.len(),
    ensures
        o[a].end() <= o[b].logical,
        o[a].len > 0,
        o[b].len > 0,
{
    let (p, q): (Seq<int>, Seq<int>) = choose|p: Seq<int>, q: Seq<int>| reordered(runs, o, p, q);
    assert(o[a] == runs[p[a]] && o[b] == runs[p[b]]);
    assert(p[a] != p[b]);
    assert(run_allocated(runs[p[a]]) && run_allocated(runs[p[b]]));
    assert(o[a].logical <= o[b].logical);
    assert(logically_apart(o[a], o[b]) || logically_apart(o[b], o[a]));
}

/// Whether the runs may belong to one list.
pub fn partial_runs_are_valid(runs: &[StreamRun], data_size: u64) -> (ok: bool)
    ensures
        ok == runs_partial(runs@, data_size as int),
{
    if data_size == 0 || data_size > MAX_LIST_BYTES || runs.len() == 0 || runs.len()
        > MAX_LIST_RUNS || !physical_ranges_are_disjoint(runs) {
        return false;
    }
    let ordered: Vec<StreamRun> = ordered_runs(runs);
    let ghost o = ordered@;
    let ghost (p, q): (Seq<int>, Seq<int>) = choose|p: Seq<int>, q: Seq<int>|
        reordered(runs@, o, p, q);
    if ordered[0].logical != 0 {
        proof {
            assert forall|i: int| 0 <= i < runs@.len() implies (#[trigger] runs@[i]).logical
                != 0 by {
                assert(p[q[i]] == i);
                assert(o[q[i]] == runs@[i]);
                assert(o[0].logical <= o[q[i]].logical);
            }
        }
        return false;
    }
    let mut previous_end: u64 = 0;
    let mut k: usize = 0;
    while k < ordered.len()
        invariant
            k <= o.len(),
            o == ordered@,
            o.len() == runs@.len(),
            reordered(runs@, o, p, q),
            logically_sorted(o),
            physically_disjoint(runs@),
            k == 0 ==> previous_end == 0,
            k > 0 ==> previous_end == o[k - 1].end(),
            forall|a: int| 0 <= a < k ==> (#[trigger] o[a]).end() <= u64::MAX,
            forall|a: int, b: int|
                0 <= a < b < k ==> (#[trigger] o[a]).end() <= (#[trigger] o[b]).logical,
        decreases o.len() - k,
    {
        let run: StreamRun = ordered[k];
        assert(o[k as int] == runs@[p[k as int]]);
        match run.logical.checked_add(run.len) {
            Some(end) => {
                if run.logical < previous_end {
                    proof {
                        if runs_partial(runs@, data_size as int) {
                            lemma_sorted_apart(runs@, o, k - 1, k as int);
                        }
                    }
                    return false;
                }
                proof {
                    assert forall|a: int| 0 <= a < k implies (#[trigger] o[a]).end()
                        <= o[k as int].logical by {
                        if a < k - 1 {
                            assert(o[a].end() <= o[k - 1].logical);
                        }
                    }
                }
                previous_end = end;
            },
            None => {
                assert(runs@[p[k as int]].end() > u64::MAX);
                return false;
            },
        }
        k = k + 1;
    }
    proof {
        assert forall|i: int| 0 <= i < runs@.len() implies (#[trigger] runs@[i]).end()
            <= u64::MAX by {
            assert(p[q[i]] == i);
            assert(o[q[i]] == runs@[i]);
        }
        assert forall|i: int, j: int| 0 <= i < j < runs@.len() implies logically_apart(
            #[trigger] runs@[i],
            #[trigger] runs@[j],
        ) by {
            assert(p[q[i]] == i && p[q[j]] == j);
            assert(o[q[i]] == runs@[i] && o[q[j]] == runs@[j]);
        }
        assert(o[0] == runs@[p[0]]);
    }
    true
}

/// Whether the runs cover the list without a gap.
pub fn complete_runs_are_valid(runs: &[StreamRun], data_size: u64) -> (ok: bool)
    ensures
        ok == runs_complete(runs@, data_size as int),
{
    if !partial_runs_are_valid(runs, data_size) {
        return false;
    }
    let ordered: Vec<StreamRun> = ordered_runs(runs);
    let ghost o = ordered@;
    let ghost (p, q): (Seq<int>, Seq<int>) = choose|p: Seq<int>, q: Seq<int>|
        reordered(runs@, o, p, q);
    let mut logical: u64 = 0;
    let mut k: usize = 0;
    while k < ordered.len()
        invariant
            k <= o.len(),
            o == ordered@,
            o.len() == runs@.len(),
            reordered(runs@, o, p, q),
            logically_sorted(o),
            runs_partial(runs@, data_size as int),
            k == 0 ==> logical == 0,
            k > 0 ==> logical == o[k - 1].end(),
            forall|a: int| 0 < a < k ==> (#[trigger] o[a]).logical == o[a - 1].end(),
            k > 0 ==> o[0].logical == 0,
        decreases o.len() - k,
    {
        let run: StreamRun = ordered[k];
        assert(o[k as int] == runs@[p[k as int]]);
        if run.logical != logical {
            proof {
                lemma_no_predecessor(runs@, o, p, q, data_size as int, k as int);
            }
            return false;
        }
        assert(run.end() <= u64::MAX);
        logical = logical + run.len;
        k = k + 1;
    }
    proof {
        let last = o.len() - 1;
        assert(o[last] == runs@[p[last]]);
        assert forall|i: int|
            0 <= i < runs@.len() && (#[trigger] runs@[i]).logical > 0 implies exists|j: int|
            0 <= j < runs@.len() && (#[trigger] runs@[j]).end() == runs@[i].logical by {
            assert(p[q[i]] == i);
            assert(o[q[i]] == runs@[i]);
            let before = q[i] - 1;
            assert(o[before + 1].logical == o[before].end());
            assert(o[before] == runs@[p[before]]);
        }
        if exists|i: int| 0 <= i < runs@.len() && (#[trigger] runs@[i]).end() >= data_size {
            let i = choose|i: int| 0 <= i < runs@.len() && (#[trigger] runs@[i]).end() >= data_size;
            assert(p[q[i]] == i);
            assert(o[q[i]] == runs@[i]);
            if q[i] < last {
                lemma_sorted_apart(runs@, o, q[i], last);
            }
        }
    }
    logical >= data_size
}

/// The first run in order that does not start where the one before it ends
/// follows no run at all.
pub(crate) proof fn lemma_no_predecessor(
    runs: Seq<StreamRun>,
    o: Seq<StreamRun>,
    p: Seq<int>,
    q: Seq<int>,
    data_size: int,
    k: int,
)
    requires
        reordered(runs, o, p, q),
        logically_sorted(o),
        runs_partial(runs, data_size),
        0 <= k < o.len(),
        o[k].logical != (if k == 0 {
            0
        } else {
            o[k - 1].end()
        }),
    ensures
        !runs_complete(runs, data_size),
{
    if k == 0 {
        let z = choose|i: int| 0 <= i < runs.len() && (#[trigger] runs[i]).logical == 0;
        assert(p[q[z]] == z);
        assert(o[q[z]] == runs[z]);
        assert(o[0].logical <= o[q[z]].logical);
    } else {
        lemma_sorted_apart(runs, o, k - 1, k);
        assert(o[k] == runs[p[k]]);
        assert forall|j: int| 0 <= j < runs.len() implies (#[trigger] runs[j]).end()
            != runs[p[k]].logical by {
            assert(p[q[j]] == j);
            assert(o[q[j]] == runs[j]);
            if q[j] < k - 1 {
                lemma_sorted_apart(runs, o, q[j], k - 1);
            } else if q[j] > k {
                lemma_sorted_apart(runs, o, k, q[j]);
            } else if q[j] == k {
                assert(run_allocated(runs[j]));
            }
        }
    }
}

/// How far the runs of `o` from the `k`-th on continue a coverage that has
/// reached `cursor`.
pub open spec fn coverage(o: Seq<StreamRun>, k: int, cursor: int) -> int
    decreases o.len() - k,
{
    if 0 <= k < o.len() && o[k].logical == cursor && cursor + o[k].len <= u64::MAX {
        coverage(o, k + 1, cursor + o[k].len)
    } else {
        cursor
    }
}

/// `r` is the length of the gapless coverage from the start of the stream, in
/// some order of the runs by their stream offsets. Where no two runs start at
/// one offset there is only one such order.
pub open spec fn is_covered_prefix(runs: Seq<StreamRun>, r: int) -> bool {
    exists|o: Seq<StreamRun>| #[trigger]
        same_items(runs, o) && logically_sorted(o) && r == coverage(o, 0, 0)
}

/// Length of the contiguous run coverage starting at logical offset 0.
///
/// Continuation discovery reads only this prefix: bytes past the first gap
/// are not yet proven readable.
pub fn covered_prefix(runs: &[StreamRun]) -> (r: u64)
    ensures
        is_covered_prefix(runs@, r as int),
{
    let ordered: Vec<StreamRun> = ordered_runs(runs);
    let ghost o = ordered@;
    let mut cursor: u64 = 0;
    let mut k: usize = 0;
    while k < ordered.len()
        invariant
            k <= o.len(),
            o == ordered@,
            same_items(runs@, o),
            logically_sorted(o),
            coverage(o, 0, 0) == coverage(o, k as int, cursor as int),
        decreases o.len() - k,
    {
        let run: StreamRun = ordered[k];
        if run.logical != cursor {
            return cursor;
        }
        match cursor.checked_add(run.len) {
            Some(next) => {
                cursor = next;
            },
            None => {
                return cursor;
            },
        }
        k = k + 1;
    }
    cursor
}

} // verus!
