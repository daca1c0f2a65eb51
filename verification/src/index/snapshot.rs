//! Snapshots: the columns of an index as bytes, with a checksum.
//!
//! A header (magic, checkpoint of the change journal, number of entries), the
//! columns as sections of little-endian values behind their lengths in bytes,
//! and the xxHash64 of all that. Anything that does not fit together is an
//! error: the volume is then scanned anew.

use vstd::prelude::*;
use vstd::slice::slice_subrange;
use rustc_hash::FxHashMap;
use crate::bytes::{
    i64_at, pattern_of, push_u32s, push_u64, push_u64s, read_i64, read_u64, take_u32s, take_u64s,
    to_pattern, u32s_bytes, u32s_of, u64_at, u64_bytes, u64s_bytes, u64s_of,
};
use crate::hashed::{new_size_map, size_map_insert};
use crate::order::{check_permutation, is_permutation, occurs, strictly_ascends};
use super::columns::{dead_count, dict_end, dict_name, dict_wf, extend, VolumeIndex, NONE};
use super::flags::TOMBSTONE;
use super::frn::FrnIndex;
use super::NO_PARENT;

verus! {

/// The xxHash64 of bytes, with seed zero.
pub uninterp spec fn digest_of(bytes: Seq<u8>) -> u64;

/// `xxhash_rust::xxh64::xxh64` with seed zero: its result follows from the
/// bytes.
#[verifier::external_body]
fn digest(bytes: &[u8]) -> (r: u64)
    ensures
        r == digest_of(bytes@),
{
    xxhash_rust::xxh64::xxh64(bytes, 0)
}

/// Why bytes are no snapshot.
#[derive(Clone, Copy, Debug, PartialEq, Eq, Structural)]
pub enum SnapshotError {
    /// The bytes end too early.
    Truncated,
    /// The magic is of another format or version.
    BadMagic,
    /// A section claims more bytes than any has.
    SectionTooLarge,
    /// A section is no whole number of values.
    SectionSize,
    /// The checksum is another.
    Checksum,
    /// A column does not have one value per entry.
    ColumnLength,
    /// A name lies outside the dictionary.
    DictSlice,
    /// An entry names no name of the dictionary.
    NameId,
    /// An original spelling lies outside its pool.
    NameSlice,
    /// The large sizes do not pair up.
    OverflowLength,
    /// The large sizes are not as many as the marks for them.
    OverflowSentinel,
    /// A large size is not one, or is not where a mark is.
    OverflowPair,
    /// A parent is no entry.
    ParentRange,
    /// The name permutation does not hold every entry once.
    Permutation,
}

/// No section has more bytes.
pub const MAX_SECTION_BYTES: u64 = 0x4000_0000;

/// How a snapshot starts: `FMFIDX07`.
pub open spec fn magic() -> Seq<u8> {
    seq![0x46u8, 0x4D, 0x46, 0x49, 0x44, 0x58, 0x30, 0x37]
}

/// The columns that a snapshot holds.
pub struct Columns {
    /// The bytes of the folded names.
    pub dict_pool: Seq<u8>,
    /// Where each folded name starts.
    pub dict_off: Seq<u32>,
    /// The folded name of each entry.
    pub name_id: Seq<u32>,
    /// The bytes of original spellings.
    pub orig_pool: Seq<u8>,
    /// Where each original spelling starts.
    pub orig_off: Seq<u32>,
    /// Parents.
    pub parent: Seq<u32>,
    /// Sizes, or the mark of a large one.
    pub size_lo: Seq<u32>,
    /// Entries with large sizes, ascending.
    pub ovf_ids: Seq<u32>,
    /// Their sizes.
    pub ovf_sizes: Seq<u64>,
    /// Modification times.
    pub mtime: Seq<u32>,
    /// References.
    pub frn: Seq<u64>,
    /// Flag bits.
    pub flag: Seq<u8>,
    /// Entries in name order.
    pub perm_name: Seq<u32>,
}

/// How many bytes a value of section `k` has.
pub open spec fn elem_size(k: int) -> int {
    if k == 0 || k == 3 || k == 11 {
        1
    } else if k == 8 || k == 10 {
        8
    } else {
        4
    }
}

/// How many sections there are.
pub const SECTIONS: usize = 13;

/// Where section `k` ends, or what is wrong with it or one before it. The
/// header is before the first.
pub open spec fn section_end(s: Seq<u8>, k: int) -> Result<int, SnapshotError>
    decreases k + 1,
{
    if k < 0 {
        Ok(32)
    } else {
        match section_end(s, k - 1) {
            Err(e) => Err(e),
            Ok(at) => if at + 8 > s.len() {
                Err(SnapshotError::Truncated)
            } else if u64_at(s, at) > MAX_SECTION_BYTES {
                Err(SnapshotError::SectionTooLarge)
            } else if u64_at(s, at) as int % elem_size(k) != 0 {
                Err(SnapshotError::SectionSize)
            } else if at + 8 + u64_at(s, at) > s.len() {
                Err(SnapshotError::Truncated)
            } else {
                Ok(at + 8 + u64_at(s, at))
            },
        }
    }
}

/// The bytes of section `k`.
pub open spec fn section_bytes(s: Seq<u8>, k: int) -> Seq<u8> {
    s.subrange(section_end(s, k - 1)->Ok_0 + 8, section_end(s, k)->Ok_0)
}

/// The columns in the sections.
pub open spec fn columns_in(s: Seq<u8>) -> Columns {
    Columns {
        dict_pool: section_bytes(s, 0),
        dict_off: u32s_of(section_bytes(s, 1)),
        name_id: u32s_of(section_bytes(s, 2)),
        orig_pool: section_bytes(s, 3),
        orig_off: u32s_of(section_bytes(s, 4)),
        parent: u32s_of(section_bytes(s, 5)),
        size_lo: u32s_of(section_bytes(s, 6)),
        ovf_ids: u32s_of(section_bytes(s, 7)),
        ovf_sizes: u64s_of(section_bytes(s, 8)),
        mtime: u32s_of(section_bytes(s, 9)),
        frn: u64s_of(section_bytes(s, 10)),
        flag: section_bytes(s, 11),
        perm_name: u32s_of(section_bytes(s, 12)),
    }
}

/// Every column has one value per entry.
pub open spec fn lengths_ok(c: Columns, count: int) -> bool {
    &&& c.name_id.len() == count
    &&& c.orig_off.len() == count
    &&& c.parent.len() == count
    &&& c.size_lo.len() == count
    &&& c.mtime.len() == count
    &&& c.frn.len() == count
    &&& c.flag.len() == count
    &&& c.perm_name.len() == count
}

/// Name `k` lies inside the dictionary.
pub open spec fn dict_slice_ok(c: Columns, k: int) -> bool {
    c.dict_off[k] <= dict_end(c.dict_pool, c.dict_off, k) <= c.dict_pool.len()
}

/// What is wrong with the name of entry `i`.
pub open spec fn name_fault(c: Columns, i: int) -> Option<SnapshotError> {
    let k = c.name_id[i] as int;
    if k >= c.dict_off.len() {
        Some(SnapshotError::NameId)
    } else if c.orig_off[i] != NONE && c.orig_off[i] + dict_name(
        c.dict_pool,
        c.dict_off,
        k,
    ).len() > c.orig_pool.len() {
        Some(SnapshotError::NameSlice)
    } else {
        None
    }
}

/// What is wrong with the name of the first faulty one of the first `n`
/// entries.
pub open spec fn first_name_fault(c: Columns, n: int) -> Option<SnapshotError>
    decreases n,
{
    if n <= 0 {
        None
    } else {
        match first_name_fault(c, n - 1) {
            Some(e) => Some(e),
            None => name_fault(c, n - 1),
        }
    }
}

/// The entries among the first `n` that are marked as having large sizes.
pub open spec fn marked_sizes(size_lo: Seq<u32>, n: int) -> Seq<u32>
    decreases n,
{
    if n <= 0 {
        Seq::empty()
    } else if size_lo[n - 1] == NONE {
        marked_sizes(size_lo, n - 1).push((n - 1) as u32)
    } else {
        marked_sizes(size_lo, n - 1)
    }
}

/// Large size `i` is of an entry that is marked, and is large.
pub open spec fn pair_ok(c: Columns, i: int) -> bool {
    &&& i > 0 ==> c.ovf_ids[i - 1] < c.ovf_ids[i]
    &&& c.ovf_ids[i] < c.size_lo.len()
    &&& c.size_lo[c.ovf_ids[i] as int] == NONE
    &&& c.ovf_sizes[i] >= NONE
}

/// Parent `i` is an entry or none.
pub open spec fn parent_ok(c: Columns, i: int) -> bool {
    c.parent[i] == NO_PARENT || c.parent[i] < c.parent.len()
}

/// Why columns do not fit together, if they do not.
pub open spec fn misfit(c: Columns, count: int) -> Option<SnapshotError> {
    if !lengths_ok(c, count) {
        Some(SnapshotError::ColumnLength)
    } else if exists|k: int| 0 <= k < c.dict_off.len() && !(#[trigger] dict_slice_ok(c, k)) {
        Some(SnapshotError::DictSlice)
    } else if first_name_fault(c, count) is Some {
        first_name_fault(c, count)
    } else if c.ovf_ids.len() != c.ovf_sizes.len() {
        Some(SnapshotError::OverflowLength)
    } else if marked_sizes(c.size_lo, count).len() != c.ovf_ids.len() {
        Some(SnapshotError::OverflowSentinel)
    } else if exists|i: int| 0 <= i < c.ovf_ids.len() && !(#[trigger] pair_ok(c, i)) {
        Some(SnapshotError::OverflowPair)
    } else if exists|i: int| 0 <= i < count && !(#[trigger] parent_ok(c, i)) {
        Some(SnapshotError::ParentRange)
    } else if !is_permutation(c.perm_name) {
        Some(SnapshotError::Permutation)
    } else {
        None
    }
}

/// Why bytes are no snapshot, if they are none.
pub open spec fn unreadable(s: Seq<u8>) -> Option<SnapshotError> {
    if s.len() < 32 {
        Some(SnapshotError::Truncated)
    } else if s.take(8) != magic() {
        Some(SnapshotError::BadMagic)
    } else {
        match section_end(s, SECTIONS as int - 1) {
            Err(e) => Some(e),
            Ok(end) => if end + 8 > s.len() {
                Some(SnapshotError::Truncated)
            } else if u64_at(s, end) != digest_of(s.take(end)) {
                Some(SnapshotError::Checksum)
            } else {
                misfit(columns_in(s), u64_at(s, 24) as int)
            },
        }
    }
}

/// A section with its length before it.
pub open spec fn framed(b: Seq<u8>) -> Seq<u8> {
    u64_bytes(b.len() as u64) + b
}

/// All sections.
#[verifier::opaque]
pub open spec fn sections_of(c: Columns) -> Seq<Seq<u8>> {
    seq![
        c.dict_pool,
        u32s_bytes(c.dict_off),
        u32s_bytes(c.name_id),
        c.orig_pool,
        u32s_bytes(c.orig_off),
        u32s_bytes(c.parent),
        u32s_bytes(c.size_lo),
        u32s_bytes(c.ovf_ids),
        u64s_bytes(c.ovf_sizes),
        u32s_bytes(c.mtime),
        u64s_bytes(c.frn),
        c.flag,
        u32s_bytes(c.perm_name),
    ]
}

/// The sections one by one.
pub(crate) proof fn lemma_sections(c: Columns)
    ensures
        sections_of(c).len() == SECTIONS,
        sections_of(c)[0] == c.dict_pool,
        sections_of(c)[1] == u32s_bytes(c.dict_off),
        sections_of(c)[2] == u32s_bytes(c.name_id),
        sections_of(c)[3] == c.orig_pool,
        sections_of(c)[4] == u32s_bytes(c.orig_off),
        sections_of(c)[5] == u32s_bytes(c.parent),
        sections_of(c)[6] == u32s_bytes(c.size_lo),
        sections_of(c)[7] == u32s_bytes(c.ovf_ids),
        sections_of(c)[8] == u64s_bytes(c.ovf_sizes),
        sections_of(c)[9] == u32s_bytes(c.mtime),
        sections_of(c)[10] == u64s_bytes(c.frn),
        sections_of(c)[11] == c.flag,
        sections_of(c)[12] == u32s_bytes(c.perm_name),
{
    reveal(sections_of);
}

/// The header, and the first `k` sections behind it.
pub open spec fn body_of(sections: Seq<Seq<u8>>, journal_id: u64, next_usn: i64, count: int, k: int) -> Seq<
    u8,
>
    decreases k,
{
    if k <= 0 {
        magic() + u64_bytes(journal_id) + u64_bytes(pattern_of(next_usn)) + u64_bytes(count as u64)
    } else {
        body_of(sections, journal_id, next_usn, count, k - 1) + framed(sections[k - 1])
    }
}

/// The snapshot of columns.
pub open spec fn snapshot_of(c: Columns, journal_id: u64, next_usn: i64) -> Seq<u8> {
    let body = body_of(
        sections_of(c),
        journal_id,
        next_usn,
        c.name_id.len() as int,
        SECTIONS as int,
    );
    body + u64_bytes(digest_of(body))
}

impl VolumeIndex {
    /// The columns of the index.
    pub open spec fn columns(&self) -> Columns {
        let ids = marked_sizes(self.size_lo@, self.count());
        Columns {
            dict_pool: self.dict_pool@,
            dict_off: self.dict_off@,
            name_id: self.name_id@,
            orig_pool: self.orig_pool@,
            orig_off: self.orig_off@,
            parent: self.parent@,
            size_lo: self.size_lo@,
            ovf_ids: ids,
            ovf_sizes: Seq::new(ids.len(), |i: int| self.size_ovf@[ids[i]]),
            mtime: self.mtime@,
            frn: self.frn@,
            flag: self.flag@,
            perm_name: self.perm_name@,
        }
    }

    /// The bytes of original spellings that the dead ones of the first `n`
    /// entries own.
    pub open spec fn dead_owned(&self, n: int) -> int
        decreases n,
    {
        if n <= 0 {
            0
        } else {
            self.dead_owned(n - 1) + if self.live(n - 1) {
                0
            } else {
                self.owned_bytes(n - 1)
            }
        }
    }

    /// The index holds the columns, covers every entry, and starts at
    /// generation zero.
    pub open spec fn restored(&self, c: Columns) -> bool {
        &&& self.wf()
        &&& self.columns() == c
        &&& self.frn_index.covers == self.count()
        &&& self.perm_name@.len() == self.count()
        &&& self.dead_name_bytes == self.dead_owned(self.count())
        &&& self.content_generation == 0
        &&& self.structural_generation == 0
        &&& self.stat_generation == 0
        &&& self.dir_topology_generation == 0
        &&& !self.exclusion_tree_dirty
        &&& self.dict_appends_since_dedup == 0
    }

    /// The large sizes and their entries, ascending.
    fn large_sizes(&self) -> (r: (Vec<u32>, Vec<u64>))
        requires
            self.wf(),
        ensures
            r.0@ == self.columns().ovf_ids,
            r.1@ == self.columns().ovf_sizes,
    {
        let n: u32 = self.len() as u32;
        let mut ids: Vec<u32> = Vec::new();
        let mut sizes: Vec<u64> = Vec::new();
        let mut id: u32 = 0;
        while id < n
            invariant
                self.wf(),
                n == self.count(),
                id <= n,
                ids@ == marked_sizes(self.size_lo@, id as int),
                sizes@.len() == ids@.len(),
                forall|i: int|
                    0 <= i < ids@.len() ==> #[trigger] sizes@[i] == self.size_ovf@[ids@[i]],
            decreases n - id,
        {
            if self.size_lo[id as usize] == NONE {
                ids.push(id);
                sizes.push(self.size(id));
            }
            id = id + 1;
        }
        assert(sizes@ =~= self.columns().ovf_sizes);
        (ids, sizes)
    }

    /// Write the index and the checkpoint of the change journal as bytes.
    pub fn write_snapshot(&self, journal_id: u64, next_usn: i64) -> (out: Vec<u8>)
        requires
            self.wf(),
        ensures
            out@ == snapshot_of(self.columns(), journal_id, next_usn),
    {
        let (ovf_ids, ovf_sizes): (Vec<u32>, Vec<u64>) = self.large_sizes();
        let ghost all = sections_of(self.columns());
        let ghost count = self.count();
        proof {
            lemma_sections(self.columns());
            lemma_marked_len(self.size_lo@, count);
        }
        let mut out: Vec<u8> = Vec::new();
        push_header(&mut out, journal_id, next_usn, self.len() as u64);
        assert(out@ =~= body_of(all, journal_id, next_usn, count, 0));
        push_bytes_section(&mut out, self.dict_pool.as_slice());
        assert(out@ == body_of(all, journal_id, next_usn, count, 1));
        push_u32_section(&mut out, self.dict_off.as_slice());
        assert(out@ == body_of(all, journal_id, next_usn, count, 2));
        push_u32_section(&mut out, self.name_id.as_slice());
        assert(out@ == body_of(all, journal_id, next_usn, count, 3));
        push_bytes_section(&mut out, self.orig_pool.as_slice());
        assert(out@ == body_of(all, journal_id, next_usn, count, 4));
        push_u32_section(&mut out, self.orig_off.as_slice());
        assert(out@ == body_of(all, journal_id, next_usn, count, 5));
        push_u32_section(&mut out, self.parent.as_slice());
        assert(out@ == body_of(all, journal_id, next_usn, count, 6));
        push_u32_section(&mut out, self.size_lo.as_slice());
        assert(out@ == body_of(all, journal_id, next_usn, count, 7));
        push_u32_section(&mut out, ovf_ids.as_slice());
        assert(out@ == body_of(all, journal_id, next_usn, count, 8));
        push_u64_section(&mut out, ovf_sizes.as_slice());
        assert(out@ == body_of(all, journal_id, next_usn, count, 9));
        push_u32_section(&mut out, self.mtime.as_slice());
        assert(out@ == body_of(all, journal_id, next_usn, count, 10));
        push_u64_section(&mut out, self.frn.as_slice());
        assert(out@ == body_of(all, journal_id, next_usn, count, 11));
        push_bytes_section(&mut out, self.flag.as_slice());
        assert(out@ == body_of(all, journal_id, next_usn, count, 12));
        push_u32_section(&mut out, self.perm_name.as_slice());
        assert(out@ == body_of(all, journal_id, next_usn, count, 13));
        let sum: u64 = digest(out.as_slice());
        push_u64(&mut out, sum);
        out
    }
}

/// There are no more marked entries than entries.
proof fn lemma_marked_len(size_lo: Seq<u32>, n: int)
    requires
        0 <= n,
    ensures
        marked_sizes(size_lo, n).len() <= n,
    decreases n,
{
    if n > 0 {
        lemma_marked_len(size_lo, n - 1);
    }
}

/// Append the header.
fn push_header(out: &mut Vec<u8>, journal_id: u64, next_usn: i64, count: u64)
    ensures
        final(out)@ == old(out)@ + (magic() + u64_bytes(journal_id) + u64_bytes(
            pattern_of(next_usn),
        ) + u64_bytes(count)),
{
    let ghost before = out@;
    out.push(0x46);
    out.push(0x4D);
    out.push(0x46);
    out.push(0x49);
    out.push(0x44);
    out.push(0x58);
    out.push(0x30);
    out.push(0x37);
    assert(out@ =~= before + magic());
    push_u64(out, journal_id);
    push_u64(out, to_pattern(next_usn));
    push_u64(out, count);
    assert(out@ =~= before + (magic() + u64_bytes(journal_id) + u64_bytes(pattern_of(next_usn))
        + u64_bytes(count)));
}

/// Append a section of bytes.
fn push_bytes_section(out: &mut Vec<u8>, v: &[u8])
    ensures
        final(out)@ == old(out)@ + framed(v@),
{
    push_u64(out, v.len() as u64);
    extend(out, v);
    assert(out@ =~= old(out)@ + framed(v@));
}

/// Append a section of 32-bit values.
fn push_u32_section(out: &mut Vec<u8>, v: &[u32])
    requires
        v@.len() <= 0xFFFF_FFFF,
    ensures
        final(out)@ == old(out)@ + framed(u32s_bytes(v@)),
{
    proof {
        crate::bytes::lemma_u32s(v@);
    }
    push_u64(out, 4 * (v.len() as u64));
    push_u32s(out, v);
    assert(out@ =~= old(out)@ + framed(u32s_bytes(v@)));
}

/// Append a section of 64-bit values.
fn push_u64_section(out: &mut Vec<u8>, v: &[u64])
    requires
        v@.len() <= 0xFFFF_FFFF,
    ensures
        final(out)@ == old(out)@ + framed(u64s_bytes(v@)),
{
    proof {
        crate::bytes::lemma_u64s(v@);
    }
    push_u64(out, 8 * (v.len() as u64));
    push_u64s(out, v);
    assert(out@ =~= old(out)@ + framed(u64s_bytes(v@)));
}

/// The columns of a snapshot, as read.
struct ReadColumns {
    dict_pool: Vec<u8>,
    dict_off: Vec<u32>,
    name_id: Vec<u32>,
    orig_pool: Vec<u8>,
    orig_off: Vec<u32>,
    parent: Vec<u32>,
    size_lo: Vec<u32>,
    ovf_ids: Vec<u32>,
    ovf_sizes: Vec<u64>,
    mtime: Vec<u32>,
    frn: Vec<u64>,
    flag: Vec<u8>,
    perm_name: Vec<u32>,
}

/// What is wrong with a section is wrong with those behind it.
proof fn lemma_section_fault(s: Seq<u8>, k: int, m: int)
    requires
        k <= m,
        section_end(s, k) is Err,
    ensures
        section_end(s, m) == section_end(s, k),
    decreases m - k,
{
    if k < m {
        lemma_section_fault(s, k, m - 1);
    }
}

/// How many bytes a value of a section has.
fn elem_size_of(k: usize) -> (r: u64)
    ensures
        r == elem_size(k as int),
{
    if k == 0 || k == 3 || k == 11 {
        1
    } else if k == 8 || k == 10 {
        8
    } else {
        4
    }
}

/// Where each section ends.
fn section_ends(bytes: &[u8]) -> (r: Result<Vec<usize>, SnapshotError>)
    requires
        bytes@.len() >= 32,
    ensures
        match r {
            Err(e) => section_end(bytes@, SECTIONS as int - 1) == Err::<int, SnapshotError>(e),
            Ok(ends) => ends_of(bytes@, ends@, SECTIONS as int),
        },
{
    let len: usize = bytes.len();
    let mut ends: Vec<usize> = Vec::new();
    let mut at: usize = 32;
    let mut k: usize = 0;
    while k < SECTIONS
        invariant
            len == bytes@.len(),
            k <= SECTIONS,
            at <= len,
            section_end(bytes@, k as int - 1) == Ok::<int, SnapshotError>(at as int),
            ends_of(bytes@, ends@, k as int),
        decreases SECTIONS - k,
    {
        if len - at < 8 {
            proof {
                lemma_section_fault(bytes@, k as int, SECTIONS as int - 1);
            }
            return Err(SnapshotError::Truncated);
        }
        let n: u64 = read_u64(bytes, at);
        let elem: u64 = elem_size_of(k);
        if n > MAX_SECTION_BYTES {
            proof {
                lemma_section_fault(bytes@, k as int, SECTIONS as int - 1);
            }
            return Err(SnapshotError::SectionTooLarge);
        }
        if n % elem != 0 {
            proof {
                lemma_section_fault(bytes@, k as int, SECTIONS as int - 1);
            }
            return Err(SnapshotError::SectionSize);
        }
        if ((len - at - 8) as u64) < n {
            proof {
                lemma_section_fault(bytes@, k as int, SECTIONS as int - 1);
            }
            return Err(SnapshotError::Truncated);
        }
        let ghost before = ends@;
        at = at + 8 + n as usize;
        ends.push(at);
        proof {
            assert forall|j: int| 0 <= j < k + 1 implies section_end(bytes@, j) == Ok::<
                int,
                SnapshotError,
            >((#[trigger] ends@[j]) as int) && ends@[j] <= bytes@.len() by {
                if j < k {
                    assert(ends@[j] == before[j]);
                }
            }
        }
        k = k + 1;
    }
    Ok(ends)
}

/// Where the first `k` sections end.
spec fn ends_of(s: Seq<u8>, ends: Seq<usize>, k: int) -> bool {
    &&& ends.len() == k
    &&& forall|j: int|
        0 <= j < k ==> section_end(s, j) == Ok::<int, SnapshotError>((#[trigger] ends[j]) as int)
            && ends[j] <= s.len()
}

/// The bytes of a section.
fn section<'a>(bytes: &'a [u8], ends: &Vec<usize>, k: usize) -> (r: &'a [u8])
    requires
        bytes@.len() >= 32,
        k < SECTIONS,
        ends_of(bytes@, ends@, SECTIONS as int),
    ensures
        r@ == section_bytes(bytes@, k as int),
        r@.len() <= MAX_SECTION_BYTES,
        r@.len() as int % elem_size(k as int) == 0,
{
    assert(section_end(bytes@, k as int) == Ok::<int, SnapshotError>(ends@[k as int] as int));
    let start: usize = if k == 0 {
        32
    } else {
        assert(section_end(bytes@, k - 1) == Ok::<int, SnapshotError>(ends@[k - 1] as int));
        ends[k - 1]
    };
    slice_subrange(bytes, start + 8, ends[k])
}

/// A copy of bytes.
fn copied(b: &[u8]) -> (r: Vec<u8>)
    ensures
        r@ == b@,
{
    let mut r: Vec<u8> = Vec::new();
    extend(&mut r, b);
    assert(r@ =~= b@);
    r
}

/// Read the columns.
fn read_columns(bytes: &[u8], ends: &Vec<usize>) -> (r: ReadColumns)
    requires
        bytes@.len() >= 32,
        ends_of(bytes@, ends@, SECTIONS as int),
    ensures
        r.view_columns() == columns_in(bytes@),
        r.bounded(),
{
    ReadColumns {
        dict_pool: copied(section(bytes, ends, 0)),
        dict_off: take_u32s(section(bytes, ends, 1)),
        name_id: take_u32s(section(bytes, ends, 2)),
        orig_pool: copied(section(bytes, ends, 3)),
        orig_off: take_u32s(section(bytes, ends, 4)),
        parent: take_u32s(section(bytes, ends, 5)),
        size_lo: take_u32s(section(bytes, ends, 6)),
        ovf_ids: take_u32s(section(bytes, ends, 7)),
        ovf_sizes: take_u64s(section(bytes, ends, 8)),
        mtime: take_u32s(section(bytes, ends, 9)),
        frn: take_u64s(section(bytes, ends, 10)),
        flag: copied(section(bytes, ends, 11)),
        perm_name: take_u32s(section(bytes, ends, 12)),
    }
}

impl ReadColumns {
    spec fn view_columns(&self) -> Columns {
        Columns {
            dict_pool: self.dict_pool@,
            dict_off: self.dict_off@,
            name_id: self.name_id@,
            orig_pool: self.orig_pool@,
            orig_off: self.orig_off@,
            parent: self.parent@,
            size_lo: self.size_lo@,
            ovf_ids: self.ovf_ids@,
            ovf_sizes: self.ovf_sizes@,
            mtime: self.mtime@,
            frn: self.frn@,
            flag: self.flag@,
            perm_name: self.perm_name@,
        }
    }

    /// No column has more bytes than a section can have.
    spec fn bounded(&self) -> bool {
        &&& self.dict_pool@.len() <= MAX_SECTION_BYTES
        &&& self.orig_pool@.len() <= MAX_SECTION_BYTES
        &&& 4 * self.dict_off@.len() <= MAX_SECTION_BYTES
        &&& 4 * self.name_id@.len() <= MAX_SECTION_BYTES
    }

    /// Every column has one value per entry.
    fn lengths_match(&self, count: u64) -> (ok: bool)
        ensures
            ok == lengths_ok(self.view_columns(), count as int),
    {
        self.name_id.len() as u64 == count && self.orig_off.len() as u64 == count
            && self.parent.len() as u64 == count && self.size_lo.len() as u64 == count
            && self.mtime.len() as u64 == count && self.frn.len() as u64 == count
            && self.flag.len() as u64 == count && self.perm_name.len() as u64 == count
    }

    /// Where a name of the dictionary ends.
    fn name_end(&self, k: usize) -> (r: usize)
        requires
            k < self.dict_off@.len(),
        ensures
            r == dict_end(self.dict_pool@, self.dict_off@, k as int),
    {
        if k < self.dict_off.len() - 1 {
            self.dict_off[k + 1] as usize
        } else {
            self.dict_pool.len()
        }
    }

    /// Every name lies inside the dictionary.
    fn dict_fits(&self) -> (ok: bool)
        ensures
            ok == (forall|k: int|
                0 <= k < self.dict_off@.len() ==> #[trigger] dict_slice_ok(self.view_columns(), k)),
    {
        let mut k: usize = 0;
        while k < self.dict_off.len()
            invariant
                k <= self.dict_off@.len(),
                forall|j: int| 0 <= j < k ==> #[trigger] dict_slice_ok(self.view_columns(), j),
            decreases self.dict_off@.len() - k,
        {
            let end: usize = self.name_end(k);
            if self.dict_off[k] as usize > end || end > self.dict_pool.len() {
                assert(!dict_slice_ok(self.view_columns(), k as int));
                return false;
            }
            k = k + 1;
        }
        true
    }

    /// What is wrong with the first faulty name of an entry.
    fn names_fit(&self) -> (r: Option<SnapshotError>)
        requires
            self.bounded(),
            self.orig_off@.len() == self.name_id@.len(),
            forall|k: int|
                0 <= k < self.dict_off@.len() ==> #[trigger] dict_slice_ok(self.view_columns(), k),
        ensures
            r == first_name_fault(self.view_columns(), self.name_id@.len() as int),
    {
        let ghost c = self.view_columns();
        let n: usize = self.name_id.len();
        let mut i: usize = 0;
        while i < n
            invariant
                self.bounded(),
                c == self.view_columns(),
                n == self.name_id@.len(),
                self.orig_off@.len() == n,
                i <= n,
                forall|k: int| 0 <= k < self.dict_off@.len() ==> #[trigger] dict_slice_ok(c, k),
                first_name_fault(c, i as int) is None,
            decreases n - i,
        {
            let k: usize = self.name_id[i] as usize;
            if k >= self.dict_off.len() {
                proof {
                    lemma_name_fault_stays(c, i + 1, n as int);
                }
                return Some(SnapshotError::NameId);
            }
            assert(dict_slice_ok(c, k as int));
            let len: usize = self.name_end(k) - self.dict_off[k] as usize;
            let off: u32 = self.orig_off[i];
            if off != NONE && off as u64 + len as u64 > self.orig_pool.len() as u64 {
                proof {
                    lemma_name_fault_stays(c, i + 1, n as int);
                }
                return Some(SnapshotError::NameSlice);
            }
            i = i + 1;
        }
        None
    }

    /// How many entries are marked as having large sizes.
    fn marks(&self) -> (r: usize)
        ensures
            r == marked_sizes(self.size_lo@, self.size_lo@.len() as int).len(),
    {
        let n: usize = self.size_lo.len();
        let mut found: usize = 0;
        let mut i: usize = 0;
        while i < n
            invariant
                n == self.size_lo@.len(),
                i <= n,
                found <= i,
                found == marked_sizes(self.size_lo@, i as int).len(),
            decreases n - i,
        {
            if self.size_lo[i] == NONE {
                found = found + 1;
            }
            i = i + 1;
        }
        found
    }

    /// Every large size is where a mark is, and is large.
    fn pairs_fit(&self) -> (ok: bool)
        requires
            self.ovf_ids@.len() == self.ovf_sizes@.len(),
        ensures
            ok == (forall|i: int|
                0 <= i < self.ovf_ids@.len() ==> #[trigger] pair_ok(self.view_columns(), i)),
    {
        let mut i: usize = 0;
        while i < self.ovf_ids.len()
            invariant
                self.ovf_ids@.len() == self.ovf_sizes@.len(),
                i <= self.ovf_ids@.len(),
                forall|j: int| 0 <= j < i ==> #[trigger] pair_ok(self.view_columns(), j),
            decreases self.ovf_ids@.len() - i,
        {
            let id: u32 = self.ovf_ids[i];
            let ascending: bool = i == 0 || self.ovf_ids[i - 1] < id;
            if !ascending || id as usize >= self.size_lo.len() || self.size_lo[id as usize] != NONE
                || self.ovf_sizes[i] < NONE as u64 {
                assert(!pair_ok(self.view_columns(), i as int));
                return false;
            }
            i = i + 1;
        }
        true
    }

    /// Every parent is an entry or none.
    fn parents_fit(&self) -> (ok: bool)
        ensures
            ok == (forall|i: int|
                0 <= i < self.parent@.len() ==> #[trigger] parent_ok(self.view_columns(), i)),
    {
        let n: usize = self.parent.len();
        let mut i: usize = 0;
        while i < n
            invariant
                n == self.parent@.len(),
                i <= n,
                forall|j: int| 0 <= j < i ==> #[trigger] parent_ok(self.view_columns(), j),
            decreases n - i,
        {
            let p: u32 = self.parent[i];
            if p != NO_PARENT && p as usize >= n {
                assert(!parent_ok(self.view_columns(), i as int));
                return false;
            }
            i = i + 1;
        }
        true
    }

    /// Why the columns do not fit together, if they do not.
    fn check(&self, count: u64) -> (r: Option<SnapshotError>)
        requires
            self.bounded(),
        ensures
            r == misfit(self.view_columns(), count as int),
    {
        if !self.lengths_match(count) {
            return Some(SnapshotError::ColumnLength);
        }
        if !self.dict_fits() {
            return Some(SnapshotError::DictSlice);
        }
        match self.names_fit() {
            Some(e) => {
                return Some(e);
            },
            None => {},
        }
        if self.ovf_ids.len() != self.ovf_sizes.len() {
            return Some(SnapshotError::OverflowLength);
        }
        if self.marks() != self.ovf_ids.len() {
            return Some(SnapshotError::OverflowSentinel);
        }
        if !self.pairs_fit() {
            return Some(SnapshotError::OverflowPair);
        }
        if !self.parents_fit() {
            return Some(SnapshotError::ParentRange);
        }
        if !check_permutation(&self.perm_name) {
            return Some(SnapshotError::Permutation);
        }
        None
    }
}

/// The first fault stays the first.
proof fn lemma_name_fault_stays(c: Columns, m: int, n: int)
    requires
        m <= n,
        first_name_fault(c, m) is Some,
    ensures
        first_name_fault(c, n) == first_name_fault(c, m),
    decreases n - m,
{
    if m < n {
        lemma_name_fault_stays(c, m, n - 1);
    }
}

/// Names before a fault are without one.
proof fn lemma_no_name_fault(c: Columns, n: int, i: int)
    requires
        first_name_fault(c, n) is None,
        0 <= i < n,
    ensures
        name_fault(c, i) is None,
    decreases n,
{
    if i < n - 1 {
        lemma_no_name_fault(c, n - 1, i);
    }
}

/// Names that lie inside a dictionary follow each other.
proof fn lemma_dict_ascends(c: Columns, i: int, j: int)
    requires
        forall|k: int| 0 <= k < c.dict_off.len() ==> #[trigger] dict_slice_ok(c, k),
        0 <= i <= j < c.dict_off.len(),
    ensures
        c.dict_off[i] <= c.dict_off[j],
    decreases j - i,
{
    if i < j {
        lemma_dict_ascends(c, i, j - 1);
        assert(dict_slice_ok(c, j - 1));
    }
}

/// The marked entries ascend, and are those with the mark.
proof fn lemma_marked(size_lo: Seq<u32>, n: int)
    requires
        0 <= n <= size_lo.len(),
        n <= 0xFFFF_FFFF,
    ensures
        strictly_ascends(marked_sizes(size_lo, n)),
        forall|x: int| #[trigger]
            occurs(marked_sizes(size_lo, n), x) <==> 0 <= x < n && size_lo[x] == NONE,
        forall|i: int|
            0 <= i < marked_sizes(size_lo, n).len() ==> (#[trigger] marked_sizes(size_lo, n)[i])
                < n && size_lo[marked_sizes(size_lo, n)[i] as int] == NONE,
    decreases n,
{
    let s = marked_sizes(size_lo, n);
    if n > 0 {
        lemma_marked(size_lo, n - 1);
        let t = marked_sizes(size_lo, n - 1);
        assert forall|i: int| 0 <= i < s.len() implies (#[trigger] s[i]) < n && size_lo[s[i] as int]
            == NONE by {
            if i < t.len() {
                assert(s[i] == t[i]);
            }
        }
        assert forall|i: int, j: int| 0 <= i < j < s.len() implies (#[trigger] s[i]) < (
        #[trigger] s[j]) by {
            assert(s[i] == t[i]);
            if j < t.len() {
                assert(s[j] == t[j]);
            }
        }
        assert forall|x: int| #[trigger] occurs(s, x) <==> 0 <= x < n && size_lo[x] == NONE by {
            assert(occurs(t, x) <==> 0 <= x < n - 1 && size_lo[x] == NONE);
            if occurs(t, x) {
                let i = choose|i: int| 0 <= i < t.len() && #[trigger] t[i] == x;
                assert(s[i] == x);
            }
            if occurs(s, x) {
                let i = choose|i: int| 0 <= i < s.len() && #[trigger] s[i] == x;
                assert(s[i] < n);
            }
            if x == n - 1 && size_lo[x] == NONE {
                assert(s[t.len() as int] == x);
            }
        }
    } else {
        assert forall|x: int| #[trigger] occurs(s, x) <==> 0 <= x < n && size_lo[x] == NONE by {}
    }
}

/// Where an ascending list is part of another, its items are at least as far
/// behind there.
proof fn lemma_place_grows(a: Seq<u32>, b: Seq<u32>, i: int, j: int)
    requires
        strictly_ascends(a),
        strictly_ascends(b),
        forall|k: int| 0 <= k < a.len() ==> occurs(b, (#[trigger] a[k]) as int),
        0 <= i < a.len(),
        0 <= j < b.len(),
        b[j] == a[i],
    ensures
        j >= i,
    decreases i,
{
    if i > 0 {
        assert(occurs(b, a[i - 1] as int));
        let k = choose|k: int| 0 <= k < b.len() && #[trigger] b[k] == a[i - 1] as int;
        lemma_place_grows(a, b, i - 1, k);
        assert(a[i - 1] < a[i]);
        if j <= k {
            assert(b[j] <= b[k]);
        }
    }
}

/// An ascending list that is part of another of the same length is the same.
proof fn lemma_same_ascending(a: Seq<u32>, b: Seq<u32>)
    requires
        strictly_ascends(a),
        strictly_ascends(b),
        a.len() == b.len(),
        forall|k: int| 0 <= k < a.len() ==> occurs(b, (#[trigger] a[k]) as int),
    ensures
        a == b,
    decreases a.len(),
{
    if a.len() > 0 {
        let n = a.len() - 1;
        assert(occurs(b, a[n] as int));
        let j = choose|j: int| 0 <= j < b.len() && #[trigger] b[j] == a[n] as int;
        lemma_place_grows(a, b, n, j);
        assert(a[n] == b[n]);
        let c = a.drop_last();
        let d = b.drop_last();
        assert forall|k: int| 0 <= k < c.len() implies occurs(d, (#[trigger] c[k]) as int) by {
            assert(occurs(b, a[k] as int));
            let m = choose|m: int| 0 <= m < b.len() && #[trigger] b[m] == a[k] as int;
            assert(a[k] < a[n]);
            assert(m < n);
            assert(d[m] == c[k] as int);
        }
        lemma_same_ascending(c, d);
        assert(a =~= c.push(a[n]));
        assert(b =~= d.push(b[n]));
    } else {
        assert(a =~= b);
    }
}

/// The large sizes of columns that fit together are of the marked entries.
proof fn lemma_pairs(c: Columns)
    requires
        c.size_lo.len() <= 0xFFFF_FFFF,
        c.ovf_ids.len() == c.ovf_sizes.len(),
        marked_sizes(c.size_lo, c.size_lo.len() as int).len() == c.ovf_ids.len(),
        forall|i: int| 0 <= i < c.ovf_ids.len() ==> #[trigger] pair_ok(c, i),
    ensures
        c.ovf_ids == marked_sizes(c.size_lo, c.size_lo.len() as int),
{
    let n = c.size_lo.len() as int;
    let a = c.ovf_ids;
    let b = marked_sizes(c.size_lo, n);
    lemma_marked(c.size_lo, n);
    assert forall|i: int, j: int| 0 <= i < j < a.len() implies (#[trigger] a[i]) < (
    #[trigger] a[j]) by {
        lemma_pairs_ascend(c, i, j);
    }
    assert forall|k: int| 0 <= k < a.len() implies occurs(b, (#[trigger] a[k]) as int) by {
        assert(pair_ok(c, k));
    }
    lemma_same_ascending(a, b);
}

proof fn lemma_pairs_ascend(c: Columns, i: int, j: int)
    requires
        forall|k: int| 0 <= k < c.ovf_ids.len() ==> #[trigger] pair_ok(c, k),
        0 <= i < j < c.ovf_ids.len(),
    ensures
        c.ovf_ids[i] < c.ovf_ids[j],
    decreases j - i,
{
    assert(pair_ok(c, j));
    if i < j - 1 {
        lemma_pairs_ascend(c, i, j - 1);
    }
}

/// The map of the large sizes.
fn size_map(ids: &Vec<u32>, sizes: &Vec<u64>) -> (r: FxHashMap<u32, u64>)
    requires
        ids@.len() == sizes@.len(),
        strictly_ascends(ids@),
    ensures
        forall|k: u32| #[trigger] r@.contains_key(k) <==> occurs(ids@, k as int),
        forall|i: int| 0 <= i < ids@.len() ==> r@[#[trigger] ids@[i]] == sizes@[i],
{
    let mut r: FxHashMap<u32, u64> = new_size_map();
    let mut i: usize = 0;
    proof {
        assert forall|k: u32| #[trigger] r@.contains_key(k) <==> occurs(ids@.take(0), k as int) by {
            assert(!r@.dom().contains(k));
        }
    }
    while i < ids.len()
        invariant
            ids@.len() == sizes@.len(),
            strictly_ascends(ids@),
            i <= ids@.len(),
            forall|k: u32| #[trigger]
                r@.contains_key(k) <==> occurs(ids@.take(i as int), k as int),
            forall|j: int| 0 <= j < i ==> r@[#[trigger] ids@[j]] == sizes@[j],
        decreases ids@.len() - i,
    {
        let ghost before = r@;
        let ghost t = ids@.take(i as int);
        let ghost u = ids@.take(i + 1);
        size_map_insert(&mut r, ids[i], sizes[i]);
        proof {
            assert forall|k: u32| #[trigger] r@.contains_key(k) <==> occurs(u, k as int) by {
                assert(before.contains_key(k) <==> occurs(t, k as int));
                if occurs(t, k as int) {
                    let j = choose|j: int| 0 <= j < t.len() && #[trigger] t[j] == k as int;
                    assert(u[j] == k as int);
                }
                if occurs(u, k as int) {
                    let j = choose|j: int| 0 <= j < u.len() && #[trigger] u[j] == k as int;
                    if j < i {
                        assert(t[j] == k as int);
                    }
                }
                assert(u[i as int] == ids@[i as int] as int);
            }
            assert forall|j: int| 0 <= j < i + 1 implies r@[#[trigger] ids@[j]] == sizes@[j] by {
                if j < i {
                    assert(ids@[j] < ids@[i as int]);
                }
            }
        }
        i = i + 1;
    }
    assert(ids@.take(i as int) =~= ids@);
    r
}

/// The number of tombstoned flags.
fn count_dead(flag: &Vec<u8>) -> (r: u32)
    requires
        flag@.len() <= 0xFFFF_FFFF,
    ensures
        r == dead_count(flag@),
{
    let mut dead: u32 = 0;
    let mut i: usize = 0;
    assert(flag@.take(0) =~= Seq::empty());
    while i < flag.len()
        invariant
            i <= flag@.len(),
            flag@.len() <= 0xFFFF_FFFF,
            dead == dead_count(flag@.take(i as int)),
            dead <= i,
        decreases flag@.len() - i,
    {
        proof {
            assert(flag@.take(i + 1).drop_last() =~= flag@.take(i as int));
            assert(flag@.take(i + 1).last() == flag@[i as int]);
        }
        if flag[i] & TOMBSTONE != 0 {
            dead = dead + 1;
        }
        i = i + 1;
    }
    assert(flag@.take(i as int) =~= flag@);
    dead
}

impl VolumeIndex {
    /// The bytes that dead entries own.
    fn count_dead_owned(&self) -> (r: u64)
        requires
            self.columns_wf(),
            self.dict_pool@.len() <= MAX_SECTION_BYTES,
        ensures
            r == self.dead_owned(self.count()),
    {
        let n: u32 = self.len() as u32;
        let mut sum: u64 = 0;
        let mut id: u32 = 0;
        while id < n
            invariant
                self.columns_wf(),
                self.dict_pool@.len() <= MAX_SECTION_BYTES,
                n == self.count(),
                id <= n,
                sum == self.dead_owned(id as int),
                sum <= id * MAX_SECTION_BYTES,
            decreases n - id,
        {
            proof {
                self.lemma_lower(id as int);
                assert(id * MAX_SECTION_BYTES + MAX_SECTION_BYTES == (id + 1) * MAX_SECTION_BYTES)
                    by (nonlinear_arith);
                assert(id * MAX_SECTION_BYTES <= 0xFFFF_FFFF * MAX_SECTION_BYTES)
                    by (nonlinear_arith)
                    requires
                        id <= 0xFFFF_FFFF,
                ;
            }
            if !self.is_live(id) {
                sum = sum + self.owned_name_bytes(id);
            }
            id = id + 1;
        }
        sum
    }
}

/// An index over columns that fit together.
fn restore(c: ReadColumns) -> (out: VolumeIndex)
    requires
        c.bounded(),
        misfit(c.view_columns(), c.name_id@.len() as int) is None,
    ensures
        out.restored(c.view_columns()),
{
    let ghost v = c.view_columns();
    let ghost n = c.name_id@.len() as int;
    proof {
        lemma_pairs(v);
        lemma_marked(v.size_lo, n);
    }
    let size_ovf: FxHashMap<u32, u64> = size_map(&c.ovf_ids, &c.ovf_sizes);
    let frn_index: FrnIndex = FrnIndex::build(c.frn.as_slice(), c.flag.as_slice());
    let tombstones: u32 = count_dead(&c.flag);
    let mut out = VolumeIndex {
        dict_pool: c.dict_pool,
        dict_off: c.dict_off,
        name_id: c.name_id,
        orig_pool: c.orig_pool,
        orig_off: c.orig_off,
        parent: c.parent,
        size_lo: c.size_lo,
        size_ovf,
        mtime: c.mtime,
        frn: c.frn,
        flag: c.flag,
        frn_index,
        perm_name: c.perm_name,
        content_generation: 0,
        structural_generation: 0,
        stat_generation: 0,
        dir_topology_generation: 0,
        exclusion_tree_dirty: false,
        tombstones,
        dead_name_bytes: 0,
        dict_appends_since_dedup: 0,
    };
    proof {
        assert(dict_wf(out.dict_pool@, out.dict_off@)) by {
            assert forall|i: int, j: int| 0 <= i <= j < v.dict_off.len() implies (
            #[trigger] v.dict_off[i]) <= (#[trigger] v.dict_off[j]) by {
                lemma_dict_ascends(v, i, j);
            }
            assert forall|i: int| 0 <= i < v.dict_off.len() implies (#[trigger] v.dict_off[i])
                <= v.dict_pool.len() by {
                assert(dict_slice_ok(v, i));
            }
        }
        assert forall|i: int| 0 <= i < n implies (#[trigger] out.name_id@[i])
            < out.dict_off@.len() by {
            lemma_no_name_fault(v, n, i);
        }
        assert(out.originals_wf()) by {
            assert forall|i: int|
                0 <= i < out.orig_off@.len() && #[trigger] out.orig_off@[i] != NONE implies out.orig_off@[i]
                + out.lower(i).len() <= out.orig_pool@.len() by {
                lemma_no_name_fault(v, n, i);
            }
        }
        assert(out.sizes_wf()) by {
            assert forall|i: int| 0 <= i < out.size_lo@.len() implies (#[trigger] out.size_lo@[i]
                == NONE <==> out.size_ovf@.contains_key(i as u32)) by {
                assert(occurs(v.ovf_ids, i) <==> v.size_lo[i] == NONE);
            }
            assert forall|k: u32| #[trigger] out.size_ovf@.contains_key(k) implies k
                < out.size_lo@.len() && out.size_ovf@[k] >= NONE by {
                assert(occurs(v.ovf_ids, k as int));
                let i = choose|i: int| 0 <= i < v.ovf_ids.len() && #[trigger] v.ovf_ids[i]
                    == k as int;
                assert(pair_ok(v, i));
            }
        }
        assert forall|i: int| 0 <= i < n implies #[trigger] out.parent@[i] == NO_PARENT
            || out.parent@[i] < n by {
            assert(parent_ok(v, i));
        }
        assert(out.columns_wf());
    }
    let dead: u64 = out.count_dead_owned();
    let ghost before = out;
    out.dead_name_bytes = dead;
    proof {
        out.lemma_originals_same(&before);
        assert(out.columns().ovf_sizes =~= v.ovf_sizes);
        out.lemma_same_dead_owned(&before, n);
    }
    out
}

impl VolumeIndex {
    proof fn lemma_same_dead_owned(&self, other: &VolumeIndex, n: int)
        requires
            self.flag == other.flag,
            self.orig_off == other.orig_off,
            self.name_id == other.name_id,
            self.dict_pool == other.dict_pool,
            self.dict_off == other.dict_off,
        ensures
            self.dead_owned(n) == other.dead_owned(n),
        decreases n,
    {
        if n > 0 {
            self.lemma_same_dead_owned(other, n - 1);
        }
    }

    /// Read an index and the checkpoint of the change journal from the bytes
    /// of a snapshot. Bytes behind it are not looked at.
    pub fn read_snapshot(bytes: &[u8]) -> (r: Result<(VolumeIndex, u64, i64), SnapshotError>)
        ensures
            match unreadable(bytes@) {
                Some(e) => r == Err::<(VolumeIndex, u64, i64), SnapshotError>(e),
                None => {
                    &&& r is Ok
                    &&& r->Ok_0.0.restored(columns_in(bytes@))
                    &&& r->Ok_0.1 == u64_at(bytes@, 8)
                    &&& r->Ok_0.2 == i64_at(bytes@, 16)
                },
            },
    {
        if bytes.len() < 32 {
            return Err(SnapshotError::Truncated);
        }
        if !starts_with_magic(bytes) {
            return Err(SnapshotError::BadMagic);
        }
        let journal_id: u64 = read_u64(bytes, 8);
        let next_usn: i64 = read_i64(bytes, 16);
        let count: u64 = read_u64(bytes, 24);
        let ends: Vec<usize> = match section_ends(bytes) {
            Ok(ends) => ends,
            Err(e) => {
                return Err(e);
            },
        };
        let end: usize = ends[SECTIONS - 1];
        assert(section_end(bytes@, SECTIONS as int - 1) == Ok::<int, SnapshotError>(end as int));
        if bytes.len() - end < 8 {
            return Err(SnapshotError::Truncated);
        }
        let body: &[u8] = slice_subrange(bytes, 0, end);
        assert(body@ =~= bytes@.take(end as int));
        if read_u64(bytes, end) != digest(body) {
            return Err(SnapshotError::Checksum);
        }
        let columns: ReadColumns = read_columns(bytes, &ends);
        match columns.check(count) {
            Some(e) => {
                return Err(e);
            },
            None => {},
        }
        Ok((restore(columns), journal_id, next_usn))
    }
}

/// Whether bytes start as a snapshot does.
fn starts_with_magic(bytes: &[u8]) -> (r: bool)
    requires
        bytes@.len() >= 8,
    ensures
        r == (bytes@.take(8) == magic()),
{
    let r: bool = bytes[0] == 0x46 && bytes[1] == 0x4D && bytes[2] == 0x46 && bytes[3] == 0x49
        && bytes[4] == 0x44 && bytes[5] == 0x58 && bytes[6] == 0x30 && bytes[7] == 0x37;
    proof {
        let t = bytes@.take(8);
        if r {
            assert(t =~= magic());
        } else {
            assert(t[0] == bytes@[0] && t[1] == bytes@[1] && t[2] == bytes@[2] && t[3] == bytes@[3]
                && t[4] == bytes@[4] && t[5] == bytes@[5] && t[6] == bytes@[6] && t[7]
                == bytes@[7]);
            assert(magic()[0] == 0x46 && magic()[1] == 0x4D && magic()[2] == 0x46 && magic()[3]
                == 0x49 && magic()[4] == 0x44 && magic()[5] == 0x58 && magic()[6] == 0x30
                && magic()[7] == 0x37);
        }
    }
    r
}

/// Fewer sections are the start of more.
proof fn lemma_body_prefix(
    sections: Seq<Seq<u8>>,
    journal_id: u64,
    next_usn: i64,
    count: int,
    k: int,
    m: int,
)
    requires
        0 <= k <= m,
    ensures
        body_of(sections, journal_id, next_usn, count, k).is_prefix_of(
            body_of(sections, journal_id, next_usn, count, m),
        ),
        body_of(sections, journal_id, next_usn, count, k).len() >= 32,
    decreases m,
{
    if k < m {
        lemma_body_prefix(sections, journal_id, next_usn, count, k, m - 1);
        let a = body_of(sections, journal_id, next_usn, count, k);
        let b = body_of(sections, journal_id, next_usn, count, m - 1);
        let c = body_of(sections, journal_id, next_usn, count, m);
        assert(c.take(a.len() as int) =~= b.take(a.len() as int));
        assert(a =~= c.take(a.len() as int));
    } else if k > 0 {
        lemma_body_prefix(sections, journal_id, next_usn, count, k - 1, k - 1);
    }
}

/// The sections that were written are found.
proof fn lemma_sections_found(
    s: Seq<u8>,
    sections: Seq<Seq<u8>>,
    journal_id: u64,
    next_usn: i64,
    count: int,
    k: int,
)
    requires
        0 <= k <= SECTIONS,
        sections.len() == SECTIONS,
        body_of(sections, journal_id, next_usn, count, SECTIONS as int).is_prefix_of(s),
        forall|i: int|
            0 <= i < k ==> (#[trigger] sections[i]).len() <= MAX_SECTION_BYTES
                && sections[i].len() as int % elem_size(i) == 0,
    ensures
        section_end(s, k - 1) == Ok::<int, SnapshotError>(
            body_of(sections, journal_id, next_usn, count, k).len() as int,
        ),
        forall|i: int| 0 <= i < k ==> #[trigger] section_bytes(s, i) == sections[i],
    decreases k,
{
    if k > 0 {
        lemma_sections_found(s, sections, journal_id, next_usn, count, k - 1);
        lemma_body_prefix(sections, journal_id, next_usn, count, k, SECTIONS as int);
        let a = body_of(sections, journal_id, next_usn, count, k - 1);
        let b = body_of(sections, journal_id, next_usn, count, k);
        let whole = body_of(sections, journal_id, next_usn, count, SECTIONS as int);
        let sec = sections[k - 1];
        let at = a.len() as int;
        assert(b == a + framed(sec));
        assert(s.take(b.len() as int) =~= b) by {
            assert(s.take(whole.len() as int) =~= whole);
            assert(whole.take(b.len() as int) =~= b);
            assert(s.take(b.len() as int) =~= whole.take(b.len() as int));
        }
        assert(s.subrange(at, at + 8) =~= u64_bytes(sec.len() as u64)) by {
            assert(s.subrange(at, at + 8) =~= b.subrange(at, at + 8));
            assert(b.subrange(at, at + 8) =~= u64_bytes(sec.len() as u64));
        }
        crate::bytes::lemma_u64_bytes(s, at, sec.len() as u64);
        assert(section_end(s, k - 1) == Ok::<int, SnapshotError>(at + 8 + sec.len()));
        assert(section_bytes(s, k - 1) =~= sec) by {
            assert(s.subrange(at + 8, at + 8 + sec.len()) =~= b.subrange(
                at + 8,
                at + 8 + sec.len(),
            ));
        }
    }
}

/// Every section of the columns is small enough to be read.
pub open spec fn sections_fit(c: Columns) -> bool {
    forall|k: int| 0 <= k < SECTIONS ==> (#[trigger] sections_of(c)[k]).len() <= MAX_SECTION_BYTES
}

/// The columns of an index fit together.
proof fn lemma_columns_fit(index: VolumeIndex)
    requires
        index.wf(),
        index.perm_name@.len() == index.count(),
    ensures
        misfit(index.columns(), index.count()) is None,
{
    let c = index.columns();
    let n = index.count();
    lemma_marked(index.size_lo@, n);
    assert forall|k: int| 0 <= k < c.dict_off.len() implies #[trigger] dict_slice_ok(c, k) by {
        assert(c.dict_off[k] <= c.dict_pool.len());
        if k + 1 < c.dict_off.len() {
            assert(c.dict_off[k] <= c.dict_off[k + 1]);
            assert(c.dict_off[k + 1] <= c.dict_pool.len());
        }
    }
    lemma_names_fit(index, n);
    assert forall|i: int| 0 <= i < c.ovf_ids.len() implies #[trigger] pair_ok(c, i) by {
        let id = c.ovf_ids[i];
        assert(id < n && index.size_lo@[id as int] == NONE);
        assert(index.size_ovf@.contains_key(id));
        if i > 0 {
            assert(c.ovf_ids[i - 1] < c.ovf_ids[i]);
        }
    }
    assert forall|i: int| 0 <= i < n implies #[trigger] parent_ok(c, i) by {
        assert(index.parent@[i] == NO_PARENT || index.parent@[i] < n);
    }
}

proof fn lemma_names_fit(index: VolumeIndex, n: int)
    requires
        index.wf(),
        0 <= n <= index.count(),
    ensures
        first_name_fault(index.columns(), n) is None,
    decreases n,
{
    if n > 0 {
        lemma_names_fit(index, n - 1);
        assert(index.name_id@[n - 1] < index.dict_off@.len());
        assert(index.orig_off@[n - 1] != NONE ==> index.orig_off@[n - 1] + index.lower(
            n - 1,
        ).len() <= index.orig_pool@.len());
    }
}

/// The header that was written is read back.
proof fn lemma_header(s: Seq<u8>, journal_id: u64, next_usn: i64, count: u64)
    requires
        s.len() >= 32,
        s.take(32) == magic() + u64_bytes(journal_id) + u64_bytes(pattern_of(next_usn))
            + u64_bytes(count),
    ensures
        s.take(8) == magic(),
        u64_at(s, 8) == journal_id,
        i64_at(s, 16) == next_usn,
        u64_at(s, 24) == count,
{
    let head = s.take(32);
    let a = u64_bytes(journal_id);
    let b = u64_bytes(pattern_of(next_usn));
    let c = u64_bytes(count);
    assert(s.take(8) =~= head.take(8));
    assert(head.take(8) =~= magic());
    assert(s.subrange(8, 16) =~= a) by {
        assert(s.subrange(8, 16) =~= head.subrange(8, 16));
        assert(head.subrange(8, 16) =~= a);
    }
    assert(s.subrange(16, 24) =~= b) by {
        assert(s.subrange(16, 24) =~= head.subrange(16, 24));
        assert(head.subrange(16, 24) =~= b);
    }
    assert(s.subrange(24, 32) =~= c) by {
        assert(s.subrange(24, 32) =~= head.subrange(24, 32));
        assert(head.subrange(24, 32) =~= c);
    }
    crate::bytes::lemma_u64_bytes(s, 8, journal_id);
    crate::bytes::lemma_u64_bytes(s, 16, pattern_of(next_usn));
    crate::bytes::lemma_pattern(next_usn);
    crate::bytes::lemma_u64_bytes(s, 24, count);
}

/// The frame of a snapshot is read back, and the columns in it.
proof fn lemma_framing(c: Columns, journal_id: u64, next_usn: i64)
    requires
        sections_fit(c),
        c.name_id.len() <= u64::MAX,
    ensures
        ({
            let s = snapshot_of(c, journal_id, next_usn);
            let end = section_end(s, SECTIONS as int - 1);
            &&& s.len() >= 32
            &&& s.take(8) == magic()
            &&& u64_at(s, 8) == journal_id
            &&& i64_at(s, 16) == next_usn
            &&& u64_at(s, 24) == c.name_id.len()
            &&& end is Ok
            &&& end->Ok_0 + 8 == s.len()
            &&& u64_at(s, end->Ok_0) == digest_of(s.take(end->Ok_0))
            &&& columns_in(s) == c
        }),
{
    let count = c.name_id.len() as int;
    let all = sections_of(c);
    let body = body_of(all, journal_id, next_usn, count, SECTIONS as int);
    let s = snapshot_of(c, journal_id, next_usn);
    lemma_sections(c);
    lemma_section_sizes(c);
    assert(s =~= body + u64_bytes(digest_of(body)));
    assert(s.take(body.len() as int) =~= body);
    lemma_frame_parts(s, all, body, journal_id, next_usn, count);
    lemma_columns_read(s, c);
}

proof fn lemma_frame_parts(
    s: Seq<u8>,
    all: Seq<Seq<u8>>,
    body: Seq<u8>,
    journal_id: u64,
    next_usn: i64,
    count: int,
)
    requires
        all.len() == SECTIONS,
        forall|i: int|
            0 <= i < SECTIONS ==> (#[trigger] all[i]).len() <= MAX_SECTION_BYTES
                && all[i].len() as int % elem_size(i) == 0,
        0 <= count <= u64::MAX,
        body == body_of(all, journal_id, next_usn, count, SECTIONS as int),
        s == body + u64_bytes(digest_of(body)),
        s.take(body.len() as int) == body,
    ensures
        s.len() == body.len() + 8,
        s.len() >= 32,
        s.take(8) == magic(),
        u64_at(s, 8) == journal_id,
        i64_at(s, 16) == next_usn,
        u64_at(s, 24) == count,
        section_end(s, SECTIONS as int - 1) == Ok::<int, SnapshotError>(body.len() as int),
        u64_at(s, body.len() as int) == digest_of(body),
        forall|i: int| 0 <= i < SECTIONS ==> #[trigger] section_bytes(s, i) == all[i],
{
    lemma_body_prefix(all, journal_id, next_usn, count, 0, SECTIONS as int);
    let head = body_of(all, journal_id, next_usn, count, 0);
    assert(head.len() == 32);
    assert(s.take(32) =~= head) by {
        assert(body.take(32) =~= head);
        assert(s.take(32) =~= body.take(32));
    }
    lemma_header(s, journal_id, next_usn, count as u64);
    lemma_sections_found(s, all, journal_id, next_usn, count, SECTIONS as int);
    let end = body.len() as int;
    assert(s.subrange(end, end + 8) =~= u64_bytes(digest_of(body)));
    crate::bytes::lemma_u64_bytes(s, end, digest_of(body));
}

/// What a snapshot gives back of an index: reading its bytes succeeds, and
/// gives the columns and the checkpoint that were written.
pub proof fn lemma_snapshot_round_trip(index: VolumeIndex, journal_id: u64, next_usn: i64)
    requires
        index.wf(),
        index.perm_name@.len() == index.count(),
        sections_fit(index.columns()),
    ensures
        ({
            let s = snapshot_of(index.columns(), journal_id, next_usn);
            &&& unreadable(s) is None
            &&& columns_in(s) == index.columns()
            &&& u64_at(s, 8) == journal_id
            &&& i64_at(s, 16) == next_usn
        }),
{
    let c = index.columns();
    lemma_framing(c, journal_id, next_usn);
    lemma_columns_fit(index);
}

/// Where a section ends is read the same from the start of the bytes, unless
/// these are too few.
proof fn lemma_section_cut(s: Seq<u8>, n: int, k: int)
    requires
        0 <= n <= s.len(),
    ensures
        section_end(s.take(n), k) == section_end(s, k) || section_end(s.take(n), k) == Err::<
            int,
            SnapshotError,
        >(SnapshotError::Truncated),
        section_end(s, k) matches Ok(end) ==> end >= 32,
    decreases k + 1,
{
    if k >= 0 {
        lemma_section_cut(s, n, k - 1);
        match section_end(s, k - 1) {
            Ok(at) => {
                if at + 8 <= n {
                    assert(u64_at(s.take(n), at) == u64_at(s, at));
                }
            },
            Err(_) => {},
        }
    }
}

/// Every section of the columns of an index has a length that fits its frame.
proof fn lemma_section_lengths(index: VolumeIndex, k: int)
    requires
        index.wf(),
        0 <= k < SECTIONS,
    ensures
        sections_of(index.columns())[k].len() <= u64::MAX,
{
    let c = index.columns();
    lemma_sections(c);
    lemma_marked_len(index.size_lo@, index.count());
    crate::bytes::lemma_u32s(c.dict_off);
    crate::bytes::lemma_u32s(c.name_id);
    crate::bytes::lemma_u32s(c.orig_off);
    crate::bytes::lemma_u32s(c.parent);
    crate::bytes::lemma_u32s(c.size_lo);
    crate::bytes::lemma_u32s(c.ovf_ids);
    crate::bytes::lemma_u64s(c.ovf_sizes);
    crate::bytes::lemma_u32s(c.mtime);
    crate::bytes::lemma_u64s(c.frn);
    crate::bytes::lemma_u32s(c.perm_name);
    assert(index.dict_pool.len() == c.dict_pool.len());
    assert(index.orig_pool.len() == c.orig_pool.len());
    assert(k == 0 || k == 1 || k == 2 || k == 3 || k == 4 || k == 5 || k == 6 || k == 7 || k == 8
        || k == 9 || k == 10 || k == 11 || k == 12);
}

/// A section that is too large stops the reading of what follows.
proof fn lemma_oversized_found(
    s: Seq<u8>,
    sections: Seq<Seq<u8>>,
    journal_id: u64,
    next_usn: i64,
    count: int,
    k: int,
)
    requires
        0 <= k < SECTIONS,
        sections.len() == SECTIONS,
        body_of(sections, journal_id, next_usn, count, SECTIONS as int).is_prefix_of(s),
        forall|i: int|
            0 <= i < k ==> (#[trigger] sections[i]).len() <= MAX_SECTION_BYTES
                && sections[i].len() as int % elem_size(i) == 0,
        MAX_SECTION_BYTES < sections[k].len() <= u64::MAX,
    ensures
        section_end(s, SECTIONS as int - 1) is Err,
{
    let body = body_of(sections, journal_id, next_usn, count, SECTIONS as int);
    let a = body_of(sections, journal_id, next_usn, count, k);
    let b = body_of(sections, journal_id, next_usn, count, k + 1);
    let at = a.len() as int;
    lemma_sections_found(s, sections, journal_id, next_usn, count, k);
    lemma_body_prefix(sections, journal_id, next_usn, count, k + 1, SECTIONS as int);
    assert(b == a + framed(sections[k]));
    assert(s.subrange(at, at + 8) =~= u64_bytes(sections[k].len() as u64)) by {
        assert(s.take(body.len() as int) =~= body);
        assert(body.take(b.len() as int) =~= b);
        assert(s.take(b.len() as int) =~= body.take(b.len() as int));
        assert(s.subrange(at, at + 8) =~= b.subrange(at, at + 8));
        assert(b.subrange(at, at + 8) =~= u64_bytes(sections[k].len() as u64));
    }
    crate::bytes::lemma_u64_bytes(s, at, sections[k].len() as u64);
    assert(section_end(s, k) is Err);
    lemma_section_fault(s, k, SECTIONS as int - 1);
}

/// A section that is too large stops the reading of a snapshot.
proof fn lemma_oversized_section(index: VolumeIndex, journal_id: u64, next_usn: i64, k: int)
    requires
        index.wf(),
        0 <= k < SECTIONS,
        sections_of(index.columns())[k].len() > MAX_SECTION_BYTES,
    ensures
        section_end(
            snapshot_of(index.columns(), journal_id, next_usn),
            SECTIONS as int - 1,
        ) is Err,
    decreases k,
{
    let c = index.columns();
    let all = sections_of(c);
    let s = snapshot_of(c, journal_id, next_usn);
    if exists|i: int| 0 <= i < k && (#[trigger] all[i]).len() > MAX_SECTION_BYTES {
        let i = choose|i: int| 0 <= i < k && (#[trigger] all[i]).len() > MAX_SECTION_BYTES;
        lemma_oversized_section(index, journal_id, next_usn, i);
    } else {
        let body = body_of(all, journal_id, next_usn, index.count(), SECTIONS as int);
        lemma_sections(c);
        lemma_section_sizes(c);
        lemma_section_lengths(index, k);
        assert(s.take(body.len() as int) =~= body);
        lemma_oversized_found(s, all, journal_id, next_usn, index.count(), k);
    }
}

/// The start of bytes whose sections end where their checksum does is too
/// short.
proof fn lemma_cut_frame(s: Seq<u8>, n: int)
    requires
        0 <= n < s.len(),
        s.len() >= 32,
        s.take(8) == magic(),
        section_end(s, SECTIONS as int - 1) == Ok::<int, SnapshotError>(s.len() - 8),
    ensures
        unreadable(s.take(n)) == Some(SnapshotError::Truncated),
{
    lemma_section_cut(s, n, SECTIONS as int - 1);
    if n >= 32 {
        assert(s.take(n).take(8) =~= s.take(8));
    }
}

/// The start of bytes with a section that cannot be read cannot either.
proof fn lemma_cut_fault(s: Seq<u8>, n: int)
    requires
        0 <= n <= s.len(),
        section_end(s, SECTIONS as int - 1) is Err,
    ensures
        unreadable(s.take(n)) is Some,
{
    lemma_section_cut(s, n, SECTIONS as int - 1);
}

/// No part of a snapshot passes for one: whatever is cut off the end of the
/// bytes of an index, reading the rest fails, and for want of bytes where the
/// whole could have been read.
pub proof fn lemma_cut_snapshot_is_refused(
    index: VolumeIndex,
    journal_id: u64,
    next_usn: i64,
    n: int,
)
    requires
        index.wf(),
        0 <= n < snapshot_of(index.columns(), journal_id, next_usn).len(),
    ensures
        unreadable(snapshot_of(index.columns(), journal_id, next_usn).take(n)) is Some,
        sections_fit(index.columns()) ==> unreadable(
            snapshot_of(index.columns(), journal_id, next_usn).take(n),
        ) == Some(SnapshotError::Truncated),
{
    let c = index.columns();
    let s = snapshot_of(c, journal_id, next_usn);
    if sections_fit(c) {
        lemma_framing(c, journal_id, next_usn);
        lemma_cut_frame(s, n);
    } else {
        let k = choose|k: int|
            0 <= k < SECTIONS && (#[trigger] sections_of(c)[k]).len() > MAX_SECTION_BYTES;
        lemma_oversized_section(index, journal_id, next_usn, k);
        lemma_cut_fault(s, n);
    }
}

/// A section is a whole number of values.
proof fn lemma_section_sizes(c: Columns)
    ensures
        forall|k: int|
            0 <= k < SECTIONS ==> (#[trigger] sections_of(c)[k]).len() as int % elem_size(k) == 0,
{
    lemma_sections(c);
    crate::bytes::lemma_u32s(c.dict_off);
    crate::bytes::lemma_u32s(c.name_id);
    crate::bytes::lemma_u32s(c.orig_off);
    crate::bytes::lemma_u32s(c.parent);
    crate::bytes::lemma_u32s(c.size_lo);
    crate::bytes::lemma_u32s(c.ovf_ids);
    crate::bytes::lemma_u64s(c.ovf_sizes);
    crate::bytes::lemma_u32s(c.mtime);
    crate::bytes::lemma_u64s(c.frn);
    crate::bytes::lemma_u32s(c.perm_name);
    assert forall|k: int| 0 <= k < SECTIONS implies (#[trigger] sections_of(c)[k]).len() as int
        % elem_size(k) == 0 by {
        assert(k == 0 || k == 1 || k == 2 || k == 3 || k == 4 || k == 5 || k == 6 || k == 7 || k
            == 8 || k == 9 || k == 10 || k == 11 || k == 12);
    }
}

/// The columns of sections that were written are the columns.
proof fn lemma_columns_read(s: Seq<u8>, c: Columns)
    requires
        forall|i: int| 0 <= i < SECTIONS ==> #[trigger] section_bytes(s, i) == sections_of(c)[i],
    ensures
        columns_in(s) == c,
{
    lemma_sections(c);
    crate::bytes::lemma_u32s(c.dict_off);
    crate::bytes::lemma_u32s(c.name_id);
    crate::bytes::lemma_u32s(c.orig_off);
    crate::bytes::lemma_u32s(c.parent);
    crate::bytes::lemma_u32s(c.size_lo);
    crate::bytes::lemma_u32s(c.ovf_ids);
    crate::bytes::lemma_u64s(c.ovf_sizes);
    crate::bytes::lemma_u32s(c.mtime);
    crate::bytes::lemma_u64s(c.frn);
    crate::bytes::lemma_u32s(c.perm_name);
    assert(section_bytes(s, 0) == c.dict_pool);
    assert(section_bytes(s, 1) == u32s_bytes(c.dict_off));
    assert(section_bytes(s, 2) == u32s_bytes(c.name_id));
    assert(section_bytes(s, 3) == c.orig_pool);
    assert(section_bytes(s, 4) == u32s_bytes(c.orig_off));
    assert(section_bytes(s, 5) == u32s_bytes(c.parent));
    assert(section_bytes(s, 6) == u32s_bytes(c.size_lo));
    assert(section_bytes(s, 7) == u32s_bytes(c.ovf_ids));
    assert(section_bytes(s, 8) == u64s_bytes(c.ovf_sizes));
    assert(section_bytes(s, 9) == u32s_bytes(c.mtime));
    assert(section_bytes(s, 10) == u64s_bytes(c.frn));
    assert(section_bytes(s, 11) == c.flag);
    assert(section_bytes(s, 12) == u32s_bytes(c.perm_name));
}

/// Indexes with the same columns have the same entries and the same order.
pub proof fn lemma_columns_determine(a: VolumeIndex, b: VolumeIndex)
    requires
        a.wf(),
        b.wf(),
        a.columns() == b.columns(),
    ensures
        a.rows() == b.rows(),
        a.perm_name@ == b.perm_name@,
        a.name_sorted() == b.name_sorted(),
        a.tombstones == b.tombstones,
{
    let ca = a.columns();
    let cb = b.columns();
    lemma_marked(a.size_lo@, a.count());
    assert(ca.dict_pool == cb.dict_pool && ca.dict_off == cb.dict_off && ca.name_id == cb.name_id);
    assert(ca.orig_pool == cb.orig_pool && ca.orig_off == cb.orig_off && ca.parent == cb.parent);
    assert(ca.size_lo == cb.size_lo && ca.ovf_sizes == cb.ovf_sizes && ca.mtime == cb.mtime);
    assert(ca.frn == cb.frn && ca.flag == cb.flag && ca.perm_name == cb.perm_name);
    assert forall|i: int| #[trigger] a.lower(i) == b.lower(i) by {}
    assert forall|i: int| 0 <= i < a.count() implies #[trigger] a.row(i) == b.row(i) by {
        if a.size_lo@[i] == NONE {
            assert(occurs(ca.ovf_ids, i));
            let k = choose|k: int| 0 <= k < ca.ovf_ids.len() && #[trigger] ca.ovf_ids[k] == i;
            assert(ca.ovf_sizes[k] == a.size_ovf@[ca.ovf_ids[k]]);
            assert(cb.ovf_sizes[k] == b.size_ovf@[cb.ovf_ids[k]]);
        }
    }
    assert(a.rows() =~= b.rows());
    assert(a.name_sorted() == b.name_sorted()) by {
        if a.name_sorted() {
            assert forall|x: int, y: int| 0 <= x < y < b.perm_name@.len() implies b.name_before(
                (#[trigger] b.perm_name@[x]) as int,
                (#[trigger] b.perm_name@[y]) as int,
            ) by {
                assert(a.name_before(a.perm_name@[x] as int, a.perm_name@[y] as int));
                assert(a.lower(a.perm_name@[x] as int) == b.lower(a.perm_name@[x] as int));
                assert(a.lower(a.perm_name@[y] as int) == b.lower(a.perm_name@[y] as int));
            }
        }
        if b.name_sorted() {
            assert forall|x: int, y: int| 0 <= x < y < a.perm_name@.len() implies a.name_before(
                (#[trigger] a.perm_name@[x]) as int,
                (#[trigger] a.perm_name@[y]) as int,
            ) by {
                assert(b.name_before(b.perm_name@[x] as int, b.perm_name@[y] as int));
                assert(a.lower(b.perm_name@[x] as int) == b.lower(b.perm_name@[x] as int));
                assert(a.lower(b.perm_name@[y] as int) == b.lower(b.perm_name@[y] as int));
            }
        }
    }
}

} // verus!
