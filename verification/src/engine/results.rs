//! A materialized result, read page by page.

use vstd::prelude::*;
use vstd::slice::slice_to_vec;
use crate::dates::secs_to_ticks;
use crate::index::columns::{lemma_walk_up_add, step_up, walk_up, MAX_PATH_WTF8_BYTES};
use crate::index::flags::{bit_set, IS_DIR};
use crate::index::{EntryId, PathBuildError, VolumeIndex, NO_PARENT};
use super::{ContractLimits, EngineError};

verus! {

/// The length of an encoded row.
pub const FMF_ROW_LEN: usize = 56;

/// The length of what precedes the rows of an encoded page.
pub const PAGE_HEADER_LEN: usize = 8;

/// The flag of a row that is a directory.
pub const ROW_DIRECTORY: u32 = 1;

/// The page's length does not fit.
pub const PAGE_LENGTH_OVERFLOWED: &'static str = "encoded page length overflowed";

/// The page is longer than a payload may be.
pub const PAGE_EXCEEDS_PAYLOAD: &'static str = "encoded page exceeds the maximum payload length";

/// The page's texts are longer than an offset can say.
pub const BLOB_EXCEEDS_OFFSET: &'static str = "string blob exceeds u32 offset";

/// One row of a result.
#[derive(Debug)]
pub struct Row {
    /// The number of the volume in the high 32 bits, the entry in the low.
    pub entry_ref: u64,
    /// The full reference.
    pub frn: u64,
    /// The size in bytes.
    pub size: u64,
    /// The modification time as a FILETIME.
    pub mtime: i64,
    /// Bit 0: a directory.
    pub flags: u32,
    /// The file name, WTF-8 encoded.
    pub name: Vec<u8>,
    /// The path of the parent directory, WTF-8 encoded.
    pub parent_path: Vec<u8>,
}

/// One row of an encoded page; its texts are in the page's blob.
#[derive(Clone, Copy, Debug, PartialEq, Eq, Structural)]
pub struct FmfRow {
    /// The number of the volume in the high 32 bits, the entry in the low.
    pub entry_ref: u64,
    /// The full reference.
    pub frn: u64,
    /// The size in bytes.
    pub size: u64,
    /// The modification time as a FILETIME.
    pub mtime: i64,
    /// Where the name starts in the blob.
    pub name_off: u32,
    /// Where the parent's path starts in the blob.
    pub parent_path_off: u32,
    /// Bit 0: a directory.
    pub flags: u32,
    /// The length of the name.
    pub name_len: u32,
    /// The length of the parent's path.
    pub parent_path_len: u32,
}

/// The rows of a result in their order.
///
/// Reads stay valid while the contents of the volumes change, and fail once
/// entries were renumbered or a row was deleted.
pub struct ResultSet {
    /// The identity of each volume's slot.
    pub slots: Vec<u64>,
    /// The structural generation of each volume when the rows were found.
    pub structural: Vec<u64>,
    /// The rows: a volume and an entry.
    pub rows: Vec<(u32, EntryId)>,
}

/// The flags of an entry as a row.
pub open spec fn row_flags(idx: &VolumeIndex, id: int) -> u32 {
    if bit_set(idx.flag@[id], IS_DIR) {
        ROW_DIRECTORY
    } else {
        0
    }
}

/// The handle of entry `id` of volume `v`.
pub open spec fn entry_ref(v: u32, id: u32) -> u64 {
    (v * 0x1_0000_0000 + id) as u64
}

/// Where the page ends.
pub open spec fn page_end(len: int, offset: int, count: int) -> int {
    if offset + count < len {
        offset + count
    } else {
        len
    }
}

/// Where the page starts.
pub open spec fn page_start(len: int, offset: int, count: int) -> int {
    if offset < page_end(len, offset, count) {
        offset
    } else {
        page_end(len, offset, count)
    }
}

impl VolumeIndex {
    /// How many parents entry `id` has, where they end.
    pub open spec fn depth(&self, id: u32) -> nat {
        choose|k: nat| #[trigger] self.chain_ends(step_up(self.parent@, id), k)
    }

    /// The path of the parents of entry `id`, where they end.
    pub open spec fn parents_text(&self, id: u32) -> Seq<u8> {
        self.path_text(step_up(self.parent@, id), self.depth(id))
    }

    proof fn lemma_chain_ends_once(&self, start: u32, j: nat, k: nat)
        requires
            self.chain_ends(start, j),
            self.chain_ends(start, k),
        ensures
            j == k,
    {
        if j < k {
            assert(walk_up(self.parent@, start, j) != NO_PARENT);
        } else if k < j {
            assert(walk_up(self.parent@, start, k) != NO_PARENT);
        }
    }

    proof fn lemma_path_text_len(&self, start: u32, k: nat)
        ensures
            self.path_text(start, k).len() == self.path_len(start, k),
        decreases k,
    {
        if k > 0 {
            self.lemma_path_text_len(start, (k - 1) as nat);
        }
    }

    proof fn lemma_walk_up_past(&self, start: u32, j: nat, k: nat)
        requires
            walk_up(self.parent@, start, j) == NO_PARENT,
            j <= k,
        ensures
            walk_up(self.parent@, start, k) == NO_PARENT,
        decreases k,
    {
        if k > j {
            self.lemma_walk_up_past(start, j, (k - 1) as nat);
        }
    }

    proof fn lemma_path_len_grows(&self, start: u32, j: nat, k: nat)
        requires
            j <= k,
        ensures
            self.path_len(start, j) <= self.path_len(start, k),
        decreases k,
    {
        if j < k {
            self.lemma_path_len_grows(start, j, (k - 1) as nat);
        }
    }

    /// A walk that meets one of twice its speed never ends.
    proof fn lemma_comes_round(&self, start: u32, t: nat, k: nat)
        requires
            self.walks_meet(start, t),
        ensures
            !self.chain_ends(start, k),
    {
        let parent = self.parent@;
        if self.chain_ends(start, k) {
            if k <= t {
                self.lemma_walk_up_past(start, k, t);
            } else if k <= 2 * t {
                self.lemma_walk_up_past(start, k, 2 * t);
            } else {
                let n = (k - 2 * t) as nat;
                lemma_walk_up_add(parent, start, t, n);
                lemma_walk_up_add(parent, start, 2 * t, n);
                assert(t + n < k);
                assert(walk_up(parent, start, t + n) != NO_PARENT);
            }
        }
    }

    /// Where a path can be built, building it does not fail.
    pub proof fn lemma_one_outcome(&self, id: u32, text: Seq<u8>, fault: PathBuildError)
        requires
            id < self.count(),
            self.parent_path_is(id, Ok(text)),
        ensures
            !self.parent_path_is(id, Err(fault)),
    {
        let start = step_up(self.parent@, id);
        let k = choose|k: nat| #[trigger]
            self.chain_ends(start, k) && self.path_len(start, k) <= MAX_PATH_WTF8_BYTES && text
                == self.path_text(start, k);
        assert forall|t: nat| #[trigger] self.walks_meet(start, t) implies !self.chain_ends(
            start,
            k,
        ) by {
            self.lemma_comes_round(start, t, k);
        }
        assert forall|j: nat| #[trigger] self.first_too_long(start, j) implies j > k by {
            if j <= k {
                self.lemma_path_len_grows(start, j, k);
            }
        }
    }

    /// The path that is built is the text of the parents.
    pub proof fn lemma_parents_text(&self, id: u32, text: Seq<u8>)
        requires
            id < self.count(),
            self.parent_path_is(id, Ok(text)),
        ensures
            text == self.parents_text(id),
            text.len() <= MAX_PATH_WTF8_BYTES,
    {
        let start = step_up(self.parent@, id);
        let k = choose|k: nat| #[trigger]
            self.chain_ends(start, k) && self.path_len(start, k) <= MAX_PATH_WTF8_BYTES && text
                == self.path_text(start, k);
        self.lemma_chain_ends_once(start, k, self.depth(id));
        self.lemma_path_text_len(start, k);
    }
}

/// The flags of entry `id` as a row.
fn idx_flags(idx: &VolumeIndex, id: EntryId) -> (r: u32)
    requires
        idx.columns_wf(),
        id < idx.count(),
    ensures
        r == row_flags(idx, id as int),
{
    if idx.is_dir(id) {
        ROW_DIRECTORY
    } else {
        0
    }
}

/// The handle of entry `id` of volume `v`.
fn entry_ref_of(v: u32, id: EntryId) -> (r: u64)
    ensures
        r == entry_ref(v, id),
{
    v as u64 * 0x1_0000_0000 + id as u64
}

/// The bounds of a page.
fn page_bounds(len: usize, offset: usize, count: usize) -> (r: (usize, usize))
    ensures
        r.0 == page_start(len as int, offset as int, count as int),
        r.1 == page_end(len as int, offset as int, count as int),
        r.0 <= r.1 <= len,
{
    let reach: usize = if count <= usize::MAX - offset {
        offset + count
    } else {
        usize::MAX
    };
    let end: usize = if reach < len {
        reach
    } else {
        len
    };
    let start: usize = if offset < end {
        offset
    } else {
        end
    };
    (start, end)
}

impl ResultSet {
    /// There is a generation for each slot, and every row is of one of them.
    pub open spec fn wf(&self) -> bool {
        &&& self.slots@.len() == self.structural@.len()
        &&& forall|i: int| 0 <= i < self.rows@.len() ==> (#[trigger] self.rows@[i]).0 < self.slots@.len()
    }

    /// Volume `v` still has the index in which the rows were found.
    pub open spec fn volume_current(&self, indexes: Seq<Option<&VolumeIndex>>, v: int) -> bool {
        indexes[v] matches Some(idx) && idx.structural_generation == self.structural@[v]
    }

    /// No volume's entries were renumbered since the rows were found.
    pub open spec fn current(&self, indexes: Seq<Option<&VolumeIndex>>) -> bool {
        forall|v: int| 0 <= v < self.slots@.len() ==> #[trigger] self.volume_current(indexes, v)
    }

    /// The indexes are the slots' own: in order, and holding the rows while
    /// they are current.
    pub open spec fn held_by(&self, indexes: Seq<Option<&VolumeIndex>>) -> bool {
        &&& indexes.len() == self.slots@.len()
        &&& forall|v: int|
            0 <= v < indexes.len() && #[trigger] indexes[v] is Some ==> indexes[v]->0.columns_wf()
        &&& self.current(indexes) ==> forall|i: int|
            0 <= i < self.rows@.len() ==> (#[trigger] self.rows@[i]).1 < indexes[self.rows@[i].0 as int]->0.count()
    }

    /// The index of row `i`.
    pub open spec fn index_of<'a>(&self, indexes: Seq<Option<&'a VolumeIndex>>, i: int) -> &'a VolumeIndex {
        indexes[self.rows@[i].0 as int]->0
    }

    /// Row `i` was not deleted.
    pub open spec fn row_live(&self, indexes: Seq<Option<&VolumeIndex>>, i: int) -> bool {
        self.index_of(indexes, i).live(self.rows@[i].1 as int)
    }

    /// Row `i` can be read.
    pub open spec fn row_readable(&self, indexes: Seq<Option<&VolumeIndex>>, i: int) -> bool {
        &&& self.row_live(indexes, i)
        &&& self.index_of(indexes, i).parent_path_is(
            self.rows@[i].1,
            Ok(self.index_of(indexes, i).parents_text(self.rows@[i].1)),
        )
    }

    /// Row `i` is read as `row`.
    pub open spec fn reads_as(&self, indexes: Seq<Option<&VolumeIndex>>, i: int, row: Row) -> bool {
        let idx = self.index_of(indexes, i);
        let id = self.rows@[i].1;
        &&& self.row_readable(indexes, i)
        &&& row.entry_ref == entry_ref(self.rows@[i].0, id)
        &&& row.frn == idx.frn@[id as int]
        &&& row.size == idx.bytes_of(id as int)
        &&& row.mtime == secs_to_ticks(idx.mtime@[id as int])
        &&& row.flags == row_flags(idx, id as int)
        &&& row.name@ == idx.original(id as int)
        &&& row.parent_path@ == idx.parents_text(id)
    }

    /// Reading row `i` fails with `e`.
    pub open spec fn row_fails(
        &self,
        indexes: Seq<Option<&VolumeIndex>>,
        i: int,
        e: EngineError,
    ) -> bool {
        if !self.row_live(indexes, i) {
            e == EngineError::Stale
        } else {
            e matches EngineError::Path(fault) && self.index_of(indexes, i).parent_path_is(
                self.rows@[i].1,
                Err(fault),
            )
        }
    }

    /// The rows from `start` on are readable up to row `i`, which fails with
    /// `e`.
    pub open spec fn first_failure(
        &self,
        indexes: Seq<Option<&VolumeIndex>>,
        start: int,
        i: int,
        e: EngineError,
    ) -> bool {
        &&& start <= i
        &&& forall|k: int| start <= k < i ==> #[trigger] self.row_readable(indexes, k)
        &&& self.row_fails(indexes, i, e)
    }

    /// The number of rows.
    pub fn len(&self) -> (r: usize)
        ensures
            r == self.rows@.len(),
    {
        self.rows.len()
    }

    /// There are no rows.
    pub fn is_empty(&self) -> (r: bool)
        ensures
            r == (self.rows@.len() == 0),
    {
        self.rows.len() == 0
    }

    /// Whether the volumes still have the numbering that the rows speak of.
    pub fn is_current(&self, indexes: &[Option<&VolumeIndex>]) -> (r: bool)
        requires
            self.slots@.len() == self.structural@.len(),
            indexes@.len() == self.slots@.len(),
        ensures
            r == self.current(indexes@),
    {
        let mut v: usize = 0;
        while v < self.slots.len()
            invariant
                v <= self.slots@.len(),
                self.slots@.len() == self.structural@.len(),
                indexes@.len() == self.slots@.len(),
                forall|w: int| 0 <= w < v ==> #[trigger] self.volume_current(indexes@, w),
            decreases self.slots@.len() - v,
        {
            match indexes[v] {
                Some(idx) => {
                    if idx.structural_generation() != self.structural[v] {
                        assert(!self.volume_current(indexes@, v as int));
                        return false;
                    }
                },
                None => {
                    assert(!self.volume_current(indexes@, v as int));
                    return false;
                },
            }
            assert(self.volume_current(indexes@, v as int));
            v = v + 1;
        }
        true
    }

    /// Whether both results, while current, show the same rows of the same
    /// slots in the same order.
    pub fn same_ordered_ids(
        &self,
        indexes: &[Option<&VolumeIndex>],
        other: &ResultSet,
        other_indexes: &[Option<&VolumeIndex>],
    ) -> (r: bool)
        requires
            self.slots@.len() == self.structural@.len(),
            indexes@.len() == self.slots@.len(),
            other.slots@.len() == other.structural@.len(),
            other_indexes@.len() == other.slots@.len(),
        ensures
            r == (self.current(indexes@) && other.current(other_indexes@) && self.slots@
                == other.slots@ && self.rows@ == other.rows@),
    {
        if !self.is_current(indexes) || !other.is_current(other_indexes) {
            return false;
        }
        if self.slots.len() != other.slots.len() || self.rows.len() != other.rows.len() {
            return false;
        }
        let mut v: usize = 0;
        while v < self.slots.len()
            invariant
                v <= self.slots@.len(),
                self.slots@.len() == other.slots@.len(),
                forall|w: int| 0 <= w < v ==> self.slots@[w] == other.slots@[w],
            decreases self.slots@.len() - v,
        {
            if self.slots[v] != other.slots[v] {
                return false;
            }
            v = v + 1;
        }
        assert(self.slots@ =~= other.slots@);
        let mut i: usize = 0;
        while i < self.rows.len()
            invariant
                i <= self.rows@.len(),
                self.rows@.len() == other.rows@.len(),
                forall|k: int| 0 <= k < i ==> self.rows@[k] == other.rows@[k],
            decreases self.rows@.len() - i,
        {
            let (va, a): (u32, EntryId) = self.rows[i];
            let (vb, b): (u32, EntryId) = other.rows[i];
            if va != vb || a != b {
                return false;
            }
            i = i + 1;
        }
        assert(self.rows@ =~= other.rows@);
        true
    }

    /// The path of row `i`'s parents, or why the row cannot be read.
    fn read_parents(&self, indexes: &[Option<&VolumeIndex>], i: usize) -> (r: Result<
        Vec<u8>,
        EngineError,
    >)
        requires
            self.wf(),
            self.held_by(indexes@),
            self.current(indexes@),
            i < self.rows@.len(),
        ensures
            match r {
                Ok(path) => self.row_readable(indexes@, i as int) && path@ == self.index_of(
                    indexes@,
                    i as int,
                ).parents_text(self.rows@[i as int].1) && path@.len() <= MAX_PATH_WTF8_BYTES,
                Err(e) => self.row_fails(indexes@, i as int, e),
            },
    {
        let (v, id): (u32, EntryId) = self.rows[i];
        proof {
            assert(self.volume_current(indexes@, v as int));
        }
        let idx: &VolumeIndex = match indexes[v as usize] {
            Some(idx) => idx,
            None => {
                return Err(EngineError::Stale);
            },
        };
        if !idx.is_live(id) {
            return Err(EngineError::Stale);
        }
        let mut path: Vec<u8> = Vec::new();
        match idx.append_parent_path(id, &mut path) {
            Ok(_) => {
                proof {
                    let text = choose|text: Seq<u8>| #[trigger]
                        idx.parent_path_is(id, Ok(text)) && path@ == Seq::<u8>::empty() + text;
                    assert(Seq::<u8>::empty() + text =~= text);
                    idx.lemma_parents_text(id, text);
                }
                Ok(path)
            },
            Err(fault) => Err(EngineError::Path(fault)),
        }
    }

    /// The rows `[offset, offset + count)`, as far as there are any.
    pub fn page(&self, indexes: &[Option<&VolumeIndex>], offset: usize, count: usize) -> (r: Result<
        Vec<Row>,
        EngineError,
    >)
        requires
            self.wf(),
            self.held_by(indexes@),
        ensures
            ({
                let start = page_start(self.rows@.len() as int, offset as int, count as int);
                let end = page_end(self.rows@.len() as int, offset as int, count as int);
                match r {
                    Ok(rows) => self.current(indexes@) && rows@.len() == end - start && forall|k: int|
                        0 <= k < rows@.len() ==> self.reads_as(indexes@, start + k, #[trigger] rows@[k]),
                    Err(e) => if self.current(indexes@) {
                        exists|i: int| i < end && #[trigger] self.first_failure(indexes@, start, i, e)
                    } else {
                        e == EngineError::Stale
                    },
                }
            }),
    {
        let (start, end): (usize, usize) = page_bounds(self.rows.len(), offset, count);
        if !self.is_current(indexes) {
            return Err(EngineError::Stale);
        }
        let mut out: Vec<Row> = Vec::new();
        let mut i: usize = start;
        while i < end
            invariant
                self.wf(),
                self.held_by(indexes@),
                self.current(indexes@),
                start <= i <= end <= self.rows@.len(),
                start == page_start(self.rows@.len() as int, offset as int, count as int),
                end == page_end(self.rows@.len() as int, offset as int, count as int),
                out@.len() == i - start,
                forall|k: int| start <= k < i ==> #[trigger] self.row_readable(indexes@, k),
                forall|k: int|
                    0 <= k < out@.len() ==> self.reads_as(indexes@, start + k, #[trigger] out@[k]),
            decreases end - i,
        {
            let parent_path: Vec<u8> = match self.read_parents(indexes, i) {
                Ok(path) => path,
                Err(e) => {
                    assert(self.first_failure(indexes@, start as int, i as int, e));
                    return Err(e);
                },
            };
            let (v, id): (u32, EntryId) = self.rows[i];
            proof {
                assert(self.volume_current(indexes@, v as int));
            }
            if let Some(idx) = indexes[v as usize] {
                let name: Vec<u8> = slice_to_vec(idx.name(id));
                let row: Row = Row {
                    entry_ref: entry_ref_of(v, id),
                    frn: idx.frn(id).0,
                    size: idx.size(id),
                    mtime: idx.mtime(id),
                    flags: idx_flags(idx, id),
                    name,
                    parent_path,
                };
                assert(self.reads_as(indexes@, i as int, row));
                out.push(row);
            }
            i = i + 1;
        }
        Ok(out)
    }

    /// The name and the path of row `i`.
    pub open spec fn row_text(&self, indexes: Seq<Option<&VolumeIndex>>, i: int) -> Seq<u8> {
        self.index_of(indexes, i).original(self.rows@[i].1 as int) + self.index_of(
            indexes,
            i,
        ).parents_text(self.rows@[i].1)
    }

    /// The names and paths of `k` rows from `start` on.
    pub open spec fn blob_of(&self, indexes: Seq<Option<&VolumeIndex>>, start: int, k: nat) -> Seq<u8>
        decreases k,
    {
        if k == 0 {
            Seq::empty()
        } else {
            self.blob_of(indexes, start, (k - 1) as nat) + self.row_text(indexes, start + k - 1)
        }
    }

    /// Why a page of `n` rows from `start` on cannot be encoded with row `i`,
    /// with the rows in front of it.
    pub open spec fn encoding_fault(
        &self,
        indexes: Seq<Option<&VolumeIndex>>,
        start: int,
        n: int,
        i: int,
        maximum_payload_len: usize,
    ) -> Option<EngineError> {
        let at = self.blob_of(indexes, start, (i - start) as nat).len();
        let total = PAGE_HEADER_LEN + FMF_ROW_LEN * n + at + self.row_text(indexes, i).len();
        if total > usize::MAX {
            Some(EngineError::PageEncoding(PAGE_LENGTH_OVERFLOWED))
        } else if total > maximum_payload_len {
            Some(EngineError::PageEncoding(PAGE_EXCEEDS_PAYLOAD))
        } else if at + self.index_of(indexes, i).original(self.rows@[i].1 as int).len() > u32::MAX {
            Some(EngineError::PageEncoding(BLOB_EXCEEDS_OFFSET))
        } else {
            None
        }
    }

    /// Row `i` of a page of `n` rows from `start` on can be read and encoded.
    pub open spec fn row_encodable(
        &self,
        indexes: Seq<Option<&VolumeIndex>>,
        start: int,
        n: int,
        i: int,
        maximum_payload_len: usize,
    ) -> bool {
        &&& self.row_readable(indexes, i)
        &&& self.encoding_fault(indexes, start, n, i, maximum_payload_len) is None
    }

    /// The first row of a page that cannot be read or encoded is row `i`,
    /// and `e` is why.
    pub open spec fn first_encoding_failure(
        &self,
        indexes: Seq<Option<&VolumeIndex>>,
        start: int,
        n: int,
        i: int,
        maximum_payload_len: usize,
        e: EngineError,
    ) -> bool {
        &&& start <= i < start + n
        &&& forall|k: int|
            start <= k < i ==> #[trigger] self.row_encodable(
                indexes,
                start,
                n,
                k,
                maximum_payload_len,
            )
        &&& if self.row_readable(indexes, i) {
            self.encoding_fault(indexes, start, n, i, maximum_payload_len) == Some(e)
        } else {
            self.row_fails(indexes, i, e)
        }
    }

    /// Row `i` of a page from `start` on is encoded as `row`.
    pub open spec fn encodes_as(
        &self,
        indexes: Seq<Option<&VolumeIndex>>,
        start: int,
        i: int,
        row: FmfRow,
    ) -> bool {
        let idx = self.index_of(indexes, i);
        let id = self.rows@[i].1;
        let at = self.blob_of(indexes, start, (i - start) as nat).len();
        &&& row.entry_ref == entry_ref(self.rows@[i].0, id)
        &&& row.frn == idx.frn@[id as int]
        &&& row.size == idx.bytes_of(id as int)
        &&& row.mtime == secs_to_ticks(idx.mtime@[id as int])
        &&& row.name_off == at
        &&& row.parent_path_off == at + idx.original(id as int).len()
        &&& row.flags == row_flags(idx, id as int)
        &&& row.name_len == idx.original(id as int).len()
        &&& row.parent_path_len == idx.parents_text(id).len()
    }

    /// What a page of the result is: the encoded rows and their texts, or why
    /// there is none.
    pub open spec fn page_is(
        &self,
        indexes: Seq<Option<&VolumeIndex>>,
        offset: usize,
        count: usize,
        maximum_rows: u32,
        maximum_payload_len: usize,
        r: Result<(Vec<FmfRow>, Vec<u8>), EngineError>,
    ) -> bool {
        let start = page_start(self.rows@.len() as int, offset as int, count as int);
        let n = page_end(self.rows@.len() as int, offset as int, count as int) - start;
        if count > maximum_rows {
            r matches Err(e) && e == (EngineError::PageTooLarge {
                requested: count,
                maximum: maximum_rows,
            })
        } else if PAGE_HEADER_LEN + FMF_ROW_LEN * n > usize::MAX {
            r matches Err(e) && e == EngineError::PageEncoding(PAGE_LENGTH_OVERFLOWED)
        } else if PAGE_HEADER_LEN + FMF_ROW_LEN * n > maximum_payload_len {
            r matches Err(e) && e == EngineError::PageEncoding(PAGE_EXCEEDS_PAYLOAD)
        } else if !self.current(indexes) {
            r matches Err(e) && e == EngineError::Stale
        } else {
            match r {
                Ok(page) => {
                    &&& page.0@.len() == n
                    &&& forall|k: int|
                        start <= k < start + n ==> #[trigger] self.row_encodable(
                            indexes,
                            start,
                            n,
                            k,
                            maximum_payload_len,
                        )
                    &&& forall|k: int|
                        0 <= k < n ==> self.encodes_as(indexes, start, start + k, #[trigger] page.0@[k])
                    &&& page.1@ == self.blob_of(indexes, start, n as nat)
                },
                Err(e) => exists|i: int| #[trigger]
                    self.first_encoding_failure(indexes, start, n, i, maximum_payload_len, e),
            }
        }
    }

    /// The encoded rows `[offset, offset + count)`, as far as there are any,
    /// and one blob of their texts: of each row the name, then the parent's
    /// path.
    pub fn fill_page_with_limit(
        &self,
        indexes: &[Option<&VolumeIndex>],
        offset: usize,
        count: usize,
        maximum_rows: u32,
        maximum_payload_len: usize,
    ) -> (r: Result<(Vec<FmfRow>, Vec<u8>), EngineError>)
        requires
            self.wf(),
            self.held_by(indexes@),
        ensures
            self.page_is(indexes@, offset, count, maximum_rows, maximum_payload_len, r),
    {
        if count as u64 > maximum_rows as u64 {
            return Err(EngineError::PageTooLarge { requested: count, maximum: maximum_rows });
        }
        let (start, end): (usize, usize) = page_bounds(self.rows.len(), offset, count);
        let n: usize = end - start;
        if n > (usize::MAX - PAGE_HEADER_LEN) / FMF_ROW_LEN {
            return Err(EngineError::PageEncoding(PAGE_LENGTH_OVERFLOWED));
        }
        let fixed_len: usize = PAGE_HEADER_LEN + FMF_ROW_LEN * n;
        if fixed_len > maximum_payload_len {
            return Err(EngineError::PageEncoding(PAGE_EXCEEDS_PAYLOAD));
        }
        if !self.is_current(indexes) {
            return Err(EngineError::Stale);
        }
        let mut blob: Vec<u8> = Vec::new();
        let mut rows: Vec<FmfRow> = Vec::new();
        let mut i: usize = start;
        while i < end
            invariant
                self.wf(),
                self.held_by(indexes@),
                self.current(indexes@),
                start <= i <= end <= self.rows@.len(),
                n == end - start,
                count <= maximum_rows,
                start == page_start(self.rows@.len() as int, offset as int, count as int),
                end == page_end(self.rows@.len() as int, offset as int, count as int),
                fixed_len == PAGE_HEADER_LEN + FMF_ROW_LEN * n,
                fixed_len <= maximum_payload_len,
                fixed_len + blob@.len() <= usize::MAX,
                blob@ == self.blob_of(indexes@, start as int, (i - start) as nat),
                rows@.len() == i - start,
                forall|k: int|
                    start <= k < i ==> #[trigger] self.row_encodable(
                        indexes@,
                        start as int,
                        n as int,
                        k,
                        maximum_payload_len,
                    ),
                forall|k: int|
                    0 <= k < rows@.len() ==> self.encodes_as(
                        indexes@,
                        start as int,
                        start + k,
                        #[trigger] rows@[k],
                    ),
            decreases end - i,
        {
            let ghost failing = |e: EngineError|
                self.first_encoding_failure(
                    indexes@,
                    start as int,
                    n as int,
                    i as int,
                    maximum_payload_len,
                    e,
                );
            let parent_path: Vec<u8> = match self.read_parents(indexes, i) {
                Ok(path) => path,
                Err(e) => {
                    proof {
                        self.lemma_unreadable(indexes@, i as int, e);
                        assert(failing(e));
                    }
                    return Err(e);
                },
            };
            let (v, id): (u32, EntryId) = self.rows[i];
            proof {
                assert(self.volume_current(indexes@, v as int));
            }
            let idx: &VolumeIndex = match indexes[v as usize] {
                Some(idx) => idx,
                None => {
                    return Err(EngineError::Stale);
                },
            };
            let name: &[u8] = idx.name(id);
            proof {
                idx.lemma_lower(id as int);
            }
            let ghost at = blob@.len();
            let ghost text = self.row_text(indexes@, i as int);
            assert(text == name@ + parent_path@);
            assert(text.len() == name@.len() + parent_path@.len());
            let room: usize = usize::MAX - fixed_len - blob.len();
            if parent_path.len() > room || name.len() > room - parent_path.len() {
                let e: EngineError = EngineError::PageEncoding(PAGE_LENGTH_OVERFLOWED);
                assert(failing(e));
                return Err(e);
            }
            let encoded_len: usize = fixed_len + blob.len() + parent_path.len() + name.len();
            if encoded_len > maximum_payload_len {
                let e: EngineError = EngineError::PageEncoding(PAGE_EXCEEDS_PAYLOAD);
                assert(failing(e));
                return Err(e);
            }
            let parent_off: usize = blob.len() + name.len();
            if parent_off as u64 > u32::MAX as u64 {
                let e: EngineError = EngineError::PageEncoding(BLOB_EXCEEDS_OFFSET);
                assert(failing(e));
                return Err(e);
            }
            let row: FmfRow = FmfRow {
                entry_ref: entry_ref_of(v, id),
                frn: idx.frn(id).0,
                size: idx.size(id),
                mtime: idx.mtime(id),
                name_off: blob.len() as u32,
                parent_path_off: parent_off as u32,
                flags: idx_flags(idx, id),
                name_len: name.len() as u32,
                parent_path_len: parent_path.len() as u32,
            };
            let ghost before = blob@;
            blob.extend_from_slice(name);
            blob.extend_from_slice(parent_path.as_slice());
            proof {
                assert(blob@ =~= before + text);
                assert(self.row_encodable(
                    indexes@,
                    start as int,
                    n as int,
                    i as int,
                    maximum_payload_len,
                ));
                assert(self.encodes_as(indexes@, start as int, i as int, row));
            }
            rows.push(row);
            i = i + 1;
        }
        Ok((rows, blob))
    }

    /// The encoded rows `[offset, offset + count)` within the contract's
    /// bounds.
    pub fn fill_page(
        &self,
        indexes: &[Option<&VolumeIndex>],
        offset: usize,
        count: usize,
        limits: &ContractLimits,
    ) -> (r: Result<(Vec<FmfRow>, Vec<u8>), EngineError>)
        requires
            self.wf(),
            self.held_by(indexes@),
        ensures
            self.page_is(
                indexes@,
                offset,
                count,
                limits.max_page_rows,
                limits.max_payload_len as usize,
                r,
            ),
    {
        self.fill_page_with_limit(
            indexes,
            offset,
            count,
            limits.max_page_rows,
            limits.max_payload_len as usize,
        )
    }

    /// A row on which reading fails is not readable.
    proof fn lemma_unreadable(&self, indexes: Seq<Option<&VolumeIndex>>, i: int, e: EngineError)
        requires
            self.row_fails(indexes, i, e),
            self.rows@[i].1 < self.index_of(indexes, i).count(),
        ensures
            !self.row_readable(indexes, i),
    {
        if self.row_readable(indexes, i) {
            let idx = self.index_of(indexes, i);
            let id = self.rows@[i].1;
            if let EngineError::Path(fault) = e {
                idx.lemma_one_outcome(id, idx.parents_text(id), fault);
            }
        }
    }
}

} // verus!
