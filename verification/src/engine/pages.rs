//! What the rows of a page say of the entries they stand for.

use vstd::prelude::*;
use crate::dates::secs_to_ticks;
use crate::index::columns::{
    lemma_walk_up_shift, step_up, walk_up, VolumeIndex, MAX_PATH_WTF8_BYTES,
};
use crate::index::flags::{bit_set, IS_DIR, TOMBSTONE};
use crate::index::{PathBuildError, NO_PARENT};
use super::results::{entry_ref, page_end, page_start, row_flags, FmfRow, ResultSet, Row};
use super::EngineError;

verus! {

impl VolumeIndex {
    proof fn lemma_path_text_below(&self, start: u32, k: nat)
        ensures
            self.path_text(start, k + 1) == self.path_text(step_up(self.parent@, start), k)
                + self.original(start as int).push(0x5C),
        decreases k,
    {
        let up = step_up(self.parent@, start);
        if k > 0 {
            self.lemma_path_text_below(start, (k - 1) as nat);
            lemma_walk_up_shift(self.parent@, start, (k - 1) as nat);
            let head = self.original(walk_up(self.parent@, start, k) as int).push(0x5C);
            assert(self.path_text(start, k + 1) == head + self.path_text(start, k));
            assert(self.path_text(up, k) == head + self.path_text(up, (k - 1) as nat));
            assert(self.path_text(start, k + 1) =~= self.path_text(up, k) + self.original(
                start as int,
            ).push(0x5C));
        } else {
            assert(self.path_text(start, 1) == self.original(
                walk_up(self.parent@, start, 0) as int,
            ).push(0x5C) + self.path_text(start, 0));
            assert(self.path_text(start, 1) =~= self.path_text(up, 0) + self.original(
                start as int,
            ).push(0x5C));
        }
    }

    proof fn lemma_path_len_below(&self, start: u32, k: nat)
        ensures
            self.path_len(start, k + 1) == self.path_len(step_up(self.parent@, start), k)
                + self.original(start as int).len() + 1,
        decreases k,
    {
        if k > 0 {
            self.lemma_path_len_below(start, (k - 1) as nat);
            lemma_walk_up_shift(self.parent@, start, (k - 1) as nat);
        } else {
            assert(walk_up(self.parent@, start, 0) == start);
            assert(self.path_len(start, 0) == 0);
        }
    }

    /// The path of an entry below a directory is the path of that directory,
    /// its name and one backslash; the path of the root, and of what hangs
    /// below nothing, is empty.
    pub proof fn lemma_path_by_parent(&self, id: u32, text: Seq<u8>)
        requires
            self.columns_wf(),
            id < self.count(),
            self.parent_path_is(id, Ok(text)),
        ensures
            id == 0 || self.parent@[id as int] == NO_PARENT ==> text.len() == 0,
            id != 0 && self.parent@[id as int] != NO_PARENT ==> {
                let p = self.parent@[id as int];
                &&& self.parent_path_is(p, Ok(self.parents_text(p)))
                &&& text == self.parents_text(p) + self.original(p as int).push(0x5C)
            },
            text.len() <= 98_301,
    {
        let start = step_up(self.parent@, id);
        let k = choose|k: nat| #[trigger]
            self.chain_ends(start, k) && self.path_len(start, k) <= MAX_PATH_WTF8_BYTES && text
                == self.path_text(start, k);
        self.lemma_parents_text(id, text);
        if start == NO_PARENT {
            if k > 0 {
                assert(walk_up(self.parent@, start, 0) != NO_PARENT);
            }
        } else {
            let p = start;
            assert(walk_up(self.parent@, start, 0) == start);
            assert(k > 0);
            let up = step_up(self.parent@, p);
            let j = (k - 1) as nat;
            lemma_walk_up_shift(self.parent@, p, j);
            assert(self.chain_ends(up, j)) by {
                assert forall|i: nat| i < j implies #[trigger] walk_up(self.parent@, up, i)
                    != NO_PARENT by {
                    lemma_walk_up_shift(self.parent@, p, i);
                    assert(walk_up(self.parent@, start, i + 1) != NO_PARENT);
                }
            }
            self.lemma_path_text_below(p, j);
            self.lemma_path_len_below(p, j);
            assert(self.parent_path_is(p, Ok(self.path_text(up, j))));
            self.lemma_parents_text(p, self.path_text(up, j));
        }
    }

    /// A path is refused for its length only where it is too long.
    pub proof fn lemma_path_refused(&self, id: u32, fault: PathBuildError)
        requires
            id < self.count(),
            self.parent_path_is(id, Err(fault)),
        ensures
            fault matches PathBuildError::PathTooLong { entry, maximum, .. } ==> entry == id
                && maximum == 98_301,
            fault matches PathBuildError::ParentCycle { entry } ==> entry == id,
            !(fault is EntryOutOfRange),
    {
    }
}

/// The bounds of a page: as many rows from the offset on as were asked for,
/// or as there are.
pub proof fn lemma_page_bounds(len: int, offset: int, count: int)
    requires
        0 <= len,
        0 <= offset,
        0 <= count,
    ensures
        ({
            let start = page_start(len, offset, count);
            let n = page_end(len, offset, count) - start;
            &&& offset >= len ==> n == 0
            &&& offset < len && count <= len - offset ==> n == count
            &&& offset < len && count > len - offset ==> n == len - offset
            &&& n > 0 ==> start == offset
            &&& 0 <= start && start + n <= len
        }),
{
}

/// A handle gives back the volume and the entry it was made of.
pub proof fn lemma_entry_ref_apart(v: u32, id: u32)
    ensures
        entry_ref(v, id) / 0x1_0000_0000 == v,
        entry_ref(v, id) % 0x1_0000_0000 == id as u64,
{
    assert(v * 0x1_0000_0000 + id <= u64::MAX);
}

impl ResultSet {
    /// A row says of its entry what the index of its volume says: its name,
    /// its path, its size, its time, its reference and its kind.
    pub proof fn lemma_row_tells(&self, indexes: Seq<Option<&VolumeIndex>>, i: int, row: Row)
        requires
            self.wf(),
            self.held_by(indexes),
            self.current(indexes),
            0 <= i < self.rows@.len(),
            self.reads_as(indexes, i, row),
        ensures
            ({
                let idx = indexes[self.rows@[i].0 as int]->0;
                let id = self.rows@[i].1;
                let entry = idx.row(id as int);
                &&& row.size == entry.size
                &&& row.mtime == secs_to_ticks(entry.mtime)
                &&& row.frn == entry.frn
                &&& row.name@ == entry.name
                &&& idx.parent_path_is(id, Ok(row.parent_path@))
                &&& row.flags == if bit_set(entry.flag, IS_DIR) {
                    1u32
                } else {
                    0u32
                }
                &&& row.entry_ref == self.rows@[i].0 * 0x1_0000_0000 + id
                &&& !bit_set(entry.flag, TOMBSTONE)
            }),
    {
        assert(self.rows@[i].0 * 0x1_0000_0000 + self.rows@[i].1 <= u64::MAX);
    }

    /// Rows that say the same were read of one entry: no two entries of the
    /// set share a handle.
    pub proof fn lemma_rows_apart(
        &self,
        indexes: Seq<Option<&VolumeIndex>>,
        i: int,
        a: Row,
        j: int,
        b: Row,
    )
        requires
            self.reads_as(indexes, i, a),
            self.reads_as(indexes, j, b),
            a.entry_ref == b.entry_ref,
        ensures
            self.rows@[i] == self.rows@[j],
    {
        lemma_entry_ref_apart(self.rows@[i].0, self.rows@[i].1);
        lemma_entry_ref_apart(self.rows@[j].0, self.rows@[j].1);
    }

    proof fn lemma_blob_grows(
        &self,
        indexes: Seq<Option<&VolumeIndex>>,
        start: int,
        j: nat,
        k: nat,
    )
        requires
            j <= k,
        ensures
            self.blob_of(indexes, start, j).len() <= self.blob_of(indexes, start, k).len(),
            self.blob_of(indexes, start, k).take(
                self.blob_of(indexes, start, j).len() as int,
            ) == self.blob_of(indexes, start, j),
        decreases k,
    {
        let small = self.blob_of(indexes, start, j);
        let big = self.blob_of(indexes, start, k);
        if j == k {
            assert(big.take(big.len() as int) =~= big);
        } else {
            self.lemma_blob_grows(indexes, start, j, (k - 1) as nat);
            let mid = self.blob_of(indexes, start, (k - 1) as nat);
            assert(big == mid + self.row_text(indexes, start + k - 1));
            assert(big.take(small.len() as int) =~= mid.take(small.len() as int));
        }
    }

    /// A page that is given has as many rows as were asked for, or as there
    /// are; it keeps to both limits, each row says of its entry what the index
    /// says, and what its offsets cut out of the text is the entry's name and
    /// its path.
    pub proof fn lemma_page_tells(
        &self,
        indexes: Seq<Option<&VolumeIndex>>,
        offset: usize,
        count: usize,
        maximum_rows: u32,
        maximum_payload_len: usize,
        rows: Vec<FmfRow>,
        blob: Vec<u8>,
        k: int,
    )
        requires
            self.wf(),
            self.held_by(indexes),
            self.page_is(
                indexes,
                offset,
                count,
                maximum_rows,
                maximum_payload_len,
                Ok((rows, blob)),
            ),
            0 <= k < rows@.len(),
        ensures
            self.current(indexes),
            count <= maximum_rows,
            8 + 56 * rows@.len() + blob@.len() <= maximum_payload_len,
            offset < self.rows@.len(),
            rows@.len() == if count <= self.rows@.len() - offset {
                count as int
            } else {
                self.rows@.len() - offset
            },
            ({
                let at = self.rows@[offset + k];
                let idx = indexes[at.0 as int]->0;
                let entry = idx.row(at.1 as int);
                let row = rows@[k];
                &&& row.size == entry.size
                &&& row.mtime == secs_to_ticks(entry.mtime)
                &&& row.frn == entry.frn
                &&& row.flags == if bit_set(entry.flag, IS_DIR) {
                    1u32
                } else {
                    0u32
                }
                &&& row.entry_ref == at.0 * 0x1_0000_0000 + at.1
                &&& row.name_off + row.name_len <= blob@.len()
                &&& row.parent_path_off + row.parent_path_len <= blob@.len()
                &&& blob@.subrange(row.name_off as int, row.name_off + row.name_len) == entry.name
                &&& idx.parent_path_is(
                    at.1,
                    Ok(
                        blob@.subrange(
                            row.parent_path_off as int,
                            row.parent_path_off + row.parent_path_len,
                        ),
                    ),
                )
                &&& !bit_set(entry.flag, TOMBSTONE)
            }),
    {
        let len = self.rows@.len() as int;
        let start = page_start(len, offset as int, count as int);
        let n = page_end(len, offset as int, count as int) - start;
        lemma_page_bounds(len, offset as int, count as int);
        let i = start + k;
        let at = self.rows@[i];
        let idx = indexes[at.0 as int]->0;
        let id = at.1;
        let row = rows@[k];
        assert(self.encodes_as(indexes, start, i, row));
        assert(self.row_encodable(indexes, start, n, i, maximum_payload_len));
        assert(self.row_encodable(indexes, start, n, start + n - 1, maximum_payload_len));
        assert(at.0 * 0x1_0000_0000 + at.1 <= u64::MAX);
        let before = self.blob_of(indexes, start, k as nat);
        let upto = self.blob_of(indexes, start, (k + 1) as nat);
        let name = idx.original(id as int);
        let path = idx.parents_text(id);
        assert(start + (k + 1) - 1 == i);
        assert(upto == before + self.row_text(indexes, i));
        assert(self.row_text(indexes, i) == name + path);
        self.lemma_blob_grows(indexes, start, (k + 1) as nat, n as nat);
        assert forall|j: int| 0 <= j < upto.len() implies blob@[j] == upto[j] by {
            assert(blob@.take(upto.len() as int)[j] == blob@[j]);
        }
        let at_name = before.len() as int;
        let at_path = at_name + name.len();
        assert(row.name_off == at_name && row.name_len == name.len());
        assert(row.parent_path_off == at_path && row.parent_path_len == path.len());
        assert(upto.len() == at_path + path.len());
        assert forall|j: int| 0 <= j < name.len() implies blob@[at_name + j] == name[j] by {
            assert(upto[at_name + j] == (name + path)[j]);
        }
        assert forall|j: int| 0 <= j < path.len() implies blob@[at_path + j] == path[j] by {
            assert(upto[at_path + j] == (name + path)[name.len() + j]);
        }
        assert(blob@.subrange(row.name_off as int, row.name_off + row.name_len) =~= name);
        assert(blob@.subrange(
            row.parent_path_off as int,
            row.parent_path_off + row.parent_path_len,
        ) =~= path);
        let last = start + n - 1;
        assert(blob@ == self.blob_of(indexes, start, (last - start) as nat) + self.row_text(
            indexes,
            last,
        ));
    }

    /// A page is refused as too large exactly where more rows were asked for
    /// than may be, and the refusal names both numbers.
    pub proof fn lemma_page_too_large(
        &self,
        indexes: Seq<Option<&VolumeIndex>>,
        offset: usize,
        count: usize,
        maximum_rows: u32,
        maximum_payload_len: usize,
        r: Result<(Vec<FmfRow>, Vec<u8>), EngineError>,
    )
        requires
            self.page_is(indexes, offset, count, maximum_rows, maximum_payload_len, r),
        ensures
            count > maximum_rows <==> r == Err::<(Vec<FmfRow>, Vec<u8>), EngineError>(
                EngineError::PageTooLarge { requested: count, maximum: maximum_rows },
            ),
    {
        let start = page_start(self.rows@.len() as int, offset as int, count as int);
        let n = page_end(self.rows@.len() as int, offset as int, count as int) - start;
    }

    /// A row that cannot be read is reported as stale where its entry is no
    /// longer live, and with the fault of its path otherwise.
    pub proof fn lemma_row_failure(
        &self,
        indexes: Seq<Option<&VolumeIndex>>,
        i: int,
        e: EngineError,
    )
        requires
            self.row_fails(indexes, i, e),
        ensures
            ({
                let idx = indexes[self.rows@[i].0 as int]->0;
                let id = self.rows@[i].1;
                &&& e == EngineError::Stale <==> bit_set(idx.flag@[id as int], TOMBSTONE)
                &&& e != EngineError::Stale ==> (e matches EngineError::Path(fault)
                    && idx.parent_path_is(id, Err(fault)))
            }),
    {
    }
}

impl ResultSet {
    /// A row is refused for its length exactly where the header, the rows and
    /// the text up to it no longer fit what may be sent, or its path would
    /// begin past what an offset holds.
    pub proof fn lemma_row_too_long(
        &self,
        indexes: Seq<Option<&VolumeIndex>>,
        start: int,
        n: int,
        i: int,
        maximum_payload_len: usize,
    )
        requires
            0 <= start <= i,
            0 <= n,
        ensures
            ({
                let before = self.blob_of(indexes, start, (i - start) as nat).len();
                let idx = indexes[self.rows@[i].0 as int]->0;
                let name = idx.original(self.rows@[i].1 as int);
                let path = idx.parents_text(self.rows@[i].1);
                let whole = 8 + 56 * n + before + name.len() + path.len();
                self.encoding_fault(indexes, start, n, i, maximum_payload_len) is None <==> whole
                    <= maximum_payload_len && before + name.len() <= 0xFFFF_FFFF
            }),
    {
    }
}

} // verus!
