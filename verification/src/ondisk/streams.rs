//! What the runs of a stream hold of it.

use vstd::prelude::*;
use crate::order::{reordered, same_items};
use super::attribute_list::{
    coverage, is_covered_prefix, run_allocated, runs_complete, runs_partial, ListEntry, StreamRun,
};
use super::closure::{
    admission, counted, covered_of, pass_taken, planned, taken, Admission, Collected, NextPass,
};
use super::list_stream::{holds, offsets_of, stream_bytes, volume_offset, ReadPiece};

verus! {

proof fn lemma_held_before(runs: Seq<StreamRun>, data_size: int, j: int, x: int)
    requires
        runs_complete(runs, data_size),
        0 <= j < runs.len(),
        0 <= x < runs[j].end(),
    ensures
        exists|i: int| 0 <= i < runs.len() && (#[trigger] runs[i]).logical <= x < runs[i].end(),
    decreases runs[j].logical,
{
    if runs[j].logical > x {
        let k = choose|k: int| 0 <= k < runs.len() && (#[trigger] runs[k]).end() == runs[j].logical;
        assert(run_allocated(runs[k]));
        lemma_held_before(runs, data_size, k, x);
    }
}

/// Complete runs hold every byte of the stream, each in one run alone.
pub proof fn lemma_complete_runs_hold(runs: Seq<StreamRun>, data_size: int, x: int)
    requires
        runs_complete(runs, data_size),
        0 <= x < data_size,
    ensures
        exists|i: int| 0 <= i < runs.len() && (#[trigger] runs[i]).logical <= x < runs[i].end(),
        forall|i: int, j: int|
            0 <= i < runs.len() && 0 <= j < runs.len() && (#[trigger] runs[i]).logical <= x
                < runs[i].end() && (#[trigger] runs[j]).logical <= x < runs[j].end() ==> i == j,
{
    let j = choose|i: int| 0 <= i < runs.len() && (#[trigger] runs[i]).end() >= data_size;
    lemma_held_before(runs, data_size, j, x);
    assert forall|i: int, k: int|
        0 <= i < runs.len() && 0 <= k < runs.len() && (#[trigger] runs[i]).logical <= x
            < runs[i].end() && (#[trigger] runs[k]).logical <= x < runs[k].end() implies i == k by {
        if i < k {
            assert(super::attribute_list::logically_apart(runs[i], runs[k]));
        } else if k < i {
            assert(super::attribute_list::logically_apart(runs[k], runs[i]));
        }
    }
}

/// Runs that leave a byte of the stream out are not complete.
pub proof fn lemma_gap_is_refused(runs: Seq<StreamRun>, data_size: int, x: int)
    requires
        0 <= x < data_size,
        forall|i: int|
            0 <= i < runs.len() ==> !((#[trigger] runs[i]).logical <= x < runs[i].end()),
    ensures
        !runs_complete(runs, data_size),
{
    if runs_complete(runs, data_size) {
        lemma_complete_runs_hold(runs, data_size, x);
    }
}

/// A byte of the stream lies on the volume as far behind the start of its run
/// as it lies behind the run's place in the stream.
pub proof fn lemma_byte_on_volume(runs: Seq<StreamRun>, data_size: int, i: int, x: int)
    requires
        runs_complete(runs, data_size),
        0 <= x < data_size,
        0 <= i < runs.len(),
        runs[i].logical <= x < runs[i].end(),
    ensures
        runs[i].physical is Some,
        volume_offset(runs, x) - runs[i].physical->0 == x - runs[i].logical,
{
    lemma_complete_runs_hold(runs, data_size, x);
    assert(holds(runs, i, x));
    let k = choose|k: int| holds(runs, k, x);
    assert(holds(runs, k, x));
    assert(runs[k].logical <= x < runs[k].end() && runs[i].logical <= x < runs[i].end());
    assert(run_allocated(runs[i]));
}

/// Two bytes of one run lie as far apart on the volume as in the stream, and
/// the stream holds the volume's bytes there.
pub proof fn lemma_run_is_contiguous(
    image: Seq<u8>,
    runs: Seq<StreamRun>,
    data_size: int,
    i: int,
    x: int,
)
    requires
        runs_complete(runs, data_size),
        0 <= x < data_size,
        0 <= i < runs.len(),
        runs[i].logical <= x < runs[i].end(),
    ensures
        stream_bytes(image, runs, data_size).len() == data_size,
        stream_bytes(image, runs, data_size)[x] == image[runs[i].physical->0 + (x
            - runs[i].logical)],
{
    lemma_byte_on_volume(runs, data_size, i, x);
}

/// The pieces of a read are as long together as what they read, and each piece
/// reads on where it says.
pub proof fn lemma_pieces_add_up(pieces: Seq<ReadPiece>, p: ReadPiece)
    ensures
        offsets_of(pieces.push(p)).len() == offsets_of(pieces).len() + p.len,
        forall|j: int|
            0 <= j < p.len ==> offsets_of(pieces.push(p))[offsets_of(pieces).len() + j] == #[trigger] (
            p.offset + j),
        forall|j: int|
            0 <= j < offsets_of(pieces).len() ==> #[trigger] offsets_of(pieces.push(p))[j]
                == offsets_of(pieces)[j],
        offsets_of(Seq::empty()).len() == 0,
{
    assert(pieces.push(p).drop_last() =~= pieces);
}

proof fn lemma_coverage_holds(o: Seq<StreamRun>, k: int, cursor: int, x: int)
    requires
        0 <= k,
        cursor <= x < coverage(o, k, cursor),
    ensures
        exists|i: int| 0 <= i < o.len() && (#[trigger] o[i]).logical <= x < o[i].end(),
    decreases o.len() - k,
{
    if k < o.len() && o[k].logical == cursor && cursor + o[k].len <= u64::MAX {
        if x < cursor + o[k].len {
            assert(o[k].logical <= x < o[k].end());
        } else {
            lemma_coverage_holds(o, k + 1, cursor + o[k].len, x);
        }
    }
}

/// What counts as covered is held: every byte of it lies in a run.
pub proof fn lemma_covered_is_held(runs: Seq<StreamRun>, covered: int, x: int)
    requires
        is_covered_prefix(runs, covered),
        0 <= x < covered,
    ensures
        exists|i: int| 0 <= i < runs.len() && (#[trigger] runs[i]).logical <= x < runs[i].end(),
{
    let o = choose|o: Seq<StreamRun>| #[trigger]
        same_items(runs, o) && super::attribute_list::logically_sorted(o) && covered == coverage(
            o,
            0,
            0,
        );
    lemma_coverage_holds(o, 0, 0, x);
    let i = choose|i: int| 0 <= i < o.len() && (#[trigger] o[i]).logical <= x < o[i].end();
    let (p, q) = choose|p: Seq<int>, q: Seq<int>| reordered(runs, o, p, q);
    assert(exists|k: int| 0 <= k < runs.len() && #[trigger] runs[k] == o[i]) by {
        assert(reordered(runs, o, p, q));
        assert(0 <= p[i] < runs.len() && runs[p[i]] == o[i]);
    }
    let k = choose|k: int| 0 <= k < runs.len() && #[trigger] runs[k] == o[i];
    assert(runs[k].logical <= x < runs[k].end());
}

/// A pass is made only to read more than the one before it read, within 64
/// passes and 64 MiB altogether; it reads what is covered and no more, and none
/// is needed where that is all.
pub proof fn lemma_pass_planned(c: Collected, data_size: int)
    requires
        0 <= data_size <= u64::MAX,
        is_covered_prefix(c.runs, covered_of(c.runs)),
        0 <= covered_of(c.runs),
    ensures
        planned(c, data_size) == NextPass::Covered <==> covered_of(c.runs) >= data_size,
        planned(c, data_size) matches NextPass::Read(prefix) ==> {
            &&& prefix == covered_of(c.runs)
            &&& c.scanned_prefix < prefix < data_size
            &&& c.passes < 64
            &&& c.scanned_bytes + prefix <= 0x400_0000
        },
        planned(c, data_size) == NextPass::Stuck ==> covered_of(c.runs) <= c.scanned_prefix
            || c.passes >= 64 || c.scanned_bytes + covered_of(c.runs) > 0x400_0000,
{
}

/// A pass counts itself and what it reads, and leaves the rest.
pub proof fn lemma_pass_counted(c: Collected, prefix: u64)
    ensures
        counted(c, prefix).passes == c.passes + 1,
        counted(c, prefix).scanned_bytes == c.scanned_bytes + prefix,
        counted(c, prefix).runs == c.runs,
        counted(c, prefix).seen == c.seen,
        counted(c, prefix).scanned_prefix == c.scanned_prefix,
{
}

/// An entry is admitted once: only an unnamed part of the list itself with a
/// full reference is decoded, one seen before under the same identity is
/// passed over, and one seen under another is refused.
pub proof fn lemma_admitted_once(seen: Map<(u64, u16), (u32, u8, u64)>, entry: ListEntry)
    ensures
        admission(seen, entry) != Admission::Reject ==> entry.type_id == 0x20 && entry.name_length
            == 0 && entry.target_reference >= 0x1_0000_0000_0000,
        admission(seen, entry) == Admission::Decode ==> !seen.contains_key(
            (entry.target_reference, entry.id),
        ) && seen.dom().len() != 262_144,
        admission(seen, entry) == Admission::Known ==> seen.contains_key(
            (entry.target_reference, entry.id),
        ) && seen[(entry.target_reference, entry.id)] == (
            entry.type_id,
            entry.name_length,
            entry.starting_vcn,
        ),
        admission(
            seen.insert(
                (entry.target_reference, entry.id),
                (entry.type_id, entry.name_length, entry.starting_vcn),
            ),
            entry,
        ) != Admission::Decode,
{
}

/// What a pass takes is added behind what was there, and stays valid.
pub proof fn lemma_taken_extends(
    c: Collected,
    data_size: int,
    entries: Seq<ListEntry>,
    decoded: Seq<Option<Vec<StreamRun>>>,
    n: int,
)
    requires
        runs_partial(c.runs, data_size),
        taken(c, data_size, entries, decoded, n) is Some,
    ensures
        ({
            let d = taken(c, data_size, entries, decoded, n)->0;
            &&& c.runs.is_prefix_of(d.runs)
            &&& runs_partial(d.runs, data_size)
            &&& d.passes == c.passes
            &&& d.scanned_bytes == c.scanned_bytes
            &&& forall|t: (u64, u16)| #[trigger]
                c.seen.contains_key(t) ==> d.seen.contains_key(t) && d.seen[t] == c.seen[t]
            &&& forall|i: int|
                0 <= i < n ==> d.seen.contains_key(
                    ((#[trigger] entries[i]).target_reference, entries[i].id),
                )
        }),
    decreases n,
{
    if n > 0 {
        lemma_taken_extends(c, data_size, entries, decoded, n - 1);
    }
}

/// A pass that brings nothing new is given up, and one that does records how
/// far it read.
pub proof fn lemma_pass_brings_more(
    c: Collected,
    data_size: int,
    prefix: u64,
    entries: Seq<ListEntry>,
    decoded: Seq<Option<Vec<StreamRun>>>,
)
    requires
        runs_partial(c.runs, data_size),
        pass_taken(c, data_size, prefix, entries, decoded) is Some,
    ensures
        ({
            let d = pass_taken(c, data_size, prefix, entries, decoded)->0;
            &&& c.runs.is_prefix_of(d.runs)
            &&& d.runs.len() > c.runs.len()
            &&& d.scanned_prefix == prefix
            &&& entries.len() <= 262_144
        }),
{
    lemma_taken_extends(c, data_size, entries, decoded, entries.len() as int);
}

/// Runs of a list are accepted only within 16384 runs and 16 MiB, each on the
/// volume and not empty, no two overlapping on the volume or in the stream, and
/// one at the start of it.
pub proof fn lemma_runs_accepted(runs: Seq<StreamRun>, data_size: int, i: int, j: int)
    requires
        runs_partial(runs, data_size),
        0 <= i < j < runs.len(),
    ensures
        0 < data_size <= 0x100_0000,
        runs.len() <= 16_384,
        runs[i].physical is Some && runs[i].len > 0,
        runs[i].physical->0 + runs[i].len <= runs[j].physical->0 || runs[j].physical->0
            + runs[j].len <= runs[i].physical->0,
        runs[i].logical + runs[i].len <= runs[j].logical || runs[j].logical + runs[j].len
            <= runs[i].logical,
        exists|k: int| 0 <= k < runs.len() && (#[trigger] runs[k]).logical == 0,
{
    assert(run_allocated(runs[i]));
    assert(super::attribute_list::physically_apart(runs[i], runs[j]));
    assert(super::attribute_list::logically_apart(runs[i], runs[j]));
}

} // verus!
