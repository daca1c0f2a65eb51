//! What a search that is done says of its volumes together.

use vstd::prelude::*;
use crate::metrics::QueryTrace;
use crate::index::columns::VolumeIndex;
use super::search::{all_there, cache_outcome, cost, only_rows, refined_count, VolumeHits};

verus! {

/// A volume more adds what it cost, each kind of cost to its own, and nothing
/// besides.
pub proof fn lemma_cost_adds_up(hits: Seq<VolumeHits>, h: VolumeHits, from: QueryTrace)
    ensures
        cost(hits.push(h), from).0 == cost(hits, from).0 + h.metrics.memo_us,
        cost(hits.push(h), from).1 == cost(hits, from).1 + h.metrics.scan_us,
        cost(hits.push(h), from).2 == cost(hits, from).2 + h.metrics.materialize_us,
        cost(hits.push(h), from).3 == cost(hits, from).3 + h.metrics.entries_scanned,
        cost(hits.push(h), from).4 == cost(hits, from).4 + h.metrics.excluded_skipped,
        cost(Seq::empty(), from).0 == from.memo_us,
        cost(Seq::empty(), from).1 == from.scan_us,
        cost(Seq::empty(), from).2 == from.materialize_us,
        cost(Seq::empty(), from).3 == from.entries_scanned,
        cost(Seq::empty(), from).4 == from.excluded_skipped,
{
    assert(hits.push(h).drop_last() =~= hits);
}

proof fn lemma_refined_count(hits: Seq<VolumeHits>)
    ensures
        0 <= refined_count(hits) <= hits.len(),
        refined_count(hits) == 0 <==> forall|v: int|
            0 <= v < hits.len() ==> !(#[trigger] hits[v]).refined,
        refined_count(hits) == hits.len() <==> forall|v: int|
            0 <= v < hits.len() ==> (#[trigger] hits[v]).refined,
    decreases hits.len(),
{
    if hits.len() > 0 {
        let front = hits.drop_last();
        lemma_refined_count(front);
        assert forall|v: int| 0 <= v < front.len() implies front[v] == #[trigger] hits[v] by {}
        assert(hits.last() == hits[hits.len() - 1]);
        if refined_count(hits) == 0 {
            assert forall|v: int| 0 <= v < hits.len() implies !(#[trigger] hits[v]).refined by {
                if v < front.len() {
                    assert(!front[v].refined);
                }
            }
        }
        if refined_count(hits) == hits.len() {
            assert forall|v: int| 0 <= v < hits.len() implies (#[trigger] hits[v]).refined by {
                if v < front.len() {
                    assert(front[v].refined);
                }
            }
        }
    }
}

/// The previous result counts as missed where no volume could narrow it, as
/// refined where every one did, and as partly refined otherwise.
pub proof fn lemma_cache_outcome(hits: Seq<VolumeHits>)
    ensures
        (forall|v: int| 0 <= v < hits.len() ==> !(#[trigger] hits[v]).refined) ==> cache_outcome(
            hits,
        ) == "miss"@,
        hits.len() > 0 && (forall|v: int| 0 <= v < hits.len() ==> (#[trigger] hits[v]).refined)
            ==> cache_outcome(hits) == "refine"@,
        (exists|v: int| 0 <= v < hits.len() && !(#[trigger] hits[v]).refined) && (exists|v: int|
            0 <= v < hits.len() && (#[trigger] hits[v]).refined) ==> cache_outcome(hits)
            == "partial"@,
{
    lemma_refined_count(hits);
}

/// The rows of a single volume are what it found, in the order it found them.
pub proof fn lemma_only_rows(ids: Seq<u32>, k: int)
    requires
        0 <= k < ids.len(),
    ensures
        only_rows(ids).len() == ids.len(),
        only_rows(ids)[k] == (0u32, ids[k]),
{
}

/// The indexes are the ones that were searched exactly where every volume
/// still has one, of the generation it had then.
pub proof fn lemma_all_there_is(hits: Seq<VolumeHits>, indexes: Seq<Option<&VolumeIndex>>, v: int)
    requires
        0 <= v < hits.len(),
    ensures
        indexes[v] is None ==> !all_there(hits, indexes),
        indexes[v] matches Some(idx) ==> (idx.structural_generation != hits[v].structural
            ==> !all_there(hits, indexes)),
        all_there(hits, indexes) ==> (indexes[v] matches Some(idx) && idx.structural_generation
            == hits[v].structural),
{
    if all_there(hits, indexes) {
        assert(super::search::still_there(hits[v], indexes[v]));
    }
}

} // verus!
