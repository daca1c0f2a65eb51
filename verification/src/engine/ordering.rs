//! In which order the rows of a result stand.

use vstd::prelude::*;
use crate::dates::secs_to_ticks;
use crate::index::{SortKey, VolumeIndex};
use crate::order::{bytes_lt, lemma_bytes_total, Order};
use super::search::{
    all_there, entry_order, lemma_entry_order_chain, lemma_merge_sorted, lemma_taken_grows, rows_of,
    sources_of, taken, SortOrder, Sources, VolumeHits,
};

verus! {

/// How two entries of different volumes stand to each other: by the sizes, the
/// times or the folded names themselves, and the other way round where the
/// largest come first.
pub proof fn lemma_entries_compared(
    a_idx: &VolumeIndex,
    a: int,
    b_idx: &VolumeIndex,
    b: int,
    opt: SortOrder,
)
    ensures
        opt.sort == SortKey::Size && !opt.desc ==> (entry_order(a_idx, a, b_idx, b, opt)
            == Order::Less <==> a_idx.row(a).size < b_idx.row(b).size),
        opt.sort == SortKey::Size && opt.desc ==> (entry_order(a_idx, a, b_idx, b, opt)
            == Order::Less <==> a_idx.row(a).size > b_idx.row(b).size),
        opt.sort == SortKey::Size ==> (entry_order(a_idx, a, b_idx, b, opt) == Order::Same
            <==> a_idx.row(a).size == b_idx.row(b).size),
        opt.sort == SortKey::Mtime && !opt.desc ==> (entry_order(a_idx, a, b_idx, b, opt)
            == Order::Less <==> a_idx.row(a).mtime < b_idx.row(b).mtime),
        opt.sort == SortKey::Mtime && opt.desc ==> (entry_order(a_idx, a, b_idx, b, opt)
            == Order::Less <==> a_idx.row(a).mtime > b_idx.row(b).mtime),
        opt.sort == SortKey::Mtime ==> (entry_order(a_idx, a, b_idx, b, opt) == Order::Same
            <==> a_idx.row(a).mtime == b_idx.row(b).mtime),
        opt.sort == SortKey::Name && !opt.desc ==> (entry_order(a_idx, a, b_idx, b, opt)
            == Order::Less <==> bytes_lt(a_idx.row(a).lower, b_idx.row(b).lower)),
        opt.sort == SortKey::Name && opt.desc ==> (entry_order(a_idx, a, b_idx, b, opt)
            == Order::Less <==> bytes_lt(b_idx.row(b).lower, a_idx.row(a).lower)),
        opt.sort == SortKey::Name ==> (entry_order(a_idx, a, b_idx, b, opt) == Order::Same
            <==> a_idx.row(a).lower == b_idx.row(b).lower),
{
    lemma_bytes_total(a_idx.lower(a), b_idx.lower(b));
    lemma_bytes_total(b_idx.lower(b), a_idx.lower(a));
    let (x, y) = (a_idx.mtime@[a], b_idx.mtime@[b]);
    assert(x < y ==> secs_to_ticks(x) < secs_to_ticks(y));
    assert(y < x ==> secs_to_ticks(y) < secs_to_ticks(x));
}

/// The time of row `i` of a result.
pub open spec fn time_of(
    indexes: Seq<Option<&VolumeIndex>>,
    rows: Seq<(u32, u32)>,
    i: int,
) -> u32 {
    indexes[rows[i].0 as int]->0.mtime@[rows[i].1 as int]
}

/// The size of row `i` of a result.
pub open spec fn size_of_row(
    indexes: Seq<Option<&VolumeIndex>>,
    rows: Seq<(u32, u32)>,
    i: int,
) -> u64 {
    indexes[rows[i].0 as int]->0.row(rows[i].1 as int).size
}

/// The folded name of row `i` of a result.
pub open spec fn name_of_row(
    indexes: Seq<Option<&VolumeIndex>>,
    rows: Seq<(u32, u32)>,
    i: int,
) -> Seq<u8> {
    indexes[rows[i].0 as int]->0.row(rows[i].1 as int).lower
}

/// The rows of a result stand in the order that the hits of each volume stand
/// in.
proof fn lemma_rows_in_order(
    hits: Seq<VolumeHits>,
    indexes: Seq<Option<&VolumeIndex>>,
    opt: SortOrder,
    rows: Seq<(u32, u32)>,
)
    requires
        rows_of(hits, indexes, opt, rows),
        sources_of(hits, indexes, opt).each_sorted(),
    ensures
        forall|i: int, j: int|
            0 <= i < j < rows.len() ==> entry_order(
                indexes[(#[trigger] rows[i]).0 as int]->0,
                rows[i].1 as int,
                indexes[(#[trigger] rows[j]).0 as int]->0,
                rows[j].1 as int,
                opt,
            ) != Order::Greater,
{
    let src = sources_of(hits, indexes, opt);
    if hits.len() == 1 {
        assert forall|i: int, j: int| 0 <= i < j < rows.len() implies entry_order(
            indexes[(#[trigger] rows[i]).0 as int]->0,
            rows[i].1 as int,
            indexes[(#[trigger] rows[j]).0 as int]->0,
            rows[j].1 as int,
            opt,
        ) != Order::Greater by {
            assert(src.hit_order(0, i, 0, j) != Order::Greater);
        }
    } else {
        lemma_merge_sorted(src, rows);
        assert forall|i: int, j: int| 0 <= i < j < rows.len() implies entry_order(
            indexes[(#[trigger] rows[i]).0 as int]->0,
            rows[i].1 as int,
            indexes[(#[trigger] rows[j]).0 as int]->0,
            rows[j].1 as int,
            opt,
        ) != Order::Greater by {
            assert(src.row_follows(rows, i));
            assert(src.row_follows(rows, j));
        }
    }
}

/// A result ordered by time: where each volume hands out its hits from the
/// oldest to the newest, so does the result; where it hands them out from the
/// newest to the oldest and that is asked for, so does the result.
pub proof fn lemma_rows_by_time(
    hits: Seq<VolumeHits>,
    indexes: Seq<Option<&VolumeIndex>>,
    opt: SortOrder,
    rows: Seq<(u32, u32)>,
)
    requires
        rows_of(hits, indexes, opt, rows),
        opt.sort == SortKey::Mtime,
        !opt.desc ==> forall|v: int, j: int, k: int|
            #![trigger hits[v].ids@[j], hits[v].ids@[k]]
            0 <= v < hits.len() && 0 <= j < k < hits[v].ids@.len()
                ==> indexes[v]->0.mtime@[hits[v].ids@[j] as int]
                <= indexes[v]->0.mtime@[hits[v].ids@[k] as int],
        opt.desc ==> forall|v: int, j: int, k: int|
            #![trigger hits[v].ids@[j], hits[v].ids@[k]]
            0 <= v < hits.len() && 0 <= j < k < hits[v].ids@.len()
                ==> indexes[v]->0.mtime@[hits[v].ids@[j] as int]
                >= indexes[v]->0.mtime@[hits[v].ids@[k] as int],
    ensures
        !opt.desc ==> forall|i: int, j: int|
            0 <= i < j < rows.len() ==> #[trigger] time_of(indexes, rows, i) <= #[trigger] time_of(
                indexes,
                rows,
                j,
            ),
        opt.desc ==> forall|i: int, j: int|
            0 <= i < j < rows.len() ==> #[trigger] time_of(indexes, rows, i) >= #[trigger] time_of(
                indexes,
                rows,
                j,
            ),
{
    let src = sources_of(hits, indexes, opt);
    assert forall|v: int, j: int, k: int|
        0 <= v < src.lists.len() && 0 <= j < k < src.lists[v].len() implies #[trigger] src.hit_order(
        v,
        j,
        v,
        k,
    ) != Order::Greater by {
        let (a, b) = (hits[v].ids@[j] as int, hits[v].ids@[k] as int);
        lemma_entries_compared(indexes[v]->0, a, indexes[v]->0, b, opt);
    }
    lemma_rows_in_order(hits, indexes, opt, rows);
    assert forall|i: int, j: int| 0 <= i < j < rows.len() implies if opt.desc {
        #[trigger] time_of(indexes, rows, i) >= #[trigger] time_of(indexes, rows, j)
    } else {
        time_of(indexes, rows, i) <= time_of(indexes, rows, j)
    } by {
        let (a, b) = (rows[i], rows[j]);
        lemma_entries_compared(
            indexes[a.0 as int]->0,
            a.1 as int,
            indexes[b.0 as int]->0,
            b.1 as int,
            opt,
        );
    }
}

/// A result ordered by size: where each volume hands out its hits from the
/// smallest to the largest, so does the result; and likewise from the largest
/// to the smallest where that is asked for.
pub proof fn lemma_rows_by_size(
    hits: Seq<VolumeHits>,
    indexes: Seq<Option<&VolumeIndex>>,
    opt: SortOrder,
    rows: Seq<(u32, u32)>,
)
    requires
        rows_of(hits, indexes, opt, rows),
        opt.sort == SortKey::Size,
        !opt.desc ==> forall|v: int, j: int, k: int|
            #![trigger hits[v].ids@[j], hits[v].ids@[k]]
            0 <= v < hits.len() && 0 <= j < k < hits[v].ids@.len() ==> indexes[v]->0.row(
                hits[v].ids@[j] as int,
            ).size <= indexes[v]->0.row(hits[v].ids@[k] as int).size,
        opt.desc ==> forall|v: int, j: int, k: int|
            #![trigger hits[v].ids@[j], hits[v].ids@[k]]
            0 <= v < hits.len() && 0 <= j < k < hits[v].ids@.len() ==> indexes[v]->0.row(
                hits[v].ids@[j] as int,
            ).size >= indexes[v]->0.row(hits[v].ids@[k] as int).size,
    ensures
        !opt.desc ==> forall|i: int, j: int|
            0 <= i < j < rows.len() ==> #[trigger] size_of_row(indexes, rows, i)
                <= #[trigger] size_of_row(indexes, rows, j),
        opt.desc ==> forall|i: int, j: int|
            0 <= i < j < rows.len() ==> #[trigger] size_of_row(indexes, rows, i)
                >= #[trigger] size_of_row(indexes, rows, j),
{
    let src = sources_of(hits, indexes, opt);
    assert forall|v: int, j: int, k: int|
        0 <= v < src.lists.len() && 0 <= j < k < src.lists[v].len() implies #[trigger] src.hit_order(
        v,
        j,
        v,
        k,
    ) != Order::Greater by {
        let (a, b) = (hits[v].ids@[j] as int, hits[v].ids@[k] as int);
        lemma_entries_compared(indexes[v]->0, a, indexes[v]->0, b, opt);
    }
    lemma_rows_in_order(hits, indexes, opt, rows);
    assert forall|i: int, j: int| 0 <= i < j < rows.len() implies if opt.desc {
        #[trigger] size_of_row(indexes, rows, i) >= #[trigger] size_of_row(indexes, rows, j)
    } else {
        size_of_row(indexes, rows, i) <= size_of_row(indexes, rows, j)
    } by {
        let (a, b) = (rows[i], rows[j]);
        lemma_entries_compared(
            indexes[a.0 as int]->0,
            a.1 as int,
            indexes[b.0 as int]->0,
            b.1 as int,
            opt,
        );
    }
}

/// A result ordered by name: where no hit of a volume has a smaller folded
/// name than one ahead of it, none of the result has; and likewise from the
/// largest name to the smallest where that is asked for.
pub proof fn lemma_rows_by_name(
    hits: Seq<VolumeHits>,
    indexes: Seq<Option<&VolumeIndex>>,
    opt: SortOrder,
    rows: Seq<(u32, u32)>,
)
    requires
        rows_of(hits, indexes, opt, rows),
        opt.sort == SortKey::Name,
        !opt.desc ==> forall|v: int, j: int, k: int|
            #![trigger hits[v].ids@[j], hits[v].ids@[k]]
            0 <= v < hits.len() && 0 <= j < k < hits[v].ids@.len() ==> !bytes_lt(
                indexes[v]->0.row(hits[v].ids@[k] as int).lower,
                indexes[v]->0.row(hits[v].ids@[j] as int).lower,
            ),
        opt.desc ==> forall|v: int, j: int, k: int|
            #![trigger hits[v].ids@[j], hits[v].ids@[k]]
            0 <= v < hits.len() && 0 <= j < k < hits[v].ids@.len() ==> !bytes_lt(
                indexes[v]->0.row(hits[v].ids@[j] as int).lower,
                indexes[v]->0.row(hits[v].ids@[k] as int).lower,
            ),
    ensures
        !opt.desc ==> forall|i: int, j: int|
            0 <= i < j < rows.len() ==> !bytes_lt(
                #[trigger] name_of_row(indexes, rows, j),
                #[trigger] name_of_row(indexes, rows, i),
            ),
        opt.desc ==> forall|i: int, j: int|
            0 <= i < j < rows.len() ==> !bytes_lt(
                #[trigger] name_of_row(indexes, rows, i),
                #[trigger] name_of_row(indexes, rows, j),
            ),
{
    let src = sources_of(hits, indexes, opt);
    assert forall|v: int, j: int, k: int|
        0 <= v < src.lists.len() && 0 <= j < k < src.lists[v].len() implies #[trigger] src.hit_order(
        v,
        j,
        v,
        k,
    ) != Order::Greater by {
        let (a, b) = (hits[v].ids@[j] as int, hits[v].ids@[k] as int);
        lemma_entries_compared(indexes[v]->0, a, indexes[v]->0, b, opt);
        lemma_bytes_total(indexes[v]->0.row(a).lower, indexes[v]->0.row(b).lower);
        lemma_bytes_total(indexes[v]->0.row(b).lower, indexes[v]->0.row(a).lower);
    }
    lemma_rows_in_order(hits, indexes, opt, rows);
    assert forall|i: int, j: int| 0 <= i < j < rows.len() implies if opt.desc {
        !bytes_lt(
            #[trigger] name_of_row(indexes, rows, i),
            #[trigger] name_of_row(indexes, rows, j),
        )
    } else {
        !bytes_lt(name_of_row(indexes, rows, j), name_of_row(indexes, rows, i))
    } by {
        let (a, b) = (rows[i], rows[j]);
        let (x, y) = (indexes[a.0 as int]->0, indexes[b.0 as int]->0);
        lemma_entries_compared(x, a.1 as int, y, b.1 as int, opt);
        lemma_bytes_total(x.row(a.1 as int).lower, y.row(b.1 as int).lower);
        lemma_bytes_total(y.row(b.1 as int).lower, x.row(a.1 as int).lower);
    }
}

/// Of rows with equal keys, those of the volume that is searched first come
/// first.
pub proof fn lemma_equal_rows_by_volume(src: Sources<'_>, rows: Seq<(u32, u32)>, i: int, j: int)
    requires
        src.merges_to(rows),
        src.each_sorted(),
        0 <= i < j < rows.len(),
        entry_order(
            src.indexes[rows[i].0 as int],
            rows[i].1 as int,
            src.indexes[rows[j].0 as int],
            rows[j].1 as int,
            src.opt,
        ) == Order::Same,
    ensures
        rows[i].0 <= rows[j].0,
{
    assert(src.row_follows(rows, i));
    assert(src.row_follows(rows, j));
    let (v, w) = (rows[i].0 as int, rows[j].0 as int);
    let (ci, cj) = (src.cursors(rows.take(i)), src.cursors(rows.take(j)));
    lemma_taken_grows(rows, i, j, v);
    lemma_taken_grows(rows, i, j, w);
    if w < v {
        assert(ci[w] < src.lists[w].len());
        assert(src.hit_order(v, ci[v], w, ci[w]) == Order::Less);
        if ci[w] < cj[w] {
            assert(src.hit_order(w, ci[w], w, cj[w]) != Order::Greater);
            lemma_entry_order_chain(
                src.indexes[v],
                rows[i].1 as int,
                src.indexes[w],
                src.lists[w][ci[w]] as int,
                src.indexes[w],
                rows[j].1 as int,
                src.opt,
            );
        }
    }
}

/// The rows of one volume stand in the order in which it handed them out.
pub proof fn lemma_rows_keep_order(src: Sources<'_>, rows: Seq<(u32, u32)>, i: int, j: int) -> (r: (
    int,
    int,
))
    requires
        src.merges_to(rows),
        0 <= i < j < rows.len(),
        rows[i].0 == rows[j].0,
    ensures
        0 <= r.0 < r.1 < src.lists[rows[i].0 as int].len(),
        src.lists[rows[i].0 as int][r.0] == rows[i].1,
        src.lists[rows[i].0 as int][r.1] == rows[j].1,
{
    assert(src.row_follows(rows, i));
    assert(src.row_follows(rows, j));
    let v = rows[i].0 as int;
    lemma_taken_grows(rows, i, j, v);
    lemma_taken_grows(rows, i + 1, j, v);
    assert(rows.take(i + 1).drop_last() =~= rows.take(i));
    (taken(rows.take(i), v), taken(rows.take(j), v))
}

/// The rows of a single volume are its hits, as they are.
pub proof fn lemma_single_volume_rows(
    hits: Seq<VolumeHits>,
    indexes: Seq<Option<&VolumeIndex>>,
    opt: SortOrder,
    rows: Seq<(u32, u32)>,
)
    requires
        hits.len() == 1,
        rows_of(hits, indexes, opt, rows),
    ensures
        rows.len() == hits[0].ids@.len(),
        forall|i: int| 0 <= i < rows.len() ==> (#[trigger] rows[i]).0 == 0 && rows[i].1 == hits[0].ids@[i],
{
}

} // verus!
