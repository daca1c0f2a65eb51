//! From the hits of each volume to one ordered result.

use vstd::prelude::*;
use crate::dates::secs_to_ticks;
use crate::index::{EntryId, SortKey, VolumeIndex};
use crate::metrics::{timed_us, QueryTrace, Stage};
use crate::order::{bytes_lt, bytes_order, compare_bytes, lemma_bytes_total, lemma_bytes_transitive, Order};
use super::results::ResultSet;
use super::{ContractLimits, EngineError, QueryCancellation};

verus! {

/// How often a merge looks whether it is to be given up, in rows.
pub const CANCELLATION_STRIDE: usize = 1024;

/// The order of the rows of a result.
#[derive(Clone, Copy, Debug, PartialEq, Eq, Structural)]
pub struct SortOrder {
    /// What the rows are ordered by.
    pub sort: SortKey,
    /// The largest first.
    pub desc: bool,
}

/// The order of two numbers.
pub open spec fn number_order(a: int, b: int) -> Order {
    if a < b {
        Order::Less
    } else if a == b {
        Order::Same
    } else {
        Order::Greater
    }
}

/// The opposite order.
pub open spec fn reversed(o: Order) -> Order {
    match o {
        Order::Less => Order::Greater,
        Order::Same => Order::Same,
        Order::Greater => Order::Less,
    }
}

/// The order of entry `a` of one volume and entry `b` of another.
pub open spec fn entry_order(
    a_idx: &VolumeIndex,
    a: int,
    b_idx: &VolumeIndex,
    b: int,
    opt: SortOrder,
) -> Order {
    let ascending = match opt.sort {
        SortKey::Name => bytes_order(a_idx.lower(a), b_idx.lower(b)),
        SortKey::Size => number_order(a_idx.bytes_of(a) as int, b_idx.bytes_of(b) as int),
        SortKey::Mtime => number_order(
            secs_to_ticks(a_idx.mtime@[a]) as int,
            secs_to_ticks(b_idx.mtime@[b]) as int,
        ),
    };
    if opt.desc {
        reversed(ascending)
    } else {
        ascending
    }
}

/// Compare entries of two volumes.
pub fn compare_entries(
    a_idx: &VolumeIndex,
    a: EntryId,
    b_idx: &VolumeIndex,
    b: EntryId,
    opt: SortOrder,
) -> (r: Order)
    requires
        a_idx.columns_wf(),
        b_idx.columns_wf(),
        a < a_idx.count(),
        b < b_idx.count(),
    ensures
        r == entry_order(a_idx, a as int, b_idx, b as int, opt),
        opt.sort == SortKey::Mtime && !opt.desc ==> (r == Order::Less <==> a_idx.mtime@[a as int]
            < b_idx.mtime@[b as int]),
        opt.sort == SortKey::Mtime && opt.desc ==> (r == Order::Less <==> a_idx.mtime@[a as int]
            > b_idx.mtime@[b as int]),
        opt.sort == SortKey::Size && !opt.desc ==> (r == Order::Less <==> a_idx.row(a as int).size
            < b_idx.row(b as int).size),
        opt.sort == SortKey::Size && opt.desc ==> (r == Order::Less <==> a_idx.row(a as int).size
            > b_idx.row(b as int).size),
        opt.sort == SortKey::Name && !opt.desc ==> (r == Order::Less <==> bytes_lt(
            a_idx.lower(a as int),
            b_idx.lower(b as int),
        )),
        opt.sort == SortKey::Name && opt.desc ==> (r == Order::Less <==> bytes_lt(
            b_idx.lower(b as int),
            a_idx.lower(a as int),
        )),
{
    proof {
        super::ordering::lemma_entries_compared(a_idx, a as int, b_idx, b as int, opt);
    }
    let ascending: Order = match opt.sort {
        SortKey::Name => compare_bytes(a_idx.lower_name(a), b_idx.lower_name(b)),
        SortKey::Size => {
            let x: u64 = a_idx.size(a);
            let y: u64 = b_idx.size(b);
            if x < y {
                Order::Less
            } else if x == y {
                Order::Same
            } else {
                Order::Greater
            }
        },
        SortKey::Mtime => {
            let x: i64 = a_idx.mtime(a);
            let y: i64 = b_idx.mtime(b);
            if x < y {
                Order::Less
            } else if x == y {
                Order::Same
            } else {
                Order::Greater
            }
        },
    };
    if opt.desc {
        match ascending {
            Order::Less => Order::Greater,
            Order::Same => Order::Same,
            Order::Greater => Order::Less,
        }
    } else {
        ascending
    }
}

proof fn lemma_bytes_order_reverses(a: Seq<u8>, b: Seq<u8>)
    ensures
        bytes_order(b, a) == reversed(bytes_order(a, b)),
{
    lemma_bytes_total(a, b);
}

/// Turning the two entries round turns their order round.
pub proof fn lemma_entry_order_reverses(
    a_idx: &VolumeIndex,
    a: int,
    b_idx: &VolumeIndex,
    b: int,
    opt: SortOrder,
)
    ensures
        entry_order(b_idx, b, a_idx, a, opt) == reversed(entry_order(a_idx, a, b_idx, b, opt)),
{
    lemma_bytes_order_reverses(a_idx.lower(a), b_idx.lower(b));
}

proof fn lemma_bytes_order_chain(a: Seq<u8>, b: Seq<u8>, c: Seq<u8>)
    requires
        bytes_order(a, b) != Order::Greater,
        bytes_order(b, c) != Order::Greater,
    ensures
        bytes_order(a, c) != Order::Greater,
        bytes_order(a, b) == Order::Less || bytes_order(b, c) == Order::Less ==> bytes_order(a, c)
            == Order::Less,
{
    lemma_bytes_total(a, b);
    lemma_bytes_total(b, c);
    lemma_bytes_total(a, c);
    if a != b && b != c {
        lemma_bytes_transitive(a, b, c);
    }
}

/// Not coming behind is transitive, and strictly so where one of the two
/// steps is strict.
pub proof fn lemma_entry_order_chain(
    a_idx: &VolumeIndex,
    a: int,
    b_idx: &VolumeIndex,
    b: int,
    c_idx: &VolumeIndex,
    c: int,
    opt: SortOrder,
)
    requires
        entry_order(a_idx, a, b_idx, b, opt) != Order::Greater,
        entry_order(b_idx, b, c_idx, c, opt) != Order::Greater,
    ensures
        entry_order(a_idx, a, c_idx, c, opt) != Order::Greater,
        entry_order(a_idx, a, b_idx, b, opt) == Order::Less || entry_order(
            b_idx,
            b,
            c_idx,
            c,
            opt,
        ) == Order::Less ==> entry_order(a_idx, a, c_idx, c, opt) == Order::Less,
{
    if opt.sort == SortKey::Name {
        let (x, y, z) = (a_idx.lower(a), b_idx.lower(b), c_idx.lower(c));
        lemma_bytes_order_reverses(x, y);
        lemma_bytes_order_reverses(y, z);
        lemma_bytes_order_reverses(x, z);
        if opt.desc {
            lemma_bytes_order_chain(z, y, x);
        } else {
            lemma_bytes_order_chain(x, y, z);
        }
    }
}

/// How many of the rows are of volume `v`.
pub open spec fn taken(rows: Seq<(u32, u32)>, v: int) -> int
    decreases rows.len(),
{
    if rows.len() == 0 {
        0
    } else {
        taken(rows.drop_last(), v) + if rows.last().0 == v {
            1int
        } else {
            0
        }
    }
}

/// What each volume found, and the index it was found in.
pub ghost struct Sources<'a> {
    /// The indexes.
    pub indexes: Seq<&'a VolumeIndex>,
    /// The entries found, in order.
    pub lists: Seq<Seq<u32>>,
    /// The order asked for.
    pub opt: SortOrder,
}

impl<'a> Sources<'a> {
    /// Every entry found exists.
    pub open spec fn valid(&self) -> bool {
        &&& self.indexes.len() == self.lists.len()
        &&& forall|v: int| 0 <= v < self.indexes.len() ==> (#[trigger] self.indexes[v]).columns_wf()
        &&& forall|v: int, k: int|
            0 <= v < self.lists.len() && 0 <= k < self.lists[v].len() ==> (
            #[trigger] self.lists[v][k]) < self.indexes[v].count()
    }

    /// The order of hit `j` of volume `v` and hit `k` of volume `w`.
    pub open spec fn hit_order(&self, v: int, j: int, w: int, k: int) -> Order {
        entry_order(
            self.indexes[v],
            self.lists[v][j] as int,
            self.indexes[w],
            self.lists[w][k] as int,
            self.opt,
        )
    }

    /// With `cur` hits of each volume taken, volume `v` has one left that
    /// comes before that of every volume in front of it, and not behind that
    /// of any other.
    pub open spec fn leads(&self, cur: Seq<int>, v: int) -> bool {
        self.leads_among(cur, v, self.lists.len() as int)
    }

    /// Volume `v` leads among the first `n`.
    pub open spec fn leads_among(&self, cur: Seq<int>, v: int, n: int) -> bool {
        &&& 0 <= v < n
        &&& cur[v] < self.lists[v].len()
        &&& forall|w: int|
            0 <= w < n && w != v && #[trigger] cur[w] < self.lists[w].len() ==> if w < v {
                self.hit_order(v, cur[v], w, cur[w]) == Order::Less
            } else {
                self.hit_order(v, cur[v], w, cur[w]) != Order::Greater
            }
    }

    /// How many hits of each volume are among the rows.
    pub open spec fn cursors(&self, rows: Seq<(u32, u32)>) -> Seq<int> {
        Seq::new(self.lists.len(), |v: int| taken(rows, v))
    }

    /// Row `i` is the next hit of the volume that leads behind the rows in
    /// front of it.
    pub open spec fn row_follows(&self, rows: Seq<(u32, u32)>, i: int) -> bool {
        let cur = self.cursors(rows.take(i));
        let v = rows[i].0 as int;
        self.leads(cur, v) && rows[i].1 == self.lists[v][cur[v]]
    }

    /// Every row follows from those in front of it.
    pub open spec fn follows(&self, rows: Seq<(u32, u32)>) -> bool {
        forall|i: int| 0 <= i < rows.len() ==> #[trigger] self.row_follows(rows, i)
    }

    /// Every hit of every volume is among the rows.
    pub open spec fn exhausts(&self, rows: Seq<(u32, u32)>) -> bool {
        forall|v: int| 0 <= v < self.lists.len() ==> #[trigger] taken(rows, v) == self.lists[v].len()
    }

    /// The rows are the merge of the hits.
    pub open spec fn merges_to(&self, rows: Seq<(u32, u32)>) -> bool {
        self.follows(rows) && self.exhausts(rows)
    }

    /// The hits of each volume are in the order asked for.
    pub open spec fn each_sorted(&self) -> bool {
        forall|v: int, j: int, k: int|
            0 <= v < self.lists.len() && 0 <= j < k < self.lists[v].len() ==> #[trigger]
            self.hit_order(v, j, v, k) != Order::Greater
    }

    /// How many hits of the first `n` volumes are left.
    spec fn left(&self, cur: Seq<int>, n: int) -> int
        decreases n,
    {
        if n <= 0 {
            0
        } else {
            self.left(cur, n - 1) + self.lists[n - 1].len() - cur[n - 1]
        }
    }

    proof fn lemma_left_step(&self, cur: Seq<int>, v: int, n: int)
        requires
            0 <= v < cur.len(),
            0 <= n <= cur.len(),
        ensures
            self.left(cur.update(v, cur[v] + 1), n) == self.left(cur, n) - if v < n {
                1int
            } else {
                0
            },
        decreases n,
    {
        if n > 0 {
            self.lemma_left_step(cur, v, n - 1);
        }
    }

    proof fn lemma_left_some(&self, cur: Seq<int>, n: int)
        requires
            0 <= n <= cur.len(),
            forall|v: int| 0 <= v < n ==> #[trigger] cur[v] <= self.lists[v].len(),
        ensures
            self.left(cur, n) >= 0,
        decreases n,
    {
        if n > 0 {
            self.lemma_left_some(cur, n - 1);
        }
    }

    proof fn lemma_taken_push(&self, rows: Seq<(u32, u32)>, row: (u32, u32))
        requires
            row.0 < self.lists.len(),
        ensures
            self.cursors(rows.push(row)) == self.cursors(rows).update(
                row.0 as int,
                self.cursors(rows)[row.0 as int] + 1,
            ),
    {
        assert(rows.push(row).drop_last() =~= rows);
        assert(self.cursors(rows.push(row)) =~= self.cursors(rows).update(
            row.0 as int,
            self.cursors(rows)[row.0 as int] + 1,
        ));
    }

    proof fn lemma_follows_push(&self, rows: Seq<(u32, u32)>, row: (u32, u32))
        requires
            self.follows(rows),
            self.row_follows(rows.push(row), rows.len() as int),
        ensures
            self.follows(rows.push(row)),
    {
        let more = rows.push(row);
        assert forall|i: int| 0 <= i < more.len() implies #[trigger] self.row_follows(more, i) by {
            if i < rows.len() {
                assert(self.row_follows(rows, i));
                assert(more.take(i) =~= rows.take(i));
            }
        }
    }
}

pub(crate) proof fn lemma_taken_grows(rows: Seq<(u32, u32)>, i: int, j: int, v: int)
    requires
        0 <= i <= j <= rows.len(),
    ensures
        0 <= taken(rows.take(i), v) <= taken(rows.take(j), v),
        i < j && rows[i].0 == v ==> taken(rows.take(i), v) < taken(rows.take(j), v),
    decreases j,
{
    if j > 0 {
        assert(rows.take(j).drop_last() =~= rows.take(j - 1));
        if i < j {
            lemma_taken_grows(rows, i, j - 1, v);
        } else {
            lemma_taken_grows(rows, i - 1, j - 1, v);
        }
    }
}

/// Where the hits of each volume are in the order asked for, so is their
/// merge.
pub proof fn lemma_merge_sorted(src: Sources<'_>, rows: Seq<(u32, u32)>)
    requires
        src.merges_to(rows),
        src.each_sorted(),
    ensures
        forall|i: int, j: int|
            0 <= i < j < rows.len() ==> entry_order(
                src.indexes[(#[trigger] rows[i]).0 as int],
                rows[i].1 as int,
                src.indexes[(#[trigger] rows[j]).0 as int],
                rows[j].1 as int,
                src.opt,
            ) != Order::Greater,
{
    assert forall|i: int, j: int| 0 <= i < j < rows.len() implies entry_order(
        src.indexes[(#[trigger] rows[i]).0 as int],
        rows[i].1 as int,
        src.indexes[(#[trigger] rows[j]).0 as int],
        rows[j].1 as int,
        src.opt,
    ) != Order::Greater by {
        assert(src.row_follows(rows, i));
        assert(src.row_follows(rows, j));
        let (v, w) = (rows[i].0 as int, rows[j].0 as int);
        let (ci, cj) = (src.cursors(rows.take(i)), src.cursors(rows.take(j)));
        lemma_taken_grows(rows, i, j, v);
        lemma_taken_grows(rows, i, j, w);
        if v == w {
            assert(src.hit_order(v, ci[v], v, cj[v]) != Order::Greater);
        } else {
            assert(ci[w] < src.lists[w].len());
            assert(src.hit_order(v, ci[v], w, ci[w]) != Order::Greater);
            if ci[w] < cj[w] {
                assert(src.hit_order(w, ci[w], w, cj[w]) != Order::Greater);
                lemma_entry_order_chain(
                    src.indexes[v],
                    rows[i].1 as int,
                    src.indexes[w],
                    src.lists[w][ci[w]] as int,
                    src.indexes[w],
                    rows[j].1 as int,
                    src.opt,
                );
            }
        }
    }
}

proof fn lemma_place_of_hit(src: Sources<'_>, rows: Seq<(u32, u32)>, v: int, k: int, n: int) -> (i: int)
    requires
        src.follows(rows),
        0 <= v < src.lists.len(),
        0 <= k < taken(rows.take(n), v),
        0 <= n <= rows.len(),
    ensures
        0 <= i < n,
        rows[i].0 == v,
        rows[i].1 == src.lists[v][k],
    decreases n,
{
    if n == 0 {
        assert(rows.take(0).len() == 0);
        0
    } else {
        assert(rows.take(n).drop_last() =~= rows.take(n - 1));
        if k < taken(rows.take(n - 1), v) {
            lemma_place_of_hit(src, rows, v, k, n - 1)
        } else {
            assert(src.row_follows(rows, n - 1));
            n - 1
        }
    }
}

/// Every hit of every volume is in the merge.
pub proof fn lemma_merge_keeps_every_hit(src: Sources<'_>, rows: Seq<(u32, u32)>, v: int, k: int)
    requires
        src.merges_to(rows),
        0 <= v < src.lists.len() <= u32::MAX,
        0 <= k < src.lists[v].len(),
    ensures
        rows.contains((v as u32, src.lists[v][k])),
{
    assert(rows.take(rows.len() as int) =~= rows);
    assert(taken(rows, v) == src.lists[v].len());
    let i = lemma_place_of_hit(src, rows, v, k, rows.len() as int);
    assert(rows[i] == (v as u32, src.lists[v][k]));
}

proof fn lemma_leads_once(src: Sources<'_>, cur: Seq<int>, v: int, w: int)
    requires
        src.leads(cur, v),
        src.leads(cur, w),
    ensures
        v == w,
{
    lemma_entry_order_reverses(
        src.indexes[v],
        src.lists[v][cur[v]] as int,
        src.indexes[w],
        src.lists[w][cur[w]] as int,
        src.opt,
    );
    if v < w {
        assert(cur[v] < src.lists[v].len());
        assert(cur[w] < src.lists[w].len());
    } else if w < v {
        assert(cur[v] < src.lists[v].len());
        assert(cur[w] < src.lists[w].len());
    }
}

proof fn lemma_merge_prefix(src: Sources<'_>, a: Seq<(u32, u32)>, b: Seq<(u32, u32)>, n: int)
    requires
        src.follows(a),
        src.follows(b),
        0 <= n <= a.len(),
        n <= b.len(),
    ensures
        a.take(n) == b.take(n),
    decreases n,
{
    if n > 0 {
        lemma_merge_prefix(src, a, b, n - 1);
        assert(src.row_follows(a, n - 1));
        assert(src.row_follows(b, n - 1));
        lemma_leads_once(
            src,
            src.cursors(a.take(n - 1)),
            a[n - 1].0 as int,
            b[n - 1].0 as int,
        );
        assert(a.take(n) =~= a.take(n - 1).push(a[n - 1]));
        assert(b.take(n) =~= b.take(n - 1).push(b[n - 1]));
    } else {
        assert(a.take(n) =~= b.take(n));
    }
}

/// The hits have one merge.
pub proof fn lemma_merge_unique(src: Sources<'_>, a: Seq<(u32, u32)>, b: Seq<(u32, u32)>)
    requires
        src.merges_to(a),
        src.merges_to(b),
    ensures
        a == b,
{
    if a.len() < b.len() {
        lemma_merge_prefix(src, a, b, a.len() as int);
        assert(a.take(a.len() as int) =~= a);
        assert(src.row_follows(b, a.len() as int));
        let v = b[a.len() as int].0 as int;
        assert(taken(a, v) == src.lists[v].len());
    } else {
        lemma_merge_prefix(src, a, b, b.len() as int);
        assert(b.take(b.len() as int) =~= b);
        if b.len() < a.len() {
            assert(src.row_follows(a, b.len() as int));
            let v = a[b.len() as int].0 as int;
            assert(taken(b, v) == src.lists[v].len());
        } else {
            assert(a.take(a.len() as int) =~= a);
        }
    }
}

/// What one volume's search cost.
#[derive(Clone, Copy, Debug, PartialEq, Eq, Structural)]
pub struct SearchMetrics {
    /// The memo of directory paths, in microseconds.
    pub memo_us: u64,
    /// Scanning, in microseconds.
    pub scan_us: u64,
    /// Materializing rows, in microseconds.
    pub materialize_us: u64,
    /// How many entries were examined.
    pub entries_scanned: u64,
    /// How many entries were skipped as excluded.
    pub excluded_skipped: u64,
}

/// What one volume found.
pub struct VolumeHits {
    /// The identity of the volume's slot.
    pub slot: u64,
    /// The structural generation of the index that was searched.
    pub structural: u64,
    /// The entries found, in the order asked for.
    pub ids: Vec<EntryId>,
    /// The previous hits were narrowed instead of the index searched.
    pub refined: bool,
    /// What it cost.
    pub metrics: SearchMetrics,
}

/// The hits with the indexes that are there now.
pub open spec fn sources_of<'a>(
    hits: Seq<VolumeHits>,
    indexes: Seq<Option<&'a VolumeIndex>>,
    opt: SortOrder,
) -> Sources<'a> {
    Sources {
        indexes: Seq::new(hits.len(), |v: int| indexes[v]->0),
        lists: Seq::new(hits.len(), |v: int| hits[v].ids@),
        opt,
    }
}

/// The index in which the hits `h` were found is still `index`.
pub open spec fn still_there(h: VolumeHits, index: Option<&VolumeIndex>) -> bool {
    index matches Some(idx) && idx.structural_generation == h.structural
}

/// No index was replaced since it was searched.
pub open spec fn all_there(hits: Seq<VolumeHits>, indexes: Seq<Option<&VolumeIndex>>) -> bool {
    forall|v: int| 0 <= v < hits.len() ==> still_there(#[trigger] hits[v], indexes[v])
}

/// An index that was replaced since its entries were captured is refused,
/// before any of them is looked up in its replacement.
pub fn validate_merge_index(index: &VolumeIndex, expected_structural: u64) -> (r: Result<
    (),
    EngineError,
>)
    ensures
        match r {
            Ok(_) => index.structural_generation == expected_structural,
            Err(e) => index.structural_generation != expected_structural && e == EngineError::Stale,
        },
{
    if index.structural_generation() == expected_structural {
        Ok(())
    } else {
        Err(EngineError::Stale)
    }
}

spec fn places(cursors: Seq<usize>) -> Seq<int> {
    Seq::new(cursors.len(), |v: int| cursors[v] as int)
}

/// The volume whose next hit comes first.
fn leader(
    hits: &[VolumeHits],
    indexes: &Vec<&VolumeIndex>,
    cursors: &Vec<usize>,
    opt: SortOrder,
    Ghost(src): Ghost<Sources<'_>>,
) -> (r: Option<usize>)
    requires
        src.valid(),
        src.opt == opt,
        src.indexes == indexes@,
        src.lists.len() == hits@.len(),
        forall|v: int| 0 <= v < hits@.len() ==> src.lists[v] == (#[trigger] hits@[v]).ids@,
        cursors@.len() == hits@.len(),
        forall|v: int| 0 <= v < hits@.len() ==> (#[trigger] cursors@[v]) <= src.lists[v].len(),
    ensures
        match r {
            Some(v) => src.leads(places(cursors@), v as int),
            None => forall|v: int|
                0 <= v < hits@.len() ==> (#[trigger] cursors@[v]) == src.lists[v].len(),
        },
{
    let ghost cur = places(cursors@);
    let mut best: Option<usize> = None;
    let mut v: usize = 0;
    while v < hits.len()
        invariant
            v <= hits@.len(),
            src.valid(),
            src.opt == opt,
            src.indexes == indexes@,
            src.lists.len() == hits@.len(),
            forall|v: int| 0 <= v < hits@.len() ==> src.lists[v] == (#[trigger] hits@[v]).ids@,
            cursors@.len() == hits@.len(),
            forall|v: int| 0 <= v < hits@.len() ==> (#[trigger] cursors@[v]) <= src.lists[v].len(),
            cur == places(cursors@),
            match best {
                Some(b) => src.leads_among(cur, b as int, v as int),
                None => forall|w: int|
                    0 <= w < v ==> (#[trigger] cursors@[w]) == src.lists[w].len(),
            },
        decreases hits@.len() - v,
    {
        let at: usize = cursors[v];
        assert(hits@[v as int].ids@ == src.lists[v as int]);
        if at < hits[v].ids.len() {
            match best {
                None => {
                    best = Some(v);
                },
                Some(b) => {
                    let next: EntryId = hits[v].ids[at];
                    assert(hits@[b as int].ids@ == src.lists[b as int]);
                    let first: EntryId = hits[b].ids[cursors[b]];
                    proof {
                        assert(src.lists[v as int][at as int] < src.indexes[v as int].count());
                        assert(src.lists[b as int][cur[b as int]] < src.indexes[b as int].count());
                        assert(src.indexes[v as int].columns_wf());
                        assert(src.indexes[b as int].columns_wf());
                        lemma_entry_order_reverses(
                            src.indexes[v as int],
                            next as int,
                            src.indexes[b as int],
                            first as int,
                            opt,
                        );
                    }
                    let o: Order = compare_entries(indexes[v], next, indexes[b], first, opt);
                    if o == Order::Less {
                        proof {
                            assert forall|w: int|
                                0 <= w < v + 1 && w != v && #[trigger] cur[w] < src.lists[w].len() implies if w
                                < v {
                                src.hit_order(v as int, cur[v as int], w, cur[w]) == Order::Less
                            } else {
                                src.hit_order(v as int, cur[v as int], w, cur[w]) != Order::Greater
                            } by {
                                if w != b {
                                    lemma_entry_order_chain(
                                        src.indexes[v as int],
                                        next as int,
                                        src.indexes[b as int],
                                        first as int,
                                        src.indexes[w],
                                        src.lists[w][cur[w]] as int,
                                        opt,
                                    );
                                }
                            }
                        }
                        best = Some(v);
                    }
                },
            }
        }
        v = v + 1;
    }
    best
}

/// Merge the hits of several volumes.
fn merge_sorted(
    hits: &[VolumeHits],
    indexes: &Vec<&VolumeIndex>,
    opt: SortOrder,
    cancellation: Option<&QueryCancellation>,
    Ghost(src): Ghost<Sources<'_>>,
) -> (r: Result<Vec<(u32, EntryId)>, EngineError>)
    requires
        src.valid(),
        src.opt == opt,
        src.indexes == indexes@,
        src.lists.len() == hits@.len(),
        hits@.len() <= u32::MAX,
        forall|v: int| 0 <= v < hits@.len() ==> src.lists[v] == (#[trigger] hits@[v]).ids@,
    ensures
        match r {
            Ok(rows) => src.merges_to(rows@) && (rows@.len() > 0 ==> (cancellation matches Some(c)
                ==> c.reads_as(false))),
            Err(e) => (cancellation matches Some(c) && c.reads_as(true)) && e == EngineError::Cancelled,
        },
{
    let mut cursors: Vec<usize> = Vec::new();
    let mut v: usize = 0;
    while v < hits.len()
        invariant
            v <= hits@.len(),
            cursors@.len() == v,
            forall|w: int| 0 <= w < v ==> #[trigger] cursors@[w] == 0,
        decreases hits@.len() - v,
    {
        cursors.push(0);
        v = v + 1;
    }
    let mut rows: Vec<(u32, EntryId)> = Vec::new();
    proof {
        assert(src.cursors(rows@) =~= places(cursors@));
        src.lemma_left_some(places(cursors@), hits@.len() as int);
    }
    loop
        invariant
            src.valid(),
            src.opt == opt,
            src.indexes == indexes@,
            src.lists.len() == hits@.len(),
            hits@.len() <= u32::MAX,
            forall|v: int| 0 <= v < hits@.len() ==> src.lists[v] == (#[trigger] hits@[v]).ids@,
            cursors@.len() == hits@.len(),
            forall|v: int| 0 <= v < hits@.len() ==> (#[trigger] cursors@[v]) <= src.lists[v].len(),
            src.cursors(rows@) == places(cursors@),
            src.follows(rows@),
            rows@.len() > 0 ==> (cancellation matches Some(c) ==> c.reads_as(false)),
        ensures
            src.merges_to(rows@),
        decreases src.left(places(cursors@), hits@.len() as int),
    {
        match leader(hits, indexes, &cursors, opt, Ghost(src)) {
            Some(v) => {
                if rows.len() % CANCELLATION_STRIDE == 0 {
                    if let Some(c) = cancellation {
                        if let Err(e) = c.check() {
                            return Err(e);
                        }
                    }
                }
                assert(hits@[v as int].ids@ == src.lists[v as int]);
                let at: usize = cursors[v];
                let found: usize = hits[v].ids.len();
                assert(at < found);
                let row: (u32, EntryId) = (v as u32, hits[v].ids[at]);
                let ghost before = rows@;
                let ghost cur = places(cursors@);
                proof {
                    src.lemma_taken_push(before, row);
                    assert(before.push(row).take(before.len() as int) =~= before);
                    assert(src.row_follows(before.push(row), before.len() as int));
                    src.lemma_follows_push(before, row);
                    src.lemma_left_step(cur, v as int, hits@.len() as int);
                }
                rows.push(row);
                cursors[v] = at + 1;
                proof {
                    assert(places(cursors@) =~= cur.update(v as int, cur[v as int] + 1));
                    src.lemma_left_some(places(cursors@), hits@.len() as int);
                }
            },
            None => {
                proof {
                    assert forall|v: int| 0 <= v < src.lists.len() implies #[trigger] taken(rows@, v)
                        == src.lists[v].len() by {
                        assert(src.cursors(rows@)[v] == places(cursors@)[v]);
                        assert(cursors@[v] == src.lists[v].len());
                    }
                }
                break ;
            },
        }
    }
    Ok(rows)
}

/// Every hit exists in its index while the index is there.
pub open spec fn hits_exist(hits: Seq<VolumeHits>, indexes: Seq<Option<&VolumeIndex>>) -> bool {
    &&& hits.len() == indexes.len()
    &&& hits.len() <= u32::MAX
    &&& forall|v: int|
        0 <= v < indexes.len() && #[trigger] indexes[v] is Some ==> indexes[v]->0.columns_wf()
    &&& forall|v: int, k: int|
        0 <= v < hits.len() && still_there(hits[v], indexes[v]) && 0 <= k < hits[v].ids@.len() ==> (
        #[trigger] hits[v].ids@[k]) < indexes[v]->0.count()
}

/// The hits of the only volume as rows.
pub open spec fn only_rows(ids: Seq<u32>) -> Seq<(u32, u32)> {
    Seq::new(ids.len(), |k: int| (0u32, ids[k]))
}

/// The rows are those of the hits: a copy where there is one volume, else
/// their merge.
pub open spec fn rows_of(
    hits: Seq<VolumeHits>,
    indexes: Seq<Option<&VolumeIndex>>,
    opt: SortOrder,
    rows: Seq<(u32, u32)>,
) -> bool {
    if hits.len() == 1 {
        rows == only_rows(hits[0].ids@)
    } else {
        all_there(hits, indexes) && sources_of(hits, indexes, opt).merges_to(rows)
    }
}

/// The rows of all volumes in the order asked for.
pub fn merge_hits(
    hits: &[VolumeHits],
    indexes: &[Option<&VolumeIndex>],
    opt: SortOrder,
    cancellation: Option<&QueryCancellation>,
) -> (r: Result<Vec<(u32, EntryId)>, EngineError>)
    requires
        hits_exist(hits@, indexes@),
    ensures
        match r {
            Ok(rows) => rows_of(hits@, indexes@, opt, rows@) && (rows@.len() > 0 ==> (
            cancellation matches Some(c) ==> c.reads_as(false))),
            Err(e) => if hits@.len() != 1 && !all_there(hits@, indexes@) {
                e == EngineError::Stale
            } else {
                e == EngineError::Cancelled && (cancellation matches Some(c) && c.reads_as(true))
            },
        },
{
    if hits.len() == 1 {
        let mut rows: Vec<(u32, EntryId)> = Vec::new();
        let mut k: usize = 0;
        while k < hits[0].ids.len()
            invariant
                hits@.len() == 1,
                k <= hits@[0].ids@.len(),
                rows@ == only_rows(hits@[0].ids@.take(k as int)),
                k > 0 ==> (cancellation matches Some(c) ==> c.reads_as(false)),
            decreases hits@[0].ids@.len() - k,
        {
            if k % CANCELLATION_STRIDE == 0 {
                if let Some(c) = cancellation {
                    if let Err(e) = c.check() {
                        return Err(e);
                    }
                }
            }
            rows.push((0, hits[0].ids[k]));
            k = k + 1;
            assert(rows@ =~= only_rows(hits@[0].ids@.take(k as int)));
        }
        assert(hits@[0].ids@.take(k as int) =~= hits@[0].ids@);
        return Ok(rows);
    }
    let mut found: Vec<&VolumeIndex> = Vec::new();
    let mut v: usize = 0;
    while v < hits.len()
        invariant
            v <= hits@.len(),
            hits@.len() != 1,
            hits_exist(hits@, indexes@),
            found@.len() == v,
            forall|w: int| 0 <= w < v ==> indexes@[w] == Some(#[trigger] found@[w]),
        decreases hits@.len() - v,
    {
        match indexes[v] {
            Some(idx) => {
                found.push(idx);
            },
            None => {
                assert(!still_there(hits@[v as int], indexes@[v as int]));
                return Err(EngineError::Stale);
            },
        }
        v = v + 1;
    }
    v = 0;
    while v < hits.len()
        invariant
            v <= hits@.len(),
            hits@.len() != 1,
            hits_exist(hits@, indexes@),
            found@.len() == hits@.len(),
            forall|w: int| 0 <= w < hits@.len() ==> indexes@[w] == Some(#[trigger] found@[w]),
            forall|w: int| 0 <= w < v ==> still_there(#[trigger] hits@[w], indexes@[w]),
        decreases hits@.len() - v,
    {
        assert(indexes@[v as int] == Some(found@[v as int]));
        if let Err(e) = validate_merge_index(found[v], hits[v].structural) {
            assert(!still_there(hits@[v as int], indexes@[v as int]));
            return Err(e);
        }
        v = v + 1;
    }
    let ghost src = sources_of(hits@, indexes@, opt);
    proof {
        assert(src.indexes =~= found@);
        assert forall|v: int| 0 <= v < src.indexes.len() implies (
        #[trigger] src.indexes[v]).columns_wf() by {
            assert(indexes@[v] == Some(found@[v]));
        }
        assert forall|v: int, k: int|
            0 <= v < src.lists.len() && 0 <= k < src.lists[v].len() implies (
        #[trigger] src.lists[v][k]) < src.indexes[v].count() by {
            assert(still_there(hits@[v], indexes@[v]));
            assert(hits@[v].ids@[k] < indexes@[v]->0.count());
        }
    }
    merge_sorted(hits, &found, opt, cancellation, Ghost(src))
}

/// The query text is no longer than is accepted.
pub fn check_query_length(text: &str, limits: &ContractLimits) -> (r: Result<(), EngineError>)
    ensures
        match r {
            Ok(_) => text.len() <= limits.max_query_bytes,
            Err(e) => text.len() > limits.max_query_bytes && e
                == (EngineError::QueryTooLong {
                actual: text.len(),
                maximum: limits.max_query_bytes,
            }),
        },
{
    let actual: usize = text.len();
    if actual as u64 > limits.max_query_bytes as u64 {
        Err(EngineError::QueryTooLong { actual, maximum: limits.max_query_bytes })
    } else {
        Ok(())
    }
}

/// The generations of an index when it was last searched.
#[derive(Clone, Copy, Debug, PartialEq, Eq, Structural)]
pub struct SearchedAt {
    /// The content generation.
    pub content: u64,
    /// The structural generation.
    pub structural: u64,
}

/// Whether the previous hits can be narrowed instead of the index searched:
/// nothing changed since, and the new query `narrows` the previous one.
pub fn may_refine(enabled: bool, cached: Option<SearchedAt>, narrows: bool, idx: &VolumeIndex) -> (r: bool)
    ensures
        r == (enabled && narrows && cached == Some(
            SearchedAt { content: idx.content_generation, structural: idx.structural_generation },
        )),
{
    match cached {
        Some(at) => enabled && narrows && at.content == idx.content_generation() && at.structural
            == idx.structural_generation(),
        None => false,
    }
}

/// How many of the volumes narrowed their previous hits.
pub open spec fn refined_count(hits: Seq<VolumeHits>) -> int
    decreases hits.len(),
{
    if hits.len() == 0 {
        0
    } else {
        refined_count(hits.drop_last()) + if hits.last().refined {
            1int
        } else {
            0
        }
    }
}

/// What became of the previous hits.
pub open spec fn cache_outcome(hits: Seq<VolumeHits>) -> Seq<char> {
    if refined_count(hits) == 0 {
        "miss"@
    } else if refined_count(hits) == hits.len() {
        "refine"@
    } else {
        "partial"@
    }
}

/// What the searches of all volumes cost, on top of `from`.
pub open spec fn cost(hits: Seq<VolumeHits>, from: QueryTrace) -> (int, int, int, int, int)
    decreases hits.len(),
{
    if hits.len() == 0 {
        (
            from.memo_us as int,
            from.scan_us as int,
            from.materialize_us as int,
            from.entries_scanned as int,
            from.excluded_skipped as int,
        )
    } else {
        let c = cost(hits.drop_last(), from);
        let m = hits.last().metrics;
        (
            c.0 + m.memo_us,
            c.1 + m.scan_us,
            c.2 + m.materialize_us,
            c.3 + m.entries_scanned,
            c.4 + m.excluded_skipped,
        )
    }
}

/// The cost can be counted.
pub open spec fn cost_fits(c: (int, int, int, int, int)) -> bool {
    c.0 <= u64::MAX && c.1 <= u64::MAX && c.2 <= u64::MAX && c.3 <= u64::MAX && c.4 <= u64::MAX
}

proof fn lemma_cost_grows(hits: Seq<VolumeHits>, n: int, from: QueryTrace)
    requires
        0 <= n <= hits.len(),
    ensures
        cost_fits(cost(hits, from)) ==> cost_fits(cost(hits.take(n), from)),
    decreases hits.len(),
{
    if n < hits.len() {
        lemma_cost_grows(hits.drop_last(), n, from);
        assert(hits.drop_last().take(n) =~= hits.take(n));
    } else {
        assert(hits.take(n) =~= hits);
    }
}

/// The trace of a query whose volumes are done: what they cost together.
fn sum_up(hits: &[VolumeHits], trace: QueryTrace) -> (r: QueryTrace)
    requires
        cost_fits(cost(hits@, trace)),
        hits@.len() <= u32::MAX,
    ensures
        (r.memo_us as int, r.scan_us as int, r.materialize_us as int, r.entries_scanned as int, r.excluded_skipped as int)
            == cost(hits@, trace),
        r.cache@ == cache_outcome(hits@),
        r.volumes == hits@.len(),
        r == (QueryTrace {
            memo_us: r.memo_us,
            scan_us: r.scan_us,
            materialize_us: r.materialize_us,
            entries_scanned: r.entries_scanned,
            excluded_skipped: r.excluded_skipped,
            cache: r.cache,
            volumes: r.volumes,
            ..trace
        }),
{
    let mut t: QueryTrace = trace;
    let mut refined: usize = 0;
    let mut v: usize = 0;
    assert(hits@.take(0) =~= Seq::empty());
    while v < hits.len()
        invariant
            v <= hits@.len(),
            cost_fits(cost(hits@, trace)),
            (t.memo_us as int, t.scan_us as int, t.materialize_us as int, t.entries_scanned as int, t.excluded_skipped as int)
                == cost(hits@.take(v as int), trace),
            refined == refined_count(hits@.take(v as int)),
            refined <= v,
            t == (QueryTrace {
                memo_us: t.memo_us,
                scan_us: t.scan_us,
                materialize_us: t.materialize_us,
                entries_scanned: t.entries_scanned,
                excluded_skipped: t.excluded_skipped,
                ..trace
            }),
        decreases hits@.len() - v,
    {
        let m: SearchMetrics = hits[v].metrics;
        proof {
            lemma_cost_grows(hits@, v + 1, trace);
            assert(hits@.take(v + 1).drop_last() =~= hits@.take(v as int));
            assert(hits@.take(v + 1).last() == hits@[v as int]);
        }
        t.memo_us = t.memo_us + m.memo_us;
        t.scan_us = t.scan_us + m.scan_us;
        t.materialize_us = t.materialize_us + m.materialize_us;
        t.entries_scanned = t.entries_scanned + m.entries_scanned;
        t.excluded_skipped = t.excluded_skipped + m.excluded_skipped;
        if hits[v].refined {
            refined = refined + 1;
        }
        v = v + 1;
    }
    assert(hits@.take(v as int) =~= hits@);
    t.cache = if refined == 0 {
        String::from_str("miss")
    } else if refined == hits.len() {
        String::from_str("refine")
    } else {
        String::from_str("partial")
    };
    t.volumes = hits.len() as u32;
    t
}

/// One result and its trace from what the volumes found.
///
/// `trace` is what is known of the query so far; `basis` is the result that
/// is presented now, with the indexes of its slots. How long the merge took
/// is read from the clock.
pub fn conclude(
    hits: &[VolumeHits],
    indexes: &[Option<&VolumeIndex>],
    opt: SortOrder,
    cancellation: Option<&QueryCancellation>,
    basis: Option<(&ResultSet, &[Option<&VolumeIndex>])>,
    trace: QueryTrace,
) -> (r: Result<(ResultSet, QueryTrace), EngineError>)
    requires
        hits_exist(hits@, indexes@),
        cost_fits(cost(hits@, trace)),
        basis matches Some(b) ==> b.0.slots@.len() == b.0.structural@.len() && b.1@.len()
            == b.0.slots@.len(),
    ensures
        match r {
            Ok((set, t)) => {
                &&& set.wf()
                &&& set.slots@ == Seq::new(hits@.len(), |v: int| hits@[v].slot)
                &&& set.structural@ == Seq::new(hits@.len(), |v: int| hits@[v].structural)
                &&& rows_of(hits@, indexes@, opt, set.rows@)
                &&& (
                    t.memo_us as int,
                    t.scan_us as int,
                    t.materialize_us as int,
                    t.entries_scanned as int,
                    t.excluded_skipped as int,
                ) == cost(hits@, trace)
                &&& t.cache@ == cache_outcome(hits@)
                &&& t.volumes == hits@.len()
                &&& t.hits == set.rows@.len()
                &&& t.unchanged == (basis matches Some(b) && set.current(indexes@) && b.0.current(
                    b.1@,
                ) && set.slots@ == b.0.slots@ && set.rows@ == b.0.rows@)
                &&& t.query == trace.query && t.driver == trace.driver
                &&& t.parse_us == trace.parse_us && t.compile_us == trace.compile_us
                &&& t.total_us == trace.total_us
                &&& timed_us(t.merge_us)
                &&& cancellation matches Some(c) ==> c.reads_as(false)
            },
            Err(e) => if hits@.len() != 1 && !all_there(hits@, indexes@) {
                e == EngineError::Stale
            } else {
                e == EngineError::Cancelled && (cancellation matches Some(c) && c.reads_as(true))
            },
        },
{
    let mut t: QueryTrace = sum_up(hits, trace);
    let stage: Stage = Stage::start();
    let rows: Vec<(u32, EntryId)> = match merge_hits(hits, indexes, opt, cancellation) {
        Ok(rows) => rows,
        Err(e) => {
            return Err(e);
        },
    };
    t.merge_us = stage.elapsed_us();
    assert(timed_us(t.merge_us));
    t.hits = rows.len() as u64;
    if let Some(c) = cancellation {
        if let Err(e) = c.check() {
            return Err(e);
        }
    }
    let mut slots: Vec<u64> = Vec::new();
    let mut structural: Vec<u64> = Vec::new();
    let mut v: usize = 0;
    while v < hits.len()
        invariant
            v <= hits@.len(),
            slots@ == Seq::new(v as nat, |v: int| hits@[v].slot),
            structural@ == Seq::new(v as nat, |v: int| hits@[v].structural),
        decreases hits@.len() - v,
    {
        slots.push(hits[v].slot);
        structural.push(hits[v].structural);
        v = v + 1;
        assert(slots@ =~= Seq::new(v as nat, |v: int| hits@[v].slot));
        assert(structural@ =~= Seq::new(v as nat, |v: int| hits@[v].structural));
    }
    let set: ResultSet = ResultSet { slots, structural, rows };
    proof {
        if hits@.len() != 1 {
            let src = sources_of(hits@, indexes@, opt);
            assert forall|i: int| 0 <= i < set.rows@.len() implies (#[trigger] set.rows@[i]).0
                < set.slots@.len() by {
                assert(src.row_follows(set.rows@, i));
            }
        }
    }
    t.unchanged = match basis {
        Some((shown, its_indexes)) => set.same_ordered_ids(indexes, shown, its_indexes),
        None => false,
    };
    Ok((set, t))
}

} // verus!
