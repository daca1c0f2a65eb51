//! Merging a batch of entry numbers into a sorted array of them, in place.

use vstd::prelude::*;

verus! {

/// The first `hi` old items with the first `m` batch items put between them:
/// batch item `j` goes before the old item `pos[j]`.
pub open spec fn woven(o: Seq<u32>, b: Seq<u32>, pos: Seq<int>, m: int, hi: int) -> Seq<u32>
    decreases m,
{
    if m <= 0 {
        o.take(hi)
    } else {
        woven(o, b, pos, m - 1, pos[m - 1]).push(b[m - 1]) + o.subrange(pos[m - 1], hi)
    }
}

/// Insertion places that do not descend and lie inside the old items.
pub open spec fn places_wf(pos: Seq<int>, m: int, hi: int) -> bool {
    &&& pos.len() >= m
    &&& forall|i: int, j: int| 0 <= i <= j < m ==> (#[trigger] pos[i]) <= (#[trigger] pos[j])
    &&& forall|i: int| 0 <= i < m ==> 0 <= (#[trigger] pos[i]) <= hi
}

pub proof fn lemma_woven_len(o: Seq<u32>, b: Seq<u32>, pos: Seq<int>, m: int, hi: int)
    requires
        0 <= m,
        0 <= hi <= o.len(),
        places_wf(pos, m, hi),
    ensures
        woven(o, b, pos, m, hi).len() == hi + m,
    decreases m,
{
    if m > 0 {
        assert(places_wf(pos, m - 1, pos[m - 1])) by {
            assert forall|i: int| 0 <= i < m - 1 implies 0 <= (#[trigger] pos[i]) <= pos[m - 1] by {
                assert(pos[i] <= pos[m - 1]);
            }
        }
        lemma_woven_len(o, b, pos, m - 1, pos[m - 1]);
    }
}

/// Every woven item is an old one below `hi` or a batch one below `m`.
pub proof fn lemma_woven_items(o: Seq<u32>, b: Seq<u32>, pos: Seq<int>, m: int, hi: int, x: int)
    requires
        0 <= m <= b.len(),
        0 <= hi <= o.len(),
        places_wf(pos, m, hi),
        0 <= x < hi + m,
    ensures
        (exists|i: int| 0 <= i < hi && #[trigger] o[i] == woven(o, b, pos, m, hi)[x]) || (exists|
            j: int,
        |
            0 <= j < m && #[trigger] b[j] == woven(o, b, pos, m, hi)[x]),
    decreases m,
{
    lemma_woven_len(o, b, pos, m, hi);
    let w = woven(o, b, pos, m, hi);
    if m <= 0 {
        assert(o[x] == w[x]);
    } else {
        let p = pos[m - 1];
        assert(places_wf(pos, m - 1, p)) by {
            assert forall|i: int| 0 <= i < m - 1 implies 0 <= (#[trigger] pos[i]) <= p by {
                assert(pos[i] <= pos[m - 1]);
            }
        }
        lemma_woven_len(o, b, pos, m - 1, p);
        let v = woven(o, b, pos, m - 1, p);
        if x < p + m - 1 {
            lemma_woven_items(o, b, pos, m - 1, p, x);
            assert(w[x] == v[x]);
            if exists|i: int| 0 <= i < p && #[trigger] o[i] == v[x] {
                let i = choose|i: int| 0 <= i < p && #[trigger] o[i] == v[x];
                assert(o[i] == w[x]);
            } else {
                let j = choose|j: int| 0 <= j < m - 1 && #[trigger] b[j] == v[x];
                assert(b[j] == w[x]);
            }
        } else if x == p + m - 1 {
            assert(b[m - 1] == w[x]);
        } else {
            assert(o[x - m] == w[x]);
        }
    }
}

/// Weaving distinct items keeps them distinct.
pub proof fn lemma_woven_distinct(o: Seq<u32>, b: Seq<u32>, pos: Seq<int>, m: int, hi: int)
    requires
        0 <= m <= b.len(),
        0 <= hi <= o.len(),
        places_wf(pos, m, hi),
        forall|i: int, j: int| 0 <= i < j < o.len() ==> #[trigger] o[i] != #[trigger] o[j],
        forall|i: int, j: int| 0 <= i < j < b.len() ==> #[trigger] b[i] != #[trigger] b[j],
        forall|i: int, j: int|
            0 <= i < o.len() && 0 <= j < b.len() ==> #[trigger] o[i] != #[trigger] b[j],
    ensures
        forall|x: int, y: int|
            0 <= x < y < hi + m ==> #[trigger] woven(o, b, pos, m, hi)[x] != #[trigger] woven(
                o,
                b,
                pos,
                m,
                hi,
            )[y],
    decreases m,
{
    lemma_woven_len(o, b, pos, m, hi);
    let w = woven(o, b, pos, m, hi);
    if m > 0 {
        let p = pos[m - 1];
        assert(places_wf(pos, m - 1, p)) by {
            assert forall|i: int| 0 <= i < m - 1 implies 0 <= (#[trigger] pos[i]) <= p by {
                assert(pos[i] <= pos[m - 1]);
            }
        }
        lemma_woven_len(o, b, pos, m - 1, p);
        lemma_woven_distinct(o, b, pos, m - 1, p);
        let v = woven(o, b, pos, m - 1, p);
        assert forall|x: int, y: int| 0 <= x < y < hi + m implies #[trigger] w[x]
            != #[trigger] w[y] by {
            if x < p + m - 1 {
                assert(w[x] == v[x]);
                if y < p + m - 1 {
                    assert(w[y] == v[y]);
                } else {
                    lemma_woven_items(o, b, pos, m - 1, p, x);
                    if y == p + m - 1 {
                        assert(w[y] == b[m - 1]);
                    } else {
                        assert(w[y] == o[y - m]);
                    }
                }
            } else if x == p + m - 1 {
                assert(w[x] == b[m - 1]);
                assert(w[y] == o[y - m]);
            } else {
                assert(w[x] == o[x - m]);
                assert(w[y] == o[y - m]);
            }
        }
    }
}

/// Items in ascending order.
pub open spec fn ascends(s: Seq<u32>, before: spec_fn(u32, u32) -> bool) -> bool {
    forall|x: int, y: int| 0 <= x < y < s.len() ==> before(#[trigger] s[x], #[trigger] s[y])
}

/// Each batch item goes where the old items before it end.
pub open spec fn places_fit(
    o: Seq<u32>,
    b: Seq<u32>,
    pos: Seq<int>,
    m: int,
    before: spec_fn(u32, u32) -> bool,
) -> bool {
    &&& forall|i: int, j: int|
        0 <= j < m && 0 <= i < pos[j] ==> before(#[trigger] o[i], #[trigger] b[j])
    &&& forall|i: int, j: int|
        0 <= j < m && pos[j] <= i < o.len() ==> before(#[trigger] b[j], #[trigger] o[i])
}

/// Weaving ascending items at fitting places keeps them ascending.
pub proof fn lemma_woven_ascends(
    o: Seq<u32>,
    b: Seq<u32>,
    pos: Seq<int>,
    m: int,
    hi: int,
    before: spec_fn(u32, u32) -> bool,
)
    requires
        0 <= m <= b.len(),
        0 <= hi <= o.len(),
        places_wf(pos, m, hi),
        ascends(o, before),
        ascends(b, before),
        places_fit(o, b, pos, m, before),
    ensures
        ascends(woven(o, b, pos, m, hi), before),
    decreases m,
{
    lemma_woven_len(o, b, pos, m, hi);
    let w = woven(o, b, pos, m, hi);
    if m > 0 {
        let p = pos[m - 1];
        assert(places_wf(pos, m - 1, p)) by {
            assert forall|i: int| 0 <= i < m - 1 implies 0 <= (#[trigger] pos[i]) <= p by {
                assert(pos[i] <= pos[m - 1]);
            }
        }
        lemma_woven_len(o, b, pos, m - 1, p);
        lemma_woven_ascends(o, b, pos, m - 1, p, before);
        let v = woven(o, b, pos, m - 1, p);
        assert forall|x: int, y: int| 0 <= x < y < w.len() implies before(
            #[trigger] w[x],
            #[trigger] w[y],
        ) by {
            if x < p + m - 1 {
                assert(w[x] == v[x]);
                if y < p + m - 1 {
                    assert(w[y] == v[y]);
                } else {
                    lemma_woven_items(o, b, pos, m - 1, p, x);
                    if y == p + m - 1 {
                        assert(w[y] == b[m - 1]);
                    } else {
                        assert(w[y] == o[y - m]);
                        if exists|j: int| 0 <= j < m - 1 && #[trigger] b[j] == v[x] {
                            let j = choose|j: int| 0 <= j < m - 1 && #[trigger] b[j] == v[x];
                            assert(pos[j] <= pos[m - 1]);
                            assert(before(b[j], o[y - m]));
                        }
                    }
                }
            } else if x == p + m - 1 {
                assert(w[x] == b[m - 1]);
                assert(w[y] == o[y - m]);
            } else {
                assert(w[x] == o[x - m]);
                assert(w[y] == o[y - m]);
            }
        }
    }
}

/// The insertion places as numbers.
pub open spec fn places(pos: Seq<usize>) -> Seq<int> {
    Seq::new(pos.len(), |i: int| pos[i] as int)
}

/// Put the batch items between the old ones, in place: from the end, each
/// segment of old items moves once.
pub fn weave(items: &mut Vec<u32>, batch: &[u32], pos: &Vec<usize>)
    requires
        pos@.len() == batch@.len(),
        places_wf(places(pos@), batch@.len() as int, old(items)@.len() as int),
        old(items)@.len() + batch@.len() <= usize::MAX,
    ensures
        final(items)@ == woven(
            old(items)@,
            batch@,
            places(pos@),
            batch@.len() as int,
            old(items)@.len() as int,
        ),
{
    let ghost o = items@;
    let ghost b = batch@;
    let ghost p = places(pos@);
    let old_len: usize = items.len();
    let total: usize = old_len + batch.len();
    let ghost full = woven(o, b, p, b.len() as int, o.len() as int);
    while items.len() < total
        invariant
            o.len() <= items@.len() <= total,
            forall|i: int| 0 <= i < o.len() ==> items@[i] == o[i],
        decreases total - items@.len(),
    {
        items.push(0);
    }
    let mut hi: usize = old_len;
    let mut k: usize = total;
    let mut j: usize = batch.len();
    assert(items@.subrange(k as int, total as int) =~= Seq::empty());
    assert(woven(o, b, p, j as int, hi as int) + Seq::<u32>::empty() =~= full);
    while j > 0
        invariant
            j <= b.len(),
            b == batch@,
            p == places(pos@),
            pos@.len() == b.len(),
            places_wf(p, j as int, hi as int),
            hi <= o.len(),
            k == hi + j,
            k <= total,
            items@.len() == total,
            total == o.len() + b.len(),
            forall|i: int| 0 <= i < hi ==> #[trigger] items@[i] == o[i],
            full == woven(o, b, p, j as int, hi as int) + items@.subrange(k as int, total as int),
        decreases j,
    {
        let ghost suffix = items@.subrange(k as int, total as int);
        j = j - 1;
        let at: usize = pos[j];
        assert(p[j as int] == at);
        let mut i: usize = hi;
        let shift: usize = k - hi;
        while i > at
            invariant
                at <= i <= hi,
                hi <= o.len(),
                shift == k - hi,
                shift >= 1,
                k <= total,
                items@.len() == total,
                forall|x: int| 0 <= x < i ==> #[trigger] items@[x] == o[x],
                forall|x: int| i + shift <= x < k ==> #[trigger] items@[x] == o[x - shift],
                items@.subrange(k as int, total as int) == suffix,
            decreases i,
        {
            i = i - 1;
            let moved: u32 = items[i];
            let ghost before = items@;
            items[i + shift] = moved;
            assert(items@.subrange(k as int, total as int) =~= before.subrange(
                k as int,
                total as int,
            ));
        }
        let ghost moved = items@;
        items[at + shift - 1] = batch[j];
        proof {
            lemma_woven_len(o, b, p, j as int, at as int);
            let v = woven(o, b, p, j as int, at as int);
            let seg = o.subrange(at as int, hi as int);
            assert(places_wf(p, j as int, at as int)) by {
                assert forall|x: int| 0 <= x < j implies 0 <= (#[trigger] p[x]) <= at by {
                    assert(p[x] <= p[j as int]);
                }
            }
            lemma_woven_len(o, b, p, j as int, at as int);
            let tail = items@.subrange(at + shift - 1, total as int);
            assert(tail =~= seq![b[j as int]] + seg + suffix) by {
                assert forall|x: int| 0 <= x < tail.len() implies #[trigger] tail[x] == (seq![
                    b[j as int],
                ] + seg + suffix)[x] by {
                    let y = at + shift - 1 + x;
                    if x == 0 {
                    } else if y < k {
                        assert(items@[y] == moved[y]);
                        assert(moved[y] == o[y - shift]);
                    } else {
                        assert(items@[y] == moved[y]);
                        assert(suffix[y - k] == moved.subrange(k as int, total as int)[y - k]);
                    }
                }
            }
            assert(v.push(b[j as int]) + seg + suffix =~= v + tail);
        }
        k = at + shift - 1;
        hi = at;
    }
    proof {
        assert(woven(o, b, p, 0, hi as int) =~= items@.take(hi as int));
        assert(items@.take(hi as int) + items@.subrange(hi as int, total as int) =~= items@);
    }
}

} // verus!
