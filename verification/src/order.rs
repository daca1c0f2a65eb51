//! Reorderings of sequences, and sorting.

use vstd::prelude::*;
use rayon::slice::ParallelSliceMut;

verus! {

/// `b` holds at each place `i` what `a` holds at `p[i]`, and `q` undoes `p`.
pub open spec fn reordered<T>(a: Seq<T>, b: Seq<T>, p: Seq<int>, q: Seq<int>) -> bool {
    &&& a.len() == b.len()
    &&& p.len() == a.len()
    &&& q.len() == a.len()
    &&& forall|i: int|
        #![trigger b[i]]
        #![trigger p[i]]
        0 <= i < a.len() ==> 0 <= p[i] < a.len() && q[p[i]] == i && b[i] == a[p[i]]
    &&& forall|k: int| 0 <= k < a.len() ==> 0 <= #[trigger] q[k] < a.len() && p[q[k]] == k
}

/// `b` holds the items of `a` in some order.
pub open spec fn same_items<T>(a: Seq<T>, b: Seq<T>) -> bool {
    exists|p: Seq<int>, q: Seq<int>| reordered(a, b, p, q)
}

/// The order of pairs: by the first part, then by the second.
pub open spec fn pair_le(a: (u64, u64), b: (u64, u64)) -> bool {
    a.0 < b.0 || (a.0 == b.0 && a.1 <= b.1)
}

/// Pairs in ascending order.
pub open spec fn pairs_sorted(s: Seq<(u64, u64)>) -> bool {
    forall|i: int, j: int| 0 <= i <= j < s.len() ==> pair_le(#[trigger] s[i], #[trigger] s[j])
}

/// `<[T]>::sort_unstable` on pairs of integers: a reordering of the items in
/// which they ascend.
#[verifier::external_body]
pub(crate) fn sort_pairs(v: &mut Vec<(u64, u64)>)
    ensures
        same_items(old(v)@, final(v)@),
        pairs_sorted(final(v)@),
{
    v.sort_unstable();
}

/// The first place at which `a` and `b` differ is `k`.
pub open spec fn differ_at(a: Seq<u8>, b: Seq<u8>, k: int) -> bool {
    &&& 0 <= k <= a.len()
    &&& k <= b.len()
    &&& a.take(k) == b.take(k)
    &&& k < a.len() && k < b.len() ==> a[k] != b[k]
    &&& k < a.len() || k < b.len()
}

/// `a` comes before `b` in byte order: at the first place at which they
/// differ, `a` has ended or has the smaller byte.
pub open spec fn bytes_lt(a: Seq<u8>, b: Seq<u8>) -> bool {
    exists|k: int| #[trigger]
        differ_at(a, b, k) && k < b.len() && (k == a.len() || a[k] < b[k])
}

/// How two byte strings are ordered.
#[derive(Clone, Copy, Debug, PartialEq, Eq, Structural)]
pub enum Order {
    /// The first comes before the second.
    Less,
    /// They are the same.
    Same,
    /// The first comes behind the second.
    Greater,
}

/// The order of two byte strings.
pub open spec fn bytes_order(a: Seq<u8>, b: Seq<u8>) -> Order {
    if a == b {
        Order::Same
    } else if bytes_lt(a, b) {
        Order::Less
    } else {
        Order::Greater
    }
}

/// Two strings that are not the same differ somewhere first.
proof fn lemma_differ(a: Seq<u8>, b: Seq<u8>, k: int) -> (r: int)
    requires
        0 <= k <= a.len(),
        k <= b.len(),
        a.take(k) == b.take(k),
        a != b,
    ensures
        differ_at(a, b, r),
    decreases a.len() - k,
{
    if k < a.len() && k < b.len() && a[k] == b[k] {
        assert(a.take(k + 1) =~= a.take(k).push(a[k]));
        assert(b.take(k + 1) =~= b.take(k).push(b[k]));
        lemma_differ(a, b, k + 1)
    } else {
        if k == a.len() && k == b.len() {
            assert(a.take(k) =~= a);
            assert(b.take(k) =~= b);
        }
        k
    }
}

proof fn lemma_differ_unique(a: Seq<u8>, b: Seq<u8>, j: int, k: int)
    requires
        differ_at(a, b, j),
        differ_at(a, b, k),
    ensures
        j == k,
{
    if j < k {
        assert(a.take(k)[j] == a[j]);
        assert(b.take(k)[j] == b[j]);
    } else if k < j {
        assert(a.take(j)[k] == a[k]);
        assert(b.take(j)[k] == b[k]);
    }
}

/// Of two different strings exactly one comes before the other.
pub proof fn lemma_bytes_total(a: Seq<u8>, b: Seq<u8>)
    ensures
        a != b ==> (bytes_lt(a, b) <==> !bytes_lt(b, a)),
        !bytes_lt(a, a),
{
    if a != b {
        assert(a.take(0) =~= b.take(0));
        let k = lemma_differ(a, b, 0);
        assert(differ_at(b, a, k));
        if bytes_lt(a, b) && bytes_lt(b, a) {
            let i = choose|k: int| #[trigger]
                differ_at(a, b, k) && k < b.len() && (k == a.len() || a[k] < b[k]);
            let j = choose|k: int| #[trigger]
                differ_at(b, a, k) && k < a.len() && (k == b.len() || b[k] < a[k]);
            assert(differ_at(a, b, j));
            lemma_differ_unique(a, b, i, j);
        }
    }
}

/// The byte order is transitive.
pub proof fn lemma_bytes_transitive(a: Seq<u8>, b: Seq<u8>, c: Seq<u8>)
    requires
        bytes_lt(a, b),
        bytes_lt(b, c),
    ensures
        bytes_lt(a, c),
{
    let i = choose|k: int| #[trigger]
        differ_at(a, b, k) && k < b.len() && (k == a.len() || a[k] < b[k]);
    let j = choose|k: int| #[trigger]
        differ_at(b, c, k) && k < c.len() && (k == b.len() || b[k] < c[k]);
    let m = if i < j {
        i
    } else {
        j
    };
    assert(a.take(m) =~= c.take(m)) by {
        assert(a.take(m) =~= a.take(i).take(m));
        assert(b.take(m) =~= b.take(i).take(m));
        assert(b.take(m) =~= b.take(j).take(m));
        assert(c.take(m) =~= c.take(j).take(m));
    }
    if i < j {
        assert(b.take(j)[i] == b[i]);
        assert(c.take(j)[i] == c[i]);
    } else if j < i {
        assert(a.take(i)[j] == a[j]);
        assert(b.take(i)[j] == b[j]);
    }
    assert(differ_at(a, c, m));
}

/// Byte sequences are ordered like words: the first byte in which they differ
/// decides, and a part of the other's front comes before it.
pub proof fn lemma_bytes_like_words(front: Seq<u8>, x: u8, y: u8, a: Seq<u8>, b: Seq<u8>)
    ensures
        x < y ==> bytes_lt(front + seq![x] + a, front + seq![y] + b),
        x > y ==> bytes_lt(front + seq![y] + b, front + seq![x] + a),
        bytes_lt(front, front + seq![x] + a),
        !bytes_lt(front + seq![x] + a, front),
{
    let p = front + seq![x] + a;
    let q = front + seq![y] + b;
    let k = front.len() as int;
    assert(p.take(k) =~= front);
    assert(q.take(k) =~= front);
    assert(front.take(k) =~= front);
    assert(p[k] == x && q[k] == y);
    if x != y {
        assert(differ_at(p, q, k));
        assert(differ_at(q, p, k));
    }
    assert(differ_at(front, p, k));
    lemma_bytes_total(front, p);
}

/// Compare two byte strings.
pub fn compare_bytes(a: &[u8], b: &[u8]) -> (r: Order)
    ensures
        r == bytes_order(a@, b@),
{
    let mut i: usize = 0;
    assert(a@.take(0) =~= b@.take(0));
    while i < a.len() && i < b.len()
        invariant
            i <= a@.len(),
            i <= b@.len(),
            a@.take(i as int) == b@.take(i as int),
        decreases a@.len() - i,
    {
        if a[i] != b[i] {
            proof {
                assert(differ_at(a@, b@, i as int));
                assert(differ_at(b@, a@, i as int));
                lemma_bytes_total(a@, b@);
            }
            return if a[i] < b[i] {
                Order::Less
            } else {
                Order::Greater
            };
        }
        proof {
            assert(a@.take(i + 1) =~= a@.take(i as int).push(a@[i as int]));
            assert(b@.take(i + 1) =~= b@.take(i as int).push(b@[i as int]));
        }
        i = i + 1;
    }
    proof {
        assert(a@.len() == a.len() && b@.len() == b.len());
        if a@.len() == b@.len() {
            assert(a@.take(i as int) =~= a@);
            assert(b@.take(i as int) =~= b@);
        } else {
            assert(differ_at(a@, b@, i as int));
            assert(differ_at(b@, a@, i as int));
            lemma_bytes_total(a@, b@);
        }
    }
    if a.len() == b.len() {
        Order::Same
    } else if a.len() < b.len() {
        Order::Less
    } else {
        Order::Greater
    }
}

/// Every number below the length occurs once.
pub open spec fn is_permutation(p: Seq<u32>) -> bool {
    &&& forall|i: int| 0 <= i < p.len() ==> (#[trigger] p[i]) < p.len()
    &&& forall|i: int, j: int| 0 <= i < j < p.len() ==> #[trigger] p[i] != #[trigger] p[j]
}

/// The number `x` is in `p`.
pub open spec fn occurs(p: Seq<u32>, x: int) -> bool {
    exists|i: int| 0 <= i < p.len() && #[trigger] p[i] == x
}

/// Distinct numbers below `n` are at most `n`; if they are `n`, every number
/// below `n` is among them.
pub proof fn lemma_distinct_below(p: Seq<u32>, n: int)
    requires
        0 <= n,
        forall|i: int| 0 <= i < p.len() ==> (#[trigger] p[i]) < n,
        forall|i: int, j: int| 0 <= i < j < p.len() ==> #[trigger] p[i] != #[trigger] p[j],
    ensures
        p.len() <= n,
        p.len() == n ==> forall|x: int| 0 <= x < n ==> #[trigger] occurs(p, x),
    decreases n,
{
    if n == 0 {
        if p.len() > 0 {
            assert(p[0] < 0);
        }
    } else if exists|i: int| 0 <= i < p.len() && p[i] == n - 1 {
        let k = choose|i: int| 0 <= i < p.len() && p[i] == n - 1;
        let q = p.remove(k);
        assert forall|i: int| 0 <= i < q.len() implies (#[trigger] q[i]) < n - 1 by {
            let j = if i < k {
                i
            } else {
                i + 1
            };
            assert(q[i] == p[j]);
            assert(p[j] != p[k]);
        }
        assert forall|i: int, j: int| 0 <= i < j < q.len() implies #[trigger] q[i]
            != #[trigger] q[j] by {
            let a = if i < k {
                i
            } else {
                i + 1
            };
            let b = if j < k {
                j
            } else {
                j + 1
            };
            assert(q[i] == p[a] && q[j] == p[b]);
        }
        lemma_distinct_below(q, n - 1);
        if p.len() == n {
            assert forall|x: int| 0 <= x < n implies #[trigger] occurs(p, x) by {
                if x == n - 1 {
                    assert(p[k] == x);
                } else {
                    assert(occurs(q, x));
                    let i = choose|i: int| 0 <= i < q.len() && #[trigger] q[i] == x;
                    let j = if i < k {
                        i
                    } else {
                        i + 1
                    };
                    assert(p[j] == x);
                }
            }
        }
    } else {
        assert forall|i: int| 0 <= i < p.len() implies (#[trigger] p[i]) < n - 1 by {
            assert(p[i] != n - 1);
        }
        lemma_distinct_below(p, n - 1);
    }
}

/// Whether every number below the length occurs once.
pub fn check_permutation(p: &Vec<u32>) -> (ok: bool)
    ensures
        ok == is_permutation(p@),
{
    let n: usize = p.len();
    let mut seen: Vec<bool> = Vec::new();
    let mut filled: usize = 0;
    while filled < n
        invariant
            filled <= n,
            seen@.len() == filled,
            forall|x: int| 0 <= x < filled ==> !(#[trigger] seen@[x]),
        decreases n - filled,
    {
        seen.push(false);
        filled = filled + 1;
    }
    let mut i: usize = 0;
    while i < n
        invariant
            n == p@.len(),
            i <= n,
            seen@.len() == n,
            forall|x: int| 0 <= x < n ==> (#[trigger] seen@[x] <==> occurs(p@.take(i as int), x)),
            forall|a: int| 0 <= a < i ==> (#[trigger] p@[a]) < n,
            forall|a: int, b: int| 0 <= a < b < i ==> #[trigger] p@[a] != #[trigger] p@[b],
        decreases n - i,
    {
        let x: usize = p[i] as usize;
        let ghost t = p@.take(i as int);
        if x >= n {
            assert(!(p@[i as int] < p@.len()));
            return false;
        }
        if seen[x] {
            proof {
                let a = choose|a: int| 0 <= a < t.len() && #[trigger] t[a] == x;
                assert(p@[a] == p@[i as int]);
            }
            return false;
        }
        let ghost before = seen@;
        seen[x] = true;
        proof {
            let u = p@.take(i + 1);
            assert forall|y: int| 0 <= y < n implies (#[trigger] seen@[y] <==> occurs(u, y)) by {
                assert(before[y] <==> occurs(t, y));
                if occurs(t, y) {
                    let a = choose|a: int| 0 <= a < t.len() && #[trigger] t[a] == y;
                    assert(u[a] == y);
                }
                if occurs(u, y) {
                    let a = choose|a: int| 0 <= a < u.len() && #[trigger] u[a] == y;
                    if a < i {
                        assert(t[a] == y);
                    }
                }
                assert(u[i as int] == x);
            }
            assert forall|a: int| 0 <= a < i implies p@[a] != #[trigger] p@[i as int] by {
                if p@[a] == p@[i as int] {
                    assert(t[a] == x);
                    assert(occurs(t, x as int));
                }
            }
        }
        i = i + 1;
    }
    true
}

/// The place of `x` in a permutation.
pub proof fn lemma_permutation_onto(p: Seq<u32>, x: u32) -> (i: int)
    requires
        is_permutation(p),
        x < p.len(),
    ensures
        0 <= i < p.len(),
        p[i] == x,
{
    lemma_distinct_below(p, p.len() as int);
    assert(occurs(p, x as int));
    choose|i: int| 0 <= i < p.len() && #[trigger] p[i] == x as int
}

/// The order of a key with a number: by the key, then by the number.
pub open spec fn key_le(a: (u64, u32), b: (u64, u32)) -> bool {
    a.0 < b.0 || (a.0 == b.0 && a.1 <= b.1)
}

/// Keys with numbers in ascending order.
pub open spec fn keys_sorted(s: Seq<(u64, u32)>) -> bool {
    forall|i: int, j: int| 0 <= i <= j < s.len() ==> key_le(#[trigger] s[i], #[trigger] s[j])
}

/// `<[T]>::sort_unstable` on keys with numbers: a reordering of the items in
/// which they ascend.
#[verifier::external_body]
pub(crate) fn sort_keys(v: &mut Vec<(u64, u32)>)
    ensures
        same_items(old(v)@, final(v)@),
        keys_sorted(final(v)@),
{
    v.sort_unstable();
}

/// `rayon`'s `par_sort_unstable` on keys with numbers: a reordering of the
/// items in which they ascend.
#[verifier::external_body]
pub(crate) fn par_sort_keys(v: &mut Vec<(u64, u32)>)
    ensures
        same_items(old(v)@, final(v)@),
        keys_sorted(final(v)@),
{
    v.par_sort_unstable();
}

/// Strictly ascending numbers.
pub open spec fn strictly_ascends(s: Seq<u32>) -> bool {
    forall|i: int, j: int| 0 <= i < j < s.len() ==> (#[trigger] s[i]) < (#[trigger] s[j])
}

/// Strictly ascending sequences of the same numbers are the same.
pub proof fn lemma_ascending_unique(a: Seq<u32>, b: Seq<u32>)
    requires
        strictly_ascends(a),
        strictly_ascends(b),
        forall|x: int| #[trigger] occurs(a, x) <==> occurs(b, x),
    ensures
        a == b,
    decreases a.len(),
{
    if a.len() == 0 {
        if b.len() > 0 {
            assert(b[0] == b[0] as int);
            assert(occurs(b, b[0] as int));
            assert(occurs(a, b[0] as int));
        }
        assert(a =~= b);
    } else {
        let m = a.len() - 1;
        assert(a[m] == a[m] as int);
        assert(occurs(a, a[m] as int));
        assert(occurs(b, a[m] as int));
        let n = b.len() - 1;
        assert(b[n] == b[n] as int);
        assert(occurs(b, b[n] as int));
        assert(occurs(a, b[n] as int));
        let i = choose|i: int| 0 <= i < b.len() && #[trigger] b[i] == a[m] as int;
        let j = choose|j: int| 0 <= j < a.len() && #[trigger] a[j] == b[n] as int;
        assert(b[i] <= b[n]);
        assert(a[j] <= a[m]);
        assert(a[m] == b[n]);
        let c = a.drop_last();
        let d = b.drop_last();
        assert forall|x: int| #[trigger] occurs(c, x) <==> occurs(d, x) by {
            if occurs(c, x) {
                let k = choose|k: int| 0 <= k < c.len() && #[trigger] c[k] == x;
                assert(a[k] == x);
                assert(occurs(a, x));
                assert(occurs(b, x));
                let l = choose|l: int| 0 <= l < b.len() && #[trigger] b[l] == x;
                assert(a[k] < a[m]);
                assert(l < n);
                assert(d[l] == x);
            }
            if occurs(d, x) {
                let k = choose|k: int| 0 <= k < d.len() && #[trigger] d[k] == x;
                assert(b[k] == x);
                assert(occurs(b, x));
                assert(occurs(a, x));
                let l = choose|l: int| 0 <= l < a.len() && #[trigger] a[l] == x;
                assert(b[k] < b[n]);
                assert(l < m);
                assert(c[l] == x);
            }
        }
        lemma_ascending_unique(c, d);
        assert(a =~= c.push(a[m]));
        assert(b =~= d.push(b[n]));
    }
}

/// Named numbers in ascending order: by the bytes of the name, then by the
/// number.
pub open spec fn named_sorted(s: Seq<(&[u8], u32)>) -> bool {
    forall|i: int, j: int|
        0 <= i < j < s.len() ==> bytes_lt((#[trigger] s[i]).0@, (#[trigger] s[j]).0@) || (s[i].0@
            == s[j].0@ && s[i].1 <= s[j].1)
}

/// `<[T]>::sort_unstable` on names with numbers: a reordering of the items in
/// which they ascend.
#[verifier::external_body]
pub(crate) fn sort_named(v: &mut Vec<(&[u8], u32)>)
    ensures
        same_items(old(v)@, final(v)@),
        named_sorted(final(v)@),
{
    v.sort_unstable();
}

/// `rayon`'s `par_sort_unstable` on names with numbers: a reordering of the
/// items in which they ascend.
#[verifier::external_body]
pub(crate) fn par_sort_named(v: &mut Vec<(&[u8], u32)>)
    ensures
        same_items(old(v)@, final(v)@),
        named_sorted(final(v)@),
{
    v.par_sort_unstable();
}

/// Numbers among which every number below `m` occurs are at least `m`.
pub proof fn lemma_onto_len(q: Seq<u32>, m: int)
    requires
        0 <= m <= 0xFFFF_FFFF,
        q.len() <= 0xFFFF_FFFF,
        forall|x: int| 0 <= x < m ==> #[trigger] occurs(q, x),
    ensures
        q.len() >= m,
{
    let place = |x: int| choose|i: int| 0 <= i < q.len() && #[trigger] q[i] == x;
    let pos = Seq::new(m as nat, |x: int| place(x) as u32);
    assert forall|x: int| 0 <= x < m implies 0 <= #[trigger] place(x) < q.len() && q[place(x)]
        == x by {
        assert(occurs(q, x));
    }
    assert forall|x: int| 0 <= x < pos.len() implies (#[trigger] pos[x]) < q.len() by {
        assert(0 <= place(x) < q.len());
    }
    assert forall|x: int, y: int| 0 <= x < y < pos.len() implies #[trigger] pos[x]
        != #[trigger] pos[y] by {
        assert(q[place(x)] == x && q[place(y)] == y);
    }
    lemma_distinct_below(pos, q.len() as int);
}

} // verus!
