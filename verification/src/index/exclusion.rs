//! Exclusion inherited down the directory tree.

use vstd::prelude::*;
use crate::order::{lemma_distinct_below, occurs};
use super::columns::VolumeIndex;
use super::flags::{
    bit_set, hidden_or_system, lemma_with_bit, put_bit, with_bit, EXCLUDED, HIDDEN, SYSTEM,
    TOMBSTONE,
};

verus! {

/// Entry `i`, or one of its first `k` ancestors, carries `HIDDEN` or `SYSTEM`.
pub open spec fn marked_within(parent: Seq<u32>, flag: Seq<u8>, i: int, k: nat) -> bool
    decreases k,
{
    &&& 0 <= i < flag.len()
    &&& hidden_or_system(flag[i]) || (k > 0 && marked_within(
        parent,
        flag,
        parent[i] as int,
        (k - 1) as nat,
    ))
}

/// Entry `i`, or one of its ancestors, carries `HIDDEN` or `SYSTEM`. Where
/// parents form a cycle, its members are ancestors of each other.
pub open spec fn marked(parent: Seq<u32>, flag: Seq<u8>, i: int) -> bool {
    exists|k: nat| marked_within(parent, flag, i, k)
}

/// An entry is marked by its own bits or through its parent.
pub proof fn lemma_marked_step(parent: Seq<u32>, flag: Seq<u8>, i: int)
    requires
        0 <= i < flag.len(),
    ensures
        marked(parent, flag, i) == (hidden_or_system(flag[i]) || marked(
            parent,
            flag,
            parent[i] as int,
        )),
{
    if marked(parent, flag, i) && !hidden_or_system(flag[i]) {
        let k = choose|k: nat| marked_within(parent, flag, i, k);
        assert(marked_within(parent, flag, parent[i] as int, (k - 1) as nat));
    }
    if hidden_or_system(flag[i]) {
        assert(marked_within(parent, flag, i, 0));
    }
    if marked(parent, flag, parent[i] as int) {
        let k = choose|k: nat| marked_within(parent, flag, parent[i] as int, k);
        assert(marked_within(parent, flag, i, k + 1));
    }
}

/// `c` is a cycle of parents.
spec fn is_cycle(parent: Seq<u32>, c: Seq<u32>, n: int) -> bool {
    &&& c.len() > 0
    &&& forall|k: int| 0 <= k < c.len() ==> (#[trigger] c[k]) < n
    &&& forall|j: int, k: int|
        0 <= j < c.len() && k == j + 1 && k < c.len() ==> parent[(#[trigger] c[j]) as int] == (
        #[trigger] c[k])
    &&& parent[c.last() as int] == c[0]
}

spec fn any_own(flag: Seq<u8>, c: Seq<u32>) -> bool {
    exists|k: int| 0 <= k < c.len() && hidden_or_system(flag[(#[trigger] c[k]) as int])
}

proof fn lemma_cycle_only(parent: Seq<u32>, flag: Seq<u8>, c: Seq<u32>, k: int, fuel: nat)
    requires
        is_cycle(parent, c, flag.len() as int),
        0 <= k < c.len(),
        marked_within(parent, flag, c[k] as int, fuel),
    ensures
        any_own(flag, c),
    decreases fuel,
{
    if !hidden_or_system(flag[c[k] as int]) {
        if k + 1 < c.len() {
            assert(parent[c[k] as int] == c[k + 1]);
            lemma_cycle_only(parent, flag, c, k + 1, (fuel - 1) as nat);
        } else {
            assert(c.last() == c[k]);
            lemma_cycle_only(parent, flag, c, 0, (fuel - 1) as nat);
        }
    }
}

/// A marked member of a cycle marks those before it.
proof fn lemma_cycle_back(parent: Seq<u32>, flag: Seq<u8>, c: Seq<u32>, k: int, j: int)
    requires
        is_cycle(parent, c, flag.len() as int),
        0 <= j <= k < c.len(),
        marked(parent, flag, c[k] as int),
    ensures
        marked(parent, flag, c[j] as int),
    decreases k - j,
{
    if j < k {
        assert(parent[c[k - 1] as int] == c[k]);
        lemma_marked_step(parent, flag, c[k - 1] as int);
        lemma_cycle_back(parent, flag, c, k - 1, j);
    }
}

/// All members of a cycle are marked, or none is.
proof fn lemma_cycle(parent: Seq<u32>, flag: Seq<u8>, c: Seq<u32>, j: int)
    requires
        is_cycle(parent, c, flag.len() as int),
        0 <= j < c.len(),
    ensures
        marked(parent, flag, c[j] as int) == any_own(flag, c),
{
    if marked(parent, flag, c[j] as int) {
        let fuel = choose|k: nat| marked_within(parent, flag, c[j] as int, k);
        lemma_cycle_only(parent, flag, c, j, fuel);
    }
    if any_own(flag, c) {
        let k = choose|k: int| 0 <= k < c.len() && hidden_or_system(flag[(#[trigger] c[k]) as int]);
        lemma_marked_step(parent, flag, c[k] as int);
        lemma_cycle_back(parent, flag, c, k, 0);
        let last = c.len() - 1;
        assert(c.last() == c[last]);
        lemma_marked_step(parent, flag, c[last] as int);
        lemma_cycle_back(parent, flag, c, last, j);
    }
}

/// The flags with the exclusion of every entry derived anew.
pub open spec fn all_derived(parent: Seq<u32>, flag: Seq<u8>) -> Seq<u8> {
    Seq::new(flag.len(), |i: int| with_bit(flag[i], EXCLUDED, marked(parent, flag, i)))
}

const VISITING: u8 = 1;

const DONE: u8 = 2;

/// The walk so far: the stack is a chain of parents that ends before `cur`,
/// and holds exactly the entries being visited.
spec fn walk_wf(
    parent: Seq<u32>,
    state: Seq<u8>,
    stack: Seq<u32>,
    cur: u32,
    n: int,
) -> bool {
    &&& state.len() == n
    &&& forall|k: int| 0 <= k < stack.len() ==> (#[trigger] stack[k]) < n
    &&& forall|a: int, b: int|
        0 <= a < b < stack.len() ==> #[trigger] stack[a] != #[trigger] stack[b]
    &&& forall|a: int, b: int|
        0 <= a < stack.len() && b == a + 1 && b < stack.len() ==> parent[(
        #[trigger] stack[a]) as int] == (#[trigger] stack[b])
    &&& stack.len() > 0 ==> parent[stack.last() as int] == cur
    &&& forall|x: int|
        0 <= x < n ==> (#[trigger] state[x] == VISITING <==> occurs(stack, x)) && (state[x] == 0
            || state[x] == VISITING || state[x] == DONE)
}

/// The flags so far: derived where the visit is over, else as they were.
spec fn flags_so_far(parent: Seq<u32>, f0: Seq<u8>, flag: Seq<u8>, state: Seq<u8>) -> bool {
    &&& flag.len() == f0.len()
    &&& state.len() == f0.len()
    &&& forall|x: int|
        0 <= x < f0.len() ==> #[trigger] flag[x] == (if state[x] == DONE {
            all_derived(parent, f0)[x]
        } else {
            f0[x]
        })
}

proof fn lemma_own_kept(f: u8, on: bool)
    ensures
        hidden_or_system(with_bit(f, EXCLUDED, on)) == hidden_or_system(f),
        bit_set(with_bit(f, EXCLUDED, on), TOMBSTONE) == bit_set(f, TOMBSTONE),
        bit_set(with_bit(f, EXCLUDED, on), EXCLUDED) == on,
{
    lemma_with_bit(f, EXCLUDED, on, HIDDEN);
    lemma_with_bit(f, EXCLUDED, on, SYSTEM);
    lemma_with_bit(f, EXCLUDED, on, TOMBSTONE);
    lemma_with_bit(f, EXCLUDED, on, EXCLUDED);
}

/// Taking the last entry off the stack leaves a walk.
proof fn lemma_walk_popped(parent: Seq<u32>, state: Seq<u8>, stack: Seq<u32>, cur: u32, n: int)
    requires
        walk_wf(parent, state, stack, cur, n),
        stack.len() > 0,
    ensures
        walk_wf(
            parent,
            state.update(stack.last() as int, DONE),
            stack.drop_last(),
            stack.last(),
            n,
        ),
{
    let id = stack.last();
    let s2 = stack.drop_last();
    let t2 = state.update(id as int, DONE);
    if s2.len() > 0 {
        assert(parent[stack[s2.len() - 1] as int] == stack[s2.len() as int]);
    }
    assert forall|x: int| 0 <= x < n implies (#[trigger] t2[x] == VISITING <==> occurs(s2, x)) && (
    t2[x] == 0 || t2[x] == VISITING || t2[x] == DONE) by {
        assert(state[x] == VISITING <==> occurs(stack, x));
        if occurs(stack, x) {
            let k = choose|k: int| 0 <= k < stack.len() && #[trigger] stack[k] == x;
            if k < s2.len() {
                assert(s2[k] == x);
                assert(stack[k] != stack[s2.len() as int]);
            }
        }
        if occurs(s2, x) {
            let k = choose|k: int| 0 <= k < s2.len() && #[trigger] s2[k] == x;
            assert(stack[k] == x);
            assert(stack[k] != stack[s2.len() as int]);
        }
    }
}

impl VolumeIndex {
    /// Set the exclusion of the last entry of the stack, and take it off.
    fn settle(
        &mut self,
        state: &mut Vec<u8>,
        stack: &mut Vec<u32>,
        excluded: bool,
        Ghost(f0): Ghost<Seq<u8>>,
        Ghost(cur): Ghost<u32>,
    )
        requires
            old(self).wf(),
            walk_wf(old(self).parent@, old(state)@, old(stack)@, cur, f0.len() as int),
            flags_so_far(old(self).parent@, f0, old(self).flag@, old(state)@),
            f0.len() == old(self).count(),
            old(stack)@.len() > 0,
            excluded == marked(old(self).parent@, f0, old(stack)@.last() as int),
        ensures
            final(self).wf(),
            *final(self) == (VolumeIndex { flag: final(self).flag, ..*old(self) }),
            walk_wf(
                final(self).parent@,
                final(state)@,
                final(stack)@,
                old(stack)@.last(),
                f0.len() as int,
            ),
            flags_so_far(final(self).parent@, f0, final(self).flag@, final(state)@),
            final(stack)@ == old(stack)@.drop_last(),
            final(state)@ == old(state)@.update(old(stack)@.last() as int, DONE),
    {
        let ghost stack0 = stack@;
        let ghost state0 = state@;
        let ghost flag0 = self.flag@;
        match stack.pop() {
            Some(id) => {
                proof {
                    assert(stack0[stack0.len() - 1] == id);
                    assert(occurs(stack0, id as int));
                    assert(state0[id as int] == VISITING);
                    assert(flag0[id as int] == f0[id as int]);
                    lemma_own_kept(f0[id as int], excluded);
                    lemma_walk_popped(self.parent@, state0, stack0, cur, f0.len() as int);
                }
                let g: u8 = put_bit(self.flag[id as usize], EXCLUDED, excluded);
                self.set_flag(id, g);
                state[id as usize] = DONE;
                proof {
                    assert forall|x: int| 0 <= x < f0.len() implies #[trigger] self.flag@[x] == (
                    if state@[x] == DONE {
                        all_derived(self.parent@, f0)[x]
                    } else {
                        f0[x]
                    }) by {
                        if x != id {
                            assert(self.flag@[x] == flag0[x]);
                            assert(state@[x] == state0[x]);
                        }
                    }
                }
            },
            None => {},
        }
    }

    /// Derive the exclusion of every entry anew: an entry is excluded when it
    /// or one of its ancestors is hidden or system. Each entry enters and
    /// leaves the walk once.
    pub fn recompute_all_excluded(&mut self)
        requires
            old(self).wf(),
        ensures
            final(self).wf(),
            final(self).flag@ == all_derived(old(self).parent@, old(self).flag@),
            *final(self) == (VolumeIndex { flag: final(self).flag, ..*old(self) }),
    {
        let ghost f0 = self.flag@;
        let ghost parent = self.parent@;
        let n: usize = self.len();
        let mut state: Vec<u8> = Vec::new();
        let mut filled: usize = 0;
        while filled < n
            invariant
                filled <= n,
                state@.len() == filled,
                forall|x: int| 0 <= x < filled ==> #[trigger] state@[x] == 0,
            decreases n - filled,
        {
            state.push(0);
            filled = filled + 1;
        }
        let mut stack: Vec<u32> = Vec::new();
        let mut start: usize = 0;
        while start < n
            invariant
                self.wf(),
                *self == (VolumeIndex { flag: self.flag, ..*old(self) }),
                parent == self.parent@,
                f0 == old(self).flag@,
                parent == old(self).parent@,
                n == f0.len(),
                n == self.count(),
                start <= n,
                stack@.len() == 0,
                walk_wf(parent, state@, stack@, 0, n as int),
                flags_so_far(parent, f0, self.flag@, state@),
                forall|x: int| 0 <= x < start ==> #[trigger] state@[x] == DONE,
            decreases n - start,
        {
            let mut cur: u32 = start as u32;
            let mut inherited: bool = false;
            let ghost state1 = state@;
            assert(walk_wf(parent, state@, stack@, cur, n as int));
            while (cur as usize) < n && state[cur as usize] == 0
                invariant
                    self.wf(),
                    n == self.count(),
                    *self == (VolumeIndex { flag: self.flag, ..*old(self) }),
                    parent == self.parent@,
                    n == f0.len(),
                    start < n,
                    walk_wf(parent, state@, stack@, cur, n as int),
                    flags_so_far(parent, f0, self.flag@, state@),
                    forall|x: int| 0 <= x < n && #[trigger] state1[x] == DONE ==> state@[x] == DONE,
                    stack@.len() == 0 ==> cur == start && state@ == state1,
                    stack@.len() > 0 ==> stack@[0] == start,
                decreases n - stack@.len(),
            {
                let ghost stack0 = stack@;
                let ghost state0 = state@;
                state[cur as usize] = VISITING;
                stack.push(cur);
                proof {
                    assert(!occurs(stack0, cur as int));
                    assert forall|a: int, b: int| 0 <= a < b < stack@.len() implies #[trigger] stack@[a]
                        != #[trigger] stack@[b] by {
                        if b == stack0.len() {
                            assert(stack0[a] == stack@[a]);
                            if stack@[a] == cur {
                                assert(stack0[a] == cur as int);
                            }
                        }
                    }
                    assert forall|x: int| 0 <= x < n implies (#[trigger] state@[x] == VISITING
                        <==> occurs(stack@, x)) && (state@[x] == 0 || state@[x] == VISITING
                        || state@[x] == DONE) by {
                        assert(state0[x] == VISITING <==> occurs(stack0, x));
                        assert(stack@[stack0.len() as int] == cur);
                        if occurs(stack0, x) {
                            let k = choose|k: int| 0 <= k < stack0.len() && #[trigger] stack0[k] == x;
                            assert(stack@[k] == x);
                        }
                        if occurs(stack@, x) {
                            let k = choose|k: int| 0 <= k < stack@.len() && #[trigger] stack@[k] == x;
                            if k < stack0.len() {
                                assert(stack0[k] == x);
                            }
                        }
                    }
                    lemma_distinct_below(stack@, n as int);
                }
                cur = self.parent[cur as usize];
            }
            if (cur as usize) < n {
                if state[cur as usize] == DONE {
                    inherited = self.is_excluded(cur);
                    proof {
                        lemma_own_kept(f0[cur as int], marked(parent, f0, cur as int));
                    }
                } else {
                    inherited = self.settle_cycle(&mut state, &mut stack, cur, Ghost(f0));
                }
            }
            proof {
                if cur >= n {
                    assert(!marked(parent, f0, cur as int));
                }
            }
            while stack.len() > 0
                invariant
                    self.wf(),
                    *self == (VolumeIndex { flag: self.flag, ..*old(self) }),
                    parent == self.parent@,
                    n == f0.len(),
                    n == self.count(),
                    start < n,
                    walk_wf(parent, state@, stack@, cur, n as int) || stack@.len() == 0,
                    state@.len() == n,
                    forall|x: int|
                        0 <= x < n ==> (#[trigger] state@[x] == VISITING <==> occurs(stack@, x)) && (
                        state@[x] == 0 || state@[x] == VISITING || state@[x] == DONE),
                    flags_so_far(parent, f0, self.flag@, state@),
                    stack@.len() > 0 ==> inherited == marked(parent, f0, cur as int),
                    forall|x: int| 0 <= x < n && #[trigger] state1[x] == DONE ==> state@[x] == DONE,
                    stack@.len() > 0 ==> stack@[0] == start,
                    stack@.len() == 0 ==> state@[start as int] == DONE,
                decreases stack@.len(),
            {
                let id: u32 = stack[stack.len() - 1];
                proof {
                    assert(stack@[stack@.len() - 1] == id);
                    assert(self.flag@[id as int] == f0[id as int]) by {
                        assert(occurs(stack@, id as int));
                    }
                    lemma_marked_step(parent, f0, id as int);
                }
                let f: u8 = self.flag[id as usize];
                let excluded: bool = f & HIDDEN != 0 || f & SYSTEM != 0 || inherited;
                self.settle(&mut state, &mut stack, excluded, Ghost(f0), Ghost(cur));
                inherited = excluded;
                cur = id;
            }
            proof {
                assert forall|x: int| 0 <= x < start + 1 implies #[trigger] state@[x] == DONE by {
                    if x < start {
                        assert(state1[x] == DONE);
                    }
                }
                assert forall|x: int| 0 <= x < n implies (#[trigger] state@[x] == VISITING
                    <==> occurs(stack@, x)) by {}
            }
            start = start + 1;
        }
        assert(self.flag@ =~= all_derived(parent, f0));
    }

    /// Settle the entries of the cycle that starts at `cur` on the stack; says
    /// whether they are excluded.
    fn settle_cycle(
        &mut self,
        state: &mut Vec<u8>,
        stack: &mut Vec<u32>,
        cur: u32,
        Ghost(f0): Ghost<Seq<u8>>,
    ) -> (r: bool)
        requires
            old(self).wf(),
            walk_wf(old(self).parent@, old(state)@, old(stack)@, cur, f0.len() as int),
            flags_so_far(old(self).parent@, f0, old(self).flag@, old(state)@),
            f0.len() == old(self).count(),
            cur < f0.len(),
            old(state)@[cur as int] == VISITING,
        ensures
            final(self).wf(),
            *final(self) == (VolumeIndex { flag: final(self).flag, ..*old(self) }),
            walk_wf(final(self).parent@, final(state)@, final(stack)@, cur, f0.len() as int),
            flags_so_far(final(self).parent@, f0, final(self).flag@, final(state)@),
            final(stack)@.len() < old(stack)@.len(),
            final(stack)@.is_prefix_of(old(stack)@),
            forall|x: int|
                0 <= x < f0.len() && #[trigger] old(state)@[x] == DONE ==> final(state)@[x] == DONE,
            final(stack)@.len() == 0 ==> final(state)@[old(stack)@[0] as int] == DONE,
            r == marked(old(self).parent@, f0, cur as int),
    {
        let ghost parent = self.parent@;
        let ghost s = stack@;
        let ghost n = f0.len() as int;
        proof {
            assert(occurs(s, cur as int));
        }
        let mut from: usize = stack.len() - 1;
        while stack[from] != cur
            invariant
                from < stack@.len(),
                stack@ == s,
                exists|k: int| 0 <= k <= from && #[trigger] s[k] == cur,
            decreases from,
        {
            proof {
                let k = choose|k: int| 0 <= k <= from && #[trigger] s[k] == cur;
                assert(k < from);
            }
            from = from - 1;
        }
        let ghost c = s.subrange(from as int, s.len() as int);
        let mut any: bool = false;
        let mut i: usize = from;
        while i < stack.len()
            invariant
                from <= i <= stack@.len(),
                stack@ == s,
                self.wf(),
                n == self.count(),
                n == f0.len(),
                *self == *old(self),
                walk_wf(parent, state@, s, cur, n),
                flags_so_far(parent, f0, self.flag@, state@),
                any == exists|k: int|
                    from <= k < i && hidden_or_system(f0[(#[trigger] s[k]) as int]),
            decreases stack@.len() - i,
        {
            let id: u32 = stack[i];
            assert(occurs(s, id as int)) by {
                assert(s[i as int] == id);
            }
            assert(self.flag@[id as int] == f0[id as int]);
            let f: u8 = self.flag[id as usize];
            if f & HIDDEN != 0 || f & SYSTEM != 0 {
                assert(hidden_or_system(f0[s[i as int] as int]));
                any = true;
            }
            i = i + 1;
        }
        proof {
            assert(is_cycle(parent, c, n)) by {
                assert forall|j: int, k: int|
                    0 <= j < c.len() && k == j + 1 && k < c.len() implies parent[(
                #[trigger] c[j]) as int] == (#[trigger] c[k]) by {
                    assert(c[j] == s[from + j]);
                    assert(c[k] == s[from + k]);
                }
                assert forall|k: int| 0 <= k < c.len() implies (#[trigger] c[k]) < n by {
                    assert(c[k] == s[from + k]);
                }
                assert(s.last() == s[s.len() - 1]);
            }
            assert(any == any_own(f0, c)) by {
                if any {
                    let k = choose|k: int|
                        from <= k < s.len() && hidden_or_system(f0[(#[trigger] s[k]) as int]);
                    assert(c[k - from] == s[k]);
                }
                if any_own(f0, c) {
                    let k = choose|k: int|
                        0 <= k < c.len() && hidden_or_system(f0[(#[trigger] c[k]) as int]);
                    assert(s[from + k] == c[k]);
                }
            }
            lemma_cycle(parent, f0, c, 0);
        }
        let ghost mut at: u32 = cur;
        while stack.len() > from
            invariant
                from <= stack@.len() <= s.len(),
                from < s.len(),
                stack@.is_prefix_of(s),
                parent == self.parent@,
                self.wf(),
                n == self.count(),
                n == f0.len(),
                *self == (VolumeIndex { flag: self.flag, ..*old(self) }),
                c == s.subrange(from as int, s.len() as int),
                is_cycle(parent, c, n),
                any == any_own(f0, c),
                walk_wf(parent, state@, stack@, at, n),
                stack@.len() == s.len() ==> at == cur,
                stack@.len() < s.len() ==> at == s[stack@.len() as int],
                flags_so_far(parent, f0, self.flag@, state@),
                forall|x: int|
                    0 <= x < n && #[trigger] old(state)@[x] == DONE ==> state@[x] == DONE,
                forall|k: int|
                    stack@.len() <= k < s.len() ==> state@[(#[trigger] s[k]) as int] == DONE,
            decreases stack@.len(),
        {
            let ghost last = stack@.last();
            let ghost before = stack@;
            let ghost state0 = state@;
            proof {
                assert(last == s[before.len() - 1]);
                assert(c[before.len() - 1 - from] == last);
                lemma_cycle(parent, f0, c, before.len() - 1 - from);
            }
            self.settle(state, stack, any, Ghost(f0), Ghost(at));
            proof {
                assert forall|k: int| stack@.len() <= k < s.len() implies state@[(
                #[trigger] s[k]) as int] == DONE by {
                    assert(c[k - from] == s[k]);
                    if k >= before.len() {
                        assert(state0[s[k] as int] == DONE);
                    }
                }
                at = last;
            }
        }
        proof {
            assert(s[from as int] == cur);
        }
        any
    }
}

} // verus!
