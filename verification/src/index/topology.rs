//! The rooted forest that live entries form, and what a change must not do
//! to it.

use vstd::prelude::*;
use crate::order::{lemma_distinct_below, occurs};
use super::columns::{lemma_walk_up_shift, walk_up, VolumeIndex};
use super::flags::{bit_set, IS_DIR};
use super::frn::groups_valid;
use super::lookup::{lemma_selected, selected};
use super::{has_sequence, record_of, EntryId, Frn, NO_PARENT};

verus! {

/// What is wrong with the live entries as a forest.
#[derive(Clone, Copy, Debug, PartialEq, Eq, Structural)]
pub enum TopologyFault {
    /// The root is missing, dead, not a directory, or has a parent.
    Root,
    /// Record generations or object kinds are ambiguous.
    AmbiguousObjects,
    /// An exact link occurs more than once.
    RepeatedLink,
    /// A live entry lacks one live directory parent.
    MissingParent,
    /// The live parents form a cycle.
    Cycle,
    /// One directory object has several live entries.
    SplitDirectory,
    /// A live parent chain leaves the live entries.
    ChainEscapes,
    /// A parent chain goes through an entry that is not a directory.
    ChainThroughFile,
    /// Parents form a cycle before the change.
    ExistingCycle,
    /// Replacing the object would discard other links of it.
    SiblingLinks,
    /// A directory that was found is gone.
    Vanished,
}

/// A change that would not keep an exact rooted forest.
///
/// The batch that holds it is to be rejected as a whole, and the volume to be
/// scanned anew: nothing is to be guessed.
#[derive(Clone, Copy, Debug, PartialEq, Eq, Structural)]
pub enum IndexMutationError {
    /// An object or parent reference without a sequence number.
    InvalidReference {
        /// The reference.
        reference: Frn,
    },
    /// No live entry has the exact parent reference.
    UnresolvedParent {
        /// Object being inserted or moved.
        object: Frn,
        /// Missing or stale parent.
        parent: Frn,
    },
    /// The parent exists but is not a directory.
    ParentNotDirectory {
        /// Object being inserted or moved.
        object: Frn,
        /// The parent.
        parent: Frn,
    },
    /// Several live directory entries have the exact parent reference.
    AmbiguousParent {
        /// Object being inserted or moved.
        object: Frn,
        /// The parent.
        parent: Frn,
    },
    /// An object named itself as parent.
    SelfParent {
        /// The object.
        object: Frn,
    },
    /// A directory move would create a cycle of parents.
    ParentCycle {
        /// Directory being moved.
        object: Frn,
        /// Proposed parent directory.
        parent: Frn,
    },
    /// The live entries are corrupt or incomplete already.
    InvalidTopology {
        /// What is wrong.
        reason: TopologyFault,
    },
    /// A complete set of links was empty.
    EmptyLinkSnapshot {
        /// The object.
        object: Frn,
    },
    /// A complete set of links named one link twice.
    DuplicateLink {
        /// The object.
        object: Frn,
    },
    /// The links of one object disagree on what belongs to the object.
    InconsistentLinkMetadata {
        /// The object.
        object: Frn,
    },
    /// A change with an empty name.
    EmptyName {
        /// The object.
        object: Frn,
    },
    /// A change for directories aimed at a file, or the other way round.
    ObjectKind {
        /// The object.
        object: Frn,
    },
}

/// Following parents from `i` leads to the root.
pub open spec fn rooted(parent: Seq<u32>, i: int) -> bool {
    exists|k: nat| #[trigger] walk_up(parent, i as u32, k) == 0
}

proof fn lemma_rooted_child(parent: Seq<u32>, i: int)
    requires
        0 < i < parent.len(),
        parent.len() < NO_PARENT,
        rooted(parent, parent[i] as int),
    ensures
        rooted(parent, i),
{
    let k = choose|k: nat| #[trigger] walk_up(parent, parent[i] as u32, k) == 0;
    lemma_walk_up_shift(parent, i as u32, k);
    assert(walk_up(parent, i as u32, k + 1) == 0);
}

/// A chain of parents: each entry is followed by its parent.
spec fn is_chain(parent: Seq<u32>, s: Seq<u32>) -> bool {
    forall|a: int, b: int|
        0 <= a < s.len() && b == a + 1 && b < s.len() ==> parent[(#[trigger] s[a]) as int] == (
        #[trigger] s[b])
}

/// A chain whose last parent is in it again never leads to the root.
proof fn lemma_looping(parent: Seq<u32>, s: Seq<u32>, k: nat)
    requires
        s.len() > 0,
        parent.len() < NO_PARENT,
        forall|j: int| 0 <= j < s.len() ==> 0 < (#[trigger] s[j]) < parent.len(),
        is_chain(parent, s),
        occurs(s, parent[s.last() as int] as int),
    ensures
        occurs(s, walk_up(parent, s[0], k) as int),
        walk_up(parent, s[0], k) != 0,
    decreases k,
{
    if k == 0 {
        assert(s[0] == walk_up(parent, s[0], 0) as int);
    } else {
        lemma_looping(parent, s, (k - 1) as nat);
        let w = walk_up(parent, s[0], (k - 1) as nat);
        let j = choose|j: int| 0 <= j < s.len() && #[trigger] s[j] == w as int;
        assert(walk_up(parent, s[0], k) == parent[s[j] as int]);
        if j + 1 < s.len() {
            assert(parent[s[j] as int] == s[j + 1]);
            assert(s[j + 1] == walk_up(parent, s[0], k) as int);
        } else {
            assert(s.last() == s[j]);
        }
        let i = choose|i: int|
            0 <= i < s.len() && #[trigger] s[i] == walk_up(parent, s[0], k) as int;
        assert(s[i] > 0);
    }
}

const VISITING: u8 = 1;

const DONE: u8 = 2;

impl VolumeIndex {
    /// Entry `i` is looked at: every entry, or every live one.
    pub open spec fn considered(&self, i: int, live_only: bool) -> bool {
        !live_only || self.live(i)
    }

    /// Parents of entries that are looked at exist and are looked at.
    pub open spec fn parents_considered(&self, live_only: bool) -> bool {
        forall|i: int|
            0 < i < self.count() && #[trigger] self.considered(i, live_only) ==> self.parent@[i]
                < self.count() && self.considered(self.parent@[i] as int, live_only)
    }

    /// The first entry whose parents do not lead to the root, if there is
    /// one.
    pub(crate) fn first_unrooted(&self, live_only: bool) -> (r: Option<EntryId>)
        requires
            self.wf(),
            self.count() > 0,
            self.parents_considered(live_only),
        ensures
            match r {
                Some(i) => 0 < i < self.count() && self.considered(i as int, live_only) && !rooted(
                    self.parent@,
                    i as int,
                ) && forall|j: int|
                    0 < j < i && #[trigger] self.considered(j, live_only) ==> rooted(
                        self.parent@,
                        j,
                    ),
                None => forall|j: int|
                    0 < j < self.count() && #[trigger] self.considered(j, live_only) ==> rooted(
                        self.parent@,
                        j,
                    ),
            },
    {
        let ghost parent = self.parent@;
        let n: u32 = self.len() as u32;
        let mut state: Vec<u8> = Vec::new();
        let mut filled: u32 = 0;
        while filled < n
            invariant
                filled <= n,
                state@.len() == filled,
                forall|x: int| 0 <= x < filled ==> #[trigger] state@[x] == 0,
            decreases n - filled,
        {
            state.push(0);
            filled = filled + 1;
        }
        let mut stack: Vec<u32> = Vec::new();
        let mut start: u32 = 1;
        while start < n
            invariant
                self.wf(),
                parent == self.parent@,
                n == self.count(),
                self.parents_considered(live_only),
                1 <= start,
                state@.len() == n,
                stack@.len() == 0,
                forall|x: int| 0 <= x < n ==> #[trigger] state@[x] == 0 || state@[x] == DONE,
                forall|x: int| 0 < x < n && #[trigger] state@[x] == DONE ==> rooted(parent, x),
                forall|j: int|
                    0 < j < start && j < n && #[trigger] self.considered(j, live_only) ==> rooted(
                        parent,
                        j,
                    ),
            decreases n - start,
        {
            if (live_only && !self.is_live(start)) || state[start as usize] == DONE {
                start = start + 1;
                continue;
            }
            let mut cur: u32 = start;
            while cur != 0 && state[cur as usize] == 0
                invariant
                    self.wf(),
                    parent == self.parent@,
                    n == self.count(),
                    self.parents_considered(live_only),
                    state@.len() == n,
                    0 < start < n,
                    cur < n,
                    self.considered(cur as int, live_only),
                    stack@.len() == 0 ==> cur == start,
                    stack@.len() > 0 ==> stack@[0] == start && parent[stack@.last() as int] == cur,
                    is_chain(parent, stack@),
                    forall|k: int| 0 <= k < stack@.len() ==> 0 < (#[trigger] stack@[k]) < n,
                    forall|a: int, b: int|
                        0 <= a < b < stack@.len() ==> #[trigger] stack@[a] != #[trigger] stack@[b],
                    forall|x: int|
                        0 <= x < n ==> (#[trigger] state@[x] == VISITING <==> occurs(stack@, x)) && (
                        state@[x] == 0 || state@[x] == VISITING || state@[x] == DONE),
                    forall|x: int| 0 < x < n && #[trigger] state@[x] == DONE ==> rooted(parent, x),
                decreases n - stack@.len(),
            {
                let ghost stack0 = stack@;
                let ghost state0 = state@;
                state[cur as usize] = VISITING;
                stack.push(cur);
                proof {
                    assert(!occurs(stack0, cur as int));
                    assert forall|a: int, b: int| 0 <= a < b < stack@.len() implies #[trigger] stack@[a]
                        != #[trigger] stack@[b] by {
                        if b == stack0.len() {
                            assert(stack0[a] == stack@[a]);
                            if stack@[a] == cur {
                                assert(stack0[a] == cur as int);
                            }
                        }
                    }
                    assert forall|x: int| 0 <= x < n implies (#[trigger] state@[x] == VISITING
                        <==> occurs(stack@, x)) && (state@[x] == 0 || state@[x] == VISITING
                        || state@[x] == DONE) by {
                        assert(state0[x] == VISITING <==> occurs(stack0, x));
                        assert(stack@[stack0.len() as int] == cur);
                        if occurs(stack0, x) {
                            let k = choose|k: int| 0 <= k < stack0.len() && #[trigger] stack0[k] == x;
                            assert(stack@[k] == x);
                        }
                        if occurs(stack@, x) {
                            let k = choose|k: int| 0 <= k < stack@.len() && #[trigger] stack@[k] == x;
                            if k < stack0.len() {
                                assert(stack0[k] == x);
                            }
                        }
                    }
                    assert forall|x: int| 0 < x < n && #[trigger] state@[x] == DONE implies rooted(
                        parent,
                        x,
                    ) by {
                        assert(state0[x] == DONE);
                    }
                    lemma_distinct_below(stack@, n as int);
                }
                cur = self.parent[cur as usize];
            }
            if cur != 0 && state[cur as usize] == VISITING {
                proof {
                    assert(occurs(stack@, cur as int));
                    assert(stack@.len() > 0);
                    if rooted(parent, start as int) {
                        let k = choose|k: nat| #[trigger] walk_up(parent, start, k) == 0;
                        lemma_looping(parent, stack@, k);
                    }
                }
                return Some(start);
            }
            proof {
                if cur == 0 {
                    assert(walk_up(parent, (cur as int) as u32, 0) == 0);
                } else {
                    assert(state@[cur as int] == DONE);
                }
                assert(rooted(parent, cur as int));
            }
            let ghost mut next: u32 = cur;
            while stack.len() > 0
                invariant
                    self.wf(),
                    parent == self.parent@,
                    n == self.count(),
                    0 < start < n,
                    state@.len() == n,
                    is_chain(parent, stack@),
                    rooted(parent, next as int),
                    stack@.len() > 0 ==> parent[stack@.last() as int] == next,
                    stack@.len() > 0 ==> stack@[0] == start,
                    stack@.len() == 0 ==> rooted(parent, start as int),
                    forall|k: int| 0 <= k < stack@.len() ==> 0 < (#[trigger] stack@[k]) < n,
                    forall|a: int, b: int|
                        0 <= a < b < stack@.len() ==> #[trigger] stack@[a] != #[trigger] stack@[b],
                    forall|x: int|
                        0 <= x < n ==> (#[trigger] state@[x] == VISITING <==> occurs(stack@, x)) && (
                        state@[x] == 0 || state@[x] == VISITING || state@[x] == DONE),
                    forall|x: int| 0 < x < n && #[trigger] state@[x] == DONE ==> rooted(parent, x),
                decreases stack@.len(),
            {
                let ghost stack0 = stack@;
                let ghost state0 = state@;
                match stack.pop() {
                    Some(entry) => {
                        proof {
                            assert(stack0[stack0.len() - 1] == entry);
                            lemma_rooted_child(parent, entry as int);
                        }
                        state[entry as usize] = DONE;
                        proof {
                            assert forall|x: int| 0 <= x < n implies (#[trigger] state@[x]
                                == VISITING <==> occurs(stack@, x)) && (state@[x] == 0 || state@[x]
                                == VISITING || state@[x] == DONE) by {
                                assert(state0[x] == VISITING <==> occurs(stack0, x));
                                if occurs(stack0, x) {
                                    let k = choose|k: int|
                                        0 <= k < stack0.len() && #[trigger] stack0[k] == x;
                                    if k < stack@.len() {
                                        assert(stack@[k] == x);
                                        assert(stack0[k] != stack0[stack0.len() - 1]);
                                    }
                                }
                                if occurs(stack@, x) {
                                    let k = choose|k: int|
                                        0 <= k < stack@.len() && #[trigger] stack@[k] == x;
                                    assert(stack0[k] == x);
                                    assert(stack0[k] != stack0[stack0.len() - 1]);
                                }
                            }
                            assert forall|x: int|
                                0 < x < n && #[trigger] state@[x] == DONE implies rooted(
                                parent,
                                x,
                            ) by {
                                if x != entry {
                                    assert(state0[x] == DONE);
                                }
                            }
                            if stack@.len() > 0 {
                                assert(parent[stack0[stack@.len() - 1] as int]
                                    == stack0[stack@.len() as int]);
                            }
                            next = entry;
                        }
                    },
                    None => {},
                }
            }
            proof {
                assert forall|x: int| 0 <= x < n implies #[trigger] state@[x] == 0 || state@[x]
                    == DONE by {
                    assert(state@[x] == VISITING <==> occurs(stack@, x));
                }
            }
            start = start + 1;
        }
        None
    }

    /// The root is a live directory without a parent.
    pub open spec fn root_valid(&self) -> bool {
        self.count() > 0 && self.live(0) && bit_set(self.flag@[0], IS_DIR) && self.parent@[0]
            == NO_PARENT
    }

    /// Entry `i` is live and a directory.
    pub open spec fn live_dir(&self, i: u32) -> bool {
        i < self.count() && self.live(i as int) && bit_set(self.flag@[i as int], IS_DIR)
    }

    /// What is wrong with a live entry on its own.
    pub open spec fn entry_fault(&self, i: int) -> Option<IndexMutationError> {
        if !has_sequence(self.frn@[i]) {
            Some(IndexMutationError::InvalidReference { reference: Frn(self.frn@[i]) })
        } else if !self.live_dir(self.parent@[i]) {
            Some(IndexMutationError::InvalidTopology { reason: TopologyFault::MissingParent })
        } else if record_of(self.frn@[i]) == record_of(self.frn@[self.parent@[i] as int]) {
            Some(IndexMutationError::SelfParent { object: Frn(self.frn@[i]) })
        } else {
            None
        }
    }

    /// Entry `i` is the first below the root that is live and at fault.
    pub open spec fn first_fault(&self, i: int) -> bool {
        &&& 0 < i < self.count()
        &&& self.live(i)
        &&& self.entry_fault(i) is Some
        &&& forall|j: int| 0 < j < i && #[trigger] self.live(j) ==> self.entry_fault(j) is None
    }

    /// What is found of the live entries as a forest: the first thing that is
    /// wrong with the root, with the objects, with the links, with an entry,
    /// with the way to the root. Objects and links are looked at among the
    /// first `covered` entries.
    pub open spec fn topology(&self, covered: int) -> Result<(), IndexMutationError> {
        if !self.root_valid() {
            Err(IndexMutationError::InvalidTopology { reason: TopologyFault::Root })
        } else if !groups_valid(self.frn@, self.flag@, covered) {
            Err(IndexMutationError::InvalidTopology { reason: TopologyFault::AmbiguousObjects })
        } else if !self.links_unique(covered) {
            Err(IndexMutationError::InvalidTopology { reason: TopologyFault::RepeatedLink })
        } else if exists|i: int| self.first_fault(i) {
            Err(self.entry_fault(choose|i: int| self.first_fault(i))->0)
        } else if exists|i: int|
            0 < i < self.count() && #[trigger] self.live(i) && !rooted(self.parent@, i) {
            Err(IndexMutationError::InvalidTopology { reason: TopologyFault::Cycle })
        } else {
            Ok(())
        }
    }

    /// Check that the live entries form one exact rooted forest.
    pub(crate) fn validate_live_topology(&self) -> (r: Result<(), IndexMutationError>)
        requires
            self.wf(),
        ensures
            r == self.topology(self.frn_index.covers as int),
    {
        if self.len() == 0 || !self.is_live(0) || !self.is_dir(0) || self.parent[0] != NO_PARENT {
            return Err(IndexMutationError::InvalidTopology { reason: TopologyFault::Root });
        }
        if !self.frn_index.has_valid_live_object_groups(self.frn.as_slice(), self.flag.as_slice()) {
            return Err(
                IndexMutationError::InvalidTopology { reason: TopologyFault::AmbiguousObjects },
            );
        }
        if !self.has_unique_live_link_identities() {
            return Err(IndexMutationError::InvalidTopology { reason: TopologyFault::RepeatedLink });
        }
        let n: u32 = self.len() as u32;
        let mut i: u32 = 1;
        while i < n
            invariant
                self.wf(),
                n == self.count(),
                1 <= i,
                self.root_valid(),
                groups_valid(self.frn@, self.flag@, self.frn_index.covers as int),
                self.links_unique(self.frn_index.covers as int),
                forall|j: int|
                    0 < j < i && j < n && #[trigger] self.live(j) ==> self.entry_fault(j) is None,
            decreases n - i,
        {
            if self.is_live(i) {
                match self.fault_of(i) {
                    Some(fault) => {
                        proof {
                            assert(self.first_fault(i as int));
                            let c = choose|c: int| self.first_fault(c);
                            assert(self.first_fault(c));
                            assert(self.live(c) && self.live(i as int));
                        }
                        return Err(fault);
                    },
                    None => {},
                }
            }
            i = i + 1;
        }
        proof {
            assert forall|i: int| !self.first_fault(i) by {
                if self.first_fault(i) {
                    assert(self.live(i));
                }
            }
            assert forall|i: int|
                0 < i < self.count() && #[trigger] self.considered(i, true) implies self.parent@[i]
                < self.count() && self.considered(self.parent@[i] as int, true) by {
                assert(self.live(i));
                assert(self.entry_fault(i) is None);
            }
        }
        match self.first_unrooted(true) {
            Some(bad) => {
                assert(self.considered(bad as int, true));
                assert(self.live(bad as int));
                Err(IndexMutationError::InvalidTopology { reason: TopologyFault::Cycle })
            },
            None => {
                proof {
                    assert forall|i: int|
                        0 < i < self.count() && #[trigger] self.live(i) implies rooted(
                        self.parent@,
                        i,
                    ) by {
                        assert(self.considered(i, true));
                    }
                }
                Ok(())
            },
        }
    }

    /// What is wrong with a live entry on its own.
    fn fault_of(&self, id: EntryId) -> (r: Option<IndexMutationError>)
        requires
            self.wf(),
            id < self.count(),
        ensures
            r == self.entry_fault(id as int),
    {
        let frn: u64 = self.frn[id as usize];
        if frn < 0x1_0000_0000_0000 {
            return Some(IndexMutationError::InvalidReference { reference: Frn(frn) });
        }
        let p: u32 = self.parent[id as usize];
        if p == NO_PARENT || !self.is_live(p) || !self.is_dir(p) {
            return Some(
                IndexMutationError::InvalidTopology { reason: TopologyFault::MissingParent },
            );
        }
        if frn % 0x1_0000_0000_0000 == self.frn[p as usize] % 0x1_0000_0000_0000 {
            return Some(IndexMutationError::SelfParent { object: Frn(frn) });
        }
        None
    }

    /// A reference that a change may carry: one with a sequence number, or,
    /// where told, the root of a fixture.
    pub open spec fn reference_valid(&self, reference: u64, synthetic_root_ok: bool) -> bool {
        has_sequence(reference) || (synthetic_root_ok && self.synthetic() && record_of(reference)
            == record_of(self.frn@[0]))
    }

    /// Check that a change may carry the reference.
    pub(crate) fn validate_mutation_reference(
        &self,
        reference: Frn,
        synthetic_root_ok: bool,
    ) -> (r: Result<(), IndexMutationError>)
        requires
            self.wf(),
            self.count() > 0,
        ensures
            r == (if self.reference_valid(reference.0, synthetic_root_ok) {
                Ok::<(), IndexMutationError>(())
            } else {
                Err(IndexMutationError::InvalidReference { reference })
            }),
    {
        if reference.0 >= 0x1_0000_0000_0000 || (synthetic_root_ok && self.is_synthetic_fixture()
            && reference.0 % 0x1_0000_0000_0000 == self.frn[0] % 0x1_0000_0000_0000) {
            Ok(())
        } else {
            Err(IndexMutationError::InvalidReference { reference })
        }
    }

    /// The live directory entries of an object.
    pub open spec fn directory_links(&self, frn: u64) -> Seq<u32> {
        selected(self.object_links(frn), is_directory(self.flag@))
    }

    /// The live directory entries of an object.
    pub(crate) fn directories_by_frn(&self, frn: Frn) -> (r: Vec<EntryId>)
        requires
            self.wf(),
        ensures
            r@ == self.directory_links(frn.0),
    {
        let all: Vec<EntryId> = self.entries_by_frn(frn);
        proof {
            self.lemma_object_links(frn.0);
        }
        let ghost pass = is_directory(self.flag@);
        let mut found: Vec<EntryId> = Vec::new();
        let mut i: usize = 0;
        while i < all.len()
            invariant
                i <= all@.len(),
                self.wf(),
                forall|k: int| 0 <= k < all@.len() ==> (#[trigger] all@[k]) < self.count(),
                pass == is_directory(self.flag@),
                found@ == selected(all@.take(i as int), pass),
            decreases all@.len() - i,
        {
            let id: EntryId = all[i];
            assert(all@.take(i + 1).drop_last() =~= all@.take(i as int));
            assert(all@.take(i + 1).last() == id);
            if self.is_dir(id) {
                found.push(id);
            }
            i = i + 1;
        }
        assert(all@.take(i as int) =~= all@);
        found
    }

    /// The walk up from `from` goes on at its `k`-th entry: that is not the
    /// moved directory and not the root, and is a live directory.
    pub open spec fn passes(&self, from: u32, moved: u32, k: nat) -> bool {
        let w = walk_up(self.parent@, from, k);
        w != moved && w != 0 && self.live_dir(w)
    }

    /// What decides at the `k`-th entry of the walk.
    pub open spec fn decides(&self, from: u32, moved: u32, k: nat, object: Frn) -> Result<
        (),
        IndexMutationError,
    > {
        let w = walk_up(self.parent@, from, k);
        if w == moved {
            Err(
                IndexMutationError::ParentCycle { object, parent: Frn(self.frn@[from as int]) },
            )
        } else if w == 0 {
            Ok(())
        } else if w >= self.count() || !self.live(w as int) {
            Err(IndexMutationError::InvalidTopology { reason: TopologyFault::ChainEscapes })
        } else {
            Err(IndexMutationError::InvalidTopology { reason: TopologyFault::ChainThroughFile })
        }
    }

    /// The walk up from `from` is decided at its `k`-th entry.
    pub open spec fn decided_at(&self, from: u32, moved: u32, k: nat) -> bool {
        &&& !self.passes(from, moved, k)
        &&& forall|j: nat| j < k ==> #[trigger] self.passes(from, moved, j)
    }

    /// Where the walk up from `from` is decided.
    pub open spec fn decision(&self, from: u32, moved: u32) -> nat {
        choose|k: nat| k <= self.count() && #[trigger] self.decided_at(from, moved, k)
    }

    /// What is found of putting an object below `parent`: it must not be the
    /// parent itself, nor, being a directory, one of its ancestors.
    pub open spec fn cycle_check(&self, object: Frn, parent: u32) -> Result<
        (),
        IndexMutationError,
    > {
        let dirs = self.directory_links(object.0);
        if record_of(object.0) == record_of(self.frn@[parent as int]) {
            Err(IndexMutationError::SelfParent { object })
        } else if dirs.len() > 1 {
            Err(IndexMutationError::InvalidTopology { reason: TopologyFault::SplitDirectory })
        } else if dirs.len() == 0 {
            Ok(())
        } else if exists|k: nat|
            k <= self.count() && #[trigger] self.decided_at(parent, dirs[0], k) {
            self.decides(parent, dirs[0], self.decision(parent, dirs[0]), object)
        } else {
            Err(IndexMutationError::InvalidTopology { reason: TopologyFault::ExistingCycle })
        }
    }

    /// Check that an object may be put below `parent`.
    pub(crate) fn ensure_parent_does_not_cycle(&self, object: Frn, parent: EntryId) -> (r: Result<
        (),
        IndexMutationError,
    >)
        requires
            self.wf(),
            parent < self.count(),
        ensures
            r == self.cycle_check(object, parent),
    {
        if object.0 % 0x1_0000_0000_0000 == self.frn[parent as usize] % 0x1_0000_0000_0000 {
            return Err(IndexMutationError::SelfParent { object });
        }
        let dirs: Vec<EntryId> = self.directories_by_frn(object);
        if dirs.len() > 1 {
            return Err(
                IndexMutationError::InvalidTopology { reason: TopologyFault::SplitDirectory },
            );
        }
        if dirs.len() == 0 {
            return Ok(());
        }
        let moved: EntryId = dirs[0];
        let n: usize = self.len();
        let mut current: EntryId = parent;
        let mut steps: usize = 0;
        while steps <= n
            invariant
                self.wf(),
                n == self.count(),
                parent < n,
                steps <= n + 1,
                n < 0xFFFF_FFFF,
                current == walk_up(self.parent@, parent, steps as nat),
                dirs@ == self.directory_links(object.0),
                dirs@.len() == 1,
                moved == dirs@[0],
                record_of(object.0) != record_of(self.frn@[parent as int]),
                forall|j: nat| j < steps ==> #[trigger] self.passes(parent, moved, j),
            decreases n + 1 - steps,
        {
            if current == moved || current == Self::ROOT || current == NO_PARENT || current as usize
                >= n || !self.is_live(current) || !self.is_dir(current) {
                proof {
                    assert(self.decided_at(parent, moved, steps as nat));
                    let k = self.decision(parent, moved);
                    assert(self.decided_at(parent, moved, k));
                    if k < steps {
                        assert(self.passes(parent, moved, k));
                    } else if steps < k {
                        assert(self.passes(parent, moved, steps as nat));
                    }
                }
                return if current == moved {
                    Err(
                        IndexMutationError::ParentCycle {
                            object,
                            parent: Frn(self.frn[parent as usize]),
                        },
                    )
                } else if current == Self::ROOT {
                    Ok(())
                } else if current == NO_PARENT || current as usize >= n || !self.is_live(current) {
                    Err(
                        IndexMutationError::InvalidTopology { reason: TopologyFault::ChainEscapes },
                    )
                } else {
                    Err(
                        IndexMutationError::InvalidTopology {
                            reason: TopologyFault::ChainThroughFile,
                        },
                    )
                };
            }
            assert(self.passes(parent, moved, steps as nat));
            current = self.parent[current as usize];
            steps = steps + 1;
        }
        proof {
            assert forall|k: nat| k <= self.count() implies !(#[trigger] self.decided_at(
                parent,
                moved,
                k,
            )) by {
                assert(self.passes(parent, moved, k));
            }
        }
        Err(IndexMutationError::InvalidTopology { reason: TopologyFault::ExistingCycle })
    }

    /// The parent directory that a reference names, before cycles are looked
    /// for.
    pub open spec fn named_parent(&self, object: Frn, parent: Frn) -> Result<
        u32,
        IndexMutationError,
    > {
        let dirs = self.directory_links(parent.0);
        if !self.reference_valid(object.0, false) {
            Err(IndexMutationError::InvalidReference { reference: object })
        } else if !self.reference_valid(parent.0, true) {
            Err(IndexMutationError::InvalidReference { reference: parent })
        } else if record_of(object.0) == record_of(parent.0) {
            Err(IndexMutationError::SelfParent { object })
        } else if dirs.len() > 1 {
            Err(IndexMutationError::AmbiguousParent { object, parent })
        } else if dirs.len() == 1 {
            Ok(dirs[0])
        } else if self.synthetic() && record_of(self.frn@[0]) == record_of(parent.0) {
            Ok(0)
        } else if self.object_links(parent.0).len() > 0 {
            Err(IndexMutationError::ParentNotDirectory { object, parent })
        } else {
            Err(IndexMutationError::UnresolvedParent { object, parent })
        }
    }

    /// The parent directory of a change.
    pub open spec fn resolved_parent(&self, object: Frn, parent: Frn) -> Result<
        u32,
        IndexMutationError,
    > {
        match self.named_parent(object, parent) {
            Ok(id) => match self.cycle_check(object, id) {
                Ok(_) => Ok(id),
                Err(e) => Err(e),
            },
            Err(e) => Err(e),
        }
    }

    /// Resolve the exact parent directory of a change.
    pub(crate) fn resolve_parent_for_mutation(&self, object: Frn, parent_reference: Frn) -> (r:
        Result<EntryId, IndexMutationError>)
        requires
            self.wf(),
            self.count() > 0,
        ensures
            r == self.resolved_parent(object, parent_reference),
            r matches Ok(id) ==> id < self.count(),
    {
        match self.validate_mutation_reference(object, false) {
            Ok(_) => {},
            Err(e) => {
                return Err(e);
            },
        }
        match self.validate_mutation_reference(parent_reference, true) {
            Ok(_) => {},
            Err(e) => {
                return Err(e);
            },
        }
        if object.0 % 0x1_0000_0000_0000 == parent_reference.0 % 0x1_0000_0000_0000 {
            return Err(IndexMutationError::SelfParent { object });
        }
        let links: Vec<EntryId> = self.entries_by_frn(parent_reference);
        let dirs: Vec<EntryId> = self.directories_by_frn(parent_reference);
        if dirs.len() > 1 {
            return Err(IndexMutationError::AmbiguousParent { object, parent: parent_reference });
        }
        let parent: EntryId = if dirs.len() == 1 {
            proof {
                self.lemma_object_links(parent_reference.0);
                lemma_selected(self.object_links(parent_reference.0), is_directory(self.flag@));
                assert(dirs@[0] == dirs@[0] as int);
                assert(occurs(dirs@, dirs@[0] as int));
                assert(occurs(self.object_links(parent_reference.0), dirs@[0] as int));
            }
            dirs[0]
        } else if self.is_synthetic_fixture() && self.frn[0] % 0x1_0000_0000_0000
            == parent_reference.0 % 0x1_0000_0000_0000 {
            Self::ROOT
        } else if links.len() > 0 {
            return Err(IndexMutationError::ParentNotDirectory { object, parent: parent_reference });
        } else {
            return Err(IndexMutationError::UnresolvedParent { object, parent: parent_reference });
        };
        match self.ensure_parent_does_not_cycle(object, parent) {
            Ok(_) => Ok(parent),
            Err(e) => Err(e),
        }
    }

    /// How many live entries an object has: all of the given kind, and, for a
    /// directory, at most one.
    pub open spec fn existing_links(&self, object: Frn, is_dir: bool) -> Result<
        usize,
        IndexMutationError,
    > {
        let links = self.object_links(object.0);
        if exists|i: int|
            0 <= i < links.len() && bit_set(self.flag@[(#[trigger] links[i]) as int], IS_DIR)
                != is_dir {
            Err(IndexMutationError::ObjectKind { object })
        } else if is_dir && links.len() > 1 {
            Err(IndexMutationError::InvalidTopology { reason: TopologyFault::SplitDirectory })
        } else {
            Ok(links.len() as usize)
        }
    }

    /// Check the kind of an object's live entries, and count them.
    pub(crate) fn validate_existing_object_kind(&self, object: Frn, is_dir: bool) -> (r: Result<
        usize,
        IndexMutationError,
    >)
        requires
            self.wf(),
        ensures
            r == self.existing_links(object, is_dir),
    {
        let ids: Vec<EntryId> = self.entries_by_frn(object);
        proof {
            self.lemma_object_links(object.0);
        }
        let mut i: usize = 0;
        while i < ids.len()
            invariant
                i <= ids@.len(),
                self.wf(),
                ids@ == self.object_links(object.0),
                forall|k: int| 0 <= k < ids@.len() ==> (#[trigger] ids@[k]) < self.count(),
                forall|k: int|
                    0 <= k < i ==> bit_set(self.flag@[(#[trigger] ids@[k]) as int], IS_DIR)
                        == is_dir,
            decreases ids@.len() - i,
        {
            if self.is_dir(ids[i]) != is_dir {
                assert(bit_set(self.flag@[ids@[i as int] as int], IS_DIR) != is_dir);
                return Err(IndexMutationError::ObjectKind { object });
            }
            i = i + 1;
        }
        if is_dir && ids.len() > 1 {
            return Err(
                IndexMutationError::InvalidTopology { reason: TopologyFault::SplitDirectory },
            );
        }
        Ok(ids.len())
    }
}

/// The entries that are directories.
pub open spec fn is_directory(flag: Seq<u8>) -> spec_fn(u32) -> bool {
    |id: u32| bit_set(flag[id as int], IS_DIR)
}

} // verus!
