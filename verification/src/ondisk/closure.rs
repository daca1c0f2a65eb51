//! The extents of a split stream, collected until they cover it.

use vstd::prelude::*;
use rustc_hash::FxHashMap;
use crate::hashed::{identity_map_get, identity_map_insert, identity_map_len, new_identity_map};
use crate::order::{reordered, same_items};
use super::attribute_list::{
    complete_runs_are_valid, coverage, covered_prefix, is_covered_prefix, logically_sorted,
    partial_runs_are_valid, runs_complete, runs_partial, ListEntry, StreamRun, MAX_LIST_ENTRIES,
};
use super::ntfs::NtfsAttributeType;

verus! {

/// Most passes over a growing prefix while its continuations are discovered.
pub const MAX_CLOSURE_PASSES: usize = 64;

/// Most bytes that those passes may read.
pub const MAX_CLOSURE_SCAN_BYTES: u64 = 0x400_0000;

/// What is to be done about one entry while extents are collected.
#[derive(Clone, Copy, Debug, PartialEq, Eq, Structural)]
pub enum Admission {
    /// The entry cannot belong to the list.
    Reject,
    /// The extent was collected before.
    Known,
    /// The extent is new.
    Decode,
}

/// An unnamed list extent with a target that has a sequence number.
pub open spec fn list_extent(entry: ListEntry) -> bool {
    &&& entry.type_id == NtfsAttributeType::AttributeList.spec_code()
    &&& entry.name_length == 0
    &&& entry.target_reference >= 0x1_0000_0000_0000
}

/// The attribute that an entry refers to.
pub open spec fn target_of(entry: ListEntry) -> (u64, u16) {
    (entry.target_reference, entry.id)
}

/// What an entry says of the attribute that it refers to.
pub open spec fn identity_of(entry: ListEntry) -> (u32, u8, u64) {
    (entry.type_id, entry.name_length, entry.starting_vcn)
}

/// The decision on an entry, given what was said of the attributes collected
/// so far.
pub open spec fn admission(seen: Map<(u64, u16), (u32, u8, u64)>, entry: ListEntry) -> Admission {
    if !list_extent(entry) {
        Admission::Reject
    } else if seen.contains_key(target_of(entry)) {
        if seen[target_of(entry)] == identity_of(entry) {
            Admission::Known
        } else {
            Admission::Reject
        }
    } else if seen.dom().len() == MAX_LIST_ENTRIES {
        Admission::Reject
    } else {
        Admission::Decode
    }
}

/// The extents collected so far of a stream whose continuations are being
/// discovered.
pub struct ExtentClosure {
    /// The runs of the collected extents.
    pub runs: Vec<StreamRun>,
    /// The size of the stream.
    pub data_size: u64,
    /// What the collected entries said of their attributes.
    pub seen: FxHashMap<(u64, u16), (u32, u8, u64)>,
    /// How long the prefix of the last pass was.
    pub scanned_prefix: u64,
    /// How many bytes the passes read.
    pub scanned_bytes: u64,
    /// How many passes were made.
    pub passes: usize,
}

/// The values of a collection of extents.
#[verifier::ext_equal]
pub struct Collected {
    /// The runs of the collected extents.
    pub runs: Seq<StreamRun>,
    /// What the collected entries said of their attributes.
    pub seen: Map<(u64, u16), (u32, u8, u64)>,
    /// How long the prefix of the last pass was.
    pub scanned_prefix: int,
    /// How many bytes the passes read.
    pub scanned_bytes: int,
    /// How many passes were made.
    pub passes: int,
}

/// The collection that holds the base extent alone.
pub open spec fn begun(runs: Seq<StreamRun>, base_extent: ListEntry) -> Collected {
    Collected {
        runs,
        seen: map![target_of(base_extent) => identity_of(base_extent)],
        scanned_prefix: 0,
        scanned_bytes: 0,
        passes: 0,
    }
}

/// How far the runs cover their stream from its start without a gap.
pub open spec fn covered_of(runs: Seq<StreamRun>) -> int {
    choose|covered: int| is_covered_prefix(runs, covered)
}

/// How many bytes of the stream the runs cover from its start without a gap.
pub open spec fn prefix_covered(runs: Seq<StreamRun>, data_size: int) -> int {
    let covered = covered_of(runs);
    if covered < data_size {
        covered
    } else {
        data_size
    }
}

/// What is next: nothing where the stream is covered; nothing more where the
/// last pass made no more of it readable, or where one more pass would exceed
/// what all passes may read; else a pass over the covered prefix.
pub open spec fn planned(c: Collected, data_size: int) -> NextPass {
    let prefix = prefix_covered(c.runs, data_size);
    if prefix == data_size {
        NextPass::Covered
    } else if prefix <= c.scanned_prefix || c.passes >= MAX_CLOSURE_PASSES || c.scanned_bytes
        + prefix > MAX_CLOSURE_SCAN_BYTES {
        NextPass::Stuck
    } else {
        NextPass::Read(prefix as u64)
    }
}

/// The collection once a pass over `prefix` bytes is counted.
pub open spec fn counted(c: Collected, prefix: u64) -> Collected {
    Collected { scanned_bytes: c.scanned_bytes + prefix, passes: c.passes + 1, ..c }
}

/// The collection after the first `n` entries of a pass, where `decoded[i]` is
/// what decoding the `i`-th entry gave; `None` where one of them was refused.
/// Only the answers on new extents count.
pub open spec fn taken(
    c: Collected,
    data_size: int,
    entries: Seq<ListEntry>,
    decoded: Seq<Option<Vec<StreamRun>>>,
    n: int,
) -> Option<Collected>
    decreases n,
{
    if n <= 0 {
        Some(c)
    } else {
        match taken(c, data_size, entries, decoded, n - 1) {
            None => None,
            Some(d) => match admission(d.seen, entries[n - 1]) {
                Admission::Reject => None,
                Admission::Known => Some(d),
                Admission::Decode => match decoded[n - 1] {
                    None => None,
                    Some(list) => if list@.len() > 0 && runs_partial(d.runs + list@, data_size) {
                        Some(
                            Collected {
                                runs: d.runs + list@,
                                seen: d.seen.insert(
                                    target_of(entries[n - 1]),
                                    identity_of(entries[n - 1]),
                                ),
                                ..d
                            },
                        )
                    } else {
                        None
                    },
                },
            },
        }
    }
}

/// The collection after a pass over `prefix` bytes, or `None` where the pass
/// fails: too many entries, a refused one, or none that is new.
pub open spec fn pass_taken(
    c: Collected,
    data_size: int,
    prefix: u64,
    entries: Seq<ListEntry>,
    decoded: Seq<Option<Vec<StreamRun>>>,
) -> Option<Collected> {
    if entries.len() > MAX_LIST_ENTRIES {
        None
    } else {
        match taken(c, data_size, entries, decoded, entries.len() as int) {
            None => None,
            Some(d) => if d.runs.len() > c.runs.len() {
                Some(Collected { scanned_prefix: prefix as int, ..d })
            } else {
                None
            },
        }
    }
}

/// The answers on entries before the `n`-th alone decide on these.
proof fn lemma_taken_agrees(
    c: Collected,
    data_size: int,
    entries: Seq<ListEntry>,
    a: Seq<Option<Vec<StreamRun>>>,
    b: Seq<Option<Vec<StreamRun>>>,
    n: int,
)
    requires
        forall|i: int| 0 <= i < n ==> #[trigger] a[i] == b[i],
    ensures
        taken(c, data_size, entries, a, n) == taken(c, data_size, entries, b, n),
    decreases n,
{
    if n > 0 {
        lemma_taken_agrees(c, data_size, entries, a, b, n - 1);
        assert(a[n - 1] == b[n - 1]);
    }
}

/// A pass that refused an entry takes none after it.
proof fn lemma_taken_stays_refused(
    c: Collected,
    data_size: int,
    entries: Seq<ListEntry>,
    decoded: Seq<Option<Vec<StreamRun>>>,
    n: int,
    m: int,
)
    requires
        0 <= n <= m,
        taken(c, data_size, entries, decoded, n) is None,
    ensures
        taken(c, data_size, entries, decoded, m) is None,
    decreases m - n,
{
    if n < m {
        lemma_taken_stays_refused(c, data_size, entries, decoded, n, m - 1);
    }
}

/// Two orders of runs by their stream offsets agree, since no two of the runs
/// start at one offset.
proof fn lemma_orders_agree(
    runs: Seq<StreamRun>,
    data_size: int,
    a: Seq<StreamRun>,
    b: Seq<StreamRun>,
    k: int,
)
    requires
        runs_partial(runs, data_size),
        same_items(runs, a),
        same_items(runs, b),
        logically_sorted(a),
        logically_sorted(b),
        0 <= k < runs.len(),
    ensures
        a[k] == b[k],
    decreases k,
{
    let (pa, qa): (Seq<int>, Seq<int>) = choose|p: Seq<int>, q: Seq<int>|
        reordered(runs, a, p, q);
    let (pb, qb): (Seq<int>, Seq<int>) = choose|p: Seq<int>, q: Seq<int>|
        reordered(runs, b, p, q);
    lemma_not_before(runs, data_size, a, b, pa, qa, pb, qb, k);
    lemma_not_before(runs, data_size, b, a, pb, qb, pa, qa, k);
    assert(a[k] == runs[pa[k]]);
    assert(b[k] == runs[pb[k]]);
    assert(a[k].logical == b[k].logical);
    let (i, j) = (pa[k], pb[k]);
    assert(super::attribute_list::run_allocated(runs[i]));
    assert(super::attribute_list::run_allocated(runs[j]));
    if i < j {
        assert(super::attribute_list::logically_apart(runs[i], runs[j]));
    } else if j < i {
        assert(super::attribute_list::logically_apart(runs[j], runs[i]));
    }
}

/// The `k`-th run of one order starts no later than that of another.
proof fn lemma_not_before(
    runs: Seq<StreamRun>,
    data_size: int,
    a: Seq<StreamRun>,
    b: Seq<StreamRun>,
    pa: Seq<int>,
    qa: Seq<int>,
    pb: Seq<int>,
    qb: Seq<int>,
    k: int,
)
    requires
        runs_partial(runs, data_size),
        reordered(runs, a, pa, qa),
        reordered(runs, b, pb, qb),
        same_items(runs, a),
        same_items(runs, b),
        logically_sorted(a),
        logically_sorted(b),
        0 <= k < runs.len(),
    ensures
        b[k].logical <= a[k].logical,
    decreases k, 0int,
{
    let m = qb[pa[k]];
    assert(a[k] == runs[pa[k]]);
    assert(pb[qb[pa[k]]] == pa[k]);
    assert(b[m] == runs[pb[m]]);
    assert(b[m] == a[k]);
    if m < k {
        lemma_orders_agree(runs, data_size, a, b, m);
        super::attribute_list::lemma_sorted_apart(runs, a, m, k);
    }
    assert(b[k].logical <= b[m].logical);
}

/// Runs cover one prefix of their stream.
pub proof fn lemma_covered_prefix_is_one(
    runs: Seq<StreamRun>,
    data_size: int,
    covered: int,
    other: int,
)
    requires
        runs_partial(runs, data_size),
        is_covered_prefix(runs, covered),
        is_covered_prefix(runs, other),
    ensures
        covered == other,
{
    let a = choose|o: Seq<StreamRun>| #[trigger]
        same_items(runs, o) && logically_sorted(o) && covered == coverage(o, 0, 0);
    let b = choose|o: Seq<StreamRun>| #[trigger]
        same_items(runs, o) && logically_sorted(o) && other == coverage(o, 0, 0);
    assert forall|k: int| 0 <= k < runs.len() implies a[k] == b[k] by {
        lemma_orders_agree(runs, data_size, a, b, k);
    }
    assert(a =~= b);
}

/// What is to be done next about a stream whose extents are collected.
#[derive(Clone, Copy, Debug, PartialEq, Eq, Structural)]
pub enum NextPass {
    /// The runs reach the end of the stream.
    Covered,
    /// No further pass can or may be made.
    Stuck,
    /// Read this many bytes of the prefix and look for continuations.
    Read(u64),
}

impl ExtentClosure {
    /// The values that the collection holds.
    pub open spec fn values(&self) -> Collected {
        Collected {
            runs: self.runs@,
            seen: self.seen@,
            scanned_prefix: self.scanned_prefix as int,
            scanned_bytes: self.scanned_bytes as int,
            passes: self.passes as int,
        }
    }

    /// The runs may belong to one list, and the counts are within the limits.
    pub open spec fn wf(&self) -> bool {
        &&& runs_partial(self.runs@, self.data_size as int)
        &&& self.passes <= MAX_CLOSURE_PASSES
        &&& self.scanned_bytes <= MAX_CLOSURE_SCAN_BYTES
    }

    /// Start from the runs of the base extent, or `None` if they cannot be the
    /// start of a list.
    pub fn begin(runs: Vec<StreamRun>, data_size: u64, base_extent: ListEntry) -> (r: Option<Self>)
        ensures
            r is Some <==> list_extent(base_extent) && runs_partial(runs@, data_size as int),
            r matches Some(c) ==> c.wf() && c.runs == runs && c.data_size == data_size && c.values()
                =~= begun(runs@, base_extent),
    {
        if base_extent.type_id != NtfsAttributeType::AttributeList.code() || base_extent.name_length
            != 0 || base_extent.target_reference < 0x1_0000_0000_0000 || !partial_runs_are_valid(
            runs.as_slice(),
            data_size,
        ) {
            return None;
        }
        let mut seen: FxHashMap<(u64, u16), (u32, u8, u64)> = new_identity_map();
        identity_map_insert(
            &mut seen,
            (base_extent.target_reference, base_extent.id),
            (base_extent.type_id, base_extent.name_length, base_extent.starting_vcn),
        );
        Some(
            ExtentClosure {
                runs,
                data_size,
                seen,
                scanned_prefix: 0,
                scanned_bytes: 0,
                passes: 0,
            },
        )
    }

    /// Plan the next pass over the prefix that the runs cover.
    pub fn next_pass(&mut self) -> (r: NextPass)
        requires
            old(self).wf(),
        ensures
            is_covered_prefix(old(self).runs@, covered_of(old(self).runs@)),
            r == planned(old(self).values(), old(self).data_size as int),
            final(self).values() =~= (match r {
                NextPass::Read(prefix) => counted(old(self).values(), prefix),
                _ => old(self).values(),
            }),
            final(self).wf(),
            final(self).runs == old(self).runs,
            final(self).data_size == old(self).data_size,
    {
        let covered: u64 = covered_prefix(self.runs.as_slice());
        proof {
            lemma_covered_prefix_is_one(
                self.runs@,
                self.data_size as int,
                covered as int,
                covered_of(self.runs@),
            );
        }
        let prefix: u64 = if covered < self.data_size {
            covered
        } else {
            self.data_size
        };
        if prefix == self.data_size {
            return NextPass::Covered;
        }
        if prefix <= self.scanned_prefix || self.passes == MAX_CLOSURE_PASSES || prefix
            > MAX_CLOSURE_SCAN_BYTES - self.scanned_bytes {
            return NextPass::Stuck;
        }
        self.passes = self.passes + 1;
        self.scanned_bytes = self.scanned_bytes + prefix;
        NextPass::Read(prefix)
    }

    /// Decide on one discovered entry, and note it where it is new.
    pub fn consider(&mut self, entry: ListEntry) -> (r: Admission)
        requires
            old(self).wf(),
        ensures
            r == admission(old(self).seen@, entry),
            final(self).seen@ == (if r == Admission::Decode {
                old(self).seen@.insert(target_of(entry), identity_of(entry))
            } else {
                old(self).seen@
            }),
            final(self).wf(),
            final(self).runs == old(self).runs,
            final(self).data_size == old(self).data_size,
            final(self).scanned_prefix == old(self).scanned_prefix,
            final(self).scanned_bytes == old(self).scanned_bytes,
            final(self).passes == old(self).passes,
    {
        if entry.type_id != NtfsAttributeType::AttributeList.code() || entry.name_length != 0
            || entry.target_reference < 0x1_0000_0000_0000 {
            return Admission::Reject;
        }
        let identity: (u32, u8, u64) = (entry.type_id, entry.name_length, entry.starting_vcn);
        let target: (u64, u16) = (entry.target_reference, entry.id);
        match identity_map_get(&self.seen, target) {
            Some(existing) => {
                if existing.0 == identity.0 && existing.1 == identity.1 && existing.2
                    == identity.2 {
                    Admission::Known
                } else {
                    Admission::Reject
                }
            },
            None => {
                if identity_map_len(&self.seen) == MAX_LIST_ENTRIES {
                    return Admission::Reject;
                }
                identity_map_insert(&mut self.seen, target, identity);
                Admission::Decode
            },
        }
    }

    /// Add the runs of a decoded extent; `false` when there are none, or when
    /// they cannot belong to the list.
    pub fn extend(&mut self, decoded: &Vec<StreamRun>) -> (ok: bool)
        requires
            old(self).wf(),
        ensures
            ok == (decoded@.len() > 0 && runs_partial(
                old(self).runs@ + decoded@,
                old(self).data_size as int,
            )),
            ok ==> final(self).wf() && final(self).runs@ == old(self).runs@ + decoded@,
            final(self).data_size == old(self).data_size,
            final(self).seen == old(self).seen,
            final(self).scanned_prefix == old(self).scanned_prefix,
            final(self).scanned_bytes == old(self).scanned_bytes,
            final(self).passes == old(self).passes,
    {
        if decoded.len() == 0 {
            return false;
        }
        let mut i: usize = 0;
        let ghost base = self.runs@;
        while i < decoded.len()
            invariant
                i <= decoded@.len(),
                self.runs@ == base + decoded@.take(i as int),
                self.data_size == old(self).data_size,
                self.seen == old(self).seen,
                self.scanned_prefix == old(self).scanned_prefix,
                self.scanned_bytes == old(self).scanned_bytes,
                self.passes == old(self).passes,
            decreases decoded@.len() - i,
        {
            self.runs.push(decoded[i]);
            i = i + 1;
            assert(self.runs@ =~= base + decoded@.take(i as int));
        }
        assert(decoded@.take(i as int) =~= decoded@);
        partial_runs_are_valid(self.runs.as_slice(), self.data_size)
    }

    /// Close a pass over `prefix` bytes that began with `known` runs; `false`
    /// when it added none.
    fn end_pass(&mut self, prefix: u64, known: usize) -> (ok: bool)
        requires
            old(self).wf(),
        ensures
            ok == (old(self).runs@.len() > known),
            final(self).values() =~= (Collected {
                scanned_prefix: prefix as int,
                ..old(self).values()
            }),
            final(self).wf(),
            final(self).runs == old(self).runs,
            final(self).data_size == old(self).data_size,
    {
        self.scanned_prefix = prefix;
        self.runs.len() > known
    }

    /// Take the entries that a pass over `prefix` bytes discovered, where
    /// `decoded[i]` is what decoding the `i`-th gave; `false` when the pass
    /// fails. The answers on extents collected before do not count.
    pub fn take_pass(
        &mut self,
        prefix: u64,
        entries: &[ListEntry],
        decoded: &[Option<Vec<StreamRun>>],
    ) -> (ok: bool)
        requires
            old(self).wf(),
            entries@.len() == decoded@.len(),
        ensures
            ok <==> pass_taken(
                old(self).values(),
                old(self).data_size as int,
                prefix,
                entries@,
                decoded@,
            ) is Some,
            ok ==> final(self).wf() && pass_taken(
                old(self).values(),
                old(self).data_size as int,
                prefix,
                entries@,
                decoded@,
            ) == Some(final(self).values()),
            final(self).data_size == old(self).data_size,
    {
        if entries.len() > MAX_LIST_ENTRIES {
            return false;
        }
        let known: usize = self.runs.len();
        let ghost start = self.values();
        let ghost size = self.data_size as int;
        let mut i: usize = 0;
        while i < entries.len()
            invariant
                i <= entries@.len(),
                entries@.len() == decoded@.len(),
                entries@.len() <= MAX_LIST_ENTRIES,
                start == old(self).values(),
                size == old(self).data_size,
                self.data_size == size,
                self.wf(),
                taken(start, size, entries@, decoded@, i as int) == Some(self.values()),
            decreases entries@.len() - i,
        {
            let ghost prior = self.values();
            let admitted: Admission = self.consider(entries[i]);
            let ok: bool = match admitted {
                Admission::Reject => false,
                Admission::Known => true,
                Admission::Decode => match &decoded[i] {
                    Some(list) => self.extend(list),
                    None => false,
                },
            };
            if !ok {
                proof {
                    lemma_taken_stays_refused(
                        start,
                        size,
                        entries@,
                        decoded@,
                        i + 1,
                        entries@.len() as int,
                    );
                }
                return false;
            }
            i = i + 1;
            assert(taken(start, size, entries@, decoded@, i as int) =~= Some(self.values()));
        }
        self.end_pass(prefix, known)
    }
}

/// Runs without a gap that reach the end of the stream cover it whole,
/// whatever order they are looked at in.
pub proof fn lemma_complete_is_covered(runs: Seq<StreamRun>, data_size: int, covered: int)
    requires
        runs_complete(runs, data_size),
        is_covered_prefix(runs, covered),
    ensures
        covered >= data_size,
{
    let o = choose|o: Seq<StreamRun>| #[trigger]
        same_items(runs, o) && logically_sorted(o) && covered == coverage(o, 0, 0);
    let (p, q): (Seq<int>, Seq<int>) = choose|p: Seq<int>, q: Seq<int>| reordered(runs, o, p, q);
    assert forall|k: int| 0 <= k < o.len() implies (#[trigger] o[k]).logical == (if k == 0 {
        0
    } else {
        o[k - 1].end()
    }) by {
        if o[k].logical != (if k == 0 {
            0
        } else {
            o[k - 1].end()
        }) {
            super::attribute_list::lemma_no_predecessor(runs, o, p, q, data_size, k);
        }
    }
    lemma_coverage_steps(runs, o, p, q, data_size, 0);
    let i = choose|i: int| 0 <= i < runs.len() && (#[trigger] runs[i]).end() >= data_size;
    assert(p[q[i]] == i);
    assert(o[q[i]] == runs[i]);
    let last = o.len() - 1;
    if q[i] < last {
        super::attribute_list::lemma_sorted_apart(runs, o, q[i], last);
    }
}

proof fn lemma_coverage_steps(
    runs: Seq<StreamRun>,
    o: Seq<StreamRun>,
    p: Seq<int>,
    q: Seq<int>,
    data_size: int,
    k: int,
)
    requires
        reordered(runs, o, p, q),
        runs_partial(runs, data_size),
        0 <= k <= o.len(),
        forall|j: int|
            0 <= j < o.len() ==> (#[trigger] o[j]).logical == (if j == 0 {
                0
            } else {
                o[j - 1].end()
            }),
    ensures
        coverage(
            o,
            k,
            if k == 0 {
                0
            } else {
                o[k - 1].end()
            },
        ) == o[o.len() - 1].end(),
    decreases o.len() - k,
{
    if k < o.len() {
        assert(o[k] == runs[p[k]]);
        assert(runs[p[k]].end() <= u64::MAX);
        lemma_coverage_steps(runs, o, p, q, data_size, k + 1);
    }
}

/// One pass: what `discover` gave, and what `decode` gave on each entry.
pub struct Pass {
    /// The entries of the prefix, or `None` where it could not be read.
    pub answer: Option<Vec<ListEntry>>,
    /// The runs of each entry; of those that were not asked for, anything.
    pub decoded: Seq<Option<Vec<StreamRun>>>,
}

/// `answer` is what `discover` gave for these runs and this prefix.
pub open spec fn discovered<D: Fn(&[StreamRun], u64) -> Option<Vec<ListEntry>>>(
    discover: D,
    runs: Seq<StreamRun>,
    prefix: u64,
    answer: Option<Vec<ListEntry>>,
) -> bool {
    exists|known: &[StreamRun]| #[trigger]
        call_ensures(discover, (known, prefix), answer) && known@ == runs
}

/// The `i`-th entry is reached and new, so that `decode` is asked for it.
pub open spec fn asked(
    c: Collected,
    data_size: int,
    entries: Seq<ListEntry>,
    decoded: Seq<Option<Vec<StreamRun>>>,
    i: int,
) -> bool {
    match taken(c, data_size, entries, decoded, i) {
        Some(d) => admission(d.seen, entries[i]) == Admission::Decode,
        None => false,
    }
}

/// What counts of `decoded` is what `decode` gave.
pub open spec fn decoded_by<E: Fn(ListEntry) -> Option<Vec<StreamRun>>>(
    decode: E,
    c: Collected,
    data_size: int,
    entries: Seq<ListEntry>,
    decoded: Seq<Option<Vec<StreamRun>>>,
) -> bool {
    forall|i: int|
        0 <= i < entries.len() && #[trigger] asked(c, data_size, entries, decoded, i)
            ==> call_ensures(decode, (entries[i],), decoded[i])
}

/// The pass is one that `discover` and `decode` make of a collection.
pub open spec fn pass_made<
    D: Fn(&[StreamRun], u64) -> Option<Vec<ListEntry>>,
    E: Fn(ListEntry) -> Option<Vec<StreamRun>>,
>(discover: D, decode: E, c: Collected, data_size: int, prefix: u64, pass: Pass) -> bool {
    &&& discovered(discover, c.runs, prefix, pass.answer)
    &&& pass.answer matches Some(entries) ==> {
        &&& pass.decoded.len() == entries@.len()
        &&& entries@.len() <= MAX_LIST_ENTRIES ==> decoded_by(
            decode,
            counted(c, prefix),
            data_size,
            entries@,
            pass.decoded,
        )
    }
}

/// The collection after a pass, or `None` where none can be made or it fails.
pub open spec fn after_pass(c: Collected, data_size: int, pass: Pass) -> Option<Collected> {
    match (planned(c, data_size), pass.answer) {
        (NextPass::Read(prefix), Some(entries)) => pass_taken(
            counted(c, prefix),
            data_size,
            prefix,
            entries@,
            pass.decoded,
        ),
        _ => None,
    }
}

/// The collection after the passes, or `None` where one of them failed.
pub open spec fn after_passes(c: Collected, data_size: int, passes: Seq<Pass>) -> Option<Collected>
    decreases passes.len(),
{
    if passes.len() == 0 {
        Some(c)
    } else {
        match after_passes(c, data_size, passes.drop_last()) {
            Some(d) => after_pass(d, data_size, passes.last()),
            None => None,
        }
    }
}

/// Each pass is planned on what the passes before it collected, reads the
/// prefix that is covered then, and is one that `discover` and `decode` make.
pub open spec fn passes_made<
    D: Fn(&[StreamRun], u64) -> Option<Vec<ListEntry>>,
    E: Fn(ListEntry) -> Option<Vec<StreamRun>>,
>(discover: D, decode: E, c: Collected, data_size: int, passes: Seq<Pass>) -> bool
    decreases passes.len(),
{
    passes.len() > 0 ==> {
        &&& passes_made(discover, decode, c, data_size, passes.drop_last())
        &&& match after_passes(c, data_size, passes.drop_last()) {
            Some(d) => match planned(d, data_size) {
                NextPass::Read(prefix) => pass_made(
                    discover,
                    decode,
                    d,
                    data_size,
                    prefix,
                    passes.last(),
                ),
                _ => false,
            },
            None => false,
        }
    }
}

/// `r` is what the passes come to: the collected runs where these cover the
/// stream and are complete, and `None` where a pass failed, where no further
/// one may be made, and where the base extent cannot be the start of a list.
pub open spec fn closes<
    D: Fn(&[StreamRun], u64) -> Option<Vec<ListEntry>>,
    E: Fn(ListEntry) -> Option<Vec<StreamRun>>,
>(
    runs: Seq<StreamRun>,
    data_size: int,
    base_extent: ListEntry,
    discover: D,
    decode: E,
    passes: Seq<Pass>,
    r: Option<Vec<StreamRun>>,
) -> bool {
    if !list_extent(base_extent) || !runs_partial(runs, data_size) {
        passes.len() == 0 && r is None
    } else {
        let c = begun(runs, base_extent);
        &&& passes_made(discover, decode, c, data_size, passes)
        &&& match after_passes(c, data_size, passes) {
            None => r is None,
            Some(d) => match planned(d, data_size) {
                NextPass::Covered => if runs_complete(d.runs, data_size) {
                    r matches Some(out) && out@ == d.runs
                } else {
                    r is None
                },
                NextPass::Stuck => r is None,
                NextPass::Read(_) => false,
            },
        }
    }
}

/// What the passes counted, as long as none failed.
proof fn lemma_passes_counted(c: Collected, data_size: int, passes: Seq<Pass>)
    requires
        c.scanned_prefix >= 0,
        c.scanned_bytes >= 0,
    ensures
        after_passes(c, data_size, passes) matches Some(d) ==> {
            &&& d.scanned_prefix >= 0
            &&& d.scanned_bytes >= 0
            &&& d.passes == c.passes + passes.len()
            &&& passes.len() > 0 ==> d.passes <= MAX_CLOSURE_PASSES && d.scanned_bytes
                <= MAX_CLOSURE_SCAN_BYTES
        },
    decreases passes.len(),
{
    if passes.len() > 0 {
        lemma_passes_counted(c, data_size, passes.drop_last());
        match after_passes(c, data_size, passes.drop_last()) {
            Some(d) => match (planned(d, data_size), passes.last().answer) {
                (NextPass::Read(prefix), Some(entries)) => {
                    lemma_taken_keeps_counts(
                        counted(d, prefix),
                        data_size,
                        entries@,
                        passes.last().decoded,
                        entries@.len() as int,
                    );
                },
                _ => {},
            },
            None => {},
        }
    }
}

/// The entries of a pass do not change what is counted of passes.
proof fn lemma_taken_keeps_counts(
    c: Collected,
    data_size: int,
    entries: Seq<ListEntry>,
    decoded: Seq<Option<Vec<StreamRun>>>,
    n: int,
)
    ensures
        taken(c, data_size, entries, decoded, n) matches Some(d) ==> d.passes == c.passes
            && d.scanned_bytes == c.scanned_bytes && d.scanned_prefix == c.scanned_prefix,
    decreases n,
{
    if n > 0 {
        lemma_taken_keeps_counts(c, data_size, entries, decoded, n - 1);
    }
}

/// However `discover` and `decode` answer, no stream takes more passes than
/// are allowed or has more bytes read by those that succeed, and where no pass
/// may be made at first the runs are refused unread.
pub proof fn lemma_closure_is_bounded<
    D: Fn(&[StreamRun], u64) -> Option<Vec<ListEntry>>,
    E: Fn(ListEntry) -> Option<Vec<StreamRun>>,
>(
    runs: Seq<StreamRun>,
    data_size: int,
    base_extent: ListEntry,
    discover: D,
    decode: E,
    passes: Seq<Pass>,
    r: Option<Vec<StreamRun>>,
)
    requires
        closes(runs, data_size, base_extent, discover, decode, passes, r),
    ensures
        passes.len() <= MAX_CLOSURE_PASSES,
        after_passes(begun(runs, base_extent), data_size, passes) matches Some(d)
            ==> d.scanned_bytes <= MAX_CLOSURE_SCAN_BYTES,
        planned(begun(runs, base_extent), data_size) == NextPass::Stuck ==> passes.len() == 0
            && r is None,
{
    let c = begun(runs, base_extent);
    lemma_passes_counted(c, data_size, passes);
    if passes.len() > 0 {
        lemma_passes_counted(c, data_size, passes.drop_last());
        lemma_first_is_planned(discover, decode, c, data_size, passes);
    }
}

/// The first of the passes is planned on the collection they start from.
proof fn lemma_first_is_planned<
    D: Fn(&[StreamRun], u64) -> Option<Vec<ListEntry>>,
    E: Fn(ListEntry) -> Option<Vec<StreamRun>>,
>(discover: D, decode: E, c: Collected, data_size: int, passes: Seq<Pass>)
    requires
        passes_made(discover, decode, c, data_size, passes),
        passes.len() > 0,
    ensures
        planned(c, data_size) is Read,
    decreases passes.len(),
{
    if passes.len() > 1 {
        lemma_first_is_planned(discover, decode, c, data_size, passes.drop_last());
    }
}

/// The run is one that `decode` gave for some entry.
pub open spec fn run_decoded<E: Fn(ListEntry) -> Option<Vec<StreamRun>>>(
    decode: E,
    run: StreamRun,
) -> bool {
    exists|entry: ListEntry, list: Vec<StreamRun>| #[trigger]
        call_ensures(decode, (entry,), Some(list)) && list@.contains(run)
}

/// A pass after others.
proof fn lemma_one_more_pass<
    D: Fn(&[StreamRun], u64) -> Option<Vec<ListEntry>>,
    E: Fn(ListEntry) -> Option<Vec<StreamRun>>,
>(
    discover: D,
    decode: E,
    c: Collected,
    data_size: int,
    passes: Seq<Pass>,
    d: Collected,
    pass: Pass,
)
    requires
        passes_made(discover, decode, c, data_size, passes),
        after_passes(c, data_size, passes) == Some(d),
        planned(d, data_size) matches NextPass::Read(prefix) && pass_made(
            discover,
            decode,
            d,
            data_size,
            prefix,
            pass,
        ),
    ensures
        passes_made(discover, decode, c, data_size, passes.push(pass)),
        after_passes(c, data_size, passes.push(pass)) == after_pass(d, data_size, pass),
{
    assert(passes.push(pass).drop_last() =~= passes);
    assert(passes.push(pass).last() == pass);
}

/// A pass that refuses its `i`-th entry is the last.
proof fn lemma_refused_pass<
    D: Fn(&[StreamRun], u64) -> Option<Vec<ListEntry>>,
    E: Fn(ListEntry) -> Option<Vec<StreamRun>>,
>(
    discover: D,
    decode: E,
    c: Collected,
    data_size: int,
    passes: Seq<Pass>,
    d: Collected,
    prefix: u64,
    entries: Vec<ListEntry>,
    decoded: Seq<Option<Vec<StreamRun>>>,
    i: int,
)
    requires
        passes_made(discover, decode, c, data_size, passes),
        after_passes(c, data_size, passes) == Some(d),
        planned(d, data_size) == NextPass::Read(prefix),
        discovered(discover, d.runs, prefix, Some(entries)),
        decoded.len() == entries@.len(),
        0 <= i < entries@.len() <= MAX_LIST_ENTRIES,
        taken(counted(d, prefix), data_size, entries@, decoded, i + 1) is None,
        forall|k: int|
            0 <= k <= i && #[trigger] asked(counted(d, prefix), data_size, entries@, decoded, k)
                ==> call_ensures(decode, (entries@[k],), decoded[k]),
    ensures
        passes_made(
            discover,
            decode,
            c,
            data_size,
            passes.push(Pass { answer: Some(entries), decoded }),
        ),
        after_passes(
            c,
            data_size,
            passes.push(Pass { answer: Some(entries), decoded }),
        ) is None,
{
    let begin = counted(d, prefix);
    let pass = Pass { answer: Some(entries), decoded };
    assert forall|k: int|
        0 <= k < entries@.len() && #[trigger] asked(
            begin,
            data_size,
            entries@,
            decoded,
            k,
        ) implies call_ensures(decode, (entries@[k],), decoded[k]) by {
        if k > i {
            lemma_taken_stays_refused(begin, data_size, entries@, decoded, i + 1, k);
        }
    }
    lemma_taken_stays_refused(
        begin,
        data_size,
        entries@,
        decoded,
        i + 1,
        entries@.len() as int,
    );
    lemma_one_more_pass(discover, decode, c, data_size, passes, d, pass);
}

/// Discover and decode every continuation extent needed to cover a logical
/// stream.
///
/// A newly readable prefix can itself reveal another continuation, so closure
/// is iterative; extents found again are decoded once. Any decode failure or
/// an iteration that cannot extend the prefix fails closed.
pub fn close_extent_runs<
    D: Fn(&[StreamRun], u64) -> Option<Vec<ListEntry>>,
    E: Fn(ListEntry) -> Option<Vec<StreamRun>>,
>(
    runs: Vec<StreamRun>,
    data_size: u64,
    base_extent: ListEntry,
    discover: D,
    decode: E,
) -> (r: Option<Vec<StreamRun>>)
    requires
        forall|known: &[StreamRun], prefix: u64| #[trigger]
            call_requires(discover, (known, prefix)),
        forall|entry: ListEntry| #[trigger] call_requires(decode, (entry,)),
    ensures
        exists|passes: Seq<Pass>|
            closes(runs@, data_size as int, base_extent, discover, decode, passes, r),
        !list_extent(base_extent) || !runs_partial(runs@, data_size as int) ==> r is None,
        list_extent(base_extent) && runs_complete(runs@, data_size as int) ==> r == Some(runs),
        r matches Some(out) ==> runs_complete(out@, data_size as int) && runs@.is_prefix_of(out@)
            && forall|i: int|
            runs@.len() <= i < out@.len() ==> run_decoded(decode, #[trigger] out@[i]),
{
    let ghost base = runs@;
    let ghost size = data_size as int;
    let ghost start = begun(runs@, base_extent);
    let ghost mut made: Seq<Pass> = seq![];
    let mut closure: ExtentClosure = match ExtentClosure::begin(runs, data_size, base_extent) {
        Some(closure) => closure,
        None => {
            assert(closes(base, size, base_extent, discover, decode, made, None));
            return None;
        },
    };
    loop
        invariant
            closure.wf(),
            closure.data_size == data_size,
            size == data_size,
            base == runs@,
            start == begun(base, base_extent),
            passes_made(discover, decode, start, size, made),
            after_passes(start, size, made) == Some(closure.values()),
            runs_complete(base, size) ==> closure.runs == runs,
            base.is_prefix_of(closure.runs@),
            list_extent(base_extent),
            runs_partial(base, size),
            forall|known: &[StreamRun], prefix: u64| #[trigger]
                call_requires(discover, (known, prefix)),
            forall|entry: ListEntry| #[trigger] call_requires(decode, (entry,)),
            forall|i: int|
                base.len() <= i < closure.runs@.len() ==> run_decoded(
                    decode,
                    #[trigger] closure.runs@[i],
                ),
        decreases MAX_CLOSURE_PASSES - closure.passes,
    {
        let ghost before = closure.values();
        let prefix_len: u64 = match closure.next_pass() {
            NextPass::Covered => {
                let r: Option<Vec<StreamRun>> = if complete_runs_are_valid(
                    closure.runs.as_slice(),
                    data_size,
                ) {
                    Some(closure.runs)
                } else {
                    None
                };
                assert(closes(base, size, base_extent, discover, decode, made, r));
                return r;
            },
            NextPass::Stuck => {
                proof {
                    if runs_complete(base, size) {
                        lemma_complete_is_covered(base, size, covered_of(base));
                    }
                    assert(closes(base, size, base_extent, discover, decode, made, None));
                }
                return None;
            },
            NextPass::Read(prefix_len) => prefix_len,
        };
        proof {
            if runs_complete(base, size) {
                lemma_complete_is_covered(base, size, covered_of(base));
            }
        }
        let ghost begin = counted(before, prefix_len);
        let found: Option<Vec<ListEntry>> = discover(closure.runs.as_slice(), prefix_len);
        assert(discovered(discover, before.runs, prefix_len, found));
        let entries: Vec<ListEntry> = match found {
            Some(entries) => entries,
            None => {
                proof {
                    let pass = Pass { answer: None, decoded: seq![] };
                    lemma_one_more_pass(discover, decode, start, size, made, before, pass);
                    assert(closes(base, size, base_extent, discover, decode, made.push(pass), None));
                }
                return None;
            },
        };
        let ghost mut answers: Seq<Option<Vec<StreamRun>>> = Seq::new(
            entries@.len(),
            |i: int| None,
        );
        if entries.len() > MAX_LIST_ENTRIES {
            proof {
                let pass = Pass { answer: Some(entries), decoded: answers };
                lemma_one_more_pass(discover, decode, start, size, made, before, pass);
                assert(closes(base, size, base_extent, discover, decode, made.push(pass), None));
            }
            return None;
        }
        let known_runs: usize = closure.runs.len();
        let passes: usize = closure.passes;
        let mut i: usize = 0;
        while i < entries.len()
            invariant
                i <= entries@.len(),
                entries@.len() <= MAX_LIST_ENTRIES,
                closure.wf(),
                closure.passes == passes,
                closure.data_size == data_size,
                size == data_size,
                base == runs@,
                start == begun(base, base_extent),
                list_extent(base_extent),
                runs_partial(base, size),
                !runs_complete(base, size),
                base.is_prefix_of(closure.runs@),
                passes_made(discover, decode, start, size, made),
                after_passes(start, size, made) == Some(before),
                planned(before, size) == NextPass::Read(prefix_len),
                begin == counted(before, prefix_len),
                discovered(discover, before.runs, prefix_len, Some(entries)),
                answers.len() == entries@.len(),
                taken(begin, size, entries@, answers, i as int) == Some(closure.values()),
                forall|k: int|
                    0 <= k < i && #[trigger] asked(begin, size, entries@, answers, k)
                        ==> call_ensures(decode, (entries@[k],), answers[k]),
                forall|entry: ListEntry| #[trigger] call_requires(decode, (entry,)),
                forall|i: int|
                    base.len() <= i < closure.runs@.len() ==> run_decoded(
                        decode,
                        #[trigger] closure.runs@[i],
                    ),
            decreases entries@.len() - i,
        {
            let entry: ListEntry = entries[i];
            let ghost prior = closure.values();
            match closure.consider(entry) {
                Admission::Reject => {
                    proof {
                        lemma_refused_pass(
                            discover,
                            decode,
                            start,
                            size,
                            made,
                            before,
                            prefix_len,
                            entries,
                            answers,
                            i as int,
                        );
                        assert(closes(
                            base,
                            size,
                            base_extent,
                            discover,
                            decode,
                            made.push(Pass { answer: Some(entries), decoded: answers }),
                            None,
                        ));
                    }
                    return None;
                },
                Admission::Known => {},
                Admission::Decode => {
                    let decoded: Option<Vec<StreamRun>> = decode(entry);
                    proof {
                        let grown = answers.update(i as int, decoded);
                        lemma_taken_agrees(begin, size, entries@, answers, grown, i as int);
                        assert forall|k: int|
                            0 <= k <= i && #[trigger] asked(
                                begin,
                                size,
                                entries@,
                                grown,
                                k,
                            ) implies call_ensures(decode, (entries@[k],), grown[k]) by {
                            if k < i {
                                lemma_taken_agrees(begin, size, entries@, answers, grown, k);
                                assert(asked(begin, size, entries@, answers, k));
                            }
                        }
                        answers = grown;
                    }
                    let ok: bool = match &decoded {
                        Some(list) => closure.extend(list),
                        None => false,
                    };
                    if !ok {
                        proof {
                            lemma_refused_pass(
                                discover,
                                decode,
                                start,
                                size,
                                made,
                                before,
                                prefix_len,
                                entries,
                                answers,
                                i as int,
                            );
                            assert(closes(
                                base,
                                size,
                                base_extent,
                                discover,
                                decode,
                                made.push(Pass { answer: Some(entries), decoded: answers }),
                                None,
                            ));
                        }
                        return None;
                    }
                    proof {
                        let list = decoded->0;
                        assert(call_ensures(decode, (entry,), Some(list)));
                        assert forall|k: int|
                            base.len() <= k < closure.runs@.len() implies run_decoded(
                            decode,
                            #[trigger] closure.runs@[k],
                        ) by {
                            if k < prior.runs.len() {
                                assert(closure.runs@[k] == prior.runs[k]);
                            } else {
                                assert(closure.runs@[k] == list@[k - prior.runs.len()]);
                                assert(list@.contains(closure.runs@[k]));
                            }
                        }
                    }
                },
            }
            i = i + 1;
            assert(taken(begin, size, entries@, answers, i as int) =~= Some(closure.values()));
        }
        let ghost pass = Pass { answer: Some(entries), decoded: answers };
        proof {
            lemma_one_more_pass(discover, decode, start, size, made, before, pass);
        }
        if !closure.end_pass(prefix_len, known_runs) {
            assert(closes(base, size, base_extent, discover, decode, made.push(pass), None));
            return None;
        }
        proof {
            made = made.push(pass);
            assert(after_passes(start, size, made) =~= Some(closure.values()));
        }
    }
}

} // verus!
