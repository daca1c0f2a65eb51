//! What the words of an error name, and in which order.

use vstd::prelude::*;
use crate::diag::served_fields;
use crate::engine::EngineError;
use crate::index::builder::IndexBuildError;
use crate::index::topology::IndexMutationError;
use crate::index::PathBuildError;
use crate::messages::frn_text;
use crate::metrics::QueryTrace;
use crate::text::{decimal, lemma_decimal_reads, value_of};

verus! {

/// A text holds another.
pub open spec fn names(s: Seq<char>, a: Seq<char>) -> bool {
    exists|i: int|
        0 <= i && i + a.len() <= s.len() && #[trigger] s.subrange(i, i + a.len()) == a
}

/// A text holds one text and, behind it, another.
pub open spec fn names_in_order(s: Seq<char>, a: Seq<char>, b: Seq<char>) -> bool {
    exists|i: int, j: int|
        0 <= i && i + a.len() <= j && j + b.len() <= s.len() && #[trigger] s.subrange(
            i,
            i + a.len(),
        ) == a && #[trigger] s.subrange(j, j + b.len()) == b
}

proof fn lemma_names(s: Seq<char>, x: Seq<char>, a: Seq<char>, z: Seq<char>)
    requires
        s =~= x + a + z,
    ensures
        names(s, a),
{
    let i = x.len() as int;
    assert(s.subrange(i, i + a.len()) =~= a);
}

proof fn lemma_names_in_order(
    s: Seq<char>,
    x: Seq<char>,
    a: Seq<char>,
    y: Seq<char>,
    b: Seq<char>,
    z: Seq<char>,
)
    requires
        s =~= x + a + y + b + z,
    ensures
        names_in_order(s, a, b),
{
    let i = x.len() as int;
    let j = i + a.len() + y.len();
    assert(s.subrange(i, i + a.len()) =~= a);
    assert(s.subrange(j, j + b.len()) =~= b);
}

/// The words for a reference hold its number in decimal digits.
pub proof fn lemma_reference_named(frn: u64)
    ensures
        names(frn_text(frn), decimal(frn as nat)),
        value_of(decimal(frn as nat)) == frn,
{
    lemma_names(frn_text(frn), "Frn("@, decimal(frn as nat), ")"@);
    lemma_decimal_reads(frn as nat);
}

/// The words for a refused change name the object, and the parent behind it
/// where one is at fault.
pub proof fn lemma_mutation_names(e: IndexMutationError)
    ensures
        e matches IndexMutationError::UnresolvedParent { object, parent } ==> names_in_order(
            e.text(),
            frn_text(object.0),
            frn_text(parent.0),
        ),
        e matches IndexMutationError::ParentNotDirectory { object, parent } ==> names_in_order(
            e.text(),
            frn_text(object.0),
            frn_text(parent.0),
        ),
        e matches IndexMutationError::AmbiguousParent { object, parent } ==> names_in_order(
            e.text(),
            frn_text(object.0),
            frn_text(parent.0),
        ),
        e matches IndexMutationError::ParentCycle { object, parent } ==> names_in_order(
            e.text(),
            frn_text(object.0),
            frn_text(parent.0),
        ),
        e matches IndexMutationError::InvalidReference { reference } ==> names(
            e.text(),
            frn_text(reference.0),
        ),
        e matches IndexMutationError::SelfParent { object } ==> names(e.text(), frn_text(object.0)),
        e matches IndexMutationError::EmptyName { object } ==> names(e.text(), frn_text(object.0)),
        e matches IndexMutationError::ObjectKind { object } ==> names(e.text(), frn_text(object.0)),
        e matches IndexMutationError::DuplicateLink { object } ==> names(
            e.text(),
            frn_text(object.0),
        ),
        e matches IndexMutationError::EmptyLinkSnapshot { object } ==> names(
            e.text(),
            frn_text(object.0),
        ),
        e matches IndexMutationError::InconsistentLinkMetadata { object } ==> names(
            e.text(),
            frn_text(object.0),
        ),
        e matches IndexMutationError::InvalidTopology { reason } ==> names(e.text(), reason.text()),
{
    let none = Seq::<char>::empty();
    match e {
        IndexMutationError::UnresolvedParent { object, parent } => {
            lemma_names_in_order(
                e.text(),
                "object "@,
                frn_text(object.0),
                " references missing/stale parent "@,
                frn_text(parent.0),
                none,
            );
        },
        IndexMutationError::ParentNotDirectory { object, parent } => {
            lemma_names_in_order(
                e.text(),
                "object "@,
                frn_text(object.0),
                " references non-directory parent "@,
                frn_text(parent.0),
                none,
            );
        },
        IndexMutationError::AmbiguousParent { object, parent } => {
            lemma_names_in_order(
                e.text(),
                "object "@,
                frn_text(object.0),
                " has ambiguous exact parent "@,
                frn_text(parent.0),
                none,
            );
        },
        IndexMutationError::ParentCycle { object, parent } => {
            lemma_names_in_order(
                e.text(),
                "moving object "@,
                frn_text(object.0),
                " below "@,
                frn_text(parent.0),
                " would create a parent cycle"@,
            );
        },
        IndexMutationError::InvalidReference { reference } => {
            lemma_names(
                e.text(),
                "USN mutation carries sequence-zero reference "@,
                frn_text(reference.0),
                none,
            );
        },
        IndexMutationError::SelfParent { object } => {
            lemma_names(e.text(), "object "@, frn_text(object.0), " names itself as parent"@);
        },
        IndexMutationError::EmptyName { object } => {
            lemma_names(
                e.text(),
                "USN mutation for "@,
                frn_text(object.0),
                " supplied an empty filename"@,
            );
        },
        IndexMutationError::ObjectKind { object } => {
            lemma_names(
                e.text(),
                "USN mutation for "@,
                frn_text(object.0),
                " has an incompatible object kind"@,
            );
        },
        IndexMutationError::DuplicateLink { object } => {
            lemma_names(
                e.text(),
                "authoritative link snapshot for "@,
                frn_text(object.0),
                " contains a duplicate path"@,
            );
        },
        IndexMutationError::EmptyLinkSnapshot { object } => {
            lemma_names(
                e.text(),
                "authoritative link snapshot for "@,
                frn_text(object.0),
                " is empty"@,
            );
        },
        IndexMutationError::InconsistentLinkMetadata { object } => {
            lemma_names(
                e.text(),
                "authoritative link snapshot for "@,
                frn_text(object.0),
                " has inconsistent object metadata"@,
            );
        },
        IndexMutationError::InvalidTopology { reason } => {
            lemma_names(e.text(), "live index topology is invalid: "@, reason.text(), none);
        },
    }
}

/// The words for a failed build name the entry's object, and its parent behind
/// it where that is at fault.
pub proof fn lemma_build_names(e: IndexBuildError)
    ensures
        e matches IndexBuildError::SelfParent { child, parent, .. } ==> names_in_order(
            e.text(),
            frn_text(child.0),
            frn_text(parent.0),
        ),
        e matches IndexBuildError::UnresolvedParent { child, parent, .. } ==> names_in_order(
            e.text(),
            frn_text(child.0),
            frn_text(parent.0),
        ),
        e matches IndexBuildError::ParentNotDirectory { child, parent, .. } ==> names_in_order(
            e.text(),
            frn_text(child.0),
            frn_text(parent.0),
        ),
        e matches IndexBuildError::AmbiguousParent { child, parent, .. } ==> names_in_order(
            e.text(),
            frn_text(child.0),
            frn_text(parent.0),
        ),
        e matches IndexBuildError::InvalidObjectReference { entry, object } ==> names_in_order(
            e.text(),
            decimal(entry as nat),
            frn_text(object.0),
        ),
        e matches IndexBuildError::ParentCycle { entry, object } ==> names_in_order(
            e.text(),
            decimal(entry as nat),
            frn_text(object.0),
        ),
        e matches IndexBuildError::DuplicateLink { object } ==> names(e.text(), frn_text(object.0)),
        e matches IndexBuildError::InvalidRootReference { root } ==> names(
            e.text(),
            frn_text(root.0),
        ),
{
    let none = Seq::<char>::empty();
    match e {
        IndexBuildError::SelfParent { entry, child, parent } => {
            lemma_names_in_order(
                e.text(),
                "entry "@ + decimal(entry as nat) + " ("@,
                frn_text(child.0),
                ") names itself as parent "@,
                frn_text(parent.0),
                none,
            );
        },
        IndexBuildError::UnresolvedParent { entry, child, parent } => {
            lemma_names_in_order(
                e.text(),
                "entry "@ + decimal(entry as nat) + " ("@,
                frn_text(child.0),
                ") has unresolved exact parent "@,
                frn_text(parent.0),
                none,
            );
        },
        IndexBuildError::ParentNotDirectory { entry, child, parent } => {
            lemma_names_in_order(
                e.text(),
                "entry "@ + decimal(entry as nat) + " ("@,
                frn_text(child.0),
                ") references non-directory parent "@,
                frn_text(parent.0),
                none,
            );
        },
        IndexBuildError::AmbiguousParent { entry, child, parent } => {
            lemma_names_in_order(
                e.text(),
                "entry "@ + decimal(entry as nat) + " ("@,
                frn_text(child.0),
                ") has ambiguous exact parent "@,
                frn_text(parent.0),
                none,
            );
        },
        IndexBuildError::InvalidObjectReference { entry, object } => {
            lemma_names_in_order(
                e.text(),
                "entry "@,
                decimal(entry as nat),
                " has an invalid sequence-zero object reference "@,
                frn_text(object.0),
                none,
            );
        },
        IndexBuildError::ParentCycle { entry, object } => {
            lemma_names_in_order(
                e.text(),
                "parent graph contains a cycle reachable from entry "@,
                decimal(entry as nat),
                " ("@,
                frn_text(object.0),
                ")"@,
            );
        },
        IndexBuildError::DuplicateLink { object } => {
            lemma_names(
                e.text(),
                "duplicate exact hard-link identity exists for object "@,
                frn_text(object.0),
                none,
            );
        },
        IndexBuildError::InvalidRootReference { root } => {
            lemma_names(
                e.text(),
                "invalid exact NTFS root reference "@,
                frn_text(root.0),
                "; expected record 5 with a non-zero sequence"@,
            );
        },
        IndexBuildError::AmbiguousObjectIdentity => {},
    }
}

/// The words for a refused query or page name what was asked for, and behind
/// it what is accepted.
pub proof fn lemma_refusal_names(e: EngineError)
    ensures
        e matches EngineError::QueryTooLong { actual, maximum } ==> names_in_order(
            e.text(),
            decimal(actual as nat),
            decimal(maximum as nat),
        ),
        e matches EngineError::PageTooLarge { requested, maximum } ==> names_in_order(
            e.text(),
            decimal(requested as nat),
            decimal(maximum as nat),
        ),
        e matches EngineError::Path(fault) ==> names(e.text(), fault.text()),
        e matches EngineError::Parse(cause) ==> names(e.text(), cause@),
        e matches EngineError::Compile(cause) ==> names(e.text(), cause@),
        e matches EngineError::PageEncoding(what) ==> names(e.text(), what@),
{
    let none = Seq::<char>::empty();
    match e {
        EngineError::QueryTooLong { actual, maximum } => {
            lemma_names_in_order(
                e.text(),
                "query is "@,
                decimal(actual as nat),
                " bytes, at most "@,
                decimal(maximum as nat),
                " are accepted"@,
            );
        },
        EngineError::PageTooLarge { requested, maximum } => {
            lemma_names_in_order(
                e.text(),
                "page of "@,
                decimal(requested as nat),
                " rows, at most "@,
                decimal(maximum as nat),
                " are served"@,
            );
        },
        EngineError::Path(fault) => {
            lemma_names(e.text(), "row path: "@, fault.text(), none);
        },
        EngineError::Parse(cause) => {
            lemma_names(e.text(), "query parse: "@, cause@, none);
        },
        EngineError::Compile(cause) => {
            lemma_names(e.text(), "query compile: "@, cause@, none);
        },
        EngineError::PageEncoding(what) => {
            lemma_names(e.text(), "page encoding: "@, what@, none);
        },
        EngineError::Stale => {},
        EngineError::Cancelled => {},
    }
}

/// The words for a path that is too long name its length, and behind it the
/// longest that is built; every path error names its entry.
pub proof fn lemma_path_names(e: PathBuildError)
    ensures
        e matches PathBuildError::PathTooLong { bytes, maximum, .. } ==> names_in_order(
            e.text(),
            decimal(bytes as nat),
            decimal(maximum as nat),
        ),
        e matches PathBuildError::PathTooLong { entry, bytes, .. } ==> names_in_order(
            e.text(),
            decimal(entry as nat),
            decimal(bytes as nat),
        ),
        e matches PathBuildError::EntryOutOfRange { entry, entries } ==> names_in_order(
            e.text(),
            decimal(entry as nat),
            decimal(entries as nat),
        ),
        e matches PathBuildError::ParentCycle { entry } ==> names(
            e.text(),
            decimal(entry as nat),
        ),
{
    let none = Seq::<char>::empty();
    match e {
        PathBuildError::PathTooLong { entry, bytes, maximum } => {
            lemma_names_in_order(
                e.text(),
                "the path of entry "@ + decimal(entry as nat) + " takes "@,
                decimal(bytes as nat),
                " bytes, at most "@,
                decimal(maximum as nat),
                " are built"@,
            );
            lemma_names_in_order(
                e.text(),
                "the path of entry "@,
                decimal(entry as nat),
                " takes "@,
                decimal(bytes as nat),
                " bytes, at most "@ + decimal(maximum as nat) + " are built"@,
            );
        },
        PathBuildError::EntryOutOfRange { entry, entries } => {
            lemma_names_in_order(
                e.text(),
                "entry "@,
                decimal(entry as nat),
                " is not one of "@,
                decimal(entries as nat),
                none,
            );
        },
        PathBuildError::ParentCycle { entry } => {
            lemma_names(
                e.text(),
                "the parents of entry "@,
                decimal(entry as nat),
                " form a cycle"@,
            );
        },
        PathBuildError::ParentOutOfRange { .. } => {},
    }
}

/// The line of a served query names its number, its hits and its duration,
/// each under its key.
pub proof fn lemma_served_names(rid: u64, trace: QueryTrace)
    ensures
        names(served_fields(rid, trace), " rid="@ + decimal(rid as nat)),
        names(served_fields(rid, trace), " hits="@ + decimal(trace.hits as nat)),
        names(served_fields(rid, trace), " qlen="@ + decimal(trace.query@.len())),
        names(served_fields(rid, trace), " dur_us="@ + decimal(trace.total_us as nat)),
        names(served_fields(rid, trace), " volumes="@ + decimal(trace.volumes as nat)),
{
    reveal_strlit("rid");
    reveal_strlit("hits");
    reveal_strlit("qlen");
    reveal_strlit("dur_us");
    reveal_strlit("volumes");
    reveal_strlit(" rid=");
    reveal_strlit(" hits=");
    reveal_strlit(" qlen=");
    reveal_strlit(" dur_us=");
    reveal_strlit(" volumes=");
    let s = served_fields(rid, trace);
    let none = Seq::<char>::empty();
    let a = " rid="@ + decimal(rid as nat);
    let b = " hits="@ + decimal(trace.hits as nat);
    let c = " qlen="@ + decimal(trace.query@.len());
    let d = " dur_us="@ + decimal(trace.total_us as nat);
    let e = " volumes="@ + decimal(trace.volumes as nat);
    assert(seq![' '] + "rid"@ + seq!['='] =~= " rid="@);
    assert(seq![' '] + "hits"@ + seq!['='] =~= " hits="@);
    assert(seq![' '] + "qlen"@ + seq!['='] =~= " qlen="@);
    assert(seq![' '] + "dur_us"@ + seq!['='] =~= " dur_us="@);
    assert(seq![' '] + "volumes"@ + seq!['='] =~= " volumes="@);
    let f = crate::diag::logfmt::field("driver"@, trace.driver@);
    let g = crate::diag::logfmt::field("cache"@, trace.cache@);
    assert(s == a + b + c + d + e + f + g);
    lemma_names(s, none, a, b + c + d + e + f + g);
    lemma_names(s, a, b, c + d + e + f + g);
    lemma_names(s, a + b, c, d + e + f + g);
    lemma_names(s, a + b + c, d, e + f + g);
    lemma_names(s, a + b + c + d, e, f + g);
}

} // verus!
