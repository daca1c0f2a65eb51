//! Errors in words.

use vstd::prelude::*;
use crate::engine::worker::UsnError;
use crate::engine::{EngineCreateError, EngineError};
use crate::index::builder::IndexBuildError;
use crate::index::snapshot::SnapshotError;
use crate::index::topology::{IndexMutationError, TopologyFault};
use crate::index::{Frn, PathBuildError};
use crate::mft::{IncompleteCause, IncompleteObject, MftError};
use crate::ondisk::ntfs::NtfsError;
use crate::text::{decimal, push_decimal};

verus! {

/// A reference as it is written out.
pub open spec fn frn_text(frn: u64) -> Seq<char> {
    "Frn("@ + decimal(frn as nat) + ")"@
}

fn push_frn(out: &mut String, frn: Frn)
    ensures
        final(out)@ == old(out)@ + frn_text(frn.0),
{
    let ghost start = out@;
    out.append("Frn(");
    push_decimal(out, frn.0);
    out.append(")");
    assert(out@ =~= start + frn_text(frn.0));
}


impl TopologyFault {
    /// What is wrong.
    pub open spec fn text(&self) -> Seq<char> {
        match self {
            TopologyFault::Root => "the root is missing, dead, non-directory, or parented"@,
            TopologyFault::AmbiguousObjects => "record generations or object kinds are ambiguous"@,
            TopologyFault::RepeatedLink => "an exact hard-link identity occurs more than once"@,
            TopologyFault::MissingParent => "a live entry lacks one live directory parent"@,
            TopologyFault::Cycle => "the live parent graph contains a cycle"@,
            TopologyFault::SplitDirectory => "one directory object has multiple live rows"@,
            TopologyFault::ChainEscapes => "a live parent chain escapes the live index"@,
            TopologyFault::ChainThroughFile => "a parent chain traverses a non-directory row"@,
            TopologyFault::ExistingCycle => "the existing live parent graph contains a cycle"@,
            TopologyFault::SiblingLinks => "object-level replacement would discard sibling hard links"@,
            TopologyFault::Vanished => "validated directory identity disappeared during mutation"@,
        }
    }

    /// What is wrong.
    pub fn message(&self) -> (r: String)
        ensures
            r@ == self.text(),
    {
        match self {
            TopologyFault::Root => String::from_str("the root is missing, dead, non-directory, or parented"),
            TopologyFault::AmbiguousObjects => String::from_str("record generations or object kinds are ambiguous"),
            TopologyFault::RepeatedLink => String::from_str("an exact hard-link identity occurs more than once"),
            TopologyFault::MissingParent => String::from_str("a live entry lacks one live directory parent"),
            TopologyFault::Cycle => String::from_str("the live parent graph contains a cycle"),
            TopologyFault::SplitDirectory => String::from_str("one directory object has multiple live rows"),
            TopologyFault::ChainEscapes => String::from_str("a live parent chain escapes the live index"),
            TopologyFault::ChainThroughFile => String::from_str("a parent chain traverses a non-directory row"),
            TopologyFault::ExistingCycle => String::from_str("the existing live parent graph contains a cycle"),
            TopologyFault::SiblingLinks => String::from_str("object-level replacement would discard sibling hard links"),
            TopologyFault::Vanished => String::from_str("validated directory identity disappeared during mutation"),
        }
    }
}


impl IndexMutationError {
    /// The change that was refused, in words.
    pub open spec fn text(&self) -> Seq<char> {
        match self {
            IndexMutationError::InvalidReference { reference } => "USN mutation carries sequence-zero reference "@ + frn_text(reference.0),
            IndexMutationError::UnresolvedParent { object, parent } => "object "@ + frn_text(object.0) + " references missing/stale parent "@ + frn_text(parent.0),
            IndexMutationError::ParentNotDirectory { object, parent } => "object "@ + frn_text(object.0) + " references non-directory parent "@ + frn_text(parent.0),
            IndexMutationError::AmbiguousParent { object, parent } => "object "@ + frn_text(object.0) + " has ambiguous exact parent "@ + frn_text(parent.0),
            IndexMutationError::SelfParent { object } => "object "@ + frn_text(object.0) + " names itself as parent"@,
            IndexMutationError::ParentCycle { object, parent } => "moving object "@ + frn_text(object.0) + " below "@ + frn_text(parent.0) + " would create a parent cycle"@,
            IndexMutationError::InvalidTopology { reason } => "live index topology is invalid: "@ + reason.text(),
            IndexMutationError::EmptyLinkSnapshot { object } => "authoritative link snapshot for "@ + frn_text(object.0) + " is empty"@,
            IndexMutationError::DuplicateLink { object } => "authoritative link snapshot for "@ + frn_text(object.0) + " contains a duplicate path"@,
            IndexMutationError::InconsistentLinkMetadata { object } => "authoritative link snapshot for "@ + frn_text(object.0) + " has inconsistent object metadata"@,
            IndexMutationError::EmptyName { object } => "USN mutation for "@ + frn_text(object.0) + " supplied an empty filename"@,
            IndexMutationError::ObjectKind { object } => "USN mutation for "@ + frn_text(object.0) + " has an incompatible object kind"@,
        }
    }

    /// The change that was refused, in words.
    pub fn message(&self) -> (r: String)
        ensures
            r@ == self.text(),
    {
        match self {
            IndexMutationError::InvalidReference { reference } => {
                let mut s: String = String::from_str("USN mutation carries sequence-zero reference ");
                push_frn(&mut s, *reference);
                s
            },
            IndexMutationError::UnresolvedParent { object, parent } => {
                let mut s: String = String::from_str("object ");
                push_frn(&mut s, *object);
                s.append(" references missing/stale parent ");
                push_frn(&mut s, *parent);
                s
            },
            IndexMutationError::ParentNotDirectory { object, parent } => {
                let mut s: String = String::from_str("object ");
                push_frn(&mut s, *object);
                s.append(" references non-directory parent ");
                push_frn(&mut s, *parent);
                s
            },
            IndexMutationError::AmbiguousParent { object, parent } => {
                let mut s: String = String::from_str("object ");
                push_frn(&mut s, *object);
                s.append(" has ambiguous exact parent ");
                push_frn(&mut s, *parent);
                s
            },
            IndexMutationError::SelfParent { object } => {
                let mut s: String = String::from_str("object ");
                push_frn(&mut s, *object);
                s.append(" names itself as parent");
                s
            },
            IndexMutationError::ParentCycle { object, parent } => {
                let mut s: String = String::from_str("moving object ");
                push_frn(&mut s, *object);
                s.append(" below ");
                push_frn(&mut s, *parent);
                s.append(" would create a parent cycle");
                s
            },
            IndexMutationError::InvalidTopology { reason } => {
                let mut s: String = String::from_str("live index topology is invalid: ");
                s.append(reason.message().as_str());
                s
            },
            IndexMutationError::EmptyLinkSnapshot { object } => {
                let mut s: String = String::from_str("authoritative link snapshot for ");
                push_frn(&mut s, *object);
                s.append(" is empty");
                s
            },
            IndexMutationError::DuplicateLink { object } => {
                let mut s: String = String::from_str("authoritative link snapshot for ");
                push_frn(&mut s, *object);
                s.append(" contains a duplicate path");
                s
            },
            IndexMutationError::InconsistentLinkMetadata { object } => {
                let mut s: String = String::from_str("authoritative link snapshot for ");
                push_frn(&mut s, *object);
                s.append(" has inconsistent object metadata");
                s
            },
            IndexMutationError::EmptyName { object } => {
                let mut s: String = String::from_str("USN mutation for ");
                push_frn(&mut s, *object);
                s.append(" supplied an empty filename");
                s
            },
            IndexMutationError::ObjectKind { object } => {
                let mut s: String = String::from_str("USN mutation for ");
                push_frn(&mut s, *object);
                s.append(" has an incompatible object kind");
                s
            },
        }
    }
}


impl IndexBuildError {
    /// The build that was refused, in words.
    pub open spec fn text(&self) -> Seq<char> {
        match self {
            IndexBuildError::InvalidRootReference { root } => "invalid exact NTFS root reference "@ + frn_text(root.0) + "; expected record 5 with a non-zero sequence"@,
            IndexBuildError::InvalidObjectReference { entry, object } => "entry "@ + decimal(entry as nat) + " has an invalid sequence-zero object reference "@ + frn_text(object.0),
            IndexBuildError::AmbiguousObjectIdentity => "live object rows do not form unambiguous NTFS generations"@,
            IndexBuildError::SelfParent { entry, child, parent } => "entry "@ + decimal(entry as nat) + " ("@ + frn_text(child.0) + ") names itself as parent "@ + frn_text(parent.0),
            IndexBuildError::UnresolvedParent { entry, child, parent } => "entry "@ + decimal(entry as nat) + " ("@ + frn_text(child.0) + ") has unresolved exact parent "@ + frn_text(parent.0),
            IndexBuildError::ParentNotDirectory { entry, child, parent } => "entry "@ + decimal(entry as nat) + " ("@ + frn_text(child.0) + ") references non-directory parent "@ + frn_text(parent.0),
            IndexBuildError::AmbiguousParent { entry, child, parent } => "entry "@ + decimal(entry as nat) + " ("@ + frn_text(child.0) + ") has ambiguous exact parent "@ + frn_text(parent.0),
            IndexBuildError::ParentCycle { entry, object } => "parent graph contains a cycle reachable from entry "@ + decimal(entry as nat) + " ("@ + frn_text(object.0) + ")"@,
            IndexBuildError::DuplicateLink { object } => "duplicate exact hard-link identity exists for object "@ + frn_text(object.0),
        }
    }

    /// The build that was refused, in words.
    pub fn message(&self) -> (r: String)
        ensures
            r@ == self.text(),
    {
        match self {
            IndexBuildError::InvalidRootReference { root } => {
                let mut s: String = String::from_str("invalid exact NTFS root reference ");
                push_frn(&mut s, *root);
                s.append("; expected record 5 with a non-zero sequence");
                s
            },
            IndexBuildError::InvalidObjectReference { entry, object } => {
                let mut s: String = String::from_str("entry ");
                push_decimal(&mut s, *entry as u64);
                s.append(" has an invalid sequence-zero object reference ");
                push_frn(&mut s, *object);
                s
            },
            IndexBuildError::AmbiguousObjectIdentity => String::from_str("live object rows do not form unambiguous NTFS generations"),
            IndexBuildError::SelfParent { entry, child, parent } => {
                let mut s: String = String::from_str("entry ");
                push_decimal(&mut s, *entry as u64);
                s.append(" (");
                push_frn(&mut s, *child);
                s.append(") names itself as parent ");
                push_frn(&mut s, *parent);
                s
            },
            IndexBuildError::UnresolvedParent { entry, child, parent } => {
                let mut s: String = String::from_str("entry ");
                push_decimal(&mut s, *entry as u64);
                s.append(" (");
                push_frn(&mut s, *child);
                s.append(") has unresolved exact parent ");
                push_frn(&mut s, *parent);
                s
            },
            IndexBuildError::ParentNotDirectory { entry, child, parent } => {
                let mut s: String = String::from_str("entry ");
                push_decimal(&mut s, *entry as u64);
                s.append(" (");
                push_frn(&mut s, *child);
                s.append(") references non-directory parent ");
                push_frn(&mut s, *parent);
                s
            },
            IndexBuildError::AmbiguousParent { entry, child, parent } => {
                let mut s: String = String::from_str("entry ");
                push_decimal(&mut s, *entry as u64);
                s.append(" (");
                push_frn(&mut s, *child);
                s.append(") has ambiguous exact parent ");
                push_frn(&mut s, *parent);
                s
            },
            IndexBuildError::ParentCycle { entry, object } => {
                let mut s: String = String::from_str("parent graph contains a cycle reachable from entry ");
                push_decimal(&mut s, *entry as u64);
                s.append(" (");
                push_frn(&mut s, *object);
                s.append(")");
                s
            },
            IndexBuildError::DuplicateLink { object } => {
                let mut s: String = String::from_str("duplicate exact hard-link identity exists for object ");
                push_frn(&mut s, *object);
                s
            },
        }
    }
}


impl SnapshotError {
    /// Why the bytes are no snapshot, in words.
    pub open spec fn text(&self) -> Seq<char> {
        match self {
            SnapshotError::Truncated => "failed to fill whole buffer"@,
            SnapshotError::BadMagic => "bad magic"@,
            SnapshotError::SectionTooLarge => "section length implausibly large"@,
            SnapshotError::SectionSize => "section size mismatch"@,
            SnapshotError::Checksum => "checksum mismatch"@,
            SnapshotError::ColumnLength => "column length mismatch"@,
            SnapshotError::DictSlice => "dict slice out of pool bounds"@,
            SnapshotError::NameId => "name_id out of dict bounds"@,
            SnapshotError::NameSlice => "name slice out of pool bounds"@,
            SnapshotError::OverflowLength => "size overflow length mismatch"@,
            SnapshotError::OverflowSentinel => "size overflow sentinel mismatch"@,
            SnapshotError::OverflowPair => "size overflow pair invalid"@,
            SnapshotError::ParentRange => "parent out of entry bounds"@,
            SnapshotError::Permutation => "name permutation invalid"@,
        }
    }

    /// Why the bytes are no snapshot, in words.
    pub fn message(&self) -> (r: String)
        ensures
            r@ == self.text(),
    {
        match self {
            SnapshotError::Truncated => String::from_str("failed to fill whole buffer"),
            SnapshotError::BadMagic => String::from_str("bad magic"),
            SnapshotError::SectionTooLarge => String::from_str("section length implausibly large"),
            SnapshotError::SectionSize => String::from_str("section size mismatch"),
            SnapshotError::Checksum => String::from_str("checksum mismatch"),
            SnapshotError::ColumnLength => String::from_str("column length mismatch"),
            SnapshotError::DictSlice => String::from_str("dict slice out of pool bounds"),
            SnapshotError::NameId => String::from_str("name_id out of dict bounds"),
            SnapshotError::NameSlice => String::from_str("name slice out of pool bounds"),
            SnapshotError::OverflowLength => String::from_str("size overflow length mismatch"),
            SnapshotError::OverflowSentinel => String::from_str("size overflow sentinel mismatch"),
            SnapshotError::OverflowPair => String::from_str("size overflow pair invalid"),
            SnapshotError::ParentRange => String::from_str("parent out of entry bounds"),
            SnapshotError::Permutation => String::from_str("name permutation invalid"),
        }
    }
}


impl NtfsError {
    /// What went wrong with the volume, in words.
    pub open spec fn text(&self) -> Seq<char> {
        match self {
            NtfsError::Elevation => "raw volume access requires an elevated service"@,
            NtfsError::Io(cause) => "NTFS I/O failed: "@ + cause@,
            NtfsError::MissingMftAttribute(name) => "missing required MFT attribute: "@ + name@,
            NtfsError::InvalidData(what) => "invalid NTFS data: "@ + what@,
        }
    }

    /// What went wrong with the volume, in words.
    pub fn message(&self) -> (r: String)
        ensures
            r@ == self.text(),
    {
        match self {
            NtfsError::Elevation => String::from_str("raw volume access requires an elevated service"),
            NtfsError::Io(cause) => {
                let mut s: String = String::from_str("NTFS I/O failed: ");
                s.append(cause.as_str());
                s
            },
            NtfsError::MissingMftAttribute(name) => {
                let mut s: String = String::from_str("missing required MFT attribute: ");
                s.append(name.as_str());
                s
            },
            NtfsError::InvalidData(what) => {
                let mut s: String = String::from_str("invalid NTFS data: ");
                s.append(what.as_str());
                s
            },
        }
    }
}


impl UsnError {
    /// The failed request, in words.
    pub open spec fn text(&self) -> Seq<char> {
        match self {
            UsnError::Fsctl(code) => "journal control request failed with code "@ + decimal(code as nat),
        }
    }

    /// The failed request, in words.
    pub fn message(&self) -> (r: String)
        ensures
            r@ == self.text(),
    {
        match self {
            UsnError::Fsctl(code) => {
                let mut s: String = String::from_str("journal control request failed with code ");
                push_decimal(&mut s, *code as u64);
                s
            },
        }
    }
}


impl IncompleteCause {
    /// What failed, in words.
    pub open spec fn text(&self) -> Seq<char> {
        match self {
            IncompleteCause::RecordUnreadable => "the base record could not be read from the volume"@,
            IncompleteCause::MalformedRecord => "the record failed signature/fixup/attribute validation"@,
            IncompleteCause::ReferenceMismatch => "the record belongs to a different object generation"@,
            IncompleteCause::AttributesMissing => "the record carries no usable attribute set"@,
            IncompleteCause::LinkRejected => "a resolved link did not fit the batch"@,
            IncompleteCause::LinkSetUnavailable => "no authoritative hard-link set is available"@,
        }
    }

    /// What failed, in words.
    pub fn message(&self) -> (r: String)
        ensures
            r@ == self.text(),
    {
        match self {
            IncompleteCause::RecordUnreadable => String::from_str("the base record could not be read from the volume"),
            IncompleteCause::MalformedRecord => String::from_str("the record failed signature/fixup/attribute validation"),
            IncompleteCause::ReferenceMismatch => String::from_str("the record belongs to a different object generation"),
            IncompleteCause::AttributesMissing => String::from_str("the record carries no usable attribute set"),
            IncompleteCause::LinkRejected => String::from_str("a resolved link did not fit the batch"),
            IncompleteCause::LinkSetUnavailable => String::from_str("no authoritative hard-link set is available"),
        }
    }
}


impl MftError {
    /// Why the scan failed, in words.
    pub open spec fn text(&self) -> Seq<char> {
        match self {
            MftError::Cancelled => "volume scan cancelled"@,
            MftError::NotElevated => "volume scan requires an elevated process (run from an administrator terminal)"@,
            MftError::Ntfs(cause) => "NTFS scan: "@ + cause@,
            MftError::Metadata(cause) => "volume metadata: "@ + cause.text(),
            MftError::IncompleteMetadata(object) => "incomplete metadata: "@ + object.text(),
            MftError::CorruptRecords(count) => decimal(count as nat) + " corrupt MFT record(s); refusing to publish a partial index"@,
        }
    }

    /// Why the scan failed, in words.
    pub fn message(&self) -> (r: String)
        ensures
            r@ == self.text(),
    {
        match self {
            MftError::Cancelled => String::from_str("volume scan cancelled"),
            MftError::NotElevated => String::from_str("volume scan requires an elevated process (run from an administrator terminal)"),
            MftError::Ntfs(cause) => {
                let mut s: String = String::from_str("NTFS scan: ");
                s.append(cause.as_str());
                s
            },
            MftError::Metadata(cause) => {
                let mut s: String = String::from_str("volume metadata: ");
                s.append(cause.message().as_str());
                s
            },
            MftError::IncompleteMetadata(object) => {
                let mut s: String = String::from_str("incomplete metadata: ");
                s.append(object.message().as_str());
                s
            },
            MftError::CorruptRecords(count) => {
                let mut s: String = String::new();
                push_decimal(&mut s, *count as u64);
                s.append(" corrupt MFT record(s); refusing to publish a partial index");
                assert(s@ =~= self.text());
                s
            },
        }
    }
}


impl EngineError {
    /// Why the query or page failed, in words.
    pub open spec fn text(&self) -> Seq<char> {
        match self {
            EngineError::Parse(cause) => "query parse: "@ + cause@,
            EngineError::Compile(cause) => "query compile: "@ + cause@,
            EngineError::Stale => "result is stale (index was rebuilt)"@,
            EngineError::Cancelled => "query cancelled"@,
            EngineError::QueryTooLong { actual, maximum } => "query is "@ + decimal(actual as nat) + " bytes, at most "@ + decimal(maximum as nat) + " are accepted"@,
            EngineError::PageTooLarge { requested, maximum } => "page of "@ + decimal(requested as nat) + " rows, at most "@ + decimal(maximum as nat) + " are served"@,
            EngineError::PageEncoding(what) => "page encoding: "@ + what@,
            EngineError::Path(fault) => "row path: "@ + fault.text(),
        }
    }

    /// Why the query or page failed, in words.
    pub fn message(&self) -> (r: String)
        ensures
            r@ == self.text(),
    {
        match self {
            EngineError::Parse(cause) => {
                let mut s: String = String::from_str("query parse: ");
                s.append(cause.as_str());
                s
            },
            EngineError::Compile(cause) => {
                let mut s: String = String::from_str("query compile: ");
                s.append(cause.as_str());
                s
            },
            EngineError::Stale => String::from_str("result is stale (index was rebuilt)"),
            EngineError::Cancelled => String::from_str("query cancelled"),
            EngineError::QueryTooLong { actual, maximum } => {
                let mut s: String = String::from_str("query is ");
                push_decimal(&mut s, *actual as u64);
                s.append(" bytes, at most ");
                push_decimal(&mut s, *maximum as u64);
                s.append(" are accepted");
                s
            },
            EngineError::PageTooLarge { requested, maximum } => {
                let mut s: String = String::from_str("page of ");
                push_decimal(&mut s, *requested as u64);
                s.append(" rows, at most ");
                push_decimal(&mut s, *maximum as u64);
                s.append(" are served");
                s
            },
            EngineError::PageEncoding(what) => {
                let mut s: String = String::from_str("page encoding: ");
                s.append(what);
                s
            },
            EngineError::Path(fault) => {
                let mut s: String = String::from_str("row path: ");
                s.append(fault.message().as_str());
                s
            },
        }
    }
}


impl PathBuildError {
    /// Why the path could not be built, in words.
    pub open spec fn text(&self) -> Seq<char> {
        match self {
            PathBuildError::EntryOutOfRange { entry, entries } => "entry "@ + decimal(entry as nat) + " is not one of "@ + decimal(entries as nat),
            PathBuildError::ParentOutOfRange { entry, parent, entries } => "parent "@ + decimal(parent as nat) + " of entry "@ + decimal(entry as nat) + " is not one of "@ + decimal(entries as nat),
            PathBuildError::ParentCycle { entry } => "the parents of entry "@ + decimal(entry as nat) + " form a cycle"@,
            PathBuildError::PathTooLong { entry, bytes, maximum } => "the path of entry "@ + decimal(entry as nat) + " takes "@ + decimal(bytes as nat) + " bytes, at most "@ + decimal(maximum as nat) + " are built"@,
        }
    }

    /// Why the path could not be built, in words.
    pub fn message(&self) -> (r: String)
        ensures
            r@ == self.text(),
    {
        match self {
            PathBuildError::EntryOutOfRange { entry, entries } => {
                let mut s: String = String::from_str("entry ");
                push_decimal(&mut s, *entry as u64);
                s.append(" is not one of ");
                push_decimal(&mut s, *entries as u64);
                s
            },
            PathBuildError::ParentOutOfRange { entry, parent, entries } => {
                let mut s: String = String::from_str("parent ");
                push_decimal(&mut s, *parent as u64);
                s.append(" of entry ");
                push_decimal(&mut s, *entry as u64);
                s.append(" is not one of ");
                push_decimal(&mut s, *entries as u64);
                s
            },
            PathBuildError::ParentCycle { entry } => {
                let mut s: String = String::from_str("the parents of entry ");
                push_decimal(&mut s, *entry as u64);
                s.append(" form a cycle");
                s
            },
            PathBuildError::PathTooLong { entry, bytes, maximum } => {
                let mut s: String = String::from_str("the path of entry ");
                push_decimal(&mut s, *entry as u64);
                s.append(" takes ");
                push_decimal(&mut s, *bytes as u64);
                s.append(" bytes, at most ");
                push_decimal(&mut s, *maximum as u64);
                s.append(" are built");
                s
            },
        }
    }
}


impl IncompleteObject {
    /// The object that was given up, in words.
    pub open spec fn text(&self) -> Seq<char> {
        "file reference "@ + decimal(self.reference as nat) + ": "@ + self.cause.text() + " ("@
            + decimal(self.name_read_failures as nat)
            + " failed volume read(s) in the same chunk)"@
    }

    /// The object that was given up, in words.
    pub fn message(&self) -> (r: String)
        ensures
            r@ == self.text(),
    {
        let mut s: String = String::from_str("file reference ");
        push_decimal(&mut s, self.reference);
        s.append(": ");
        s.append(self.cause.message().as_str());
        s.append(" (");
        push_decimal(&mut s, self.name_read_failures);
        s.append(" failed volume read(s) in the same chunk)");
        s
    }
}

impl EngineCreateError {
    /// Why the engine refused to start, in words.
    pub open spec fn text(&self) -> Seq<char> {
        match self {
            EngineCreateError::Locked(holder) =>
                "index directory is locked by another engine process (holder pid: "@ + (
            match holder {
                Some(pid) => decimal(*pid as nat),
                None => "unknown"@,
            }) + ")"@,
            EngineCreateError::Io(cause) => "index directory: "@ + cause@,
        }
    }

    /// Why the engine refused to start, in words.
    pub fn message(&self) -> (r: String)
        ensures
            r@ == self.text(),
    {
        match self {
            EngineCreateError::Locked(holder) => {
                let mut s: String = String::from_str(
                    "index directory is locked by another engine process (holder pid: ",
                );
                match holder {
                    Some(pid) => {
                        push_decimal(&mut s, *pid as u64);
                    },
                    None => {
                        s.append("unknown");
                    },
                }
                s.append(")");
                s
            },
            EngineCreateError::Io(cause) => {
                let mut s: String = String::from_str("index directory: ");
                s.append(cause.as_str());
                s
            },
        }
    }
}

impl MftError {
    /// A failure of the volume as a failure of its scan.
    pub fn from_ntfs(error: NtfsError) -> (r: MftError)
        ensures
            match error {
                NtfsError::Elevation => r == MftError::NotElevated,
                _ => r matches MftError::Ntfs(cause) && cause@ == error.text(),
            },
    {
        match error {
            NtfsError::Elevation => MftError::NotElevated,
            other => MftError::Ntfs(other.message()),
        }
    }
}

} // verus!
