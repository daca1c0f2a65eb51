//! In-memory per-volume index: columns of entries, a dictionary of folded
//! names, an index by file reference, and a permutation in name order.
//!
//! How changes keep the permutation merge-only:
//! - create: append an entry, merge it into the permutation
//! - delete: set the tombstone flag
//! - rename: files are tombstoned and appended anew; directories are renamed
//!   in place (children point at the entry) and repositioned
//! - move: rewrite the parent
//!
//! Tombstones accumulate until compaction, which renumbers the entries.

pub mod batch;
pub mod builder;
pub mod columns;
pub mod compact;
pub mod converge;
pub mod dedup;
pub mod derived;
pub mod effects;
pub mod exclusion;
pub mod facts;
pub mod finish;
pub mod flags;
pub mod forest;
pub mod format;
pub mod frn;
pub mod links;
pub mod lookup;
pub mod merge;
pub mod mutate;
pub mod outcomes;
pub mod reads;
pub mod reconcile;
pub mod rows;
pub mod snapshot;
pub mod sort;
pub mod stats;
pub mod tells;
pub mod topology;
pub mod update;
pub mod verdicts;

use vstd::prelude::*;

pub use self::columns::VolumeIndex;

verus! {

/// Dense, append-only number of an entry in the columns.
pub type EntryId = u32;

/// The `parent` of an entry that has none: the volume root.
pub const NO_PARENT: EntryId = 0xFFFF_FFFF;

/// A full 64-bit NTFS file reference: the sequence number in the high 16
/// bits, the record number in the low 48.
///
/// The identity that survives a rename; NTFS reuses the record number, and
/// the sequence number tells the generations apart.
#[derive(Clone, Copy, Debug, PartialEq, Eq, Structural, Hash)]
pub struct Frn(pub u64);

/// A record number: the low 48 bits of an [`Frn`].
#[derive(Clone, Copy, Debug, PartialEq, Eq, Structural, Hash)]
pub struct RecordNo(pub u64);

/// The record number of a reference.
pub open spec fn record_of(frn: u64) -> u64 {
    frn % 0x1_0000_0000_0000
}

/// The sequence number of a reference is not zero.
pub open spec fn has_sequence(frn: u64) -> bool {
    frn >= 0x1_0000_0000_0000
}

impl Frn {
    /// The record number this reference points at.
    pub fn record(self) -> (r: RecordNo)
        ensures
            r == RecordNo(record_of(self.0)),
    {
        RecordNo(self.0 % 0x1_0000_0000_0000)
    }
}

/// The record number of a reference, or of a record number.
pub fn masked(record_or_frn: u64) -> (r: u64)
    ensures
        r == record_of(record_or_frn),
{
    record_or_frn % 0x1_0000_0000_0000
}

impl From<u64> for RecordNo {
    /// Wrap a value already known to be a record number.
    fn from(record: u64) -> (r: RecordNo) {
        RecordNo(record)
    }
}

impl vstd::std_specs::convert::FromSpecImpl<u64> for RecordNo {
    open spec fn obeys_from_spec() -> bool {
        true
    }

    open spec fn from_spec(record: u64) -> RecordNo {
        RecordNo(record)
    }
}

/// What entries can be ordered by.
#[derive(Clone, Copy, Debug, PartialEq, Eq, Structural)]
pub enum SortKey {
    /// The folded name.
    Name,
    /// The size in bytes.
    Size,
    /// The modification time.
    Mtime,
}

/// One record produced by an initial scan or by a change of the volume.
pub struct RawEntry<'a> {
    /// The parent directory's full reference.
    pub parent_frn: Frn,
    /// This entry's full reference; its record number is the identity key.
    pub frn: Frn,
    /// The file name as raw UTF-16 code units.
    pub name_utf16: &'a [u16],
    /// Whether this entry is a directory.
    pub is_dir: bool,
    /// Whether this entry is a reparse point (symlink, junction, mount point).
    pub is_reparse: bool,
    /// Raw `FILE_ATTRIBUTE_HIDDEN`.
    pub is_hidden: bool,
    /// Raw `FILE_ATTRIBUTE_SYSTEM`.
    pub is_system: bool,
    /// File size in bytes.
    pub size: u64,
    /// FILETIME (100ns ticks since 1601, UTC).
    pub mtime: i64,
}

/// A [`RawEntry`] whose name is already WTF-8 encoded, so that scan workers
/// can encode off the builder's thread.
pub struct EncodedEntry<'a> {
    /// The parent directory's full reference.
    pub parent_frn: Frn,
    /// This entry's full reference; its record number is the identity key.
    pub frn: Frn,
    /// The file name, WTF-8 encoded.
    pub name_wtf8: &'a [u8],
    /// The folded file name, WTF-8 encoded, of the same length.
    pub lower_wtf8: &'a [u8],
    /// Whether this entry is a directory.
    pub is_dir: bool,
    /// Whether this entry is a reparse point (symlink, junction, mount point).
    pub is_reparse: bool,
    /// Raw `FILE_ATTRIBUTE_HIDDEN`.
    pub is_hidden: bool,
    /// Raw `FILE_ATTRIBUTE_SYSTEM`.
    pub is_system: bool,
    /// File size in bytes.
    pub size: u64,
    /// FILETIME (100ns ticks since 1601, UTC).
    pub mtime: i64,
}

/// Why the path of an entry could not be built.
#[derive(Clone, Copy, Debug, PartialEq, Eq, Structural)]
pub enum PathBuildError {
    /// The entry does not exist.
    EntryOutOfRange {
        /// The entry asked for.
        entry: EntryId,
        /// How many entries there are.
        entries: usize,
    },
    /// A parent on the way to the root does not exist.
    ParentOutOfRange {
        /// The entry asked for.
        entry: EntryId,
        /// The parent that does not exist.
        parent: EntryId,
        /// How many entries there are.
        entries: usize,
    },
    /// The parents form a cycle.
    ParentCycle {
        /// The entry asked for.
        entry: EntryId,
    },
    /// The path is longer than any path of the file system.
    PathTooLong {
        /// The entry asked for.
        entry: EntryId,
        /// The length at which building stopped.
        bytes: usize,
        /// The longest path that is built.
        maximum: usize,
    },
}

} // verus!
