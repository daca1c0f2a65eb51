//! The decisions of the engine that serves several volumes: which volumes to
//! start, how a volume gets its index, what the journal's answers mean, and
//! how the hits of the volumes become one result.
//!
//! Everything here takes and gives plain values; locks, threads and the
//! operating system are the caller's.

pub mod duties;
pub mod naming;
pub mod ordering;
pub mod pages;
pub mod tells;
pub mod totals;
pub mod results;
pub mod search;
pub mod volume;
pub mod worker;

use vstd::prelude::*;
use std::path::PathBuf;
use std::sync::atomic::AtomicBool;
use crate::index::PathBuildError;
use crate::stop::{clear_flag, is_set, raise, reads, starts_clear, was_set};

pub use self::results::{ResultSet, Row};

verus! {

/// How far a volume has come.
#[derive(Clone, Copy, Debug, PartialEq, Eq, Structural)]
pub enum VolumeState {
    /// The first scan is under way.
    Scanning,
    /// Queries are answered.
    Ready,
    /// The index is being rebuilt.
    Rescanning,
    /// The volume could not be opened, scanned or followed.
    Failed,
}

/// The bounds that the engine's contract with its clients sets.
#[derive(Clone, Copy, Debug, PartialEq, Eq, Structural)]
pub struct ContractLimits {
    /// The longest query text, in bytes.
    pub max_query_bytes: u32,
    /// The most rows of one page.
    pub max_page_rows: u32,
    /// The longest payload of one message, in bytes.
    pub max_payload_len: u32,
}

/// Why a query, or a page of its result, could not be served.
#[derive(Debug)]
pub enum EngineError {
    /// The query text could not be parsed.
    Parse(String),
    /// The parsed query could not be compiled.
    Compile(String),
    /// The result refers to an index that has since been rebuilt.
    Stale,
    /// The query was given up.
    Cancelled,
    /// The query text is longer than is accepted.
    QueryTooLong {
        /// Its length in bytes.
        actual: usize,
        /// The longest that is accepted.
        maximum: u32,
    },
    /// More rows were asked for than one page holds.
    PageTooLarge {
        /// How many were asked for.
        requested: usize,
        /// How many a page holds.
        maximum: u32,
    },
    /// The page cannot be encoded.
    PageEncoding(&'static str),
    /// The path of a row cannot be built.
    Path(PathBuildError),
}

/// Why the engine refused to start.
#[derive(Debug)]
pub enum EngineCreateError {
    /// Another process holds the writer lock; its number, where it is known.
    Locked(Option<u32>),
    /// The index directory could not be created, or its lock not opened.
    Io(String),
}

/// What the engine is started with.
pub struct EngineConfig {
    /// The directory of the snapshots and of the writer lock.
    pub index_dir: PathBuf,
}

/// How far a volume has come.
pub type VolumePhase = VolumeState;

/// What a volume tells its listeners.
#[derive(Clone, Debug)]
pub enum EngineEvent {
    /// The first scan goes on.
    Progress {
        /// The volume's label.
        volume: String,
        /// How many files were found so far.
        entries: u64,
    },
    /// The volume can be queried.
    VolumeReady {
        /// The volume's label.
        volume: String,
        /// How many files it has.
        entries: u64,
    },
    /// The index changed.
    IndexChanged {
        /// The volume's label.
        volume: String,
    },
    /// The volume is scanned again.
    RescanStarted {
        /// The volume's label.
        volume: String,
    },
    /// The volume could not be opened, scanned or followed.
    VolumeFailed {
        /// The volume's label.
        volume: String,
        /// Why.
        message: String,
    },
    /// Something was recorded in the diagnostics ring.
    EngineError {
        /// How bad it is, as a number.
        severity: u64,
        /// The volume it is about; empty where none is.
        volume: String,
    },
}

/// The kind of an event.
#[derive(Clone, Copy, Debug, PartialEq, Eq, Structural)]
pub enum EventKind {
    /// The first scan goes on.
    Progress,
    /// The volume can be queried.
    VolumeReady,
    /// The index changed.
    IndexChanged,
    /// The volume is scanned again.
    RescanStarted,
    /// The volume failed.
    VolumeFailed,
    /// Something was recorded in the diagnostics ring.
    EngineError,
}

/// An event as clients get it: a kind, a number and a label.
#[derive(Clone, Copy, Debug)]
pub struct FmfEvent<'a> {
    /// The kind.
    pub kind: EventKind,
    /// A number of entries, or a severity.
    pub entries: u64,
    /// The volume's label.
    pub volume: &'a str,
}

impl EngineEvent {
    /// The event as clients get it.
    pub fn to_wire(&self) -> (r: FmfEvent<'_>)
        ensures
            (r.kind, r.entries, r.volume@) == match self {
                EngineEvent::Progress { volume, entries } => (EventKind::Progress, *entries, volume@),
                EngineEvent::VolumeReady { volume, entries } => (
                    EventKind::VolumeReady,
                    *entries,
                    volume@,
                ),
                EngineEvent::IndexChanged { volume } => (EventKind::IndexChanged, 0u64, volume@),
                EngineEvent::RescanStarted { volume } => (EventKind::RescanStarted, 0u64, volume@),
                EngineEvent::VolumeFailed { volume, message } => (
                    EventKind::VolumeFailed,
                    0u64,
                    volume@,
                ),
                EngineEvent::EngineError { severity, volume } => (
                    EventKind::EngineError,
                    *severity,
                    volume@,
                ),
            },
    {
        match self {
            EngineEvent::Progress { volume, entries } => FmfEvent {
                kind: EventKind::Progress,
                entries: *entries,
                volume: volume.as_str(),
            },
            EngineEvent::VolumeReady { volume, entries } => FmfEvent {
                kind: EventKind::VolumeReady,
                entries: *entries,
                volume: volume.as_str(),
            },
            EngineEvent::IndexChanged { volume } => FmfEvent {
                kind: EventKind::IndexChanged,
                entries: 0,
                volume: volume.as_str(),
            },
            EngineEvent::RescanStarted { volume } => FmfEvent {
                kind: EventKind::RescanStarted,
                entries: 0,
                volume: volume.as_str(),
            },
            EngineEvent::VolumeFailed { volume, message: _ } => FmfEvent {
                kind: EventKind::VolumeFailed,
                entries: 0,
                volume: volume.as_str(),
            },
            EngineEvent::EngineError { severity, volume } => FmfEvent {
                kind: EventKind::EngineError,
                entries: *severity,
                volume: volume.as_str(),
            },
        }
    }
}

/// A request, made from any thread, to give a query up.
pub struct QueryCancellation {
    flag: AtomicBool,
}

impl QueryCancellation {
    /// Whether it is requested may be read as `requested`.
    pub closed spec fn reads_as(&self, requested: bool) -> bool {
        reads(&self.flag, requested)
    }

    /// It was made without a request.
    pub closed spec fn starts_unrequested(&self) -> bool {
        starts_clear(self.flag)
    }

    /// No request yet.
    pub fn new() -> (r: QueryCancellation)
        ensures
            r.starts_unrequested(),
    {
        QueryCancellation { flag: clear_flag() }
    }

    /// A request was made.
    pub closed spec fn requested(&self) -> bool {
        was_set(&self.flag)
    }

    /// Request that the query be given up. When a reader sees it, the threads
    /// decide.
    pub fn cancel(&self)
        ensures
            self.requested(),
    {
        raise(&self.flag);
    }

    /// Fails exactly where the flag is read as set; how it is read, other
    /// threads decide.
    pub fn check(&self) -> (r: Result<(), EngineError>)
        ensures
            match r {
                Ok(_) => self.reads_as(false),
                Err(e) => self.reads_as(true) && e == EngineError::Cancelled,
            },
    {
        if is_set(&self.flag) {
            Err(EngineError::Cancelled)
        } else {
            Ok(())
        }
    }
}

} // verus!
