//! Errors in words, and the names of file records.

use fmf_core::engine::worker::UsnError;
use fmf_core::engine::EngineError;
use fmf_core::index::builder::{IndexBuildError, VolumeIndexBuilder};
use fmf_core::index::snapshot::SnapshotError;
use fmf_core::index::topology::{IndexMutationError, TopologyFault};
use fmf_core::index::{Frn, PathBuildError, VolumeIndex};
use fmf_core::mft::{
    collect_searchable_names, is_searchable_namespace, IncompleteCause, IncompleteObject, MftError,
};
use fmf_core::ondisk::ntfs::{NtfsAttributeType, NtfsError, NtfsFile, NtfsFileNamespace};

#[test]
fn mutation_errors_have_their_texts() {
    let (object, parent) = (Frn(100), Frn(10));
    let cases = [
        (
            IndexMutationError::InvalidReference { reference: object },
            "USN mutation carries sequence-zero reference Frn(100)",
        ),
        (
            IndexMutationError::UnresolvedParent { object, parent },
            "object Frn(100) references missing/stale parent Frn(10)",
        ),
        (
            IndexMutationError::ParentNotDirectory { object, parent },
            "object Frn(100) references non-directory parent Frn(10)",
        ),
        (
            IndexMutationError::AmbiguousParent { object, parent },
            "object Frn(100) has ambiguous exact parent Frn(10)",
        ),
        (IndexMutationError::SelfParent { object }, "object Frn(100) names itself as parent"),
        (
            IndexMutationError::ParentCycle { object, parent },
            "moving object Frn(100) below Frn(10) would create a parent cycle",
        ),
        (
            IndexMutationError::InvalidTopology { reason: TopologyFault::Cycle },
            "live index topology is invalid: the live parent graph contains a cycle",
        ),
        (
            IndexMutationError::EmptyLinkSnapshot { object },
            "authoritative link snapshot for Frn(100) is empty",
        ),
        (
            IndexMutationError::DuplicateLink { object },
            "authoritative link snapshot for Frn(100) contains a duplicate path",
        ),
        (
            IndexMutationError::InconsistentLinkMetadata { object },
            "authoritative link snapshot for Frn(100) has inconsistent object metadata",
        ),
        (
            IndexMutationError::EmptyName { object },
            "USN mutation for Frn(100) supplied an empty filename",
        ),
        (
            IndexMutationError::ObjectKind { object },
            "USN mutation for Frn(100) has an incompatible object kind",
        ),
    ];
    for (error, text) in cases {
        assert_eq!(error.message(), text);
    }
    let faults = [
        (TopologyFault::Root, "the root is missing, dead, non-directory, or parented"),
        (TopologyFault::AmbiguousObjects, "record generations or object kinds are ambiguous"),
        (TopologyFault::RepeatedLink, "an exact hard-link identity occurs more than once"),
        (TopologyFault::MissingParent, "a live entry lacks one live directory parent"),
        (TopologyFault::SplitDirectory, "one directory object has multiple live rows"),
        (TopologyFault::ChainEscapes, "a live parent chain escapes the live index"),
        (TopologyFault::ChainThroughFile, "a parent chain traverses a non-directory row"),
        (TopologyFault::ExistingCycle, "the existing live parent graph contains a cycle"),
        (
            TopologyFault::SiblingLinks,
            "object-level replacement would discard sibling hard links",
        ),
        (
            TopologyFault::Vanished,
            "validated directory identity disappeared during mutation",
        ),
    ];
    for (fault, text) in faults {
        assert_eq!(fault.message(), text);
    }
}

#[test]
fn build_errors_have_their_texts() {
    let (entry, child, parent) = (3, Frn(100), Frn(10));
    let cases = [
        (
            IndexBuildError::InvalidRootReference { root: Frn(5) },
            "invalid exact NTFS root reference Frn(5); expected record 5 with a non-zero sequence",
        ),
        (
            IndexBuildError::InvalidObjectReference { entry, object: child },
            "entry 3 has an invalid sequence-zero object reference Frn(100)",
        ),
        (
            IndexBuildError::AmbiguousObjectIdentity,
            "live object rows do not form unambiguous NTFS generations",
        ),
        (
            IndexBuildError::SelfParent { entry, child, parent },
            "entry 3 (Frn(100)) names itself as parent Frn(10)",
        ),
        (
            IndexBuildError::UnresolvedParent { entry, child, parent },
            "entry 3 (Frn(100)) has unresolved exact parent Frn(10)",
        ),
        (
            IndexBuildError::ParentNotDirectory { entry, child, parent },
            "entry 3 (Frn(100)) references non-directory parent Frn(10)",
        ),
        (
            IndexBuildError::AmbiguousParent { entry, child, parent },
            "entry 3 (Frn(100)) has ambiguous exact parent Frn(10)",
        ),
        (
            IndexBuildError::ParentCycle { entry, object: child },
            "parent graph contains a cycle reachable from entry 3 (Frn(100))",
        ),
        (
            IndexBuildError::DuplicateLink { object: child },
            "duplicate exact hard-link identity exists for object Frn(100)",
        ),
    ];
    for (error, text) in cases {
        assert_eq!(error.message(), text);
    }
    assert!(matches!(
        VolumeIndexBuilder::new_strict("C:", Frn(5)),
        Err(IndexBuildError::InvalidRootReference { root: Frn(5) })
    ));
}

#[test]
fn damaged_snapshots_are_refused_with_a_reason() {
    let idx = VolumeIndexBuilder::new_synthetic("C:", 5).finish();
    let good = idx.write_snapshot(7, 9);
    assert_eq!(&good[..8], b"FMFIDX07");
    let (_, journal, usn) = VolumeIndex::read_snapshot(&good).unwrap();
    assert_eq!((journal, usn), (7, 9));

    let mut magic = good.clone();
    magic[7] ^= 1;
    let mut flipped = good.clone();
    let at = good.len() / 2;
    flipped[at] ^= 0x80;
    assert!(VolumeIndex::read_snapshot(&flipped).is_err());
    let mut last = good.clone();
    let end = good.len() - 1;
    last[end] ^= 1;
    let cases = [
        (magic, SnapshotError::BadMagic, "bad magic"),
        (good[..good.len() - 1].to_vec(), SnapshotError::Truncated, "failed to fill whole buffer"),
        (last, SnapshotError::Checksum, "checksum mismatch"),
    ];
    for (bytes, error, text) in cases {
        let got = VolumeIndex::read_snapshot(&bytes).err().unwrap();
        assert_eq!(got, error);
        assert_eq!(got.message(), text);
    }
}

#[test]
fn scan_errors_have_their_texts() {
    assert_eq!(MftError::Cancelled.message(), "volume scan cancelled");
    assert_eq!(
        MftError::NotElevated.message(),
        "volume scan requires an elevated process (run from an administrator terminal)"
    );
    assert_eq!(
        MftError::CorruptRecords(3).message(),
        "3 corrupt MFT record(s); refusing to publish a partial index"
    );
    let object = IncompleteObject {
        reference: 0x1_0000_0000_0064,
        cause: IncompleteCause::RecordUnreadable,
        name_read_failures: 2,
    };
    assert_eq!(
        object.message(),
        "file reference 281474976710756: the base record could not be read from the volume \
         (2 failed volume read(s) in the same chunk)"
    );
    assert_eq!(
        MftError::IncompleteMetadata(object).message(),
        format!("incomplete metadata: {}", object.message())
    );
    assert_eq!(
        MftError::Metadata(UsnError::Fsctl(5)).message(),
        "volume metadata: journal control request failed with code 5"
    );
    let causes = [
        (IncompleteCause::MalformedRecord, "the record failed signature/fixup/attribute validation"),
        (IncompleteCause::ReferenceMismatch, "the record belongs to a different object generation"),
        (IncompleteCause::AttributesMissing, "the record carries no usable attribute set"),
        (IncompleteCause::LinkRejected, "a resolved link did not fit the batch"),
        (IncompleteCause::LinkSetUnavailable, "no authoritative hard-link set is available"),
    ];
    for (cause, text) in causes {
        assert_eq!(cause.message(), text);
    }
    assert!(matches!(MftError::from_ntfs(NtfsError::Elevation), MftError::NotElevated));
    let failed = MftError::from_ntfs(NtfsError::InvalidData("boot sector".to_string()));
    assert_eq!(failed.message(), "NTFS scan: invalid NTFS data: boot sector");
}

#[test]
fn path_errors_have_their_texts() {
    let cases = [
        (
            PathBuildError::EntryOutOfRange { entry: 9, entries: 4 },
            "row path: entry 9 is not one of 4",
        ),
        (
            PathBuildError::ParentOutOfRange { entry: 1, parent: 9, entries: 4 },
            "row path: parent 9 of entry 1 is not one of 4",
        ),
        (
            PathBuildError::PathTooLong { entry: 1, bytes: 11, maximum: 10 },
            "row path: the path of entry 1 takes 11 bytes, at most 10 are built",
        ),
    ];
    for (error, text) in cases {
        assert_eq!(EngineError::Path(error).message(), text);
    }
    assert_eq!(EngineError::Cancelled.message(), "query cancelled");
    assert_eq!(
        EngineError::QueryTooLong { actual: 9, maximum: 8 }.message(),
        "query is 9 bytes, at most 8 are accepted"
    );
    assert_eq!(
        EngineError::PageTooLarge { requested: 9, maximum: 8 }.message(),
        "page of 9 rows, at most 8 are served"
    );
    assert_eq!(EngineError::PageEncoding("x").message(), "page encoding: x");
}

fn put_u16(data: &mut [u8], offset: usize, value: u16) {
    data[offset..offset + 2].copy_from_slice(&value.to_le_bytes());
}

fn put_u32(data: &mut [u8], offset: usize, value: u32) {
    data[offset..offset + 4].copy_from_slice(&value.to_le_bytes());
}

/// A record with a file name of one letter in each of the namespaces.
fn record_with_names(namespaces: &[u8]) -> Vec<u8> {
    let mut record = vec![0u8; 1024];
    record[..4].copy_from_slice(b"FILE");
    put_u16(&mut record, 4, 42);
    put_u16(&mut record, 6, 3);
    put_u16(&mut record, 20, 48);
    let mut at = 48;
    for (i, namespace) in namespaces.iter().enumerate() {
        put_u32(&mut record, at, NtfsAttributeType::FileName.code());
        put_u32(&mut record, at + 4, 96);
        put_u32(&mut record, at + 16, 68);
        put_u16(&mut record, at + 20, 24);
        put_u16(&mut record, at + 24, 5);
        put_u16(&mut record, at + 30, 1);
        record[at + 24 + 64] = 1;
        record[at + 24 + 65] = *namespace;
        record[at + 24 + 66] = b'a' + i as u8;
        at += 96;
    }
    put_u32(&mut record, at, 0xFFFF_FFFF);
    put_u32(&mut record, 24, at as u32 + 8);
    put_u32(&mut record, 28, 1024);
    record
}

#[test]
fn short_names_beside_long_ones_are_not_searched() {
    assert!(is_searchable_namespace(NtfsFileNamespace::Posix.code()));
    assert!(is_searchable_namespace(NtfsFileNamespace::Win32.code()));
    assert!(is_searchable_namespace(NtfsFileNamespace::Win32AndDos.code()));
    assert!(!is_searchable_namespace(NtfsFileNamespace::Dos.code()));
    assert!(!is_searchable_namespace(9));

    let record = record_with_names(&[
        NtfsFileNamespace::Win32.code(),
        NtfsFileNamespace::Dos.code(),
        NtfsFileNamespace::Posix.code(),
    ]);
    let file = NtfsFile::parse(7, &record, 512).unwrap();
    let names = collect_searchable_names(&file).unwrap();
    assert!(!names.is_empty());
    let units: Vec<Vec<u16>> = names.names.iter().map(|n| n.to_utf16()).collect();
    assert_eq!(units, vec![vec![b'a' as u16], vec![b'c' as u16]]);
    assert_eq!(names.len(), 2);

    // A namespace that does not exist refuses the whole record.
    let record = record_with_names(&[NtfsFileNamespace::Win32.code(), 9]);
    let file = NtfsFile::parse(7, &record, 512).unwrap();
    assert!(collect_searchable_names(&file).is_none());
}
