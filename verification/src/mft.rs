//! What a scan of the master file table decides: which names of a record are
//! searched, and why a scan gives up.

use vstd::prelude::*;
use crate::engine::worker::UsnError;
use crate::ondisk::ntfs::{
    attribute_bytes, attribute_header_of, attribute_offsets, file_name_of, NtfsAttribute,
    NtfsAttributeType, NtfsFile, NtfsFileName, NtfsFileNameHeader, NtfsFileNamespace,
};

verus! {

/// Why a scan failed.
#[derive(Debug)]
pub enum MftError {
    /// The worker was told to stop; nothing is installed.
    Cancelled,
    /// The process may not open the raw volume.
    NotElevated,
    /// The volume could not be read, or its structures are not valid.
    Ntfs(String),
    /// The live source of exact records could not be opened or queried.
    Metadata(UsnError),
    /// The links of an object could not be found completely.
    IncompleteMetadata(IncompleteObject),
    /// So many records are corrupt; an index without them would hide files.
    CorruptRecords(u64),
}

/// Why the names of an object could not be found completely.
#[derive(Clone, Copy, Debug, PartialEq, Eq, Structural)]
pub enum IncompleteCause {
    /// The base record could not be read.
    RecordUnreadable,
    /// The record is not well formed.
    MalformedRecord,
    /// The record is of another generation: its slot was reused meanwhile.
    ReferenceMismatch,
    /// The record lacks the attributes that an entry needs.
    AttributesMissing,
    /// A link did not fit the batch.
    LinkRejected,
    /// No complete set of links is to be had.
    LinkSetUnavailable,
}

/// An object that was given up.
#[derive(Clone, Copy, Debug, PartialEq, Eq, Structural)]
pub struct IncompleteObject {
    /// Its full reference.
    pub reference: u64,
    /// What failed.
    pub cause: IncompleteCause,
    /// How many reads of the volume failed meanwhile.
    pub name_read_failures: u64,
}

/// A name of this namespace is searched: not the short names that exist
/// beside long ones.
pub open spec fn searchable(namespace: u8) -> bool {
    namespace == NtfsFileNamespace::Win32.spec_code() || namespace
        == NtfsFileNamespace::Win32AndDos.spec_code() || namespace
        == NtfsFileNamespace::Posix.spec_code()
}

/// Whether a name of this namespace is searched.
pub fn is_searchable_namespace(namespace: u8) -> (r: bool)
    ensures
        r == searchable(namespace),
{
    namespace == NtfsFileNamespace::Win32.code() || namespace
        == NtfsFileNamespace::Win32AndDos.code() || namespace == NtfsFileNamespace::Posix.code()
}

/// The attribute holds a file name.
pub open spec fn holds_name(attribute: Seq<u8>) -> bool {
    attribute_header_of(attribute).type_id == NtfsAttributeType::FileName.spec_code()
}

/// The header of the name that an attribute holds.
pub open spec fn name_header(attribute: Seq<u8>) -> NtfsFileNameHeader {
    file_name_of(attribute).unwrap().0
}

/// The attribute, if it holds a file name, holds a valid one of a known
/// namespace, unnamed and without flags.
pub open spec fn name_acceptable(attribute: Seq<u8>) -> bool {
    holds_name(attribute) ==> {
        &&& attribute_header_of(attribute).name_length == 0
        &&& attribute_header_of(attribute).flags == 0
        &&& file_name_of(attribute) is Some
        &&& name_header(attribute).name_length != 0
        &&& searchable(name_header(attribute).namespace) || name_header(attribute).namespace == NtfsFileNamespace::Dos.spec_code()
    }
}

/// The attribute holds a name that is searched.
pub open spec fn holds_searchable(attribute: Seq<u8>) -> bool {
    holds_name(attribute) && searchable(name_header(attribute).namespace)
}

/// The names of a record that are searched, in the order of its attributes.
pub open spec fn searchable_names(record: Seq<u8>, offs: Seq<int>) -> Seq<
    (NtfsFileNameHeader, Seq<u8>),
>
    decreases offs.len(),
{
    if offs.len() == 0 {
        Seq::empty()
    } else {
        let attribute = attribute_bytes(record, offs.last());
        let before = searchable_names(record, offs.drop_last());
        if holds_searchable(attribute) {
            before.push(file_name_of(attribute)->0)
        } else {
            before
        }
    }
}

/// Every file name of the record is acceptable.
pub open spec fn names_acceptable(record: Seq<u8>, offs: Seq<int>) -> bool {
    forall|i: int| 0 <= i < offs.len() ==> name_acceptable(attribute_bytes(record, #[trigger] offs[i]))
}

/// What a name says.
pub open spec fn name_view(n: NtfsFileName<'_>) -> (NtfsFileNameHeader, Seq<u8>) {
    (n.header, n.utf16le@)
}

/// The names of a record that are searched, in order.
pub struct SearchableNames<'a> {
    /// The names.
    pub names: Vec<NtfsFileName<'a>>,
}

impl<'a> SearchableNames<'a> {
    /// How many there are.
    pub fn len(&self) -> (r: usize)
        ensures
            r == self.names@.len(),
    {
        self.names.len()
    }

    /// There are none.
    pub fn is_empty(&self) -> (r: bool)
        ensures
            r == (self.names@.len() == 0),
    {
        self.names.len() == 0
    }
}

/// The names of a record that are searched; nothing where one of its names is
/// not acceptable.
pub fn collect_searchable_names<'a>(file: &NtfsFile<'a>) -> (r: Option<SearchableNames<'a>>)
    ensures
        ({
            let record = file.occupied();
            let offs = attribute_offsets(record, file.header.attributes_offset as int);
            match r {
                Some(found) => {
                    &&& names_acceptable(record, offs)
                    &&& found.names@.map_values(|n: NtfsFileName<'a>| name_view(n))
                        == searchable_names(record, offs)
                },
                None => !names_acceptable(record, offs),
            }
        }),
{
    let attributes: Vec<NtfsAttribute<'a>> = file.attributes();
    let ghost record = file.occupied();
    let ghost offs = attribute_offsets(record, file.header.attributes_offset as int);
    let mut names: Vec<NtfsFileName<'a>> = Vec::new();
    let mut i: usize = 0;
    assert(offs.take(0) =~= Seq::empty());
    assert(names@.map_values(|n: NtfsFileName<'a>| name_view(n)) =~= Seq::empty());
    while i < attributes.len()
        invariant
            i <= offs.len(),
            attributes@.len() == offs.len(),
            forall|k: int|
                0 <= k < offs.len() ==> (#[trigger] attributes@[k]).wf() && attributes@[k].bytes()
                    == attribute_bytes(record, offs[k]),
            names_acceptable(record, offs.take(i as int)),
            names@.map_values(|n: NtfsFileName<'a>| name_view(n)) == searchable_names(
                record,
                offs.take(i as int),
            ),
            record == file.occupied(),
            offs == attribute_offsets(record, file.header.attributes_offset as int),
        decreases offs.len() - i,
    {
        let ghost attribute = attribute_bytes(record, offs[i as int]);
        assert(attributes@[i as int].bytes() == attribute);
        let ghost before = names@;
        proof {
            assert(offs.take(i + 1).drop_last() =~= offs.take(i as int));
            assert(offs.take(i + 1).last() == offs[i as int]);
        }
        let a: &NtfsAttribute<'a> = &attributes[i];
        if a.header.type_id == NtfsAttributeType::FileName.code() {
            if a.header.name_length != 0 || a.header.flags != 0 {
                assert(!name_acceptable(attribute_bytes(record, offs[i as int])));
                return None;
            }
            let name: NtfsFileName<'a> = match a.as_name() {
                Some(name) => name,
                None => {
                    assert(!name_acceptable(attribute_bytes(record, offs[i as int])));
                    return None;
                },
            };
            if name.header.name_length == 0 {
                assert(!name_acceptable(attribute_bytes(record, offs[i as int])));
                return None;
            }
            if is_searchable_namespace(name.header.namespace) {
                names.push(name);
                assert(names@.map_values(|n: NtfsFileName<'a>| name_view(n)) =~= before.map_values(
                    |n: NtfsFileName<'a>| name_view(n),
                ).push(name_view(name)));
            } else if name.header.namespace != NtfsFileNamespace::Dos.code() {
                assert(!name_acceptable(attribute_bytes(record, offs[i as int])));
                return None;
            }
        }
        assert(name_acceptable(attribute));
        proof {
            assert forall|k: int| 0 <= k < offs.take(i + 1).len() implies name_acceptable(
                attribute_bytes(record, #[trigger] offs.take(i + 1)[k]),
            ) by {
                if k < i {
                    assert(offs.take(i as int)[k] == offs[k]);
                }
            }
        }
        i = i + 1;
    }
    assert(offs.take(i as int) =~= offs);
    Some(SearchableNames { names })
}

} // verus!
