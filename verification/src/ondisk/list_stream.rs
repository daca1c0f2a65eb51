//! A non-resident `$ATTRIBUTE_LIST` read entry by entry.
//!
//! [`ListStream`] decides what is to be read next and what the bytes mean;
//! whoever drives it owns the device. [`visit_list_stream`] drives it over a
//! volume image in memory.

use vstd::prelude::*;
use crate::bytes::read_u16;
use crate::order::{reordered, same_items};
use super::attribute_list::{
    complete_runs_are_valid, decode_list_entry, entry_header_valid, entry_length, entry_of,
    fields_of, lemma_no_predecessor, lemma_prefix_valid, ordered_runs, parsed_list, run_allocated,
    runs_complete, runs_partial, sequence_valid, split_list, validate_entry_header,
    DecodedListEntry, EntrySequence, ListEntry, ListTail, NamedEntry, StreamRun, MAX_LIST_BYTES,
};
use super::ntfs::ATTRIBUTE_LIST_ENTRY_BYTES;

verus! {

/// Why streaming a non-resident list stopped.
#[derive(Debug)]
pub enum ListStreamError {
    /// The underlying reader failed, with the reason given.
    Io(String),
    /// The bytes do not form a well-formed entry sequence.
    Invalid,
    /// The caller's stop flag was set.
    Cancelled,
}

/// A contiguous part of the volume that is to be read.
#[derive(Clone, Copy, Debug, PartialEq, Eq, Structural)]
pub struct ReadPiece {
    /// Byte offset on the volume.
    pub offset: u64,
    /// Number of bytes.
    pub len: u64,
}

/// The `i`-th run holds stream byte `b`.
pub open spec fn holds(runs: Seq<StreamRun>, i: int, b: int) -> bool {
    0 <= i < runs.len() && runs[i].logical <= b < runs[i].end()
}

/// The volume offset of stream byte `b`.
pub open spec fn volume_offset(runs: Seq<StreamRun>, b: int) -> int {
    let i = choose|i: int| holds(runs, i, b);
    runs[i].physical->0 + (b - runs[i].logical)
}

/// The volume offsets of the bytes that the pieces cover, in their order.
pub open spec fn offsets_of(pieces: Seq<ReadPiece>) -> Seq<int>
    decreases pieces.len(),
{
    if pieces.len() == 0 {
        Seq::empty()
    } else {
        offsets_of(pieces.drop_last()) + Seq::new(
            pieces.last().len as nat,
            |j: int| pieces.last().offset + j,
        )
    }
}

/// The volume offsets of the stream bytes `from..from + len`.
pub open spec fn stream_offsets(runs: Seq<StreamRun>, from: int, len: int) -> Seq<int> {
    Seq::new(len as nat, |j: int| volume_offset(runs, from + j))
}

proof fn lemma_volume_offset(runs: Seq<StreamRun>, data_size: int, i: int, b: int)
    requires
        runs_partial(runs, data_size),
        holds(runs, i, b),
    ensures
        volume_offset(runs, b) == runs[i].physical->0 + (b - runs[i].logical),
{
    let k = choose|k: int| holds(runs, k, b);
    assert(holds(runs, k, b));
    if k != i {
        assert(super::attribute_list::logically_apart(runs[i], runs[k])
            || super::attribute_list::logically_apart(runs[k], runs[i]));
    }
}

/// The runs follow each other from the start of the stream.
pub open spec fn gapless(o: Seq<StreamRun>) -> bool {
    &&& o.len() > 0 ==> o[0].logical == 0
    &&& forall|j: int, k: int|
        0 <= j < o.len() && k == j + 1 && k < o.len() ==> (#[trigger] o[j]).end() == (
        #[trigger] o[k]).logical
}

/// A piece of the run that holds the next stream bytes continues the offsets.
proof fn lemma_piece_added(
    g: Seq<StreamRun>,
    o: Seq<StreamRun>,
    data_size: int,
    k: int,
    start: int,
    done: int,
    before: Seq<ReadPiece>,
    piece: ReadPiece,
)
    requires
        same_items(g, o),
        runs_partial(g, data_size),
        0 <= k < o.len(),
        0 <= done,
        o[k].logical <= start + done,
        start + done + piece.len <= o[k].end(),
        piece.offset == o[k].physical->0 + (start + done - o[k].logical),
        offsets_of(before) == stream_offsets(g, start, done),
    ensures
        offsets_of(before.push(piece)) == stream_offsets(g, start, done + piece.len),
{
    let (p, q): (Seq<int>, Seq<int>) = choose|p: Seq<int>, q: Seq<int>| reordered(g, o, p, q);
    let i = p[k];
    let after = before.push(piece);
    assert(o[k] == g[i]);
    assert(after.drop_last() =~= before);
    assert(after.last() == piece);
    assert forall|j: int| 0 <= j < done + piece.len implies #[trigger] offsets_of(after)[j]
        == stream_offsets(g, start, done + piece.len)[j] by {
        if j < done {
            assert(offsets_of(before)[j] == stream_offsets(g, start, done)[j]);
        } else {
            assert(holds(g, i, start + j));
            lemma_volume_offset(g, data_size, i, start + j);
        }
    }
    assert(offsets_of(after) =~= stream_offsets(g, start, done + piece.len));
}

/// A position in a stream that complete runs cover.
pub struct RunReader {
    runs: Vec<StreamRun>,
    run_index: usize,
    position: u64,
    data_size: u64,
    given: Ghost<Seq<StreamRun>>,
}

impl RunReader {
    /// The runs that the reader was made with.
    pub closed spec fn given_runs(&self) -> Seq<StreamRun> {
        self.given@
    }

    /// The next stream byte that is to be read.
    pub closed spec fn at(&self) -> int {
        self.position as int
    }

    /// The size of the stream.
    pub closed spec fn size(&self) -> int {
        self.data_size as int
    }

    /// The runs cover the stream, and the position is inside it.
    pub closed spec fn wf(&self) -> bool {
        let o = self.runs@;
        &&& runs_complete(self.given@, self.data_size as int)
        &&& same_items(self.given@, o)
        &&& self.position <= self.data_size
        &&& self.run_index < o.len()
        &&& o[self.run_index as int].logical <= self.position
        &&& o[o.len() - 1].end() >= self.data_size
        &&& forall|k: int|
            0 <= k < o.len() ==> run_allocated(#[trigger] o[k]) && o[k].end() <= u64::MAX
        &&& gapless(o)
    }

    /// Start at the beginning of the stream, or `None` if the runs do not
    /// cover it.
    pub fn new(runs: &[StreamRun], data_size: u64) -> (r: Option<RunReader>)
        ensures
            r is Some <==> runs_complete(runs@, data_size as int),
            r matches Some(x) ==> x.wf() && x.given_runs() == runs@ && x.at() == 0 && x.size()
                == data_size,
    {
        if !complete_runs_are_valid(runs, data_size) {
            return None;
        }
        let ordered: Vec<StreamRun> = ordered_runs(runs);
        proof {
            let o = ordered@;
            let (p, q): (Seq<int>, Seq<int>) = choose|p: Seq<int>, q: Seq<int>|
                reordered(runs@, o, p, q);
            assert forall|k: int| 0 <= k < o.len() implies run_allocated(#[trigger] o[k])
                && o[k].end() <= u64::MAX by {
                assert(o[k] == runs@[p[k]]);
                assert(run_allocated(runs@[p[k]]));
            }
            assert(gapless(o)) by {
                if o[0].logical != 0 {
                    lemma_no_predecessor(runs@, o, p, q, data_size as int, 0);
                }
                assert forall|j: int, k: int|
                    0 <= j < o.len() && k == j + 1 && k < o.len() implies (#[trigger] o[j]).end()
                    == (#[trigger] o[k]).logical by {
                    if o[k].logical != o[k - 1].end() {
                        lemma_no_predecessor(runs@, o, p, q, data_size as int, k);
                    }
                }
            }
            let i = choose|i: int|
                0 <= i < runs@.len() && (#[trigger] runs@[i]).end() >= data_size;
            assert(p[q[i]] == i);
            assert(o[q[i]] == runs@[i]);
            if q[i] < o.len() - 1 {
                super::attribute_list::lemma_sorted_apart(runs@, o, q[i], o.len() - 1);
            }
        }
        Some(
            RunReader { runs: ordered, run_index: 0, position: 0, data_size, given: Ghost(runs@) },
        )
    }

    /// How many bytes of the stream are left.
    pub fn remaining(&self) -> (r: u64)
        requires
            self.wf(),
        ensures
            r == self.size() - self.at(),
    {
        self.data_size - self.position
    }

    /// The parts of the volume that hold the next `len` bytes of the stream;
    /// moves the position behind them. `None` when the stream has fewer left.
    pub fn advance(&mut self, len: u64) -> (r: Option<Vec<ReadPiece>>)
        requires
            old(self).wf(),
        ensures
            final(self).wf(),
            final(self).given_runs() == old(self).given_runs(),
            final(self).size() == old(self).size(),
            r is Some <==> len <= old(self).size() - old(self).at(),
            r is None ==> final(self).at() == old(self).at(),
            r matches Some(pieces) ==> final(self).at() == old(self).at() + len && offsets_of(
                pieces@,
            ) == stream_offsets(old(self).given_runs(), old(self).at(), len as int),
    {
        if len > self.data_size - self.position {
            return None;
        }
        let ghost g = self.given@;
        let ghost start = self.position as int;
        let mut left: u64 = len;
        let mut pieces: Vec<ReadPiece> = Vec::new();
        assert(offsets_of(pieces@) =~= stream_offsets(g, start, 0));
        while left > 0
            invariant
                self.wf(),
                self.given@ == g,
                self.data_size == old(self).data_size,
                start == old(self).position,
                left <= len,
                self.position == start + (len - left),
                self.position + left <= self.data_size,
                offsets_of(pieces@) == stream_offsets(g, start, len - left),
            decreases left, self.runs@.len() - self.run_index,
        {
            let ghost o = self.runs@;
            let run: StreamRun = self.runs[self.run_index];
            let run_offset: u64 = self.position - run.logical;
            assert(run_allocated(o[self.run_index as int]));
            if run_offset >= run.len {
                proof {
                    if self.run_index == o.len() - 1 {
                        assert(o[o.len() - 1].end() >= self.data_size);
                    }
                    assert(o[self.run_index + 1].logical == o[self.run_index as int].end());
                }
                self.run_index = self.run_index + 1;
            } else {
                let available: u64 = if run.len - run_offset < left {
                    run.len - run_offset
                } else {
                    left
                };
                let base: u64 = match run.physical {
                    Some(physical) => physical,
                    None => 0,
                };
                let ghost before = pieces@;
                let piece: ReadPiece = ReadPiece { offset: base + run_offset, len: available };
                pieces.push(piece);
                proof {
                    lemma_piece_added(
                        g,
                        o,
                        self.data_size as int,
                        self.run_index as int,
                        start,
                        len - left,
                        before,
                        piece,
                    );
                }
                self.position = self.position + available;
                left = left - available;
            }
        }
        Some(pieces)
    }
}

/// Where a list stream stands between two of its driver's calls.
#[derive(Clone, Copy, Debug, PartialEq, Eq, Structural)]
pub enum ListStage {
    /// Before an entry.
    Between,
    /// The bytes of an incomplete header were asked for.
    AwaitTail,
    /// The bytes of a header were asked for.
    AwaitHeader,
    /// A header was read and accepted.
    NeedBody,
    /// The rest of the entry was asked for.
    AwaitBody,
}

/// What a list stream wants next.
pub enum ListRequest {
    /// The bytes of these pieces, one after the other.
    Read(Vec<ReadPiece>),
    /// Nothing: this is how the stream ends.
    Finished(Result<(), ListStreamError>),
}

/// What the bytes given to a list stream amounted to.
pub enum ListProgress {
    /// More is to be asked for.
    More,
    /// An entry is complete.
    Entry(ListEntry),
    /// This is how the stream ends.
    Finished(Result<(), ListStreamError>),
}

/// Success or `Invalid`, as told.
pub open spec fn ends_as(outcome: Result<(), ListStreamError>, ok: bool) -> bool {
    if ok {
        outcome is Ok
    } else {
        outcome matches Err(e) && e is Invalid
    }
}

/// A list that is being read entry by entry. Entry lengths are 16-bit, so one
/// entry at a time is held.
pub struct ListStream {
    /// The position in the stream.
    pub reader: RunReader,
    /// Whether an incomplete last entry is accepted.
    pub prefix: bool,
    /// What is awaited.
    pub stage: ListStage,
    /// The header that was read last.
    pub header: Vec<u8>,
    /// How many bytes were asked for.
    pub wanted: u64,
    /// What was learnt of the entries accepted so far.
    pub sequence: EntrySequence,
    /// How many entries were accepted so far.
    pub visited: usize,
    /// The entries accepted so far.
    pub accepted: Ghost<Seq<NamedEntry>>,
}

impl ListStream {
    /// The entries accepted so far.
    pub open spec fn entries(&self) -> Seq<NamedEntry> {
        self.accepted@
    }

    /// The parts of the state agree with each other.
    pub closed spec fn wf(&self) -> bool {
        &&& self.reader.wf()
        &&& self.sequence.sums_up(self.accepted@)
        &&& self.visited == self.accepted@.len()
        &&& self.stage == ListStage::NeedBody || self.stage == ListStage::AwaitBody ==> {
            &&& self.header@.len() == ATTRIBUTE_LIST_ENTRY_BYTES
            &&& entry_header_valid(self.header@)
        }
        &&& self.stage == ListStage::NeedBody ==> self.reader.at() + entry_length(self.header@)
            - ATTRIBUTE_LIST_ENTRY_BYTES <= self.reader.size()
        &&& self.stage == ListStage::AwaitBody ==> self.wanted == entry_length(self.header@)
            - ATTRIBUTE_LIST_ENTRY_BYTES
        &&& self.stage == ListStage::AwaitHeader ==> self.wanted == ATTRIBUTE_LIST_ENTRY_BYTES
    }

    /// The accepted entries may stand in one list.
    pub proof fn lemma_entries_valid(&self)
        requires
            self.wf(),
        ensures
            sequence_valid(self.entries()),
    {
        self.sequence.lemma_accepted(self.accepted@);
    }

    /// Start reading a list, or `None` if the runs do not cover it.
    pub fn new(runs: &[StreamRun], data_size: u64, prefix: bool) -> (r: Option<ListStream>)
        ensures
            r is Some <==> runs_complete(runs@, data_size as int),
            r matches Some(x) ==> x.wf() && x.reader.wf() && x.reader.given_runs() == runs@
                && x.reader.at() == 0 && x.reader.size() == data_size && x.prefix == prefix
                && x.stage == ListStage::Between && x.entries() == Seq::<NamedEntry>::empty(),
    {
        match RunReader::new(runs, data_size) {
            Some(reader) => Some(
                ListStream {
                    reader,
                    prefix,
                    stage: ListStage::Between,
                    header: Vec::new(),
                    wanted: 0,
                    sequence: EntrySequence::new(),
                    visited: 0,
                    accepted: Ghost(Seq::empty()),
                },
            ),
            None => None,
        }
    }

    /// Say what is wanted next. `stop` is the caller's stop flag; it is
    /// honoured before an entry.
    pub fn request(&mut self, stop: bool) -> (r: ListRequest)
        requires
            old(self).wf(),
            old(self).stage == ListStage::Between || old(self).stage == ListStage::NeedBody,
        ensures
            final(self).wf(),
            final(self).reader.wf(),
            final(self).prefix == old(self).prefix,
            final(self).entries() == old(self).entries(),
            final(self).reader.given_runs() == old(self).reader.given_runs(),
            final(self).reader.size() == old(self).reader.size(),
            old(self).stage == ListStage::Between ==> {
                let left = old(self).reader.size() - old(self).reader.at();
                if left == 0 {
                    r matches ListRequest::Finished(o) && ends_as(
                        o,
                        old(self).prefix || old(self).entries().len() > 0,
                    )
                } else if stop {
                    r matches ListRequest::Finished(o) && o matches Err(e) && e is Cancelled
                } else {
                    &&& final(self).wanted == (if left < ATTRIBUTE_LIST_ENTRY_BYTES {
                        left
                    } else {
                        ATTRIBUTE_LIST_ENTRY_BYTES as int
                    })
                    &&& final(self).stage == (if left < ATTRIBUTE_LIST_ENTRY_BYTES {
                        ListStage::AwaitTail
                    } else {
                        ListStage::AwaitHeader
                    })
                    &&& r is Read
                }
            },
            old(self).stage == ListStage::NeedBody ==> r is Read && final(self).stage
                == ListStage::AwaitBody && final(self).wanted == entry_length(old(self).header@)
                - ATTRIBUTE_LIST_ENTRY_BYTES && final(self).header == old(self).header,
            r matches ListRequest::Read(pieces) ==> final(self).reader.at() == old(self).reader.at()
                + final(self).wanted && offsets_of(pieces@) == stream_offsets(
                old(self).reader.given_runs(),
                old(self).reader.at(),
                final(self).wanted as int,
            ),
            r is Finished ==> final(self).reader.at() == old(self).reader.at(),
    {
        let wanted: u64;
        let stage: ListStage;
        match self.stage {
            ListStage::NeedBody => {
                wanted = read_u16(self.header.as_slice(), 4) as u64
                    - ATTRIBUTE_LIST_ENTRY_BYTES as u64;
                stage = ListStage::AwaitBody;
            },
            _ => {
                let left: u64 = self.reader.remaining();
                if left == 0 {
                    return ListRequest::Finished(
                        if self.prefix || self.visited > 0 {
                            Ok(())
                        } else {
                            Err(ListStreamError::Invalid)
                        },
                    );
                }
                if stop {
                    return ListRequest::Finished(Err(ListStreamError::Cancelled));
                }
                if left < ATTRIBUTE_LIST_ENTRY_BYTES as u64 {
                    wanted = left;
                    stage = ListStage::AwaitTail;
                } else {
                    wanted = ATTRIBUTE_LIST_ENTRY_BYTES as u64;
                    stage = ListStage::AwaitHeader;
                }
            },
        }
        match self.reader.advance(wanted) {
            Some(pieces) => {
                self.stage = stage;
                self.wanted = wanted;
                ListRequest::Read(pieces)
            },
            None => ListRequest::Finished(Err(ListStreamError::Invalid)),
        }
    }

    /// Take the bytes that were asked for.
    pub fn supply(&mut self, bytes: &[u8]) -> (r: ListProgress)
        requires
            old(self).wf(),
            old(self).stage == ListStage::AwaitTail || old(self).stage == ListStage::AwaitHeader
                || old(self).stage == ListStage::AwaitBody,
            bytes@.len() == old(self).wanted,
        ensures
            !(r is Finished) ==> final(self).wf(),
            final(self).prefix == old(self).prefix,
            final(self).reader == old(self).reader,
            old(self).stage == ListStage::AwaitTail ==> (r matches ListProgress::Finished(o)
                && ends_as(o, old(self).prefix)) && final(self).entries() == old(self).entries(),
            old(self).stage == ListStage::AwaitHeader ==> final(self).entries() == old(self).entries() && (if !entry_header_valid(bytes@) {
                r matches ListProgress::Finished(o) && ends_as(o, false)
            } else if entry_length(bytes@) - ATTRIBUTE_LIST_ENTRY_BYTES > old(self).reader.size()
                - old(self).reader.at() {
                r matches ListProgress::Finished(o) && ends_as(o, old(self).prefix)
            } else {
                r is More && final(self).stage == ListStage::NeedBody && final(self).header@
                    == bytes@
            }),
            old(self).stage == ListStage::AwaitBody ==> {
                let entry = entry_of(old(self).header@ + bytes@);
                if sequence_valid(old(self).entries().push(entry)) {
                    r == ListProgress::Entry(entry.entry) && final(self).stage == ListStage::Between
                        && final(self).entries() == old(self).entries().push(entry)
                } else {
                    (r matches ListProgress::Finished(o) && ends_as(o, false))
                        && final(self).entries() == old(self).entries()
                }
            },
    {
        match self.stage {
            ListStage::AwaitHeader => {
                if !validate_entry_header(bytes) {
                    return ListProgress::Finished(Err(ListStreamError::Invalid));
                }
                let rest: u64 = read_u16(bytes, 4) as u64 - ATTRIBUTE_LIST_ENTRY_BYTES as u64;
                if rest > self.reader.remaining() {
                    return ListProgress::Finished(
                        if self.prefix {
                            Ok(())
                        } else {
                            Err(ListStreamError::Invalid)
                        },
                    );
                }
                self.header = copy_bytes(bytes);
                self.stage = ListStage::NeedBody;
                ListProgress::More
            },
            ListStage::AwaitBody => {
                let mut whole: Vec<u8> = copy_bytes(self.header.as_slice());
                append_bytes(&mut whole, bytes);
                let ghost s = self.header@ + bytes@;
                proof {
                    assert(whole@ == s);
                    lemma_header_local(self.header@, s);
                }
                let decoded: DecodedListEntry = decode_list_entry(whole.as_slice());
                let ghost d = self.accepted@;
                proof {
                    self.sequence.lemma_accepted(d);
                }
                if !self.sequence.accept(&decoded, Ghost(d)) {
                    return ListProgress::Finished(Err(ListStreamError::Invalid));
                }
                self.accepted = Ghost(d.push(decoded.view()));
                self.visited = self.visited + 1;
                self.stage = ListStage::Between;
                ListProgress::Entry(decoded.public)
            },
            _ => ListProgress::Finished(
                if self.prefix {
                    Ok(())
                } else {
                    Err(ListStreamError::Invalid)
                },
            ),
        }
    }
}

/// A copy of the bytes.
fn copy_bytes(bytes: &[u8]) -> (r: Vec<u8>)
    ensures
        r@ == bytes@,
{
    let mut out: Vec<u8> = Vec::new();
    append_bytes(&mut out, bytes);
    assert(out@ =~= bytes@);
    out
}

/// Add the bytes at the end.
fn append_bytes(out: &mut Vec<u8>, bytes: &[u8])
    ensures
        final(out)@ == old(out)@ + bytes@,
{
    let ghost base = out@;
    let mut i: usize = 0;
    while i < bytes.len()
        invariant
            i <= bytes@.len(),
            out@ == base + bytes@.take(i as int),
        decreases bytes@.len() - i,
    {
        out.push(bytes[i]);
        i = i + 1;
        assert(out@ =~= base + bytes@.take(i as int));
    }
    assert(bytes@.take(i as int) =~= bytes@);
}

/// A header reads the same on its own and in front of more bytes.
proof fn lemma_header_local(header: Seq<u8>, s: Seq<u8>)
    requires
        header.len() == ATTRIBUTE_LIST_ENTRY_BYTES,
        header.is_prefix_of(s),
    ensures
        entry_header_valid(s) == entry_header_valid(header),
        entry_length(s) == entry_length(header),
{
    assert(forall|i: int| 0 <= i < header.len() ==> s[i] == header[i]);
}

/// An entry reads the same on its own and in front of more bytes.
proof fn lemma_entry_local(s: Seq<u8>)
    requires
        s.len() >= ATTRIBUTE_LIST_ENTRY_BYTES,
        entry_header_valid(s),
        entry_length(s) <= s.len(),
    ensures
        entry_of(s.take(entry_length(s))) == entry_of(s),
{
    let t = s.take(entry_length(s));
    assert(forall|i: int| 0 <= i < t.len() ==> t[i] == s[i]);
    if s[6] != 0 {
        assert(t.subrange(s[7] as int, s[7] + 2 * s[6]) =~= s.subrange(
            s[7] as int,
            s[7] + 2 * s[6],
        ));
    }
    assert(entry_of(t).name =~= entry_of(s).name);
}

/// Every byte of the stream lies inside the image.
pub open spec fn image_covers(image: Seq<u8>, runs: Seq<StreamRun>, data_size: int) -> bool {
    forall|b: int|
        0 <= b < data_size ==> 0 <= #[trigger] volume_offset(runs, b) < image.len()
}

/// The bytes of the stream, taken from the image.
pub open spec fn stream_bytes(image: Seq<u8>, runs: Seq<StreamRun>, data_size: int) -> Seq<u8> {
    Seq::new(data_size as nat, |b: int| image[volume_offset(runs, b)])
}

/// The pieces read from the image, or `None` when one of them reaches past it.
fn read_pieces(image: &[u8], pieces: &Vec<ReadPiece>) -> (r: Option<Vec<u8>>)
    ensures
        r matches Some(bytes) ==> bytes@ == Seq::new(
            offsets_of(pieces@).len(),
            |j: int| image@[offsets_of(pieces@)[j]],
        ),
        r is Some ==> forall|j: int|
            0 <= j < offsets_of(pieces@).len() ==> 0 <= #[trigger] offsets_of(pieces@)[j]
                < image@.len(),
        r is None ==> exists|j: int|
            0 <= j < offsets_of(pieces@).len() && !(0 <= #[trigger] offsets_of(pieces@)[j]
                < image@.len()),
{
    let mut out: Vec<u8> = Vec::new();
    let mut k: usize = 0;
    let ghost all = offsets_of(pieces@);
    while k < pieces.len()
        invariant
            k <= pieces@.len(),
            all == offsets_of(pieces@),
            out@ == Seq::new(
                offsets_of(pieces@.take(k as int)).len(),
                |j: int| image@[offsets_of(pieces@.take(k as int))[j]],
            ),
            forall|j: int|
                0 <= j < offsets_of(pieces@.take(k as int)).len() ==> 0
                    <= #[trigger] offsets_of(pieces@.take(k as int))[j] < image@.len(),
        decreases pieces@.len() - k,
    {
        let piece: ReadPiece = pieces[k];
        let ghost before = pieces@.take(k as int);
        let ghost upto = pieces@.take(k + 1);
        proof {
            assert(upto.drop_last() =~= before);
            assert(upto.last() == piece);
            lemma_offsets_prefix(pieces@, k + 1);
        }
        if piece.len > 0 && (piece.offset >= image.len() as u64 || piece.len > image.len() as u64
            - piece.offset) {
            proof {
                let j = offsets_of(before).len() + piece.len - 1;
                assert(offsets_of(upto)[j] == piece.offset + (piece.len - 1));
                assert(all[j] == offsets_of(upto)[j]);
            }
            return None;
        }
        let mut i: u64 = 0;
        let ghost base = out@;
        while i < piece.len
            invariant
                i <= piece.len,
                piece.len > 0 ==> piece.offset + piece.len <= image@.len(),
                out@ == base + Seq::new(i as nat, |j: int| image@[piece.offset + j]),
            decreases piece.len - i,
        {
            assert(piece.offset + i < image.len());
            out.push(image[(piece.offset + i) as usize]);
            i = i + 1;
            assert(out@ =~= base + Seq::new(i as nat, |j: int| image@[piece.offset + j]));
        }
        assert(out@ =~= Seq::new(offsets_of(upto).len(), |j: int| image@[offsets_of(upto)[j]]));
        k = k + 1;
    }
    assert(pieces@.take(k as int) =~= pieces@);
    Some(out)
}

proof fn lemma_offsets_prefix(pieces: Seq<ReadPiece>, k: int)
    requires
        0 <= k <= pieces.len(),
    ensures
        offsets_of(pieces.take(k)).is_prefix_of(offsets_of(pieces)),
    decreases pieces.len(),
{
    if k == pieces.len() {
        assert(pieces.take(k) =~= pieces);
    } else {
        assert(pieces.drop_last().take(k) =~= pieces.take(k));
        lemma_offsets_prefix(pieces.drop_last(), k);
    }
}

/// What visiting a list gave.
pub struct ListVisit {
    /// The entries that were accepted, in their order.
    pub entries: Vec<ListEntry>,
    /// How the visit ended.
    pub outcome: Result<(), ListStreamError>,
}

/// The entries that are accepted of `d`: all of them, or those before the
/// first that may not stand behind the others.
pub open spec fn accepted_of(d: Seq<NamedEntry>, accepted: Seq<NamedEntry>) -> bool {
    &&& accepted.is_prefix_of(d)
    &&& sequence_valid(accepted)
    &&& accepted.len() < d.len() ==> !sequence_valid(d.take(accepted.len() as int + 1))
}

/// A visit of the stream `s` that was not stopped and whose reads succeeded.
pub open spec fn visit_of(s: Seq<u8>, prefix: bool, visit: ListVisit) -> bool {
    let (d, tail) = split_list(s, 0);
    exists|accepted: Seq<NamedEntry>| #[trigger]
        accepted_of(d, accepted) && visit.entries@ == fields_of(accepted) && ends_as(
            visit.outcome,
            accepted.len() == d.len() && match tail {
                ListTail::Complete => prefix || d.len() > 0,
                ListTail::Truncated => prefix,
                ListTail::Malformed => false,
            },
        )
}

/// What reading one entry of a list gave.
enum EntryStep {
    Entry(ListEntry),
    Finished(Result<(), ListStreamError>),
}

/// What reading the entry at `off` of the stream `s` gives behind `entries`,
/// when the reads succeed.
spec fn step_of(
    s: Seq<u8>,
    off: int,
    prefix: bool,
    entries: Seq<NamedEntry>,
    after: ListStream,
    step: EntryStep,
) -> bool {
    let left = s.skip(off);
    if off == s.len() {
        (step matches EntryStep::Finished(o) && ends_as(o, prefix || entries.len() > 0))
            && after.entries() == entries
    } else if left.len() < ATTRIBUTE_LIST_ENTRY_BYTES {
        (step matches EntryStep::Finished(o) && ends_as(o, prefix)) && after.entries() == entries
    } else if !entry_header_valid(left) {
        (step matches EntryStep::Finished(o) && ends_as(o, false)) && after.entries() == entries
    } else if entry_length(left) > left.len() {
        (step matches EntryStep::Finished(o) && ends_as(o, prefix)) && after.entries() == entries
    } else if !sequence_valid(entries.push(entry_of(left))) {
        (step matches EntryStep::Finished(o) && ends_as(o, false)) && after.entries() == entries
    } else {
        &&& step == EntryStep::Entry(entry_of(left).entry)
        &&& after.entries() == entries.push(entry_of(left))
        &&& after.reader.at() == off + entry_length(left)
    }
}

/// The bytes of the pieces that were asked for are those of the stream.
proof fn lemma_fetched(
    image: Seq<u8>,
    runs: Seq<StreamRun>,
    data_size: int,
    at: int,
    wanted: int,
    offsets: Seq<int>,
    bytes: Seq<u8>,
)
    requires
        image_covers(image, runs, data_size),
        0 <= at,
        0 <= wanted,
        at + wanted <= data_size,
        offsets == stream_offsets(runs, at, wanted),
        bytes == Seq::new(offsets.len(), |j: int| image[offsets[j]]),
    ensures
        bytes == stream_bytes(image, runs, data_size).subrange(at, at + wanted),
{
    assert(bytes =~= stream_bytes(image, runs, data_size).subrange(at, at + wanted));
}

/// A read that succeeds shows that the image reaches further.
proof fn lemma_reaches(
    image: Seq<u8>,
    runs: Seq<StreamRun>,
    at: int,
    wanted: int,
    offsets: Seq<int>,
)
    requires
        0 <= at,
        0 <= wanted,
        image_covers(image, runs, at),
        offsets == stream_offsets(runs, at, wanted),
        forall|j: int| 0 <= j < offsets.len() ==> 0 <= #[trigger] offsets[j] < image.len(),
    ensures
        image_covers(image, runs, at + wanted),
{
    assert forall|b: int| 0 <= b < at + wanted implies 0 <= #[trigger] volume_offset(runs, b)
        < image.len() by {
        if b >= at {
            assert(offsets[b - at] == volume_offset(runs, b));
        }
    }
}

/// Where a read from the image fails, the image does not cover the stream.
proof fn lemma_short(
    image: Seq<u8>,
    runs: Seq<StreamRun>,
    data_size: int,
    at: int,
    wanted: int,
    offsets: Seq<int>,
)
    requires
        0 <= at,
        0 <= wanted,
        at + wanted <= data_size,
        offsets == stream_offsets(runs, at, wanted),
        exists|j: int| 0 <= j < offsets.len() && !(0 <= #[trigger] offsets[j] < image.len()),
    ensures
        !image_covers(image, runs, data_size),
{
    let j = choose|j: int| 0 <= j < offsets.len() && !(0 <= #[trigger] offsets[j] < image.len());
    assert(offsets[j] == volume_offset(runs, at + j));
}

/// Read one entry from the image.
#[verifier::rlimit(40)]
#[verifier::spinoff_prover]
fn read_entry(stream: &mut ListStream, image: &[u8], stop: bool) -> (r: EntryStep)
    requires
        old(stream).wf(),
        old(stream).reader.wf(),
        old(stream).stage == ListStage::Between,
        0 <= old(stream).reader.at() <= old(stream).reader.size(),
    ensures
        image_covers(image@, old(stream).reader.given_runs(), old(stream).reader.at()) ==> (r is Entry
            ==> image_covers(image@, old(stream).reader.given_runs(), final(stream).reader.at())),
        (r matches EntryStep::Finished(o) && o is Ok) && !old(stream).prefix ==> old(
            stream,
        ).reader.at() == old(stream).reader.size(),
        r is Entry ==> final(stream).wf() && final(stream).reader.wf() && final(stream).stage
            == ListStage::Between && final(stream).prefix == old(stream).prefix && final(stream).reader.given_runs() == old(stream).reader.given_runs() && final(stream).reader.size()
            == old(stream).reader.size() && old(stream).reader.at() < final(stream).reader.at()
            <= final(stream).reader.size() && r == EntryStep::Entry(
            final(stream).entries().last().entry,
        ) && final(stream).entries() == old(stream).entries().push(final(stream).entries().last()),
        stop && old(stream).reader.at() < old(stream).reader.size() ==> (
        r matches EntryStep::Finished(o) && o matches Err(e) && e is Cancelled),
        !stop && image_covers(
            image@,
            old(stream).reader.given_runs(),
            old(stream).reader.size(),
        ) ==> step_of(
            stream_bytes(image@, old(stream).reader.given_runs(), old(stream).reader.size()),
            old(stream).reader.at(),
            old(stream).prefix,
            old(stream).entries(),
            *final(stream),
            r,
        ),
{
    let ghost runs = stream.reader.given_runs();
    let ghost size = stream.reader.size();
    let ghost off = stream.reader.at();
    let ghost covers = image_covers(image@, runs, size);
    let ghost s = stream_bytes(image@, runs, size);
    let ghost left = s.skip(off);
    let pieces: Vec<ReadPiece> = match stream.request(stop) {
        ListRequest::Finished(outcome) => {
            return EntryStep::Finished(outcome);
        },
        ListRequest::Read(pieces) => pieces,
    };
    let ghost wanted = stream.wanted as int;
    let bytes: Vec<u8> = match read_pieces(image, &pieces) {
        Some(bytes) => bytes,
        None => {
            proof {
                lemma_short(image@, runs, size, off, wanted, offsets_of(pieces@));
            }
            return EntryStep::Finished(Err(ListStreamError::Io(short_read())));
        },
    };
    proof {
        if image_covers(image@, runs, off) {
            lemma_reaches(image@, runs, off, wanted, offsets_of(pieces@));
        }
        if covers {
            lemma_fetched(image@, runs, size, off, wanted, offsets_of(pieces@), bytes@);
            if wanted == ATTRIBUTE_LIST_ENTRY_BYTES {
                lemma_header_local(bytes@, left);
            }
        }
    }
    match stream.supply(bytes.as_slice()) {
        ListProgress::Finished(outcome) => {
            return EntryStep::Finished(outcome);
        },
        _ => {},
    }
    let ghost at = stream.reader.at();
    let rest: Vec<ReadPiece> = match stream.request(false) {
        ListRequest::Finished(outcome) => {
            return EntryStep::Finished(outcome);
        },
        ListRequest::Read(pieces) => pieces,
    };
    let ghost more = stream.wanted as int;
    let body: Vec<u8> = match read_pieces(image, &rest) {
        Some(bytes) => bytes,
        None => {
            proof {
                lemma_short(image@, runs, size, at, more, offsets_of(rest@));
            }
            return EntryStep::Finished(Err(ListStreamError::Io(short_read())));
        },
    };
    proof {
        if image_covers(image@, runs, off) {
            lemma_reaches(image@, runs, at, more, offsets_of(rest@));
        }
        if covers {
            lemma_fetched(image@, runs, size, at, more, offsets_of(rest@), body@);
            let len = entry_length(left);
            assert(stream.header@ + body@ =~= left.take(len));
            lemma_entry_local(left);
        }
    }
    match stream.supply(body.as_slice()) {
        ListProgress::Entry(entry) => EntryStep::Entry(entry),
        ListProgress::Finished(outcome) => EntryStep::Finished(outcome),
        ListProgress::More => EntryStep::Finished(Err(ListStreamError::Invalid)),
    }
}

/// The text for a read that reaches past the end of an image.
fn short_read() -> String {
    "unexpected end of image".to_owned()
}

/// The entries read so far and those that follow at `off` make up the list.
spec fn split_at(s: Seq<u8>, off: int, entries: Seq<NamedEntry>) -> bool {
    &&& split_list(s, 0).0 == entries + split_list(s, off).0
    &&& split_list(s, 0).1 == split_list(s, off).1
}

proof fn lemma_step_on(s: Seq<u8>, off: int, entries: Seq<NamedEntry>)
    requires
        split_at(s, off, entries),
        0 <= off < s.len(),
        s.skip(off).len() >= ATTRIBUTE_LIST_ENTRY_BYTES,
        entry_header_valid(s.skip(off)),
        entry_length(s.skip(off)) <= s.skip(off).len(),
    ensures
        split_at(s, off + entry_length(s.skip(off)), entries.push(entry_of(s.skip(off)))),
{
    let e = entry_of(s.skip(off));
    let rest = split_list(s, off + entry_length(s.skip(off))).0;
    assert(entries + (seq![e] + rest) =~= entries.push(e) + rest);
}

proof fn lemma_stopped(
    s: Seq<u8>,
    off: int,
    entries: Seq<NamedEntry>,
    prefix: bool,
    after: ListStream,
    step: EntryStep,
    visit: ListVisit,
)
    requires
        split_at(s, off, entries),
        0 <= off <= s.len(),
        sequence_valid(entries),
        step_of(s, off, prefix, entries, after, step),
        step == EntryStep::Finished(visit.outcome),
        visit.entries@ == fields_of(entries),
    ensures
        visit_of(s, prefix, visit),
{
    let all = split_list(s, 0);
    let left = s.skip(off);
    if off < s.len() && left.len() >= ATTRIBUTE_LIST_ENTRY_BYTES && entry_header_valid(left)
        && entry_length(left) <= left.len() {
        let e = entry_of(left);
        let rest = split_list(s, off + entry_length(left)).0;
        assert(all.0 =~= entries.push(e) + rest);
        assert(all.0.take(entries.len() as int + 1) =~= entries.push(e));
        assert(accepted_of(all.0, entries));
    } else {
        assert(all.0 =~= entries);
        assert(accepted_of(all.0, entries));
    }
}

/// Visit the entries of a non-resident list whose bytes lie in a volume
/// image.
///
/// `prefix` accepts an incomplete final entry when only the base extent is
/// read to discover continuation extents. The complete pass rejects the same
/// truncation.
pub fn visit_list_stream(
    image: &[u8],
    runs: &[StreamRun],
    data_size: u64,
    stop: bool,
    prefix: bool,
) -> (r: ListVisit)
    ensures
        !runs_complete(runs@, data_size as int) ==> ends_as(r.outcome, false) && r.entries@.len()
            == 0,
        runs_complete(runs@, data_size as int) && stop ==> (r.outcome matches Err(e)
            && e is Cancelled) && r.entries@.len() == 0,
        runs_complete(runs@, data_size as int) && !stop && image_covers(
            image@,
            runs@,
            data_size as int,
        ) ==> visit_of(stream_bytes(image@, runs@, data_size as int), prefix, r),
        runs_complete(runs@, data_size as int) && !prefix && !image_covers(
            image@,
            runs@,
            data_size as int,
        ) ==> r.outcome is Err,
{
    let mut entries: Vec<ListEntry> = Vec::new();
    let mut stream: ListStream = match ListStream::new(runs, data_size, prefix) {
        Some(stream) => stream,
        None => {
            return ListVisit { entries, outcome: Err(ListStreamError::Invalid) };
        },
    };
    let ghost covers = !stop && image_covers(image@, runs@, data_size as int);
    let ghost s = stream_bytes(image@, runs@, data_size as int);
    proof {
        assert(stream.entries() + split_list(s, 0).0 =~= split_list(s, 0).0);
        assert(entries@ =~= fields_of(stream.entries()));
    }
    loop
        invariant
            stream.wf(),
            stream.reader.wf(),
            stream.prefix == prefix,
            stream.stage == ListStage::Between,
            stream.reader.given_runs() == runs@,
            stream.reader.size() == data_size,
            data_size > 0,
            runs_complete(runs@, data_size as int),
            covers == (!stop && image_covers(image@, runs@, data_size as int)),
            s == stream_bytes(image@, runs@, data_size as int),
            entries@ == fields_of(stream.entries()),
            stop ==> entries@.len() == 0 && stream.reader.at() == 0,
            0 <= stream.reader.at() <= data_size,
            covers ==> split_at(s, stream.reader.at(), stream.entries()),
            image_covers(image@, runs@, stream.reader.at()),
        decreases data_size - stream.reader.at(),
    {
        let ghost off = stream.reader.at();
        let ghost d = stream.entries();
        proof {
            stream.lemma_entries_valid();
        }
        match read_entry(&mut stream, image, stop) {
            EntryStep::Entry(entry) => {
                entries.push(entry);
                proof {
                    assert(entries@ =~= fields_of(stream.entries()));
                    if covers {
                        lemma_step_on(s, off, d);
                    }
                }
            },
            EntryStep::Finished(outcome) => {
                let visit = ListVisit { entries, outcome };
                proof {
                    if covers {
                        lemma_stopped(
                            s,
                            off,
                            d,
                            prefix,
                            stream,
                            EntryStep::Finished(visit.outcome),
                            visit,
                        );
                    }
                }
                return visit;
            },
        }
    }
}

/// Visiting a stream and parsing its bytes agree: the visit succeeds exactly
/// where the parse does, with the same entries.
pub proof fn lemma_visit_agrees_with_parse(s: Seq<u8>, prefix: bool, visit: ListVisit)
    requires
        s.len() <= MAX_LIST_BYTES,
        visit_of(s, prefix, visit),
    ensures
        visit.outcome is Ok <==> parsed_list(s, prefix) is Some,
        visit.outcome is Ok ==> parsed_list(s, prefix) == Some(visit.entries@),
{
    let (d, tail) = split_list(s, 0);
    let accepted = choose|accepted: Seq<NamedEntry>| #[trigger]
        accepted_of(d, accepted) && visit.entries@ == fields_of(accepted) && ends_as(
            visit.outcome,
            accepted.len() == d.len() && match tail {
                ListTail::Complete => prefix || d.len() > 0,
                ListTail::Truncated => prefix,
                ListTail::Malformed => false,
            },
        );
    if accepted.len() == d.len() {
        assert(accepted =~= d);
    } else if sequence_valid(d) {
        let k = accepted.len() + 1;
        assert(d =~= d.take(k as int) + d.skip(k as int));
        lemma_prefix_valid(d.take(k as int), d.skip(k as int));
    }
}

} // verus!
