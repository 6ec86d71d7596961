//! What the engine asks of the medium, and a record of the asking.
//!
//! Everything that touches files, clocks or encoded bytes goes through
//! [`Medium`]. Nothing is assumed of the answers: the engine is correct whatever
//! comes back. [`Io`] keeps a ghost trace of the questions together with their
//! answers, so that a contract can say what was asked and what follows from each
//! answer.

use crate::error::Error;
use crate::footer::{BlockEntry, Footer, FooterView};
use crate::format::{
    BlockHeader, Compression, EventId, MetricId, Micros, SegmentHeader, SegmentName,
};
use crate::staged::{ChannelIdx, NsId, Record, RecordView, StoredRecord};
use vstd::prelude::*;

verus! {

/// A channel of a namespace, or the staging area beside it in which a migration
/// assembles segments.
#[derive(Debug, Clone, Copy, PartialEq, Eq, Structural, Hash)]
pub struct Place {
    pub ns: NsId,
    pub channel: ChannelIdx,
    /// The files of the staging area lie under temporary names.
    pub staging: bool,
}

/// A segment file.
#[derive(Debug, Clone, Copy, PartialEq, Eq, Structural, Hash)]
pub struct SegmentFile {
    pub place: Place,
    pub name: SegmentName,
}

/// An entry of a channel's directory.
#[derive(Debug, Clone, Copy, PartialEq, Eq, Structural)]
pub struct Listed {
    /// The segment the name denotes; `None` for a foreign name.
    pub name: Option<SegmentName>,
    /// Whether it is an ordinary file: not a directory, not a link.
    pub is_file: bool,
    pub size_bytes: u64,
}

/// A block ready to be written.
#[derive(Debug, Clone, Copy, PartialEq, Eq, Structural)]
pub struct BlockInfo {
    pub header: BlockHeader,
    /// The length of header and body together.
    pub len: u64,
}

/// A block that was closed: the length of its body and of the whole.
#[derive(Debug, Clone, Copy, PartialEq, Eq, Structural)]
pub struct Finished {
    pub body_len: u32,
    pub len: u64,
}

/// What stands where a block header is expected.
#[derive(Debug)]
pub enum HeaderProbe {
    /// The bytes cannot be read.
    Unreadable(Error),
    /// Zeros: the unwritten tail of the reserve window.
    Zero,
    /// Bytes that are no header, with the reason.
    Invalid(String),
    Found(BlockHeader),
}

/// What stands where a block body is expected.
#[derive(Debug)]
pub enum BodyProbe {
    /// The bytes cannot be read.
    Unreadable(Error),
    /// The bytes disagree with the checksum in the header.
    Torn,
    /// The bytes agree, but cannot be broken into records.
    Opaque,
    /// The bytes agree and break into records.
    Sound(BlockTypes),
}

/// The types in a block and the time of its last record.
#[derive(Debug)]
pub struct BlockTypes {
    pub events: Vec<EventId>,
    pub metrics: Vec<MetricId>,
    pub last: Micros,
}

/// The events of the messages among records, in their order.
pub open spec fn events_in(records: Seq<(Micros, RecordView)>) -> Seq<EventId>
    decreases records.len(),
{
    if records.len() == 0 {
        Seq::empty()
    } else {
        let rest = events_in(records.drop_last());
        match records.last().1 {
            RecordView::Message { event, .. } => rest.push(event),
            _ => rest,
        }
    }
}

/// The metrics of the samples among records, in their order.
pub open spec fn metrics_in(records: Seq<(Micros, RecordView)>) -> Seq<MetricId>
    decreases records.len(),
{
    if records.len() == 0 {
        Seq::empty()
    } else {
        let rest = metrics_in(records.drop_last());
        match records.last().1 {
            RecordView::Sample { metric, .. } => rest.push(metric),
            _ => rest,
        }
    }
}

impl BlockTypes {
    /// The types in the records of a block, and the time of the last of them: the base of
    /// the block where there are none.
    pub fn of_records(records: &Vec<(Micros, StoredRecord)>, base: Micros) -> (types: BlockTypes)
        ensures
            types.events@ == events_in(records_of(records@)),
            types.metrics@ == metrics_in(records_of(records@)),
            types.last == if records@.len() == 0 {
                base
            } else {
                records@.last().0
            },
    {
        let mut types = BlockTypes { events: Vec::new(), metrics: Vec::new(), last: base };
        let mut i: usize = 0;
        let ghost all = records_of(records@);
        assert(all.take(0) =~= Seq::<(Micros, RecordView)>::empty());
        while i < records.len()
            invariant
                i <= records@.len(),
                all == records_of(records@),
                types.events@ == events_in(all.take(i as int)),
                types.metrics@ == metrics_in(all.take(i as int)),
                types.last == if i == 0 {
                    base
                } else {
                    records@[i - 1].0
                },
            decreases records@.len() - i,
        {
            proof {
                assert(all.take(i + 1).drop_last() =~= all.take(i as int));
                assert(all.take(i + 1).last() == (records@[i as int].0, records@[i as int].1@));
            }
            match &records[i].1 {
                StoredRecord::Message { event, .. } => {
                    types.events.push(*event);
                },
                StoredRecord::Sample { metric, .. } => {
                    types.metrics.push(*metric);
                },
                _ => {},
            }
            types.last = records[i].0;
            i = i + 1;
        }
        assert(all.take(i as int) =~= all);
        types
    }
}

/// The records of a block.
#[derive(Debug)]
pub struct BlockContents {
    pub compression: Compression,
    pub records: Vec<(Micros, StoredRecord)>,
}

/// The medium, the clock and the block codec.
pub trait Medium {
    /// The monotonic clock, in nanoseconds.
    fn now(&mut self) -> u64;

    /// The path of a file, for messages.
    fn path_of(&mut self, file: SegmentFile) -> String;

    /// The path of a channel's directory, for messages.
    fn dir_of(&mut self, place: Place) -> String;

    /// The bytes held for blocks at a place.
    fn held_bytes(&mut self, place: Place) -> u64;

    /// Drops the block being assembled at a place.
    fn reset_block(&mut self, place: Place);

    /// Gives the buffers of a place without a block in the works back.
    fn release_buffers(&mut self, place: Place);

    /// Closes a file.
    fn close(&mut self, file: SegmentFile);

    /// Writes a footer at an offset; the answer is its length.
    fn write_footer(&mut self, file: SegmentFile, offset: u64, footer: &Footer) -> Result<
        u64,
        Error,
    >;

    /// Reads and checks a footer of `len` bytes at an offset; `None` where the
    /// bytes are no footer.
    fn read_footer(&mut self, file: SegmentFile, offset: u64, len: u64) -> Result<
        Option<Footer>,
        Error,
    >;

    /// Creates a channel's directory where it is missing and makes it known under
    /// a place.
    fn attach(&mut self, place: Place, dir: &str) -> Result<(), Error>;

    /// Deletes the temporary files that interrupted operations left in a
    /// channel's directory: nothing addresses their contents.
    fn sweep(&mut self, place: Place) -> Result<(), Error>;

    /// Lists a channel's directory; `None` where it is not there.
    fn list(&mut self, place: Place) -> Result<Option<Vec<Listed>>, Error>;

    /// Creates a segment file with `capacity` bytes reserved and its header written
    /// and synced. A name that is taken is refused; a file for which there is no
    /// space does not stay behind.
    fn create(&mut self, file: SegmentFile, header: SegmentHeader, capacity: u64) -> Result<(), Error>;

    /// Opens an existing segment for writing; the answer is its length.
    fn open_for_append(&mut self, file: SegmentFile) -> Result<u64, Error>;

    /// Opens a segment for reading; the answer is its length.
    fn open_for_reading(&mut self, file: SegmentFile) -> Result<u64, Error>;

    /// Reserves space so that the file is `capacity` bytes long; the added tail is
    /// zero.
    fn grow(&mut self, file: SegmentFile, capacity: u64) -> Result<(), Error>;

    /// Writes the block finished last at the file's place, at an offset.
    fn write_block(&mut self, file: SegmentFile, offset: u64, block: BlockInfo) -> Result<(), Error>;

    /// Syncs the data of a file: once it returns, the data survives a power loss.
    fn sync(&mut self, file: SegmentFile) -> Result<(), Error>;

    /// Cuts a file down to `len` bytes.
    fn truncate(&mut self, file: SegmentFile, len: u64) -> Result<(), Error>;

    /// Deletes a file and makes the deletion durable. A file that is already gone
    /// is no failure.
    fn remove(&mut self, file: SegmentFile) -> Result<(), Error>;

    /// Deletes a file. A file that is already gone is no failure.
    fn unlink(&mut self, file: SegmentFile) -> Result<(), Error>;

    /// Makes the names in a channel's directory durable.
    fn sync_dir(&mut self, place: Place) -> Result<(), Error>;

    /// Renames the staged file of this name over the segment.
    fn swap_in(&mut self, file: SegmentFile) -> Result<(), Error>;

    /// Reads the header of a segment.
    fn read_segment_header(&mut self, file: SegmentFile) -> Result<SegmentHeader, Error>;

    /// Reads the block header at an offset.
    fn read_block_header(&mut self, file: SegmentFile, offset: u64) -> HeaderProbe;

    /// Reads the body of the block at an offset and checks it against its header.
    fn read_block_body(&mut self, file: SegmentFile, offset: u64, header: BlockHeader) -> BodyProbe;

    /// Reads the block at an offset, checks it and breaks it into its records.
    fn read_records(&mut self, file: SegmentFile, offset: u64, header: BlockHeader) -> Result<
        BlockContents,
        Error,
    >;

    /// Whether the last bytes of a file of this length are the signature of a
    /// footer.
    fn ends_with_signature(&mut self, file: SegmentFile, len: u64) -> bool;

    /// Reads the trailer at an offset: the length of footer and trailer together,
    /// `None` where there is no trailer.
    fn read_trailer(&mut self, file: SegmentFile, offset: u64) -> Result<Option<u64>, Error>;

    /// Adds a record to the block being assembled at a place; the answer is the
    /// length of its body so far.
    fn push_record(&mut self, place: Place, at: Micros, record: &Record<'_>) -> Result<u64, Error>;

    /// Closes the block being assembled and makes it ready to be written.
    fn finish_block(&mut self, place: Place, seq: u32, compression: Compression) -> Result<Finished, Error>;

    /// Gives the finished block another number.
    fn restamp(&mut self, place: Place, seq: u32) -> Result<(), Error>;
}

/// A question to the medium with its answer.
pub enum Op {
    Now { nanos: u64 },
    WriteFooter { file: SegmentFile, offset: u64, footer: Footer, outcome: Result<u64, Error> },
    ReadFooter {
        file: SegmentFile,
        offset: u64,
        len: u64,
        outcome: Result<Option<Footer>, Error>,
    },
    Attach { place: Place, dir: Seq<char>, refused: Option<Error> },
    Sweep { place: Place, refused: Option<Error> },
    List { place: Place, outcome: Result<Option<Vec<Listed>>, Error> },
    Close { file: SegmentFile },
    ResetBlock { place: Place },
    ReleaseBuffers { place: Place },
    Held { place: Place, bytes: u64 },
    Create { file: SegmentFile, header: SegmentHeader, capacity: u64, refused: Option<Error> },
    Open { file: SegmentFile, outcome: Result<u64, Error> },
    OpenToRead { file: SegmentFile, outcome: Result<u64, Error> },
    Grow { file: SegmentFile, capacity: u64, refused: Option<Error> },
    Write { file: SegmentFile, offset: u64, block: BlockInfo, refused: Option<Error> },
    Sync { file: SegmentFile, refused: Option<Error> },
    Truncate { file: SegmentFile, len: u64, refused: Option<Error> },
    Remove { file: SegmentFile, refused: Option<Error> },
    Unlink { file: SegmentFile, refused: Option<Error> },
    SyncDir { place: Place, refused: Option<Error> },
    SwapIn { file: SegmentFile, refused: Option<Error> },
    SegmentHeader { file: SegmentFile, outcome: Result<SegmentHeader, Error> },
    BlockHeader { file: SegmentFile, offset: u64, outcome: HeaderProbe },
    BlockBody { file: SegmentFile, offset: u64, header: BlockHeader, outcome: BodyProbe },
    Records {
        file: SegmentFile,
        offset: u64,
        header: BlockHeader,
        outcome: Result<BlockContents, Error>,
    },
    Signature { file: SegmentFile, len: u64, outcome: bool },
    Trailer { file: SegmentFile, offset: u64, outcome: Result<Option<u64>, Error> },
    PushRecord { place: Place, at: Micros, record: RecordView, outcome: Result<u64, Error> },
    Finish { place: Place, seq: u32, compression: Compression, outcome: Result<Finished, Error> },
    Restamp { place: Place, seq: u32, refused: Option<Error> },
}

/// The refusal of an operation that has no other answer.
pub open spec fn refusal(r: Result<(), Error>) -> Option<Error> {
    match r {
        Ok(_) => None,
        Err(e) => Some(e),
    }
}

/// The operation was answered with this error.
pub open spec fn refused_with(op: Op, e: Error) -> bool {
    match op {
        Op::Attach { refused, .. } => refused == Some(e),
        Op::Sweep { refused, .. } => refused == Some(e),
        Op::List { outcome, .. } => outcome == Err::<Option<Vec<Listed>>, Error>(e),
        Op::Create { refused, .. } => refused == Some(e),
        Op::Grow { refused, .. } => refused == Some(e),
        Op::Write { refused, .. } => refused == Some(e),
        Op::Sync { refused, .. } => refused == Some(e),
        Op::Truncate { refused, .. } => refused == Some(e),
        Op::Remove { refused, .. } => refused == Some(e),
        Op::Unlink { refused, .. } => refused == Some(e),
        Op::SyncDir { refused, .. } => refused == Some(e),
        Op::SwapIn { refused, .. } => refused == Some(e),
        Op::Restamp { refused, .. } => refused == Some(e),
        Op::WriteFooter { outcome, .. } => outcome == Err::<u64, Error>(e),
        Op::Open { outcome, .. } => outcome == Err::<u64, Error>(e),
        Op::OpenToRead { outcome, .. } => outcome == Err::<u64, Error>(e),
        Op::SegmentHeader { outcome, .. } => outcome == Err::<SegmentHeader, Error>(e),
        Op::Trailer { outcome, .. } => outcome == Err::<Option<u64>, Error>(e),
        Op::ReadFooter { outcome, .. } => outcome == Err::<Option<Footer>, Error>(e),
        Op::Records { outcome, .. } => outcome == Err::<BlockContents, Error>(e),
        Op::PushRecord { outcome, .. } => outcome == Err::<u64, Error>(e),
        Op::Finish { outcome, .. } => outcome == Err::<Finished, Error>(e),
        Op::BlockHeader { outcome, .. } => outcome == HeaderProbe::Unreadable(e),
        Op::BlockBody { outcome, .. } => outcome == BodyProbe::Unreadable(e),
        _ => false,
    }
}

/// How many records are in the blocks that a trace shows as written.
pub open spec fn landed(trace: Seq<Op>) -> int
    decreases trace.len(),
{
    if trace.len() == 0 {
        0
    } else {
        landed(trace.drop_last()) + landed_by(trace.last())
    }
}

/// How many records one question put on the medium: those of a block that was
/// written.
pub open spec fn landed_by(op: Op) -> int {
    match op {
        Op::Write { block, refused: None, .. } => block.header.count as int,
        _ => 0,
    }
}

/// The records in the block being assembled at a place.
pub open spec fn assembled(trace: Seq<Op>, place: Place) -> Seq<(Micros, RecordView)>
    decreases trace.len(),
{
    if trace.len() == 0 {
        Seq::empty()
    } else {
        let before = assembled(trace.drop_last(), place);
        match trace.last() {
            Op::PushRecord { place: p, at, record, outcome: Ok(_) } => if p == place {
                before.push((at, record))
            } else {
                before
            },
            Op::ResetBlock { place: p } => if p == place {
                Seq::empty()
            } else {
                before
            },
            Op::Finish { place: p, outcome: Ok(_), .. } => if p == place {
                Seq::empty()
            } else {
                before
            },
            _ => before,
        }
    }
}

/// A block that was closed: where it was assembled, the number it has, and what is in
/// it.
#[verifier::ext_equal]
pub struct Stamped {
    pub place: Place,
    pub seq: u32,
    pub compression: Compression,
    pub finished: Finished,
    pub records: Seq<(Micros, RecordView)>,
}

/// The block of a trace that was closed last, under the number given to it last.
pub open spec fn stamped(trace: Seq<Op>) -> Option<Stamped>
    decreases trace.len(),
{
    if trace.len() == 0 {
        None
    } else {
        stamped_by(stamped(trace.drop_last()), trace.drop_last(), trace.last())
    }
}

/// The block closed last once one more thing was asked.
pub open spec fn stamped_by(before: Option<Stamped>, trace: Seq<Op>, op: Op) -> Option<Stamped> {
    match op {
        Op::Finish { place, seq, compression, outcome: Ok(finished) } => Some(
            Stamped { place, seq, compression, finished, records: assembled(trace, place) },
        ),
        Op::Restamp { place, seq, refused: None } => match before {
            Some(s) => if s.place == place {
                Some(Stamped { seq, ..s })
            } else {
                before
            },
            None => None,
        },
        _ => before,
    }
}

/// A block that landed in a file.
#[verifier::ext_equal]
pub struct Landed {
    pub file: SegmentFile,
    pub offset: u64,
    pub block: BlockInfo,
    /// The block that was at hand to be written.
    pub stamped: Option<Stamped>,
}

/// The blocks of a trace that landed, in their order.
pub open spec fn written(trace: Seq<Op>) -> Seq<Landed>
    decreases trace.len(),
{
    if trace.len() == 0 {
        Seq::empty()
    } else {
        let before = written(trace.drop_last());
        match trace.last() {
            Op::Write { file, offset, block, refused: None } => before.push(
                Landed { file, offset, block, stamped: stamped(trace.drop_last()) },
            ),
            _ => before,
        }
    }
}

/// How many records blocks hold, as their headers say.
pub open spec fn held_in(blocks: Seq<Landed>) -> int
    decreases blocks.len(),
{
    if blocks.len() == 0 {
        0
    } else {
        held_in(blocks.drop_last()) + blocks.last().block.header.count
    }
}

/// The records that landed are those in the blocks that were written.
pub proof fn law_what_landed_was_written(trace: Seq<Op>)
    ensures
        landed(trace) == held_in(written(trace)),
    decreases trace.len(),
{
    if trace.len() > 0 {
        law_what_landed_was_written(trace.drop_last());
        match trace.last() {
            Op::Write { file, offset, block, refused: None } => {
                assert(written(trace).drop_last() =~= written(trace.drop_last()));
            },
            _ => {},
        }
    }
}

/// The entry of a block in the index of its segment.
pub open spec fn entry_of(block: Landed) -> BlockEntry {
    BlockEntry {
        offset: block.offset,
        base: block.block.header.base,
        last: block.stamped->0.records.last().0,
        count: block.block.header.count,
    }
}

/// What the footer of a segment holds that these blocks were written to: the entry of
/// each, and the types of the records in it.
pub open spec fn footer_of(blocks: Seq<Landed>) -> FooterView
    decreases blocks.len(),
{
    if blocks.len() == 0 {
        FooterView::empty()
    } else {
        footer_of(blocks.drop_last()).noting_all(blocks.last().stamped->0.records).with_block(
            entry_of(blocks.last()),
        )
    }
}

/// A segment file that was created.
#[verifier::ext_equal]
pub struct Made {
    pub file: SegmentFile,
    pub header: SegmentHeader,
    pub capacity: u64,
}

/// The segment files of a trace that were created, in their order.
pub open spec fn made(trace: Seq<Op>) -> Seq<Made>
    decreases trace.len(),
{
    if trace.len() == 0 {
        Seq::empty()
    } else {
        let before = made(trace.drop_last());
        match trace.last() {
            Op::Create { file, header, capacity, refused: None } => before.push(
                Made { file, header, capacity },
            ),
            _ => before,
        }
    }
}

/// How many segment files of a trace were not created.
pub open spec fn uncreated(trace: Seq<Op>) -> int
    decreases trace.len(),
{
    if trace.len() == 0 {
        0
    } else {
        uncreated(trace.drop_last()) + match trace.last() {
            Op::Create { refused: Some(_), .. } => 1int,
            _ => 0,
        }
    }
}

/// How many of them because the name was taken.
pub open spec fn names_taken(trace: Seq<Op>) -> int
    decreases trace.len(),
{
    if trace.len() == 0 {
        0
    } else {
        names_taken(trace.drop_last()) + match trace.last() {
            Op::Create { refused: Some(e), .. } => if e.is_name_taken() {
                1int
            } else {
                0
            },
            _ => 0,
        }
    }
}

pub proof fn lemma_uncreated_push(trace: Seq<Op>, op: Op)
    ensures
        uncreated(trace.push(op)) == uncreated(trace) + match op {
            Op::Create { refused: Some(_), .. } => 1int,
            _ => 0,
        },
        names_taken(trace.push(op)) == names_taken(trace) + match op {
            Op::Create { refused: Some(e), .. } => if e.is_name_taken() {
                1int
            } else {
                0
            },
            _ => 0,
        },
{
    assert(trace.push(op).drop_last() =~= trace);
}

/// A file holds a block that was not synced: it was written to after it was created
/// or synced last.
pub open spec fn unsynced(trace: Seq<Op>, file: SegmentFile) -> bool
    decreases trace.len(),
{
    if trace.len() == 0 {
        false
    } else {
        let before = unsynced(trace.drop_last(), file);
        match trace.last() {
            Op::Write { file: f, refused: None, .. } => f == file || before,
            Op::Sync { file: f, refused: None } => f != file && before,
            Op::Create { file: f, refused: None, .. } => f != file && before,
            _ => before,
        }
    }
}

/// Where a block was written, or a block being assembled changed.
pub open spec fn stirred_by(op: Op) -> Option<Place> {
    match op {
        Op::Write { file, refused: None, .. } => Some(file.place),
        Op::PushRecord { place, outcome: Ok(_), .. } => Some(place),
        Op::ResetBlock { place } => Some(place),
        Op::Finish { place, outcome: Ok(_), .. } => Some(place),
        _ => None,
    }
}

/// No file was written to, and no block being assembled changed.
#[verifier::opaque]
pub open spec fn no_dirtier(before: Seq<Op>, after: Seq<Op>) -> bool {
    &&& forall|f: SegmentFile| #[trigger] unsynced(after, f) ==> unsynced(before, f)
    &&& forall|p: Place| #[trigger] assembled(after, p) == assembled(before, p)
}

/// No file was written to, and no block being assembled changed, but for those at a
/// place.
#[verifier::opaque]
pub open spec fn dirties_at(before: Seq<Op>, after: Seq<Op>, place: Place) -> bool {
    &&& forall|f: SegmentFile|
        f.place != place && #[trigger] unsynced(after, f) ==> unsynced(before, f)
    &&& forall|p: Place|
        p != place ==> #[trigger] assembled(after, p) == assembled(before, p)
}

pub broadcast proof fn lemma_assembled_push(trace: Seq<Op>, op: Op, place: Place)
    ensures
        #[trigger] assembled(trace.push(op), place) == match op {
            Op::PushRecord { place: p, at, record, outcome: Ok(_) } => if p == place {
                assembled(trace, place).push((at, record))
            } else {
                assembled(trace, place)
            },
            Op::ResetBlock { place: p } => if p == place {
                Seq::empty()
            } else {
                assembled(trace, place)
            },
            Op::Finish { place: p, outcome: Ok(_), .. } => if p == place {
                Seq::empty()
            } else {
                assembled(trace, place)
            },
            _ => assembled(trace, place),
        },
{
    assert(trace.push(op).drop_last() =~= trace);
}

pub broadcast proof fn lemma_same_assembled(before: Seq<Op>, after: Seq<Op>, place: Place)
    requires
        #[trigger] no_dirtier(before, after),
    ensures
        #[trigger] assembled(after, place) == assembled(before, place),
{
    reveal(no_dirtier);
}

pub broadcast proof fn lemma_unsynced_push(trace: Seq<Op>, op: Op, file: SegmentFile)
    ensures
        #[trigger] unsynced(trace.push(op), file) == match op {
            Op::Write { file: f, refused: None, .. } => f == file || unsynced(trace, file),
            Op::Sync { file: f, refused: None } => f != file && unsynced(trace, file),
            Op::Create { file: f, refused: None, .. } => f != file && unsynced(trace, file),
            _ => unsynced(trace, file),
        },
{
    assert(trace.push(op).drop_last() =~= trace);
}

pub broadcast proof fn lemma_no_dirtier(before: Seq<Op>, after: Seq<Op>, file: SegmentFile)
    requires
        #[trigger] no_dirtier(before, after),
    ensures
        #[trigger] unsynced(after, file) ==> unsynced(before, file),
{
    reveal(no_dirtier);
}

pub proof fn lemma_dirties_at(before: Seq<Op>, after: Seq<Op>, place: Place, file: SegmentFile)
    requires
        dirties_at(before, after, place),
        file.place != place,
    ensures
        unsynced(after, file) ==> unsynced(before, file),
        assembled(after, file.place) == assembled(before, file.place),
{
    reveal(dirties_at);
}

pub proof fn lemma_assembled_elsewhere(
    before: Seq<Op>,
    after: Seq<Op>,
    place: Place,
    other: Place,
)
    requires
        dirties_at(before, after, place),
        other != place,
    ensures
        assembled(after, other) == assembled(before, other),
{
    reveal(dirties_at);
}

pub broadcast proof fn lemma_dirtier_same(trace: Seq<Op>)
    ensures
        #[trigger] no_dirtier(trace, trace),
{
    reveal(no_dirtier);
}

pub broadcast proof fn lemma_dirtier_push(trace: Seq<Op>, op: Op)
    requires
        stirred_by(op) is None,
    ensures
        no_dirtier(trace, #[trigger] trace.push(op)),
{
    reveal(no_dirtier);
    assert forall|p: Place| #[trigger] assembled(trace.push(op), p) == assembled(trace, p) by {
        lemma_assembled_push(trace, op, p);
    }
    assert forall|f: SegmentFile| #[trigger] unsynced(trace.push(op), f) implies unsynced(
        trace,
        f,
    ) by {
        lemma_unsynced_push(trace, op, f);
    }
}

pub broadcast proof fn lemma_dirtier_on(a: Seq<Op>, b: Seq<Op>, c: Seq<Op>)
    requires
        #[trigger] no_dirtier(a, b),
        #[trigger] no_dirtier(b, c),
    ensures
        no_dirtier(a, c),
{
    reveal(no_dirtier);
}

pub broadcast proof fn lemma_dirties_nothing(a: Seq<Op>, b: Seq<Op>, place: Place)
    requires
        no_dirtier(a, b),
    ensures
        #[trigger] dirties_at(a, b, place),
{
    reveal(no_dirtier);
    reveal(dirties_at);
}

pub broadcast proof fn lemma_dirties_on(a: Seq<Op>, b: Seq<Op>, c: Seq<Op>, place: Place)
    requires
        #[trigger] dirties_at(a, b, place),
        #[trigger] dirties_at(b, c, place),
    ensures
        dirties_at(a, c, place),
{
    reveal(dirties_at);
}

pub broadcast proof fn lemma_dirties_then_not(a: Seq<Op>, b: Seq<Op>, c: Seq<Op>, place: Place)
    requires
        #[trigger] dirties_at(a, b, place),
        #[trigger] no_dirtier(b, c),
    ensures
        dirties_at(a, c, place),
{
    reveal(no_dirtier);
    reveal(dirties_at);
}

pub broadcast proof fn lemma_dirties_later(a: Seq<Op>, b: Seq<Op>, c: Seq<Op>, place: Place)
    requires
        #[trigger] no_dirtier(a, b),
        #[trigger] dirties_at(b, c, place),
    ensures
        dirties_at(a, c, place),
{
    reveal(no_dirtier);
    reveal(dirties_at);
}

pub proof fn lemma_dirties_push(trace: Seq<Op>, op: Op, place: Place)
    requires
        stirred_by(op) matches Some(p) ==> p == place,
    ensures
        dirties_at(trace, trace.push(op), place),
{
    reveal(dirties_at);
    assert forall|p: Place|
        p != place implies #[trigger] assembled(trace.push(op), p) == assembled(trace, p) by {
        lemma_assembled_push(trace, op, p);
    }
    assert forall|f: SegmentFile|
        f.place != place && #[trigger] unsynced(trace.push(op), f) implies unsynced(trace, f) by {
        lemma_unsynced_push(trace, op, f);
    }
}

/// A question that was answered with an error.
pub open spec fn refused(op: Op) -> bool {
    match op {
        Op::Attach { refused, .. } => refused is Some,
        Op::Sweep { refused, .. } => refused is Some,
        Op::List { outcome, .. } => outcome is Err,
        Op::Create { refused, .. } => refused is Some,
        Op::Grow { refused, .. } => refused is Some,
        Op::Write { refused, .. } => refused is Some,
        Op::Sync { refused, .. } => refused is Some,
        Op::Truncate { refused, .. } => refused is Some,
        Op::Remove { refused, .. } => refused is Some,
        Op::Unlink { refused, .. } => refused is Some,
        Op::SyncDir { refused, .. } => refused is Some,
        Op::SwapIn { refused, .. } => refused is Some,
        Op::Restamp { refused, .. } => refused is Some,
        Op::WriteFooter { outcome, .. } => outcome is Err,
        Op::Open { outcome, .. } => outcome is Err,
        Op::OpenToRead { outcome, .. } => outcome is Err,
        Op::SegmentHeader { outcome, .. } => outcome is Err,
        Op::Trailer { outcome, .. } => outcome is Err,
        Op::ReadFooter { outcome, .. } => outcome is Err,
        Op::Records { outcome, .. } => outcome is Err,
        Op::PushRecord { outcome, .. } => outcome is Err,
        Op::Finish { outcome, .. } => outcome is Err,
        Op::BlockHeader { outcome, .. } => outcome is Unreadable,
        Op::BlockBody { outcome, .. } => outcome is Unreadable,
        _ => false,
    }
}

/// How many questions of a trace were answered with an error.
pub open spec fn refusals(trace: Seq<Op>) -> int
    decreases trace.len(),
{
    if trace.len() == 0 {
        0
    } else {
        refusals(trace.drop_last()) + if refused(trace.last()) {
            1int
        } else {
            0
        }
    }
}

/// A record that went into the block being assembled at a place.
#[verifier::ext_equal]
pub struct Accepted {
    pub place: Place,
    pub at: Micros,
    pub record: RecordView,
}

/// The records of a trace that went into blocks, in their order.
pub open spec fn accepted(trace: Seq<Op>) -> Seq<Accepted>
    decreases trace.len(),
{
    if trace.len() == 0 {
        Seq::empty()
    } else {
        let before = accepted(trace.drop_last());
        match trace.last() {
            Op::PushRecord { place, at, record, outcome: Ok(_) } => before.push(
                Accepted { place, at, record },
            ),
            _ => before,
        }
    }
}

/// The block of a trace that was closed last.
pub open spec fn finished(trace: Seq<Op>) -> Option<Finished>
    decreases trace.len(),
{
    if trace.len() == 0 {
        None
    } else {
        match trace.last() {
            Op::Finish { outcome: Ok(f), .. } => Some(f),
            _ => finished(trace.drop_last()),
        }
    }
}

/// The records of a trace that were read out of blocks, in their order.
pub open spec fn read_out(trace: Seq<Op>) -> Seq<(Micros, RecordView)>
    decreases trace.len(),
{
    if trace.len() == 0 {
        Seq::empty()
    } else {
        let before = read_out(trace.drop_last());
        match trace.last() {
            Op::Records { outcome: Ok(block), .. } => before + records_of(block.records@),
            _ => before,
        }
    }
}

/// The blocks of a trace whose records were read out, in their order.
pub open spec fn fetched(trace: Seq<Op>) -> Seq<(SegmentFile, u64)>
    decreases trace.len(),
{
    if trace.len() == 0 {
        Seq::empty()
    } else {
        let before = fetched(trace.drop_last());
        match trace.last() {
            Op::Records { file, offset, outcome: Ok(_), .. } => before.push((file, offset)),
            _ => before,
        }
    }
}

/// The blocks of a trace whose records were read out, by how they were packed and what was
/// in them.
pub open spec fn unpacked(trace: Seq<Op>) -> Seq<(Compression, Seq<(Micros, RecordView)>)>
    decreases trace.len(),
{
    if trace.len() == 0 {
        Seq::empty()
    } else {
        let before = unpacked(trace.drop_last());
        match trace.last() {
            Op::Records { outcome: Ok(block), .. } => before.push(
                (block.compression, records_of(block.records@)),
            ),
            _ => before,
        }
    }
}

/// A look at where a block may begin.
#[verifier::ext_equal]
pub struct Look {
    pub file: SegmentFile,
    pub offset: u64,
    pub found: HeaderProbe,
}

/// The looks of a trace at block headers, in their order.
pub open spec fn looks(trace: Seq<Op>) -> Seq<Look>
    decreases trace.len(),
{
    if trace.len() == 0 {
        Seq::empty()
    } else {
        let before = looks(trace.drop_last());
        match trace.last() {
            Op::BlockHeader { file, offset, outcome } => before.push(
                Look { file, offset, found: outcome },
            ),
            _ => before,
        }
    }
}

/// Records by their contents.
pub open spec fn records_of(records: Seq<(Micros, StoredRecord)>) -> Seq<(Micros, RecordView)> {
    Seq::new(records.len(), |i: int| (records[i].0, records[i].1@))
}

/// How many questions of a trace changed files at a place.
pub open spec fn changes(trace: Seq<Op>, place: Place) -> int
    decreases trace.len(),
{
    if trace.len() == 0 {
        0
    } else {
        changes(trace.drop_last(), place) + if changes_at(trace.last(), place) {
            1int
        } else {
            0
        }
    }
}

/// A question that may change files at a place.
pub open spec fn changes_at(op: Op, place: Place) -> bool {
    match op {
        Op::Create { file, .. } => file.place == place,
        Op::Grow { file, .. } => file.place == place,
        Op::Write { file, .. } => file.place == place,
        Op::WriteFooter { file, .. } => file.place == place,
        Op::Truncate { file, .. } => file.place == place,
        Op::Remove { file, .. } => file.place == place,
        Op::Unlink { file, .. } => file.place == place,
        Op::SwapIn { file, .. } => file.place == place,
        Op::Sweep { place: p, .. } => p == place,
        _ => false,
    }
}

/// A trace continues another.
#[verifier::opaque]
pub open spec fn grown(before: Seq<Op>, after: Seq<Op>) -> bool {
    &&& before.len() <= after.len()
    &&& forall|k: int| 0 <= k < before.len() ==> #[trigger] after[k] == before[k]
}

pub broadcast proof fn lemma_grown_same(trace: Seq<Op>)
    ensures
        #[trigger] grown(trace, trace),
{
    reveal(grown);
}

pub broadcast proof fn lemma_grown_push(trace: Seq<Op>, op: Op)
    ensures
        grown(trace, #[trigger] trace.push(op)),
{
    reveal(grown);
}

pub broadcast proof fn lemma_grown_on(a: Seq<Op>, b: Seq<Op>, c: Seq<Op>)
    requires
        #[trigger] grown(a, b),
        #[trigger] grown(b, c),
    ensures
        grown(a, c),
{
    reveal(grown);
}

/// Something that was asked in between was answered with this error.
#[verifier::opaque]
pub open spec fn answered(before: Seq<Op>, after: Seq<Op>, e: Error) -> bool {
    exists|k: int| before.len() <= k < after.len() && refused_with(#[trigger] after[k], e)
}

pub broadcast proof fn lemma_answered_push(before: Seq<Op>, trace: Seq<Op>, op: Op, e: Error)
    requires
        grown(before, trace),
    ensures
        #[trigger] answered(before, trace.push(op), e) == (refused_with(op, e) || answered(
            before,
            trace,
            e,
        )),
{
    reveal(answered);
    reveal(grown);
    let after = trace.push(op);
    if refused_with(op, e) {
        assert(after[trace.len() as int] == op);
    }
    if answered(before, trace, e) {
        let k = choose|k: int| before.len() <= k < trace.len() && refused_with(
            #[trigger] trace[k],
            e,
        );
        assert(after[k] == trace[k]);
    }
    if answered(before, after, e) && !refused_with(op, e) {
        let k = choose|k: int| before.len() <= k < after.len() && refused_with(
            #[trigger] after[k],
            e,
        );
        assert(after[k] == trace[k]);
    }
}

pub broadcast proof fn lemma_answered_before(a: Seq<Op>, b: Seq<Op>, c: Seq<Op>, e: Error)
    requires
        #[trigger] answered(a, b, e),
        #[trigger] grown(b, c),
    ensures
        answered(a, c, e),
{
    reveal(answered);
    reveal(grown);
    let k = choose|k: int| a.len() <= k < b.len() && refused_with(#[trigger] b[k], e);
    assert(c[k] == b[k]);
}

pub broadcast proof fn lemma_answered_later(a: Seq<Op>, b: Seq<Op>, c: Seq<Op>, e: Error)
    requires
        #[trigger] grown(a, b),
        #[trigger] answered(b, c, e),
    ensures
        answered(a, c, e),
{
    reveal(answered);
    reveal(grown);
}

pub broadcast group group_answered {
    lemma_answered_push,
    lemma_answered_before,
    lemma_answered_later,
}

/// No file changed, but for those at a place.
pub open spec fn only_changes(before: Seq<Op>, after: Seq<Op>, place: Place) -> bool {
    &&& grown(before, after)
    &&& forall|p: Place| p != place ==> #[trigger] changes(after, p) == changes(before, p)
    &&& read_out(after) == read_out(before)
    &&& fetched(after) == fetched(before)
    &&& unpacked(after) == unpacked(before)
    &&& looks(after) == looks(before)
}

/// No file changed, but for those at a place; records may have been read.
pub open spec fn only_changes_but_read(before: Seq<Op>, after: Seq<Op>, place: Place) -> bool {
    &&& grown(before, after)
    &&& forall|p: Place| p != place ==> #[trigger] changes(after, p) == changes(before, p)
}

/// No file changed.
pub open spec fn only_reads(before: Seq<Op>, after: Seq<Op>) -> bool {
    &&& grown(before, after)
    &&& forall|p: Place| #[trigger] changes(after, p) == changes(before, p)
    &&& read_out(after) == read_out(before)
    &&& fetched(after) == fetched(before)
    &&& unpacked(after) == unpacked(before)
    &&& made(after) == made(before)
}

/// A trace only grows at its end.
pub broadcast proof fn lemma_changes_push(trace: Seq<Op>, op: Op, place: Place)
    ensures
        #[trigger] changes(trace.push(op), place) == changes(trace, place) + if changes_at(
            op,
            place,
        ) {
            1int
        } else {
            0
        },
{
    assert(trace.push(op).drop_last() =~= trace);
}

/// A trace only grows at its end.
pub broadcast proof fn lemma_read_out_push(trace: Seq<Op>, op: Op)
    ensures
        #![trigger read_out(trace.push(op))]
        #![trigger fetched(trace.push(op))]
        #![trigger looks(trace.push(op))]
        #![trigger unpacked(trace.push(op))]
        unpacked(trace.push(op)) == match op {
            Op::Records { outcome: Ok(block), .. } => unpacked(trace).push(
                (block.compression, records_of(block.records@)),
            ),
            _ => unpacked(trace),
        },
        read_out(trace.push(op)) == match op {
            Op::Records { outcome: Ok(block), .. } => read_out(trace) + records_of(block.records@),
            _ => read_out(trace),
        },
        fetched(trace.push(op)) == match op {
            Op::Records { file, offset, outcome: Ok(_), .. } => fetched(trace).push((file, offset)),
            _ => fetched(trace),
        },
        looks(trace.push(op)) == match op {
            Op::BlockHeader { file, offset, outcome } => looks(trace).push(
                Look { file, offset, found: outcome },
            ),
            _ => looks(trace),
        },
{
    assert(trace.push(op).drop_last() =~= trace);
}

/// No record went into a block, and no block was closed or written.
pub open spec fn quiet(before: Seq<Op>, after: Seq<Op>) -> bool {
    &&& landed(after) == landed(before)
    &&& written(after) == written(before)
    &&& accepted(after) == accepted(before)
    &&& finished(after) == finished(before)
    &&& stamped(after) == stamped(before)
    &&& refusals(after) >= refusals(before)
    &&& grown(before, after)
    &&& no_dirtier(before, after)
}

/// No record went into a block.
pub open spec fn no_input(before: Seq<Op>, after: Seq<Op>) -> bool {
    &&& accepted(after) == accepted(before)
    &&& refusals(after) >= refusals(before)
    &&& grown(before, after)
}

/// The medium answered something with an error in between.
pub open spec fn troubled(before: Seq<Op>, after: Seq<Op>) -> bool {
    refusals(after) > refusals(before)
}

/// A trace only grows at its end.
pub broadcast proof fn lemma_landed_push(trace: Seq<Op>, op: Op)
    ensures
        #![trigger landed(trace.push(op))]
        #![trigger refusals(trace.push(op))]
        #![trigger accepted(trace.push(op))]
        #![trigger finished(trace.push(op))]
        #![trigger written(trace.push(op))]
        #![trigger made(trace.push(op))]
        #![trigger stamped(trace.push(op))]
        stamped(trace.push(op)) == stamped_by(stamped(trace), trace, op),
        made(trace.push(op)) == match op {
            Op::Create { file, header, capacity, refused: None } => made(trace).push(
                Made { file, header, capacity },
            ),
            _ => made(trace),
        },
        landed(trace.push(op)) == landed(trace) + landed_by(op),
        written(trace.push(op)) == match op {
            Op::Write { file, offset, block, refused: None } => written(trace).push(
                Landed { file, offset, block, stamped: stamped(trace) },
            ),
            _ => written(trace),
        },
        refusals(trace.push(op)) == refusals(trace) + if refused(op) {
            1int
        } else {
            0
        },
        accepted(trace.push(op)) == match op {
            Op::PushRecord { place, at, record, outcome: Ok(_) } => accepted(trace).push(
                Accepted { place, at, record },
            ),
            _ => accepted(trace),
        },
        finished(trace.push(op)) == match op {
            Op::Finish { outcome: Ok(f), .. } => Some(f),
            _ => finished(trace),
        },
{
    assert(trace.push(op).drop_last() =~= trace);
}

pub broadcast group group_trace {
    lemma_landed_push,
    lemma_grown_same,
    lemma_grown_push,
    lemma_grown_on,
    lemma_dirtier_same,
    lemma_dirtier_push,
    lemma_dirtier_on,
    lemma_dirties_nothing,
    lemma_dirties_on,
    lemma_dirties_then_not,
    lemma_dirties_later,
}

pub broadcast group group_synced {
    lemma_unsynced_push,
    lemma_no_dirtier,
    lemma_assembled_push,
    lemma_same_assembled,
}

/// The medium together with the trace of what was asked of it.
pub struct Io<M> {
    medium: M,
    trace: Ghost<Seq<Op>>,
}

impl<M> View for Io<M> {
    type V = Seq<Op>;

    closed spec fn view(&self) -> Seq<Op> {
        self.trace@
    }
}

impl<M: Medium> Io<M> {
    pub fn new(medium: M) -> (io: Io<M>)
        ensures
            io@ == Seq::<Op>::empty(),
    {
        Io { medium, trace: Ghost(Seq::empty()) }
    }

    /// The medium itself.
    pub fn into_inner(self) -> (medium: M) {
        self.medium
    }

    /// The medium itself, borrowed.
    pub fn medium(&self) -> (medium: &M) {
        &self.medium
    }

    pub fn now(&mut self) -> (nanos: u64)
        ensures
            final(self)@ == old(self)@.push(Op::Now { nanos }),
    {
        let nanos: u64 = self.medium.now();
        self.trace = Ghost(self.trace@.push(Op::Now { nanos }));
        nanos
    }

    pub fn path_of(&mut self, file: SegmentFile) -> (path: String)
        ensures
            final(self)@ == old(self)@,
    {
        self.medium.path_of(file)
    }

    pub fn dir_of(&mut self, place: Place) -> (path: String)
        ensures
            final(self)@ == old(self)@,
    {
        self.medium.dir_of(place)
    }

    pub fn held_bytes(&mut self, place: Place) -> (n: u64)
        ensures
            final(self)@ == old(self)@.push(Op::Held { place, bytes: n }),
    {
        let n: u64 = self.medium.held_bytes(place);
        self.trace = Ghost(self.trace@.push(Op::Held { place, bytes: n }));
        n
    }

    pub fn reset_block(&mut self, place: Place)
        ensures
            final(self)@ == old(self)@.push(Op::ResetBlock { place }),
    {
        self.medium.reset_block(place);
        self.trace = Ghost(self.trace@.push(Op::ResetBlock { place }));
    }

    pub fn release_buffers(&mut self, place: Place)
        ensures
            final(self)@ == old(self)@.push(Op::ReleaseBuffers { place }),
    {
        self.medium.release_buffers(place);
        self.trace = Ghost(self.trace@.push(Op::ReleaseBuffers { place }));
    }

    pub fn close(&mut self, file: SegmentFile)
        ensures
            final(self)@ == old(self)@.push(Op::Close { file }),
    {
        self.medium.close(file);
        self.trace = Ghost(self.trace@.push(Op::Close { file }));
    }

    pub fn write_footer(&mut self, file: SegmentFile, offset: u64, footer: &Footer) -> (r: Result<
        u64,
        Error,
    >)
        ensures
            final(self)@ == old(self)@.push(
                Op::WriteFooter { file, offset, footer: *footer, outcome: r },
            ),
    {
        let r = self.medium.write_footer(file, offset, footer);
        self.trace = Ghost(
            self.trace@.push(Op::WriteFooter { file, offset, footer: *footer, outcome: r }),
        );
        r
    }

    pub fn read_footer(&mut self, file: SegmentFile, offset: u64, len: u64) -> (r: Result<
        Option<Footer>,
        Error,
    >)
        ensures
            final(self)@ == old(self)@.push(Op::ReadFooter { file, offset, len, outcome: r }),
    {
        let r = self.medium.read_footer(file, offset, len);
        self.trace = Ghost(self.trace@.push(Op::ReadFooter { file, offset, len, outcome: r }));
        r
    }

    pub fn attach(&mut self, place: Place, dir: &str) -> (r: Result<(), Error>)
        ensures
            final(self)@ == old(self)@.push(
                Op::Attach { place, dir: dir@, refused: refusal(r) },
            ),
    {
        let r = self.medium.attach(place, dir);
        self.trace = Ghost(
            self.trace@.push(Op::Attach { place, dir: dir@, refused: refusal(r) }),
        );
        r
    }

    pub fn sweep(&mut self, place: Place) -> (r: Result<(), Error>)
        ensures
            final(self)@ == old(self)@.push(Op::Sweep { place, refused: refusal(r) }),
    {
        let r = self.medium.sweep(place);
        self.trace = Ghost(self.trace@.push(Op::Sweep { place, refused: refusal(r) }));
        r
    }

    pub fn list(&mut self, place: Place) -> (r: Result<Option<Vec<Listed>>, Error>)
        ensures
            final(self)@ == old(self)@.push(Op::List { place, outcome: r }),
    {
        let r = self.medium.list(place);
        self.trace = Ghost(self.trace@.push(Op::List { place, outcome: r }));
        r
    }

    pub fn create(&mut self, file: SegmentFile, header: SegmentHeader, capacity: u64) -> (r: Result<(), Error>)
        ensures
            final(self)@ == old(self)@.push(Op::Create { file, header, capacity, refused: refusal(r) }),
    {
        let r = self.medium.create(file, header, capacity);
        self.trace = Ghost(self.trace@.push(Op::Create { file, header, capacity, refused: refusal(r) }));
        r
    }

    pub fn open_for_append(&mut self, file: SegmentFile) -> (r: Result<u64, Error>)
        ensures
            final(self)@ == old(self)@.push(Op::Open { file, outcome: r }),
    {
        let r = self.medium.open_for_append(file);
        self.trace = Ghost(self.trace@.push(Op::Open { file, outcome: r }));
        r
    }

    pub fn open_for_reading(&mut self, file: SegmentFile) -> (r: Result<u64, Error>)
        ensures
            final(self)@ == old(self)@.push(Op::OpenToRead { file, outcome: r }),
    {
        let r = self.medium.open_for_reading(file);
        self.trace = Ghost(self.trace@.push(Op::OpenToRead { file, outcome: r }));
        r
    }

    pub fn grow(&mut self, file: SegmentFile, capacity: u64) -> (r: Result<(), Error>)
        ensures
            final(self)@ == old(self)@.push(Op::Grow { file, capacity, refused: refusal(r) }),
    {
        let r = self.medium.grow(file, capacity);
        self.trace = Ghost(self.trace@.push(Op::Grow { file, capacity, refused: refusal(r) }));
        r
    }

    pub fn write_block(&mut self, file: SegmentFile, offset: u64, block: BlockInfo) -> (r: Result<(), Error>)
        ensures
            final(self)@ == old(self)@.push(Op::Write { file, offset, block, refused: refusal(r) }),
    {
        let r = self.medium.write_block(file, offset, block);
        self.trace = Ghost(self.trace@.push(Op::Write { file, offset, block, refused: refusal(r) }));
        r
    }

    pub fn sync(&mut self, file: SegmentFile) -> (r: Result<(), Error>)
        ensures
            final(self)@ == old(self)@.push(Op::Sync { file, refused: refusal(r) }),
    {
        let r = self.medium.sync(file);
        self.trace = Ghost(self.trace@.push(Op::Sync { file, refused: refusal(r) }));
        r
    }

    pub fn truncate(&mut self, file: SegmentFile, len: u64) -> (r: Result<(), Error>)
        ensures
            final(self)@ == old(self)@.push(Op::Truncate { file, len, refused: refusal(r) }),
    {
        let r = self.medium.truncate(file, len);
        self.trace = Ghost(self.trace@.push(Op::Truncate { file, len, refused: refusal(r) }));
        r
    }

    pub fn remove(&mut self, file: SegmentFile) -> (r: Result<(), Error>)
        ensures
            final(self)@ == old(self)@.push(Op::Remove { file, refused: refusal(r) }),
    {
        let r = self.medium.remove(file);
        self.trace = Ghost(self.trace@.push(Op::Remove { file, refused: refusal(r) }));
        r
    }

    pub fn unlink(&mut self, file: SegmentFile) -> (r: Result<(), Error>)
        ensures
            final(self)@ == old(self)@.push(Op::Unlink { file, refused: refusal(r) }),
    {
        let r = self.medium.unlink(file);
        self.trace = Ghost(self.trace@.push(Op::Unlink { file, refused: refusal(r) }));
        r
    }

    pub fn sync_dir(&mut self, place: Place) -> (r: Result<(), Error>)
        ensures
            final(self)@ == old(self)@.push(Op::SyncDir { place, refused: refusal(r) }),
    {
        let r = self.medium.sync_dir(place);
        self.trace = Ghost(self.trace@.push(Op::SyncDir { place, refused: refusal(r) }));
        r
    }

    pub fn swap_in(&mut self, file: SegmentFile) -> (r: Result<(), Error>)
        ensures
            final(self)@ == old(self)@.push(Op::SwapIn { file, refused: refusal(r) }),
    {
        let r = self.medium.swap_in(file);
        self.trace = Ghost(self.trace@.push(Op::SwapIn { file, refused: refusal(r) }));
        r
    }

    pub fn read_segment_header(&mut self, file: SegmentFile) -> (r: Result<SegmentHeader, Error>)
        ensures
            final(self)@ == old(self)@.push(Op::SegmentHeader { file, outcome: r }),
    {
        let r = self.medium.read_segment_header(file);
        self.trace = Ghost(self.trace@.push(Op::SegmentHeader { file, outcome: r }));
        r
    }

    pub fn read_block_header(&mut self, file: SegmentFile, offset: u64) -> (r: HeaderProbe)
        ensures
            final(self)@ == old(self)@.push(Op::BlockHeader { file, offset, outcome: r }),
    {
        let r = self.medium.read_block_header(file, offset);
        self.trace = Ghost(self.trace@.push(Op::BlockHeader { file, offset, outcome: r }));
        r
    }

    pub fn read_block_body(&mut self, file: SegmentFile, offset: u64, header: BlockHeader) -> (r: BodyProbe)
        ensures
            final(self)@ == old(self)@.push(Op::BlockBody { file, offset, header, outcome: r }),
    {
        let r = self.medium.read_block_body(file, offset, header);
        self.trace = Ghost(self.trace@.push(Op::BlockBody { file, offset, header, outcome: r }));
        r
    }

    pub fn read_records(&mut self, file: SegmentFile, offset: u64, header: BlockHeader) -> (r:
        Result<BlockContents, Error>)
        ensures
            final(self)@ == old(self)@.push(Op::Records { file, offset, header, outcome: r }),
    {
        let r = self.medium.read_records(file, offset, header);
        self.trace = Ghost(self.trace@.push(Op::Records { file, offset, header, outcome: r }));
        r
    }

    pub fn ends_with_signature(&mut self, file: SegmentFile, len: u64) -> (r: bool)
        ensures
            final(self)@ == old(self)@.push(Op::Signature { file, len, outcome: r }),
    {
        let r = self.medium.ends_with_signature(file, len);
        self.trace = Ghost(self.trace@.push(Op::Signature { file, len, outcome: r }));
        r
    }

    pub fn read_trailer(&mut self, file: SegmentFile, offset: u64) -> (r: Result<Option<u64>, Error>)
        ensures
            final(self)@ == old(self)@.push(Op::Trailer { file, offset, outcome: r }),
    {
        let r = self.medium.read_trailer(file, offset);
        self.trace = Ghost(self.trace@.push(Op::Trailer { file, offset, outcome: r }));
        r
    }

    pub fn push_record(&mut self, place: Place, at: Micros, record: &Record<'_>) -> (r: Result<u64, Error>)
        ensures
            final(self)@ == old(self)@.push(Op::PushRecord { place, at, record: record@, outcome: r }),
    {
        let r = self.medium.push_record(place, at, record);
        self.trace = Ghost(self.trace@.push(Op::PushRecord { place, at, record: record@, outcome: r }));
        r
    }

    pub fn finish_block(&mut self, place: Place, seq: u32, compression: Compression) -> (r: Result<Finished, Error>)
        ensures
            final(self)@ == old(self)@.push(Op::Finish { place, seq, compression, outcome: r }),
    {
        let r = self.medium.finish_block(place, seq, compression);
        self.trace = Ghost(self.trace@.push(Op::Finish { place, seq, compression, outcome: r }));
        r
    }

    pub fn restamp(&mut self, place: Place, seq: u32) -> (r: Result<(), Error>)
        ensures
            final(self)@ == old(self)@.push(Op::Restamp { place, seq, refused: refusal(r) }),
    {
        let r = self.medium.restamp(place, seq);
        self.trace = Ghost(self.trace@.push(Op::Restamp { place, seq, refused: refusal(r) }));
        r
    }
}

} // verus!
