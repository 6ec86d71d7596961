//! The segment file: creation, appending blocks, sealing, recovery.
//!
//! Space for a segment is reserved as a **window**: a first extent is taken at
//! once, and the window then grows by eighths of the limit until it reaches it.
//! Inside the window an append does not change the size of the file, running out
//! of space shows when the window is extended rather than in the middle of a
//! block, and the unwritten tail is zero, which a scan reads as the end of data.
//!
//! A cut at any step leaves a segment that is either absent, or valid but
//! unsealed: sealing cuts the file down to its data and appends a footer, and
//! the footer is an optimization of reading.

use crate::error::Error;
use crate::footer::{BlockEntry, Footer, FooterBuilder, FooterView};
use crate::format::{BlockHeader, EventId, Layout, MetricId, Micros, SegmentHeader, SegmentName};
use crate::medium;
use crate::medium::{
    BlockInfo, BlockTypes, BodyProbe, HeaderProbe, Io, Look, Medium, Op, Place, SegmentFile,
};
use crate::text;
use vstd::prelude::*;

verus! {

broadcast use crate::medium::group_trace;

/// The ceiling on a footer size a reader agrees to read. The length comes from a
/// trailer that is verified only by its signature, and "it fits the file" would
/// permit a read of the size of the file on the strength of one number.
pub const MAX_FOOTER: u64 = 8 * 1024 * 1024;

/// How much a segment takes on the medium at creation: the first window.
pub const FIRST_EXTENT: u64 = 64 * 1024;

pub open spec fn max(a: int, b: int) -> int {
    if a >= b {
        a
    } else {
        b
    }
}

pub open spec fn min(a: int, b: int) -> int {
    if a <= b {
        a
    } else {
        b
    }
}

// ---------------------------------------------------------------------------
// Writing
// ---------------------------------------------------------------------------

/// A segment open for writing.
#[derive(Debug, Clone, Copy)]
pub struct SegmentWriter {
    pub file: SegmentFile,
    /// Where the next block will land.
    pub end: u64,
    /// How many bytes are reserved on the medium: the current window.
    pub capacity: u64,
    /// The growth limit: the rotation boundary.
    pub limit: u64,
    pub header: SegmentHeader,
    /// The number of the next block. A gap in the numbering tells a lost block
    /// from corruption at read time.
    pub next_seq: u32,
    /// There is data that is not synced.
    pub dirty: bool,
    pub layout: Layout,
}

/// The smallest segment: a header and a zero terminator.
pub open spec fn floor_of(layout: Layout) -> int {
    layout.segment_header + layout.block_header
}

/// The growth limit of a new segment.
pub open spec fn limit_of(layout: Layout, limit: u64) -> int {
    max(limit as int, floor_of(layout))
}

/// The first window of a new segment.
pub open spec fn first_window(layout: Layout, limit: u64) -> int {
    min(max(FIRST_EXTENT as int, floor_of(layout)), limit_of(layout, limit))
}

impl SegmentWriter {
    /// The data lies inside the window.
    pub open spec fn wf(self) -> bool {
        self.end <= self.capacity
    }

    /// A segment as it stands right after its creation.
    pub open spec fn created(
        file: SegmentFile,
        header: SegmentHeader,
        limit: u64,
        layout: Layout,
    ) -> SegmentWriter {
        SegmentWriter {
            file,
            end: layout.segment_header as u64,
            capacity: first_window(layout, limit) as u64,
            limit: limit_of(layout, limit) as u64,
            header,
            next_seq: 0,
            dirty: false,
            layout,
        }
    }

    /// Creates a new segment with a growth limit. On the medium it takes the
    /// first window: the limit is the rotation boundary, not the file's size.
    pub fn create<M: Medium>(
        io: &mut Io<M>,
        place: Place,
        header: SegmentHeader,
        limit: u64,
        layout: Layout,
    ) -> (r: Result<SegmentWriter, Error>)
        ensures
            medium::only_changes(old(io)@, final(io)@, place),
            medium::quiet(old(io)@, final(io)@),
            r is Err ==> medium::troubled(old(io)@, final(io)@),
            ({
                let file = SegmentFile { place, name: header.name() };
                let capacity = first_window(layout, limit) as u64;
                match r {
                    Ok(w) => w == Self::created(file, header, limit, layout) && w.wf()
                        && final(io)@ == old(io)@.push(
                        Op::Create { file, header, capacity, refused: None },
                    ),
                    Err(e) => final(io)@ == old(io)@.push(
                        Op::Create { file, header, capacity, refused: Some(e) },
                    ),
                }
            }),
    {
        broadcast use {
            medium::group_trace,
            medium::lemma_changes_push,
            medium::lemma_read_out_push,
        };

        let floor: u64 = layout.segment_header as u64 + layout.block_header as u64;
        let limit: u64 = if limit < floor {
            floor
        } else {
            limit
        };
        let extent: u64 = if FIRST_EXTENT < floor {
            floor
        } else {
            FIRST_EXTENT
        };
        let capacity: u64 = if extent > limit {
            limit
        } else {
            extent
        };
        let file = SegmentFile { place, name: header.file_name() };
        match io.create(file, header, capacity) {
            Ok(()) => Ok(
                SegmentWriter {
                    file,
                    end: layout.segment_header as u64,
                    capacity,
                    limit,
                    header,
                    next_seq: 0,
                    dirty: false,
                    layout,
                },
            ),
            Err(e) => Err(e),
        }
    }

    /// The number the next block will get.
    pub fn next_seq(&self) -> (seq: u32)
        ensures
            seq == self.next_seq,
    {
        self.next_seq
    }

    pub fn header(&self) -> (h: SegmentHeader)
        ensures
            h == self.header,
    {
        self.header
    }

    /// The file the segment is written to.
    pub fn path(&self) -> (f: SegmentFile)
        ensures
            f == self.file,
    {
        self.file
    }

    /// The end of the data: the size of the useful part.
    pub fn data_end(&self) -> (end: u64)
        ensures
            end == self.end,
    {
        self.end
    }

    /// How many bytes still fit before the growth limit.
    pub fn remaining(&self) -> (n: u64)
        ensures
            n == max(self.limit - self.end, 0),
    {
        self.limit.saturating_sub(self.end)
    }

    /// How many bytes the segment takes on the medium: header, data and the
    /// unwritten tail of the window. This is what a budget counts.
    pub fn capacity(&self) -> (n: u64)
        ensures
            n == self.capacity,
    {
        self.capacity
    }

    /// Whether there is unsynced data.
    pub fn is_dirty(&self) -> (yes: bool)
        ensures
            yes == self.dirty,
    {
        self.dirty
    }

    /// A block of this size fits under the growth limit with room for the zero
    /// terminator.
    pub open spec fn has_room(self, block_len: int) -> bool {
        self.end + block_len + self.layout.block_header <= self.limit
    }

    /// Whether a block of this size fits, by the growth limit and not by the
    /// window: this decides whether it is time to rotate the segment.
    pub fn fits(&self, block_len: u64) -> (yes: bool)
        ensures
            yes == self.has_room(block_len as int),
    {
        let hdr: u64 = self.layout.block_header as u64;
        let remaining: u64 = self.limit.saturating_sub(self.end);
        self.limit >= self.end && remaining >= hdr && remaining - hdr >= block_len
    }

    /// What the window has to hold for a block of this size: the data, the block
    /// and the zero terminator.
    pub open spec fn needed(self, block_len: u64) -> int {
        min(self.end + block_len + self.layout.block_header, u64::MAX as int)
    }

    /// One step of the window: an eighth of the limit, at least a first extent.
    pub open spec fn step(self) -> int {
        max(self.limit as int / 8, min(FIRST_EXTENT as int, self.limit as int))
    }

    /// The window after it was stretched for a block of this size. A step never
    /// raises the window above the limit; only a concrete need does.
    pub open spec fn stretched(self, block_len: u64) -> int {
        max(self.needed(block_len), min(min(self.capacity + self.step(), u64::MAX as int), self.limit as int))
    }

    /// Stretches the window to hold a block of this size.
    pub fn reserve<M: Medium>(&mut self, block_len: u64, io: &mut Io<M>) -> (r: Result<(), Error>)
        requires
            old(self).wf(),
        ensures
            final(self).wf(),
            medium::only_changes(old(io)@, final(io)@, old(self).file.place),
            medium::quiet(old(io)@, final(io)@),
            r is Err ==> medium::troubled(old(io)@, final(io)@),
            old(self).needed(block_len) <= old(self).capacity ==> r is Ok && *final(self) == *old(
                self,
            ) && final(io)@ == old(io)@,
            old(self).needed(block_len) > old(self).capacity ==> {
                let want = old(self).stretched(block_len) as u64;
                match r {
                    Ok(_) => *final(self) == (SegmentWriter { capacity: want, ..*old(self) })
                        && final(io)@ == old(io)@.push(
                        Op::Grow { file: old(self).file, capacity: want, refused: None },
                    ),
                    Err(e) => *final(self) == *old(self) && final(io)@ == old(io)@.push(
                        Op::Grow { file: old(self).file, capacity: want, refused: Some(e) },
                    ),
                }
            },
    {
        broadcast use {
            medium::group_trace,
            medium::lemma_changes_push,
            medium::lemma_read_out_push,
        };

        let need: u64 = self.end.saturating_add(block_len).saturating_add(
            self.layout.block_header as u64,
        );
        if need <= self.capacity {
            return Ok(());
        }
        let eighth: u64 = self.limit / 8;
        let least: u64 = if FIRST_EXTENT < self.limit {
            FIRST_EXTENT
        } else {
            self.limit
        };
        let step: u64 = if eighth > least {
            eighth
        } else {
            least
        };
        let grown: u64 = self.capacity.saturating_add(step);
        let bounded: u64 = if grown < self.limit {
            grown
        } else {
            self.limit
        };
        let want: u64 = if need > bounded {
            need
        } else {
            bounded
        };
        match io.grow(self.file, want) {
            Ok(()) => {
                self.capacity = want;
                Ok(())
            },
            Err(e) => Err(e),
        }
    }

    /// A block was written at the end of the data.
    pub open spec fn with_block(self, block: BlockInfo) -> SegmentWriter {
        SegmentWriter {
            end: (self.end + block.len) as u64,
            next_seq: min(self.next_seq + 1, u32::MAX as int) as u32,
            dirty: true,
            ..self
        }
    }

    /// The window is wide enough for a block.
    pub open spec fn window_holds(self, block_len: u64) -> bool {
        self.needed(block_len) <= self.capacity
    }

    /// The window, stretched for a block where it is not wide enough.
    pub open spec fn windowed(self, block_len: u64) -> SegmentWriter {
        if self.window_holds(block_len) {
            self
        } else {
            SegmentWriter { capacity: self.stretched(block_len) as u64, ..self }
        }
    }

    /// Asking for the window to be stretched for a block.
    pub open spec fn stretching(self, block_len: u64, refused: Option<Error>) -> Op {
        Op::Grow { file: self.file, capacity: self.stretched(block_len) as u64, refused }
    }

    /// Asking for a block to be written at the end of the data.
    pub open spec fn writing(self, block: BlockInfo, refused: Option<Error>) -> Op {
        Op::Write { file: self.file, offset: self.end, block, refused }
    }

    /// What appending a block comes to: the window is stretched where it has to be, then the
    /// block is written. What the medium refused changes nothing; a window that was stretched
    /// stays.
    pub open spec fn appending(
        self,
        after: SegmentWriter,
        block: BlockInfo,
        t0: Seq<Op>,
        t1: Seq<Op>,
        r: Result<u64, Error>,
    ) -> bool {
        let wide = self.windowed(block.len);
        let t = if self.window_holds(block.len) {
            t0
        } else {
            t0.push(self.stretching(block.len, None))
        };
        ||| {
            &&& !self.window_holds(block.len)
            &&& after == self
            &&& r matches Err(e) && t1 == t0.push(self.stretching(block.len, Some(e)))
        }
        ||| {
            &&& self.end + block.len > u64::MAX
            &&& after == wide
            &&& t1 == t
            &&& r matches Err(e) && e is NoSpace
        }
        ||| {
            &&& self.end + block.len <= u64::MAX
            &&& match r {
                Ok(at) => {
                    &&& at == self.end
                    &&& after == wide.with_block(block)
                    &&& t1 == t.push(self.writing(block, None))
                },
                Err(e) => after == wide && t1 == t.push(self.writing(block, Some(e))),
            }
        }
    }

    /// Appends a finished block; the answer is its offset.
    ///
    /// The window is stretched here rather than in the caller: forgetting it
    /// would mean running out of space in the middle of a block.
    pub fn append_block<M: Medium>(&mut self, block: BlockInfo, io: &mut Io<M>) -> (r: Result<
        u64,
        Error,
    >)
        requires
            old(self).wf(),
        ensures
            final(self).wf(),
            final(self).file == old(self).file,
            final(self).header == old(self).header,
            final(self).limit == old(self).limit,
            final(self).layout == old(self).layout,
            medium::only_changes(old(io)@, final(io)@, old(self).file.place),
            medium::dirties_at(old(io)@, final(io)@, old(self).file.place),
            medium::made(final(io)@) == medium::made(old(io)@),
            old(self).appending(*final(self), block, old(io)@, final(io)@, r),
            r matches Ok(offset) ==> {
                &&& offset == old(self).end
                &&& final(self).capacity == if old(self).window_holds(block.len) {
                    old(self).capacity as int
                } else {
                    old(self).stretched(block.len)
                }
                &&& *final(self) == (SegmentWriter {
                    capacity: final(self).capacity,
                    ..old(self).with_block(block)
                })
                &&& old(self).end + block.len <= u64::MAX
                &&& medium::landed(final(io)@) == medium::landed(old(io)@) + block.header.count
                &&& medium::accepted(final(io)@) == medium::accepted(old(io)@)
                &&& medium::finished(final(io)@) == medium::finished(old(io)@)
                &&& medium::refusals(final(io)@) >= medium::refusals(old(io)@)
                &&& medium::written(final(io)@) == medium::written(old(io)@).push(
                    medium::Landed {
                        file: old(self).file,
                        offset,
                        block,
                        stamped: medium::stamped(old(io)@),
                    },
                )
                &&& medium::stamped(final(io)@) == medium::stamped(old(io)@)
                &&& medium::assembled(final(io)@, old(self).file.place) == medium::assembled(
                    old(io)@,
                    old(self).file.place,
                )
                &&& final(io)@.len() > 0
                &&& final(io)@.last() == (Op::Write {
                    file: old(self).file,
                    offset,
                    block,
                    refused: None,
                })
            },
            r matches Err(e) ==> {
                &&& medium::quiet(old(io)@, final(io)@)
                &&& {
                    ||| medium::troubled(old(io)@, final(io)@) && medium::refused_with(
                        final(io)@.last(),
                        e,
                    ) && medium::answered(old(io)@, final(io)@, e)
                    ||| e is NoSpace && old(self).end + block.len > u64::MAX
                }
                &&& *final(self) == (SegmentWriter { capacity: final(self).capacity, ..*old(self) })
                &&& final(self).capacity >= old(self).capacity
            },
    {
        broadcast use {
            medium::group_trace,
            medium::group_answered,
            medium::lemma_changes_push,
            medium::lemma_read_out_push,
        };

        match self.reserve(block.len, io) {
            Ok(()) => {},
            Err(e) => {
                return Err(e);
            },
        }
        let offset: u64 = self.end;
        match offset.checked_add(block.len) {
            Some(end) => {
                let ghost reserved = io@;
                let written = io.write_block(self.file, offset, block);
                proof {
                    medium::lemma_dirties_push(reserved, io@.last(), self.file.place);
                    medium::lemma_assembled_push(reserved, io@.last(), self.file.place);
                    medium::lemma_same_assembled(old(io)@, reserved, self.file.place);
                    assert(io@ == reserved.push(io@.last()));
                    assert(medium::dirties_at(old(io)@, reserved, self.file.place));
                }
                match written {
                    Ok(()) => {},
                    Err(e) => {
                        return Err(e);
                    },
                }
                self.end = end;
                self.next_seq = self.next_seq.saturating_add(1);
                self.dirty = true;
                Ok(offset)
            },
            None => {
                let path = io.path_of(self.file);
                Err(Error::NoSpace(path))
            },
        }
    }

    /// Syncs the data; nothing is asked of the medium where there is none.
    pub fn sync<M: Medium>(&mut self, io: &mut Io<M>) -> (r: Result<(), Error>)
        ensures
            medium::only_changes(old(io)@, final(io)@, old(self).file.place),
            medium::quiet(old(io)@, final(io)@),
            r is Err ==> medium::troubled(old(io)@, final(io)@),
            !old(self).dirty ==> r is Ok && *final(self) == *old(self) && final(io)@ == old(io)@,
            old(self).dirty ==> match r {
                Ok(_) => *final(self) == (SegmentWriter { dirty: false, ..*old(self) })
                    && final(io)@ == old(io)@.push(
                    Op::Sync { file: old(self).file, refused: None },
                ),
                Err(e) => *final(self) == *old(self) && final(io)@ == old(io)@.push(
                    Op::Sync { file: old(self).file, refused: Some(e) },
                ),
            },
    {
        broadcast use {
            medium::group_trace,
            medium::lemma_changes_push,
            medium::lemma_read_out_push,
        };

        if !self.dirty {
            return Ok(());
        }
        match io.sync(self.file) {
            Ok(()) => {
                self.dirty = false;
                Ok(())
            },
            Err(e) => Err(e),
        }
    }

    /// The trace of a sync.
    pub open spec fn synced_trace(self, trace: Seq<Op>, refused: Option<Error>) -> Seq<Op> {
        if self.dirty {
            trace.push(Op::Sync { file: self.file, refused })
        } else {
            trace
        }
    }

    /// What sealing asks of the medium: a sync, the cut, the footer, a sync.
    pub open spec fn sealed_trace(self, pre: Seq<Op>, footer: Footer, len: u64) -> Seq<Op> {
        self.synced_trace(pre, None).push(
            Op::Truncate { file: self.file, len: self.end, refused: None },
        ).push(
            Op::WriteFooter { file: self.file, offset: self.end, footer, outcome: Ok(len) },
        ).push(Op::Sync { file: self.file, refused: None }).push(Op::Close { file: self.file })
    }

    /// The medium refused a step of sealing, and the file was closed.
    pub open spec fn seal_refused(self, t0: Seq<Op>, t1: Seq<Op>, e: Error) -> bool {
        &&& t1.len() >= 2
        &&& medium::refused_with(t1[t1.len() - 2], e)
        &&& t1.last() == (Op::Close { file: self.file })
        &&& medium::answered(t0, t1, e)
    }

    /// Seals the segment: syncs, cuts the file down to its data, appends the
    /// footer and syncs again. The answer is the length of the footer. A failure
    /// at any step leaves the segment valid but unsealed.
    pub fn seal<M: Medium>(self, footer: &Footer, io: &mut Io<M>) -> (r: Result<u64, Error>)
        ensures
            medium::only_changes(old(io)@, final(io)@, self.file.place),
            medium::quiet(old(io)@, final(io)@),
            r is Err ==> medium::troubled(old(io)@, final(io)@),
            r matches Ok(len) ==> final(io)@ == self.sealed_trace(old(io)@, *footer, len),
            r matches Err(e) ==> self.seal_refused(old(io)@, final(io)@, e),
    {
        broadcast use {
            medium::group_trace,
            medium::group_answered,
            medium::lemma_changes_push,
            medium::lemma_read_out_push,
        };

        let mut seg = self;
        match seg.sync(io) {
            Ok(()) => {},
            Err(e) => {
                io.close(self.file);
                return Err(e);
            },
        }
        match io.truncate(self.file, self.end) {
            Ok(()) => {},
            Err(e) => {
                io.close(self.file);
                return Err(e);
            },
        }
        let len: u64 = match io.write_footer(self.file, self.end, footer) {
            Ok(len) => len,
            Err(e) => {
                io.close(self.file);
                return Err(e);
            },
        };
        match io.sync(self.file) {
            Ok(()) => {},
            Err(e) => {
                io.close(self.file);
                return Err(e);
            },
        }
        io.close(self.file);
        Ok(len)
    }

    /// The file was synced, cut down to its data without a footer, and closed; or the
    /// medium refused, and it was closed.
    pub open spec fn was_closed(self, t0: Seq<Op>, t1: Seq<Op>, r: Result<(), Error>) -> bool {
        match r {
            Ok(_) => t1 == self.synced_trace(t0, None).push(
                Op::Truncate { file: self.file, len: self.end, refused: None },
            ).push(Op::Close { file: self.file }),
            Err(e) => {
                &&& t1.len() >= 2
                &&& medium::refused_with(t1[t1.len() - 2], e)
                &&& t1.last() == (Op::Close { file: self.file })
                &&& medium::answered(t0, t1, e)
                &&& medium::troubled(t0, t1)
            },
        }
    }

    /// Cuts the file down to its data without a footer and closes it.
    pub fn close_unsealed<M: Medium>(self, io: &mut Io<M>) -> (r: Result<(), Error>)
        ensures
            medium::quiet(old(io)@, final(io)@),
            r is Err ==> medium::troubled(old(io)@, final(io)@),
            self.was_closed(old(io)@, final(io)@, r),
    {
        broadcast use {
            medium::group_trace,
            medium::group_answered,
            medium::lemma_changes_push,
            medium::lemma_read_out_push,
        };

        let mut seg = self;
        match seg.sync(io) {
            Ok(()) => {},
            Err(e) => {
                io.close(self.file);
                return Err(e);
            },
        }
        let r = io.truncate(self.file, self.end);
        io.close(self.file);
        r
    }
}

/// While blocks are appended under the growth limit, the window never passes the
/// limit and always holds the data with a zero terminator behind it.
pub proof fn law_the_window_stays_under_the_limit(w: SegmentWriter, block_len: u64)
    requires
        w.wf(),
        w.has_room(block_len as int),
        w.capacity <= w.limit,
    ensures
        w.stretched(block_len) <= w.limit,
        w.needed(block_len) <= w.stretched(block_len) || w.window_holds(block_len),
        w.needed(block_len) == w.end + block_len + w.layout.block_header,
{
}

/// The window reaches the limit in at most eight steps: each takes an eighth of
/// the limit or goes all the way.
pub proof fn law_eight_steps_reach_the_limit(w: SegmentWriter, block_len: u64)
    requires
        w.wf(),
        w.has_room(block_len as int),
        w.capacity <= w.limit,
        !w.window_holds(block_len),
    ensures
        w.stretched(block_len) - w.capacity >= w.limit as int / 8 || w.stretched(block_len)
            == w.limit,
{
}

// ---------------------------------------------------------------------------
// Recovery
// ---------------------------------------------------------------------------

/// What ended the walk over blocks.
#[derive(Debug, Clone, Copy, PartialEq, Eq, Structural)]
pub enum ScanEnd {
    /// A zero header: the unwritten tail of the reserve window.
    ZeroTail,
    /// The data ended at the file boundary.
    FileEnd,
    /// The header or the checksum did not agree: a torn write, or corruption.
    Corrupt,
    /// A block number that is not the next: part of the data did not reach the
    /// medium although later parts did.
    SeqGap { expected: u32, found: u32 },
}

impl ScanEnd {
    pub open spec fn damage(self) -> bool {
        self is Corrupt || self is SeqGap
    }

    /// Whether this outcome calls for discarding the tail.
    pub fn is_damage(self) -> (yes: bool)
        ensures
            yes == self.damage(),
    {
        matches!(self, ScanEnd::Corrupt | ScanEnd::SeqGap { .. })
    }
}

/// The result of recovering a segment.
#[derive(Debug, Clone, Copy, PartialEq, Eq, Structural)]
pub struct Scan {
    pub header: SegmentHeader,
    /// The end of the last intact block.
    pub data_end: u64,
    pub block_count: u32,
    /// The number the next block should get.
    pub next_seq: u32,
    /// The time of the last block's first record.
    pub last_base: Micros,
    /// What ended the walk.
    pub stopped_by: ScanEnd,
}

/// A block that a walk accepted: its header and what stood in its body.
pub type Walked = (BlockHeader, BodyProbe);

/// Where the data ends behind these blocks.
pub open spec fn end_of(layout: Layout, blocks: Seq<Walked>) -> int
    decreases blocks.len(),
{
    if blocks.len() == 0 {
        layout.segment_header as int
    } else {
        end_of(layout, blocks.drop_last()) + layout.block_header + blocks.last().0.body_len
    }
}

/// The number of the block behind `n` others.
pub open spec fn seq_after(n: nat) -> u32 {
    min(n as int, u32::MAX as int) as u32
}

/// A body whose bytes agree with their checksum.
pub open spec fn is_intact(body: BodyProbe) -> bool {
    body is Sound || body is Opaque
}

/// The blocks are intact, numbered from zero and inside the file.
pub open spec fn walkable(layout: Layout, file_len: u64, blocks: Seq<Walked>) -> bool
    decreases blocks.len(),
{
    blocks.len() > 0 ==> {
        &&& walkable(layout, file_len, blocks.drop_last())
        &&& blocks.last().0.seq == seq_after((blocks.len() - 1) as nat)
        &&& is_intact(blocks.last().1)
        &&& end_of(layout, blocks) <= file_len
    }
}

/// The trace of reading the headers and the bodies of these blocks.
pub open spec fn after_blocks(
    trace: Seq<Op>,
    file: SegmentFile,
    layout: Layout,
    blocks: Seq<Walked>,
) -> Seq<Op>
    decreases blocks.len(),
{
    if blocks.len() == 0 {
        trace
    } else {
        let rest = blocks.drop_last();
        let offset = end_of(layout, rest) as u64;
        let (header, body) = blocks.last();
        after_blocks(trace, file, layout, rest).push(
            Op::BlockHeader { file, offset, outcome: HeaderProbe::Found(header) },
        ).push(Op::BlockBody { file, offset, header, outcome: body })
    }
}

/// The walk behind these blocks ends in this way: either the file has no room
/// for another header, or one more header (and, where it is the right one, the
/// body) was read and refused.
pub open spec fn walk_ends(
    before: Seq<Op>,
    after: Seq<Op>,
    file: SegmentFile,
    layout: Layout,
    file_len: u64,
    blocks: Seq<Walked>,
    end: ScanEnd,
) -> bool {
    let offset = end_of(layout, blocks);
    let count = seq_after(blocks.len());
    if file_len - offset < layout.block_header {
        end is FileEnd && after == before
    } else {
        exists|probe: HeaderProbe|
            {
                let asked = #[trigger] before.push(
                    Op::BlockHeader { file, offset: offset as u64, outcome: probe },
                );
                match probe {
                    HeaderProbe::Zero => end is ZeroTail && after == asked,
                    HeaderProbe::Unreadable(_) => end is Corrupt && after == asked,
                    HeaderProbe::Invalid(_) => end is Corrupt && after == asked,
                    HeaderProbe::Found(header) => if header.seq != count {
                        end == (ScanEnd::SeqGap { expected: count, found: header.seq }) && after
                            == asked
                    } else if offset + layout.block_header + header.body_len > file_len {
                        end is Corrupt && after == asked
                    } else {
                        exists|body: BodyProbe|
                            !is_intact(body) && end is Corrupt && after == #[trigger] asked.push(
                                Op::BlockBody {
                                    file,
                                    offset: offset as u64,
                                    header,
                                    outcome: body,
                                },
                            )
                    },
                }
            }
    }
}

/// Every body breaks into records.
pub open spec fn all_sound(blocks: Seq<Walked>) -> bool {
    forall|i: int| 0 <= i < blocks.len() ==> (#[trigger] blocks[i]).1 is Sound
}

/// The types of a block join those of the block being assembled.
pub open spec fn with_types(v: FooterView, types: BlockTypes) -> FooterView {
    FooterView {
        pending_events: v.pending_events.union(ids_of_events(types.events@)),
        pending_metrics: v.pending_metrics.union(ids_of_metrics(types.metrics@)),
        ..v
    }
}

pub open spec fn ids_of_events(ids: Seq<EventId>) -> Set<u16> {
    ids.map_values(|id: EventId| id.0).to_set()
}

pub open spec fn ids_of_metrics(ids: Seq<MetricId>) -> Set<u16> {
    ids.map_values(|id: MetricId| id.0).to_set()
}

/// The footer collected over these blocks; collecting stops at the first body
/// that does not break into records.
pub open spec fn collected(v: FooterView, layout: Layout, blocks: Seq<Walked>) -> FooterView
    decreases blocks.len(),
{
    if blocks.len() == 0 {
        v
    } else {
        let rest = blocks.drop_last();
        let so_far = collected(v, layout, rest);
        let (header, body) = blocks.last();
        match body {
            BodyProbe::Sound(types) => if all_sound(rest) {
                with_types(so_far, types).with_block(
                    BlockEntry {
                        offset: end_of(layout, rest) as u64,
                        base: header.base,
                        last: types.last,
                        count: header.count,
                    },
                )
            } else {
                so_far
            },
            _ => so_far,
        }
    }
}

/// The result of a walk over a segment.
pub open spec fn scan_of(
    header: SegmentHeader,
    layout: Layout,
    blocks: Seq<Walked>,
    end: ScanEnd,
) -> Scan {
    Scan {
        header,
        data_end: end_of(layout, blocks) as u64,
        block_count: seq_after(blocks.len()),
        next_seq: seq_after(blocks.len()),
        last_base: if blocks.len() > 0 {
            blocks.last().0.base
        } else {
            header.base
        },
        stopped_by: end,
    }
}

/// What a successful walk over a segment was: the header was read, these blocks
/// were accepted one after the other, and what stood behind them ended it.
pub open spec fn walked(
    before: Seq<Op>,
    after: Seq<Op>,
    file: SegmentFile,
    layout: Layout,
    file_len: u64,
    blocks: Seq<Walked>,
    scan: Scan,
) -> bool {
    let asked = before.push(Op::SegmentHeader { file, outcome: Ok(scan.header) });
    &&& walkable(layout, file_len, blocks)
    &&& walk_ends(
        after_blocks(asked, file, layout, blocks),
        after,
        file,
        layout,
        file_len,
        blocks,
        scan.stopped_by,
    )
    &&& scan == scan_of(scan.header, layout, blocks, scan.stopped_by)
}

proof fn lemma_reads_land_nothing(
    trace: Seq<Op>,
    file: SegmentFile,
    layout: Layout,
    blocks: Seq<Walked>,
)
    ensures
        medium::quiet(trace, after_blocks(trace, file, layout, blocks)),
        after_blocks(trace, file, layout, blocks).len() >= trace.len(),
    decreases blocks.len(),
{
    if blocks.len() > 0 {
        lemma_reads_land_nothing(trace, file, layout, blocks.drop_last());
    }
}

proof fn lemma_end_is_behind_the_header(layout: Layout, blocks: Seq<Walked>)
    ensures
        end_of(layout, blocks) >= layout.segment_header,
    decreases blocks.len(),
{
    if blocks.len() > 0 {
        lemma_end_is_behind_the_header(layout, blocks.drop_last());
    }
}

/// Adds the types of a block to a footer.
fn add_types(footer: &mut FooterBuilder, types: &BlockTypes)
    requires
        old(footer).wf(),
    ensures
        final(footer).wf(),
        final(footer)@ == with_types(old(footer)@, *types),
{
    let ghost all_events = types.events@.map_values(|id: EventId| id.0);
    let ghost all_metrics = types.metrics@.map_values(|id: MetricId| id.0);
    let mut i: usize = 0;
    assert(all_events.take(0).to_set() =~= Set::<u16>::empty());
    assert(footer@.pending_events =~= old(footer)@.pending_events.union(
        all_events.take(0).to_set(),
    ));
    while i < types.events.len()
        invariant
            i <= types.events@.len(),
            all_events == types.events@.map_values(|id: EventId| id.0),
            footer.wf(),
            footer@ == (FooterView {
                pending_events: old(footer)@.pending_events.union(
                    all_events.take(i as int).to_set(),
                ),
                ..old(footer)@
            }),
        decreases types.events@.len() - i,
    {
        footer.add_event(types.events[i]);
        proof {
            lemma_take_next(all_events, i as int);
            assert(footer@.pending_events =~= old(footer)@.pending_events.union(
                all_events.take(i + 1).to_set(),
            ));
        }
        i = i + 1;
    }
    assert(all_events.take(all_events.len() as int) =~= all_events);
    let ghost middle = footer@;
    let mut j: usize = 0;
    assert(all_metrics.take(0).to_set() =~= Set::<u16>::empty());
    assert(footer@.pending_metrics =~= middle.pending_metrics.union(all_metrics.take(0).to_set()));
    while j < types.metrics.len()
        invariant
            j <= types.metrics@.len(),
            all_metrics == types.metrics@.map_values(|id: MetricId| id.0),
            footer.wf(),
            footer@ == (FooterView {
                pending_metrics: middle.pending_metrics.union(all_metrics.take(j as int).to_set()),
                ..middle
            }),
        decreases types.metrics@.len() - j,
    {
        footer.add_metric(types.metrics[j]);
        proof {
            lemma_take_next(all_metrics, j as int);
            assert(footer@.pending_metrics =~= middle.pending_metrics.union(
                all_metrics.take(j + 1).to_set(),
            ));
        }
        j = j + 1;
    }
    assert(all_metrics.take(all_metrics.len() as int) =~= all_metrics);
}

proof fn lemma_take_next(ids: Seq<u16>, i: int)
    requires
        0 <= i < ids.len(),
    ensures
        ids.take(i + 1).to_set() == ids.take(i).to_set().insert(ids[i]),
{
    let head = ids.take(i);
    let next = ids.take(i + 1);
    assert(next =~= head.push(ids[i]));
    assert forall|x: u16| next.to_set().contains(x) == head.to_set().insert(ids[i]).contains(x) by {
        if head.contains(x) {
            let k = choose|k: int| 0 <= k < head.len() && head[k] == x;
            assert(next[k] == x);
        }
        assert(next[i] == ids[i]);
    }
    assert(next.to_set() =~= head.to_set().insert(ids[i]));
}

impl Scan {
    /// The tail was damaged and discarded.
    pub fn truncated(&self) -> (yes: bool)
        ensures
            yes == self.stopped_by.damage(),
    {
        self.stopped_by.is_damage()
    }

    /// Checks that the segment belongs to a store. Files copied from another
    /// device have their own run numbering and their own anchoring to time.
    pub fn check_store(&self, expect: Option<u64>, path: String) -> (r: Result<(), Error>)
        ensures
            match expect {
                Some(id) => if self.header.store_id != id {
                    r == Err::<(), Error>(
                        Error::ForeignSegment { path, expected: id, found: self.header.store_id },
                    )
                } else {
                    r is Ok
                },
                None => r is Ok,
            },
    {
        match expect {
            Some(id) => if self.header.store_id != id {
                Err(Error::ForeignSegment { path, expected: id, found: self.header.store_id })
            } else {
                Ok(())
            },
            None => Ok(()),
        }
    }

    /// Walks a segment by its blocks, finding the end of the intact data.
    pub fn run<M: Medium>(io: &mut Io<M>, file: SegmentFile, file_len: u64, layout: Layout) -> (r:
        Result<Scan, Error>)
        requires
            layout.block_header > 0,
        ensures
            medium::quiet(old(io)@, final(io)@),
            final(io)@.len() > old(io)@.len(),
            match r {
                Ok(scan) => exists|blocks: Seq<Walked>|
                    #[trigger] walked(old(io)@, final(io)@, file, layout, file_len, blocks, scan),
                Err(e) => final(io)@ == old(io)@.push(
                    Op::SegmentHeader { file, outcome: Err(e) },
                ),
            },
    {
        let mut footer = FooterBuilder::new();
        match Self::run_inner(io, file, file_len, layout, &mut footer, false) {
            Ok((scan, _)) => Ok(scan),
            Err(e) => Err(e),
        }
    }

    /// Opens a segment and finds the end of its intact data.
    pub fn of_path<M: Medium>(io: &mut Io<M>, file: SegmentFile, layout: Layout) -> (r: Result<
        Scan,
        Error,
    >)
        requires
            layout.block_header > 0,
        ensures
            medium::quiet(old(io)@, final(io)@),
            match r {
                Ok(scan) => exists|len: u64, blocks: Seq<Walked>| #[trigger]
                    walked(
                        old(io)@.push(Op::OpenToRead { file, outcome: Ok(len) }),
                        final(io)@,
                        file,
                        layout,
                        len,
                        blocks,
                        scan,
                    ),
                Err(e) => final(io)@.len() > old(io)@.len() && medium::refused_with(
                    final(io)@.last(),
                    e,
                ),
            },
    {
        match io.open_for_reading(file) {
            Ok(len) => Self::run(io, file, len, layout),
            Err(e) => Err(e),
        }
    }

    /// The same, assembling the footer along the way. The second answer says
    /// whether the footer is complete: a body that agrees with its checksum but
    /// does not break into records stops the assembly, not the walk.
    pub fn run_collecting<M: Medium>(
        io: &mut Io<M>,
        file: SegmentFile,
        file_len: u64,
        layout: Layout,
        footer: &mut FooterBuilder,
    ) -> (r: Result<(Scan, bool), Error>)
        requires
            layout.block_header > 0,
            old(footer).wf(),
        ensures
            final(footer).wf(),
            medium::quiet(old(io)@, final(io)@),
            final(io)@.len() > old(io)@.len(),
            match r {
                Ok((scan, complete)) => exists|blocks: Seq<Walked>|
                    {
                        &&& #[trigger] walked(
                            old(io)@,
                            final(io)@,
                            file,
                            layout,
                            file_len,
                            blocks,
                            scan,
                        )
                        &&& complete == all_sound(blocks)
                        &&& final(footer)@ == collected(old(footer)@, layout, blocks)
                    },
                Err(e) => final(footer)@ == old(footer)@ && final(io)@ == old(io)@.push(
                    Op::SegmentHeader { file, outcome: Err(e) },
                ),
            },
    {
        Self::run_inner(io, file, file_len, layout, footer, true)
    }

    fn run_inner<M: Medium>(
        io: &mut Io<M>,
        file: SegmentFile,
        file_len: u64,
        layout: Layout,
        footer: &mut FooterBuilder,
        collect: bool,
    ) -> (r: Result<(Scan, bool), Error>)
        requires
            layout.block_header > 0,
            old(footer).wf(),
        ensures
            final(footer).wf(),
            medium::quiet(old(io)@, final(io)@),
            final(io)@.len() > old(io)@.len(),
            match r {
                Ok((scan, complete)) => exists|blocks: Seq<Walked>|
                    {
                        &&& #[trigger] walked(
                            old(io)@,
                            final(io)@,
                            file,
                            layout,
                            file_len,
                            blocks,
                            scan,
                        )
                        &&& complete == all_sound(blocks)
                        &&& collect ==> final(footer)@ == collected(old(footer)@, layout, blocks)
                    },
                Err(e) => final(footer)@ == old(footer)@ && final(io)@ == old(io)@.push(
                    Op::SegmentHeader { file, outcome: Err(e) },
                ),
            },
    {
        broadcast use {
            medium::group_trace,
            medium::lemma_changes_push,
            medium::lemma_read_out_push,
        };

        let ghost before = io@;
        let header: SegmentHeader = match io.read_segment_header(file) {
            Ok(h) => h,
            Err(e) => {
                return Err(e);
            },
        };
        let ghost asked = io@;
        let ghost mut blocks: Seq<Walked> = Seq::empty();
        let hdr: u64 = layout.block_header as u64;
        let mut offset: u64 = layout.segment_header as u64;
        let mut block_count: u32 = 0;
        let mut last_base: Micros = header.base;
        let mut complete: bool = true;
        let end: ScanEnd;
        loop
            invariant_except_break
                asked == before.push(Op::SegmentHeader { file, outcome: Ok(header) }),
                hdr == layout.block_header,
                layout.block_header > 0,
                walkable(layout, file_len, blocks),
                io@ == after_blocks(asked, file, layout, blocks),
            invariant
                footer.wf(),
                offset == end_of(layout, blocks),
                block_count == seq_after(blocks.len()),
                last_base == if blocks.len() > 0 {
                    blocks.last().0.base
                } else {
                    header.base
                },
                complete == all_sound(blocks),
                collect ==> footer@ == collected(old(footer)@, layout, blocks),
            ensures
                walkable(layout, file_len, blocks),
                walk_ends(
                    after_blocks(asked, file, layout, blocks),
                    io@,
                    file,
                    layout,
                    file_len,
                    blocks,
                    end,
                ),
                medium::quiet(asked, io@),
                io@.len() >= asked.len(),
            decreases file_len - offset,
        {
            proof {
                lemma_reads_land_nothing(asked, file, layout, blocks);
            }
            if file_len < offset || file_len - offset < hdr {
                end = ScanEnd::FileEnd;
                break;
            }
            let ghost start = io@;
            let probe = io.read_block_header(file, offset);
            proof {
                medium::lemma_landed_push(
                    start,
                    Op::BlockHeader { file, offset, outcome: probe },
                );
            }
            let ghost seen = io@;
            let ghost op = Op::BlockHeader { file, offset, outcome: probe };
            let found: BlockHeader = match probe {
                HeaderProbe::Found(h) => h,
                HeaderProbe::Zero => {
                    end = ScanEnd::ZeroTail;
                    assert(seen == start.push(op));
                    break;
                },
                HeaderProbe::Invalid(_) => {
                    end = ScanEnd::Corrupt;
                    assert(seen == start.push(op));
                    break;
                },
                HeaderProbe::Unreadable(_) => {
                    end = ScanEnd::Corrupt;
                    assert(seen == start.push(op));
                    break;
                },
            };
            if found.seq != block_count {
                end = ScanEnd::SeqGap { expected: block_count, found: found.seq };
                assert(seen == start.push(op));
                break;
            }
            let body_len: u64 = found.body_len as u64;
            if body_len > file_len - offset - hdr {
                end = ScanEnd::Corrupt;
                assert(seen == start.push(op));
                break;
            }
            let body = io.read_block_body(file, offset, found);
            let ghost body_op = Op::BlockBody { file, offset, header: found, outcome: body };
            proof {
                medium::lemma_landed_push(seen, body_op);
            }
            let ghost next = blocks.push((found, body));
            proof {
                assert(next.drop_last() =~= blocks);
                assert(next.last() == (found, body));
                assert(io@ == seen.push(body_op));
                assert(seen == start.push(op));
            }
            match &body {
                BodyProbe::Sound(types) => {
                    if collect && complete {
                        add_types(footer, types);
                        footer.add_block(offset, &found, types.last);
                    }
                    assert(all_sound(next) == all_sound(blocks)) by {
                        assert(next[next.len() - 1].1 is Sound);
                        assert forall|i: int| 0 <= i < blocks.len() implies next[i] == #[trigger] blocks[i] by {}
                    }
                },
                BodyProbe::Opaque => {
                    complete = false;
                    assert(!(next[next.len() - 1].1 is Sound));
                },
                _ => {
                    end = ScanEnd::Corrupt;
                    break;
                },
            }
            block_count = block_count.saturating_add(1);
            last_base = found.base;
            offset = offset + hdr + body_len;
            proof {
                blocks = next;
            }
        }
        let scan = Scan {
            header,
            data_end: offset,
            block_count,
            next_seq: block_count,
            last_base,
            stopped_by: end,
        };
        assert(walked(before, io@, file, layout, file_len, blocks, scan));
        Ok((scan, complete))
    }
}

/// A segment reopened where a walk found the end of its intact data. The window
/// is collapsed to the data: opening asks the medium for no space.
pub open spec fn reopened(
    file: SegmentFile,
    scan: Scan,
    on_disk: u64,
    limit: Option<u64>,
    layout: Layout,
) -> SegmentWriter {
    SegmentWriter {
        file,
        end: scan.data_end,
        capacity: scan.data_end,
        limit: max(
            match limit {
                Some(l) => l as int,
                None => on_disk as int,
            },
            on_disk as int,
        ) as u64,
        header: scan.header,
        next_seq: scan.next_seq,
        dirty: false,
        layout,
    }
}

/// The segment is this store's, where a store is named at all.
pub open spec fn belongs(scan: Scan, store: Option<u64>) -> bool {
    store matches Some(id) ==> scan.header.store_id == id
}

/// The trace of opening a segment for writing, once the walk over it succeeded.
pub open spec fn opened_and_walked(
    before: Seq<Op>,
    after: Seq<Op>,
    file: SegmentFile,
    layout: Layout,
    on_disk: u64,
    scan: Scan,
) -> bool {
    exists|blocks: Seq<Walked>|
        #[trigger] walked(
            before.push(Op::Open { file, outcome: Ok(on_disk) }),
            after,
            file,
            layout,
            on_disk,
            blocks,
            scan,
        )
}

/// A segment was reopened: it was walked over, its tail cut off, and the cut synced.
/// An error: the medium refused, or the segment was walked over and belongs to
/// another store.
pub open spec fn was_reopened(
    file: SegmentFile,
    expect_store: Option<u64>,
    limit: Option<u64>,
    layout: Layout,
    t0: Seq<Op>,
    t1: Seq<Op>,
    r: Result<SegmentWriter, Error>,
) -> bool {
    match r {
        Ok(w) => w.wf() && exists|trace: Seq<Op>, on_disk: u64, scan: Scan|
            {
                &&& #[trigger] opened_and_walked(t0, trace, file, layout, on_disk, scan)
                &&& belongs(scan, expect_store)
                &&& w == reopened(file, scan, on_disk, limit, layout)
                &&& t1 == trace.push(
                    Op::Truncate { file, len: scan.data_end, refused: None },
                ).push(Op::Sync { file, refused: None })
            },
        Err(e) => {
            ||| t1.len() > t0.len() && medium::refused_with(t1.last(), e) && medium::troubled(
                t0,
                t1,
            )
            ||| exists|on_disk: u64, scan: Scan|
                {
                    &&& #[trigger] opened_and_walked(t0, t1, file, layout, on_disk, scan)
                    &&& is_foreign(e, expect_store, scan)
                }
        },
    }
}

/// The error names the store a segment belongs to and the one it was expected of.
pub open spec fn is_foreign(e: Error, expect_store: Option<u64>, scan: Scan) -> bool {
    match e {
        Error::ForeignSegment { expected, found, .. } => expect_store == Some(expected) && found
            == scan.header.store_id && found != expected,
        _ => false,
    }
}

impl SegmentWriter {
    /// Opens an existing segment to continue writing, restoring the end of the
    /// data and the numbering of blocks.
    ///
    /// The file is **cut down** to the intact data: bytes of an earlier write
    /// behind a new, shorter block would be read as a block by the next walk.
    ///
    /// Without a limit the current size is taken for it, so the segment is opened
    /// only to be read to the end.
    pub fn reopen<M: Medium>(
        io: &mut Io<M>,
        file: SegmentFile,
        expect_store: Option<u64>,
        limit: Option<u64>,
        layout: Layout,
    ) -> (r: Result<SegmentWriter, Error>)
        requires
            layout.block_header > 0,
        ensures
            medium::quiet(old(io)@, final(io)@),
            was_reopened(file, expect_store, limit, layout, old(io)@, final(io)@, r),
    {
        broadcast use {
            medium::group_trace,
            medium::lemma_changes_push,
            medium::lemma_read_out_push,
        };

        let ghost before = io@;
        let on_disk: u64 = match io.open_for_append(file) {
            Ok(len) => len,
            Err(e) => {
                return Err(e);
            },
        };
        let wanted: u64 = match limit {
            Some(l) => l,
            None => on_disk,
        };
        let limit_now: u64 = if wanted < on_disk {
            on_disk
        } else {
            wanted
        };
        let scan: Scan = match Scan::run(io, file, on_disk, layout) {
            Ok(s) => s,
            Err(e) => {
                return Err(e);
            },
        };
        let ghost trace = io@;
        assert(opened_and_walked(before, trace, file, layout, on_disk, scan));
        let path = io.path_of(file);
        match scan.check_store(expect_store, path) {
            Ok(()) => {},
            Err(e) => {
                return Err(e);
            },
        }
        match io.truncate(file, scan.data_end) {
            Ok(()) => {},
            Err(e) => {
                return Err(e);
            },
        }
        match io.sync(file) {
            Ok(()) => {},
            Err(e) => {
                return Err(e);
            },
        }
        Ok(
            SegmentWriter {
                file,
                end: scan.data_end,
                capacity: scan.data_end,
                limit: limit_now,
                header: scan.header,
                next_seq: scan.next_seq,
                dirty: false,
                layout,
            },
        )
    }
}

/// The segment after these blocks were appended one after the other.
pub open spec fn appended(w: SegmentWriter, blocks: Seq<BlockInfo>) -> SegmentWriter
    decreases blocks.len(),
{
    if blocks.len() == 0 {
        w
    } else {
        appended(w, blocks.drop_last()).with_block(blocks.last())
    }
}

/// The segment after these blocks were appended one after the other, the window stretched
/// for each where it had to be.
pub open spec fn filled(w: SegmentWriter, blocks: Seq<BlockInfo>) -> SegmentWriter
    decreases blocks.len(),
{
    if blocks.len() == 0 {
        w
    } else {
        filled(w, blocks.drop_last()).windowed(blocks.last().len).with_block(blocks.last())
    }
}

/// The blocks as a walk meets them.
pub open spec fn as_walked(blocks: Seq<BlockInfo>, bodies: Seq<BodyProbe>) -> Seq<Walked> {
    Seq::new(blocks.len(), |i: int| (blocks[i].header, bodies[i]))
}

/// What was written is what recovery finds: blocks appended to a fresh segment
/// with the numbers it asked for, each as long as its header says, are accepted
/// by a walk that reads them back intact, and the segment reopened behind them
/// continues at the same offset and with the same number.
pub proof fn law_recovery_finds_what_was_written(
    w: SegmentWriter,
    blocks: Seq<BlockInfo>,
    bodies: Seq<BodyProbe>,
    file_len: u64,
    end: ScanEnd,
)
    requires
        w.end == w.layout.segment_header,
        w.next_seq == 0,
        bodies.len() == blocks.len(),
        forall|i: int| 0 <= i < bodies.len() ==> is_intact(#[trigger] bodies[i]),
        forall|i: int|
            0 <= i < blocks.len() ==> (#[trigger] blocks[i]).len == w.layout.block_header
                + blocks[i].header.body_len && blocks[i].header.seq == seq_after(i as nat),
        end_of(w.layout, as_walked(blocks, bodies)) <= file_len,
    ensures
        walkable(w.layout, file_len, as_walked(blocks, bodies)),
        ({
            let scan = scan_of(w.header, w.layout, as_walked(blocks, bodies), end);
            let again = reopened(w.file, scan, file_len, None, w.layout);
            &&& again.end == appended(w, blocks).end
            &&& again.next_seq == appended(w, blocks).next_seq
        }),
    decreases blocks.len(),
{
    let seen = as_walked(blocks, bodies);
    if blocks.len() > 0 {
        let rest = blocks.drop_last();
        let rest_bodies = bodies.drop_last();
        assert(seen.drop_last() =~= as_walked(rest, rest_bodies));
        assert forall|i: int| 0 <= i < rest_bodies.len() implies is_intact(
            #[trigger] rest_bodies[i],
        ) by {
            assert(rest_bodies[i] == bodies[i]);
        }
        assert forall|i: int| 0 <= i < rest.len() implies (#[trigger] rest[i]).len
            == w.layout.block_header + rest[i].header.body_len && rest[i].header.seq == seq_after(
            i as nat,
        ) by {
            assert(rest[i] == blocks[i]);
        }
        lemma_appended_keeps_layout(w, rest);
        law_recovery_finds_what_was_written(w, rest, rest_bodies, file_len, end);
        lemma_end_is_behind_the_header(w.layout, seen.drop_last());
        assert(is_intact(bodies[bodies.len() - 1]));
        assert(blocks[blocks.len() - 1].header.seq == seq_after((blocks.len() - 1) as nat));
        assert(blocks.last().len == w.layout.block_header + blocks.last().header.body_len) by {
            assert(blocks[blocks.len() - 1] == blocks.last());
        }
    }
    lemma_end_is_behind_the_header(w.layout, seen);
}

pub(crate) proof fn lemma_appended_keeps_layout(w: SegmentWriter, blocks: Seq<BlockInfo>)
    ensures
        appended(w, blocks).layout == w.layout,
        appended(w, blocks).file == w.file,
        appended(w, blocks).header == w.header,
    decreases blocks.len(),
{
    if blocks.len() > 0 {
        lemma_appended_keeps_layout(w, blocks.drop_last());
    }
}

// ---------------------------------------------------------------------------
// Sealing a torn segment
// ---------------------------------------------------------------------------

/// What sealing a torn segment produced.
#[derive(Debug, Clone, Copy, PartialEq, Eq, Structural)]
pub struct Recovered {
    pub name: SegmentName,
    /// The file's size after sealing.
    pub size_bytes: u64,
    /// How many bytes of the reserve window went back to the medium.
    pub reclaimed: u64,
    /// The tail was damaged and discarded.
    pub truncated: bool,
}

/// Whether a segment is sealed, by the signature at its end. A file too short for
/// a header and a trailer is not asked about.
fn is_sealed<M: Medium>(io: &mut Io<M>, file: SegmentFile, len: u64, layout: Layout) -> (yes: bool)
    ensures
        medium::quiet(old(io)@, final(io)@),
        len < layout.segment_header + layout.trailer ==> !yes && final(io)@ == old(io)@,
        len >= layout.segment_header + layout.trailer ==> final(io)@ == old(io)@.push(
            Op::Signature { file, len, outcome: yes },
        ),
{
    if len < layout.segment_header as u64 + layout.trailer as u64 {
        return false;
    }
    io.ends_with_signature(file, len)
}

/// The outcome of sealing, by what the walk found and how long the footer is.
pub open spec fn recovered(scan: Scan, len: u64, footer_len: u64) -> Recovered {
    let size = min(scan.data_end + footer_len, u64::MAX as int);
    Recovered {
        name: scan.header.name(),
        size_bytes: size as u64,
        reclaimed: max(len - size, 0) as u64,
        truncated: scan.stopped_by.damage(),
    }
}

/// The trace up to the walk over a torn segment.
pub open spec fn orphan_opened(
    before: Seq<Op>,
    file: SegmentFile,
    layout: Layout,
    len: u64,
) -> Seq<Op> {
    let opened = before.push(Op::Open { file, outcome: Ok(len) });
    if len >= layout.segment_header + layout.trailer {
        opened.push(Op::Signature { file, len, outcome: false })
    } else {
        opened
    }
}

/// The trace up to the header of a torn segment.
pub open spec fn header_asked(
    before: Seq<Op>,
    file: SegmentFile,
    layout: Layout,
    len: u64,
    header: Result<SegmentHeader, Error>,
) -> Seq<Op> {
    orphan_opened(before, file, layout, len).push(Op::SegmentHeader { file, outcome: header })
}

/// A segment that may be torn was seen to. `Ok(None)`: it is too short to be one, or
/// it ends with a footer. `Ok(Some(..))`: it was walked over, cut down to its intact
/// data, and sealed where every block is sound. An error: the medium refused, or the
/// segment was walked over and belongs to another store.
pub open spec fn orphan_settled(
    file: SegmentFile,
    expect_store: Option<u64>,
    layout: Layout,
    t0: Seq<Op>,
    t1: Seq<Op>,
    r: Result<Option<Recovered>, Error>,
) -> bool {
    match r {
        Ok(None) => exists|len: u64|
            {
                let opened = #[trigger] t0.push(Op::Open { file, outcome: Ok(len) });
                ||| len < layout.segment_header && t1 == opened
                ||| len >= layout.segment_header + layout.trailer && t1 == opened.push(
                    Op::Signature { file, len, outcome: true },
                )
            },
        Ok(Some(rec)) => exists|
            len: u64,
            trace: Seq<Op>,
            blocks: Seq<Walked>,
            scan: Scan,
            footer_len: u64,
        |
            #![trigger walked(orphan_opened(t0, file, layout, len), trace, file, layout, len, blocks, scan), recovered(scan, len, footer_len)]
            {
                let cut = trace.push(Op::Truncate { file, len: scan.data_end, refused: None });
                &&& walked(
                    orphan_opened(t0, file, layout, len),
                    trace,
                    file,
                    layout,
                    len,
                    blocks,
                    scan,
                )
                &&& belongs(scan, expect_store)
                &&& rec == recovered(scan, len, footer_len)
                &&& if all_sound(blocks) {
                    exists|footer: Footer|
                        footer.describes(collected(FooterView::empty(), layout, blocks)) && t1
                            == #[trigger] cut.push(
                            Op::WriteFooter {
                                file,
                                offset: scan.data_end,
                                footer,
                                outcome: Ok(footer_len),
                            },
                        ).push(Op::Sync { file, refused: None })
                } else {
                    footer_len == 0 && t1 == cut.push(Op::Sync { file, refused: None })
                }
            },
        Err(e) => {
            ||| t1 == t0.push(Op::Open { file, outcome: Err(e) })
            ||| medium::refused_with(t1.last(), e) && exists|
                len: u64,
                header: Result<SegmentHeader, Error>,
            | #[trigger]
                medium::grown(header_asked(t0, file, layout, len, header), t1)
            ||| exists|len: u64, blocks: Seq<Walked>, scan: Scan|
                #[trigger] walked(
                    orphan_opened(t0, file, layout, len),
                    t1,
                    file,
                    layout,
                    len,
                    blocks,
                    scan,
                ) && is_foreign(e, expect_store, scan)
        },
    }
}

/// Cuts a torn segment down to its intact data and seals it.
///
/// A torn segment reads by scanning too, but the unwritten tail of its window is
/// counted against the channel, and several crash stops in a row would have
/// rotation delete live history to make room for emptiness.
///
/// `Ok(None)` means the segment is already sealed, or is no segment. A footer is
/// appended only if it is complete: an index that does not list every block
/// would lead a reader past the rest.
pub fn seal_orphan<M: Medium>(
    io: &mut Io<M>,
    file: SegmentFile,
    expect_store: Option<u64>,
    layout: Layout,
) -> (r: Result<Option<Recovered>, Error>)
    requires
        layout.block_header > 0,
    ensures
        medium::quiet(old(io)@, final(io)@),
        orphan_settled(file, expect_store, layout, old(io)@, final(io)@, r),
{
    let ghost before = io@;
    let len: u64 = match io.open_for_append(file) {
        Ok(n) => n,
        Err(e) => {
            return Err(e);
        },
    };
    assert(io@ == before.push(Op::Open { file, outcome: Ok(len) }));
    if len < layout.segment_header as u64 {
        return Ok(None);
    }
    if is_sealed(io, file, len, layout) {
        return Ok(None);
    }
    assert(io@ == orphan_opened(before, file, layout, len));
    let mut footer = FooterBuilder::new();
    let (scan, complete) = match Scan::run_collecting(io, file, len, layout, &mut footer) {
        Ok((s, c)) => (s, c),
        Err(e) => {
            assert(medium::grown(header_asked(before, file, layout, len, Err(e)), io@));
            return Err(e);
        },
    };
    let ghost trace = io@;
    let ghost blocks = choose|blocks: Seq<Walked>|
        {
            &&& #[trigger] walked(
                orphan_opened(before, file, layout, len),
                trace,
                file,
                layout,
                len,
                blocks,
                scan,
            )
            &&& complete == all_sound(blocks)
            &&& footer@ == collected(FooterView::empty(), layout, blocks)
        };
    proof {
        lemma_walk_begins(
            orphan_opened(before, file, layout, len),
            trace,
            file,
            layout,
            len,
            blocks,
            scan,
        );
        assert(medium::grown(header_asked(before, file, layout, len, Ok(scan.header)), trace));
    }
    let path = io.path_of(file);
    match scan.check_store(expect_store, path) {
        Ok(()) => {},
        Err(e) => {
            return Err(e);
        },
    }
    match io.truncate(file, scan.data_end) {
        Ok(()) => {},
        Err(e) => {
            assert(medium::grown(header_asked(before, file, layout, len, Ok(scan.header)), io@));
            return Err(e);
        },
    }
    let ghost cut = io@;
    let mut footer_len: u64 = 0;
    if complete {
        let built = footer.build();
        match io.write_footer(file, scan.data_end, &built) {
            Ok(n) => {
                footer_len = n;
            },
            Err(e) => {
                assert(medium::grown(
                    header_asked(before, file, layout, len, Ok(scan.header)),
                    io@,
                ));
                return Err(e);
            },
        }
        assert(io@ == cut.push(
            Op::WriteFooter {
                file,
                offset: scan.data_end,
                footer: built,
                outcome: Ok(footer_len),
            },
        ));
    }
    match io.sync(file) {
        Ok(()) => {},
        Err(e) => {
            assert(medium::grown(header_asked(before, file, layout, len, Ok(scan.header)), io@));
            return Err(e);
        },
    }
    let size: u64 = scan.data_end.saturating_add(footer_len);
    let rec = Recovered {
        name: scan.header.file_name(),
        size_bytes: size,
        reclaimed: len.saturating_sub(size),
        truncated: scan.truncated(),
    };
    assert(rec == recovered(scan, len, footer_len));
    Ok(Some(rec))
}

/// A walk begins with the header.
proof fn lemma_walk_begins(
    before: Seq<Op>,
    after: Seq<Op>,
    file: SegmentFile,
    layout: Layout,
    file_len: u64,
    blocks: Seq<Walked>,
    scan: Scan,
)
    requires
        walked(before, after, file, layout, file_len, blocks, scan),
    ensures
        medium::grown(
            before.push(Op::SegmentHeader { file, outcome: Ok(scan.header) }),
            after,
        ),
{
    let asked = before.push(Op::SegmentHeader { file, outcome: Ok(scan.header) });
    lemma_reads_land_nothing(asked, file, layout, blocks);
}

/// A segment that is sealed is left alone: where it opens and ends with a footer, as the
/// first sealing leaves it, a second one asks nothing more and has nothing to do.
pub proof fn law_a_sealed_segment_is_left_alone(
    file: SegmentFile,
    expect_store: Option<u64>,
    layout: Layout,
    t0: Seq<Op>,
    t1: Seq<Op>,
    rec: Recovered,
    t2: Seq<Op>,
    r: Result<Option<Recovered>, Error>,
)
    requires
        orphan_settled(file, expect_store, layout, t0, t1, Ok(Some(rec))),
        orphan_settled(file, expect_store, layout, t1, t2, r),
        // The medium answers as the file was left.
        medium::grown(
            t1.push(Op::Open { file, outcome: Ok(rec.size_bytes) }).push(
                Op::Signature { file, len: rec.size_bytes, outcome: true },
            ),
            t2,
        ),
    ensures
        r == Ok::<Option<Recovered>, Error>(None),
        t2 == t1.push(Op::Open { file, outcome: Ok(rec.size_bytes) }).push(
            Op::Signature { file, len: rec.size_bytes, outcome: true },
        ),
        medium::only_reads(t1, t2),
{
    broadcast use {
        medium::lemma_changes_push,
        medium::lemma_read_out_push,
    };

    let n = t1.len() as int;
    let asked = t1.push(Op::Open { file, outcome: Ok(rec.size_bytes) }).push(
        Op::Signature { file, len: rec.size_bytes, outcome: true },
    );
    assert(t2[n] == asked[n] && t2[n + 1] == asked[n + 1] && t2.len() >= n + 2) by {
        reveal(medium::grown);
    }
    match r {
        Ok(None) => {
            let len = choose|len: u64|
                {
                    let opened = #[trigger] t1.push(Op::Open { file, outcome: Ok(len) });
                    ||| len < layout.segment_header && t2 == opened
                    ||| len >= layout.segment_header + layout.trailer && t2 == opened.push(
                        Op::Signature { file, len, outcome: true },
                    )
                };
            assert(t2[n] == (Op::Open { file, outcome: Ok(len) }));
            assert(t2 =~= asked);
        },
        Ok(Some(again)) => {
            let (len, trace, blocks, scan, footer_len) = choose|
                len: u64,
                trace: Seq<Op>,
                blocks: Seq<Walked>,
                scan: Scan,
                footer_len: u64,
            |
                #![trigger walked(orphan_opened(t1, file, layout, len), trace, file, layout, len, blocks, scan), recovered(scan, len, footer_len)]
                {
                    let cut = trace.push(Op::Truncate { file, len: scan.data_end, refused: None });
                    &&& walked(
                        orphan_opened(t1, file, layout, len),
                        trace,
                        file,
                        layout,
                        len,
                        blocks,
                        scan,
                    )
                    &&& again == recovered(scan, len, footer_len)
                    &&& if all_sound(blocks) {
                        exists|footer: Footer|
                            t2 == #[trigger] cut.push(
                                Op::WriteFooter {
                                    file,
                                    offset: scan.data_end,
                                    footer,
                                    outcome: Ok(footer_len),
                                },
                            ).push(Op::Sync { file, refused: None })
                    } else {
                        t2 == cut.push(Op::Sync { file, refused: None })
                    }
                };
            let opened = orphan_opened(t1, file, layout, len);
            lemma_walk_begins(opened, trace, file, layout, len, blocks, scan);
            let header = opened.push(Op::SegmentHeader { file, outcome: Ok(scan.header) });
            assert(medium::grown(trace, t2));
            assert(medium::grown(header, t2));
            assert(t2[n + 1] == header[n + 1]) by {
                reveal(medium::grown);
            }
            assert(false);
        },
        Err(e) => {
            if t2 == t1.push(Op::Open { file, outcome: Err(e) }) {
                assert(t2[n] == (Op::Open { file, outcome: Err(e) }));
            } else if medium::refused_with(t2.last(), e) && exists|
                len: u64,
                header: Result<SegmentHeader, Error>,
            | #[trigger] medium::grown(header_asked(t1, file, layout, len, header), t2) {
                let (len, header) = choose|len: u64, header: Result<SegmentHeader, Error>|
                    #[trigger] medium::grown(header_asked(t1, file, layout, len, header), t2);
                let opened = header_asked(t1, file, layout, len, header);
                assert(t2[n + 1] == opened[n + 1]) by {
                    reveal(medium::grown);
                }
            } else {
                let (len, blocks, scan) = choose|len: u64, blocks: Seq<Walked>, scan: Scan|
                    #[trigger] walked(
                        orphan_opened(t1, file, layout, len),
                        t2,
                        file,
                        layout,
                        len,
                        blocks,
                        scan,
                    ) && is_foreign(e, expect_store, scan);
                let opened = orphan_opened(t1, file, layout, len);
                lemma_walk_begins(opened, t2, file, layout, len, blocks, scan);
                let header = opened.push(Op::SegmentHeader { file, outcome: Ok(scan.header) });
                assert(t2[n + 1] == header[n + 1]) by {
                    reveal(medium::grown);
                }
            }
        },
    }
}

// ---------------------------------------------------------------------------
// Reading
// ---------------------------------------------------------------------------

/// A segment open for reading.
///
/// The file is held open **only while reading**: the header, the footer and the
/// data boundary are parsed once and live in memory, so a reader can keep a
/// cursor per channel without keeping an open file per channel.
#[derive(Debug)]
pub struct SegmentReader {
    file: SegmentFile,
    is_open: bool,
    len: u64,
    header: SegmentHeader,
    footer: Option<Footer>,
    data_end: u64,
    layout: Layout,
}

/// What a reader knows of its segment.
pub struct ReaderView {
    pub file: SegmentFile,
    pub is_open: bool,
    pub len: u64,
    pub header: SegmentHeader,
    pub footer: Option<Footer>,
    pub data_end: u64,
    pub layout: Layout,
}

impl View for SegmentReader {
    type V = ReaderView;

    closed spec fn view(&self) -> ReaderView {
        ReaderView {
            file: self.file,
            is_open: self.is_open,
            len: self.len,
            header: self.header,
            footer: self.footer,
            data_end: self.data_end,
            layout: self.layout,
        }
    }
}

/// A block as it was read.
#[derive(Debug)]
pub struct ReadBlock {
    pub header: BlockHeader,
    /// Where the next block begins.
    pub next: u64,
    /// What stood in the body.
    pub body: BodyProbe,
}

/// Why a walk over blocks broke off.
#[derive(Debug)]
pub enum Stopped {
    /// A block number that is not the next.
    Gap { expected: u32, found: u32 },
    /// The block could not be read.
    Failed(Error),
}

/// The result of a walk over blocks together with the place to continue it.
#[derive(Debug)]
pub struct BlockScan {
    /// Where the blocks begin, oldest first.
    pub offsets: Vec<u64>,
    /// Where the next walk continues: the end of the last block, or the place of
    /// the tear.
    pub end: u64,
    /// The number the next walk expects of the block at `end`.
    pub next_seq: u32,
    /// Where and why the walk broke off. `None` means it reached the end of the
    /// data.
    pub stopped: Option<(u64, Stopped)>,
}

impl Stopped {
    pub open spec fn gap_text(expected: u32, found: u32) -> Seq<char> {
        "a gap in block numbering: expected "@ + text::decimal(expected as nat)
            + ", the file says "@ + text::decimal(found as nat)
    }

    /// The reason in words, where it is a gap in the numbering.
    pub fn gap_reason(&self) -> (t: Option<String>)
        ensures
            match *self {
                Stopped::Gap { expected, found } => t matches Some(s) && s@ == Self::gap_text(
                    expected,
                    found,
                ),
                Stopped::Failed(_) => t is None,
            },
    {
        match self {
            Stopped::Gap { expected, found } => {
                let mut s = String::new();
                s.push_str("a gap in block numbering: expected ");
                text::push_decimal(&mut s, *expected as u64);
                s.push_str(", the file says ");
                text::push_decimal(&mut s, *found as u64);
                assert(s@ =~= Self::gap_text(*expected, *found));
                Some(s)
            },
            Stopped::Failed(_) => None,
        }
    }
}

/// A tail that holds a footer: it was found, is not larger than it may be, and
/// parses.
pub open spec fn tail_found(
    before: Seq<Op>,
    after: Seq<Op>,
    file: SegmentFile,
    layout: Layout,
    len: u64,
    footer: Option<Footer>,
    data_end: u64,
) -> bool {
    if len < layout.segment_header + layout.trailer {
        footer is None && data_end == len && after == before
    } else {
        exists|trailer: Option<u64>|
            {
                let asked = #[trigger] before.push(
                    Op::Trailer {
                        file,
                        offset: (len - layout.trailer) as u64,
                        outcome: Ok(trailer),
                    },
                );
                match trailer {
                    None => footer is None && data_end == len && after == asked,
                    Some(total) => if total > len - layout.segment_header || total > MAX_FOOTER {
                        footer is None && data_end == len && after == asked
                    } else {
                        &&& after == asked.push(
                            Op::ReadFooter {
                                file,
                                offset: (len - total) as u64,
                                len: total,
                                outcome: Ok(footer),
                            },
                        )
                        &&& data_end == if footer is Some {
                            len - total
                        } else {
                            len as int
                        }
                    },
                }
            }
    }
}

/// The block header read last is damaged, and the error says how: it does not
/// parse, or its block runs past the end of the data.
pub open spec fn is_damaged(v: ReaderView, trace: Seq<Op>, offset: u64, e: Error) -> bool {
    match trace.last() {
        Op::BlockHeader { file, offset: at, outcome } => file == v.file && at == offset
            && is_damage(v, offset, outcome, e),
        _ => false,
    }
}

/// What stands where a block header is expected is damaged, and the error says how.
pub open spec fn is_damage(v: ReaderView, offset: u64, found: HeaderProbe, e: Error) -> bool {
    match found {
        HeaderProbe::Invalid(reason) => corrupt_because(e, block_header_text(offset, reason@)),
        HeaderProbe::Found(h) => offset + v.layout.block_header + h.body_len > v.data_end
            && corrupt_because(e, past_the_end_text(offset)),
        _ => false,
    }
}

/// A segment was opened: its header was read, and its tail.
pub open spec fn was_opened(
    v: ReaderView,
    file: SegmentFile,
    layout: Layout,
    before: Seq<Op>,
    after: Seq<Op>,
) -> bool {
    &&& v.file == file && v.layout == layout && v.is_open
    &&& v.data_end <= v.len
    &&& tail_found(
        before.push(Op::OpenToRead { file, outcome: Ok(v.len) }).push(
            Op::SegmentHeader { file, outcome: Ok(v.header) },
        ),
        after,
        file,
        layout,
        v.len,
        v.footer,
        v.data_end,
    )
}

pub open spec fn block_header_text(offset: u64, reason: Seq<char>) -> Seq<char> {
    "block header at "@ + text::decimal(offset as nat) + ": "@ + reason
}

pub open spec fn past_the_end_text(offset: u64) -> Seq<char> {
    "the block at "@ + text::decimal(offset as nat) + " runs past the end of the data"@
}

/// The error says that a file is damaged, for this reason.
pub open spec fn corrupt_because(e: Error, reason: Seq<char>) -> bool {
    match e {
        Error::Corrupt { reason: why, .. } => why@ == reason,
        _ => false,
    }
}

fn block_header_reason(offset: u64, reason: &str) -> (s: String)
    ensures
        s@ == block_header_text(offset, reason@),
{
    let mut s = String::new();
    s.push_str("block header at ");
    text::push_decimal(&mut s, offset);
    s.push_str(": ");
    s.push_str(reason);
    assert(s@ =~= block_header_text(offset, reason@));
    s
}

fn past_the_end_reason(offset: u64) -> (s: String)
    ensures
        s@ == past_the_end_text(offset),
{
    let mut s = String::new();
    s.push_str("the block at ");
    text::push_decimal(&mut s, offset);
    s.push_str(" runs past the end of the data");
    assert(s@ =~= past_the_end_text(offset));
    s
}

/// Where these blocks end when the first begins at `start`.
pub open spec fn end_from(layout: Layout, start: int, blocks: Seq<BlockHeader>) -> int
    decreases blocks.len(),
{
    if blocks.len() == 0 {
        start
    } else {
        end_from(layout, start, blocks.drop_last()) + layout.block_header + blocks.last().body_len
    }
}

/// The medium was asked for the block header at an offset, once.
pub open spec fn looked_once(
    before: Seq<Look>,
    after: Seq<Look>,
    file: SegmentFile,
    offset: u64,
) -> bool {
    after == before.push(Look { file, offset, found: after.last().found })
}

/// The looks that found these blocks one after another.
pub open spec fn found_in_turn(
    file: SegmentFile,
    offsets: Seq<u64>,
    blocks: Seq<BlockHeader>,
) -> Seq<Look> {
    Seq::new(
        blocks.len(),
        |i: int| Look { file, offset: offsets[i], found: HeaderProbe::Found(blocks[i]) },
    )
}

/// There is room for a block header at an offset.
pub open spec fn has_header(v: ReaderView, offset: u64) -> bool {
    offset < v.data_end && offset + v.layout.block_header <= v.data_end
}

/// The blocks of a walk are what the medium said they are, and the walk broke off
/// where the medium said so: at the end of the data, at a zero terminator, at a
/// block of another number, or at a failure.
pub open spec fn walked_over(
    v: ReaderView,
    before: Seq<Op>,
    after: Seq<Op>,
    start: u64,
    expected_seq: u32,
    blocks: Seq<BlockHeader>,
    scan: BlockScan,
) -> bool {
    let seen = medium::looks(before) + found_in_turn(v.file, scan.offsets@, blocks);
    let looks = medium::looks(after);
    &&& block_walk(v.layout, v.data_end, start, expected_seq, blocks, scan)
    &&& match scan.stopped {
        None => {
            ||| looks == seen && (scan.end >= v.data_end || scan.end + v.layout.block_header
                > v.data_end)
            ||| looks == seen.push(
                Look { file: v.file, offset: scan.end, found: HeaderProbe::Zero },
            ) && has_header(v, scan.end)
        },
        Some((_, Stopped::Gap { found, .. })) => {
            &&& has_header(v, scan.end)
            &&& looked_once(seen, looks, v.file, scan.end)
            &&& looks.last().found matches HeaderProbe::Found(h) && h.seq == found && scan.end
                + v.layout.block_header + h.body_len <= v.data_end
        },
        Some((_, Stopped::Failed(e))) => {
            &&& looks == seen || looked_once(seen, looks, v.file, scan.end)
            &&& {
                ||| medium::refused_with(after.last(), e) && medium::troubled(before, after)
                ||| {
                    &&& is_damaged(v, after, scan.end, e)
                    &&& has_header(v, scan.end)
                    &&& looked_once(seen, looks, v.file, scan.end)
                    &&& is_damage(v, scan.end, looks.last().found, e)
                }
            }
        },
    }
}

/// Where the blocks of a segment begin: as its footer lists them, or by walking.
pub open spec fn lists_blocks(
    v: ReaderView,
    offsets: Seq<u64>,
    before: Seq<Op>,
    after: Seq<Op>,
) -> bool {
    match v.footer {
        Some(f) => offsets == f.blocks@.map_values(|b: BlockEntry| b.offset) && after == before,
        None => exists|blocks: Seq<BlockHeader>, scan: BlockScan|
            offsets == scan.offsets@ && #[trigger] walked_over(
                v,
                before,
                after,
                v.layout.segment_header as u64,
                0,
                blocks,
                scan,
            ),
    }
}

/// A walk over consecutively numbered blocks from a known place.
pub open spec fn block_walk(
    layout: Layout,
    data_end: u64,
    start: u64,
    expected_seq: u32,
    blocks: Seq<BlockHeader>,
    scan: BlockScan,
) -> bool {
    &&& scan.offsets@.len() == blocks.len()
    &&& forall|i: int|
        0 <= i < blocks.len() ==> {
            &&& #[trigger] scan.offsets@[i] == end_from(layout, start as int, blocks.take(i))
            &&& blocks[i].seq == seq_after((expected_seq + i) as nat)
            &&& end_from(layout, start as int, blocks.take(i + 1)) <= data_end
        }
    &&& scan.end == end_from(layout, start as int, blocks)
    &&& scan.next_seq == seq_after((expected_seq + blocks.len()) as nat)
    &&& match scan.stopped {
        None => true,
        Some((at, Stopped::Gap { expected, found })) => at == scan.end && expected == scan.next_seq
            && found != expected,
        Some((at, Stopped::Failed(_))) => at == scan.end,
    }
}

impl SegmentReader {
    /// Opens a segment: reads its header and, where it is sealed, its footer.
    pub fn open<M: Medium>(io: &mut Io<M>, file: SegmentFile, layout: Layout) -> (r: Result<
        SegmentReader,
        Error,
    >)
        ensures
            medium::only_reads(old(io)@, final(io)@),
            medium::quiet(old(io)@, final(io)@),
            r matches Ok(reader) ==> was_opened(reader@, file, layout, old(io)@, final(io)@),
            r matches Err(e) ==> final(io)@.len() > old(io)@.len() && medium::refused_with(
                final(io)@.last(),
                e,
            ),
    {
        broadcast use {
            medium::group_trace,
            medium::lemma_changes_push,
            medium::lemma_read_out_push,
        };

        let len: u64 = match io.open_for_reading(file) {
            Ok(n) => n,
            Err(e) => {
                return Err(e);
            },
        };
        let header: SegmentHeader = match io.read_segment_header(file) {
            Ok(h) => h,
            Err(e) => {
                return Err(e);
            },
        };
        match Self::probe_tail(io, file, layout, len) {
            Ok((footer, data_end)) => Ok(
                SegmentReader { file, is_open: true, len, header, footer, data_end, layout },
            ),
            Err(e) => Err(e),
        }
    }

    /// Reads the tail again without the header. The segment under a subscription
    /// grows and changes length; its header does not change.
    pub fn refresh<M: Medium>(&mut self, io: &mut Io<M>) -> (r: Result<(), Error>)
        ensures
            medium::only_reads(old(io)@, final(io)@),
            medium::quiet(old(io)@, final(io)@),
            final(self)@.file == old(self)@.file,
            final(self)@.header == old(self)@.header,
            final(self)@.layout == old(self)@.layout,
            r is Ok ==> {
                let v = final(self)@;
                &&& v.is_open
                &&& v.data_end <= v.len
                &&& tail_found(
                    old(io)@.push(Op::OpenToRead { file: v.file, outcome: Ok(v.len) }),
                    final(io)@,
                    v.file,
                    v.layout,
                    v.len,
                    v.footer,
                    v.data_end,
                )
            },
            r matches Err(e) ==> {
                &&& final(self)@.len == old(self)@.len
                &&& final(self)@.footer == old(self)@.footer
                &&& final(self)@.data_end == old(self)@.data_end
                &&& final(io)@.len() > old(io)@.len() && medium::refused_with(final(io)@.last(), e)
            },
    {
        broadcast use {
            medium::group_trace,
            medium::lemma_changes_push,
            medium::lemma_read_out_push,
        };

        let len: u64 = match io.open_for_reading(self.file) {
            Ok(n) => n,
            Err(e) => {
                return Err(e);
            },
        };
        self.is_open = true;
        match Self::probe_tail(io, self.file, self.layout, len) {
            Ok((footer, data_end)) => {
                self.len = len;
                self.footer = footer;
                self.data_end = data_end;
                Ok(())
            },
            Err(e) => Err(e),
        }
    }

    /// Looks for a footer: the trailer first, from it the length, then the footer
    /// itself. A length that cannot be right, or bytes that are no footer, leave
    /// the segment unsealed: a corrupted length must not cut off blocks.
    fn probe_tail<M: Medium>(io: &mut Io<M>, file: SegmentFile, layout: Layout, len: u64) -> (r:
        Result<(Option<Footer>, u64), Error>)
        ensures
            medium::only_reads(old(io)@, final(io)@),
            medium::quiet(old(io)@, final(io)@),
            final(io)@.len() >= old(io)@.len(),
            r matches Ok((footer, data_end)) ==> data_end <= len && tail_found(
                old(io)@,
                final(io)@,
                file,
                layout,
                len,
                footer,
                data_end,
            ),
            r matches Err(e) ==> final(io)@.len() > old(io)@.len() && medium::refused_with(
                final(io)@.last(),
                e,
            ),
    {
        broadcast use {
            medium::group_trace,
            medium::lemma_changes_push,
            medium::lemma_read_out_push,
        };

        let ghost before = io@;
        if len < layout.segment_header as u64 + layout.trailer as u64 {
            return Ok((None, len));
        }
        let at: u64 = len - layout.trailer as u64;
        let trailer: Option<u64> = match io.read_trailer(file, at) {
            Ok(t) => t,
            Err(e) => {
                return Err(e);
            },
        };
        assert(io@ == before.push(Op::Trailer { file, offset: at, outcome: Ok(trailer) }));
        let total: u64 = match trailer {
            Some(t) => t,
            None => {
                return Ok((None, len));
            },
        };
        if total > len - layout.segment_header as u64 || total > MAX_FOOTER {
            return Ok((None, len));
        }
        match io.read_footer(file, len - total, total) {
            Ok(Some(f)) => Ok((Some(f), len - total)),
            Ok(None) => Ok((None, len)),
            Err(e) => Err(e),
        }
    }

    /// Closes the file, keeping everything already parsed.
    pub fn detach<M: Medium>(&mut self, io: &mut Io<M>)
        ensures
            final(self)@ == (ReaderView { is_open: false, ..old(self)@ }),
            final(io)@ == if old(self)@.is_open {
                old(io)@.push(Op::Close { file: old(self)@.file })
            } else {
                old(io)@
            },
    {
        if self.is_open {
            io.close(self.file);
            self.is_open = false;
        }
    }

    /// Makes sure the file is open.
    fn attach<M: Medium>(&mut self, io: &mut Io<M>) -> (r: Result<(), Error>)
        ensures
            medium::only_reads(old(io)@, final(io)@),
            medium::looks(final(io)@) == medium::looks(old(io)@),
            medium::quiet(old(io)@, final(io)@),
            r is Err ==> medium::troubled(old(io)@, final(io)@),
            final(io)@.len() >= old(io)@.len(),
            final(self)@ == (ReaderView { is_open: r is Ok || old(self)@.is_open, ..old(self)@ }),
            r matches Err(e) ==> final(io)@.len() > old(io)@.len() && medium::refused_with(
                final(io)@.last(),
                e,
            ),
            old(self)@.is_open ==> r is Ok && final(io)@ == old(io)@,
    {
        broadcast use {
            medium::group_trace,
            medium::lemma_changes_push,
            medium::lemma_read_out_push,
        };

        if !self.is_open {
            match io.open_for_reading(self.file) {
                Ok(_) => {
                    self.is_open = true;
                },
                Err(e) => {
                    return Err(e);
                },
            }
        }
        Ok(())
    }

    pub fn header(&self) -> (h: SegmentHeader)
        ensures
            h == self@.header,
    {
        self.header
    }

    /// The file the segment is read from.
    pub fn path(&self) -> (f: SegmentFile)
        ensures
            f == self@.file,
    {
        self.file
    }

    pub fn len(&self) -> (n: u64)
        ensures
            n == self@.len,
    {
        self.len
    }

    /// Whether there is nothing behind the header.
    pub fn is_empty(&self) -> (yes: bool)
        ensures
            yes == (self@.len <= self@.layout.segment_header),
    {
        self.len <= self.layout.segment_header as u64
    }

    /// The boundary of the useful data: the end of the blocks, before the footer.
    pub fn data_end(&self) -> (n: u64)
        ensures
            n == self@.data_end,
    {
        self.data_end
    }

    pub fn is_sealed(&self) -> (yes: bool)
        ensures
            yes == (self@.footer is Some),
    {
        self.footer.is_some()
    }

    pub fn layout(&self) -> (l: Layout)
        ensures
            l == self@.layout,
    {
        self.layout
    }

    /// The footer of a sealed segment.
    pub fn footer(&self) -> (f: Option<&Footer>)
        ensures
            match f {
                Some(x) => self@.footer == Some(*x),
                None => self@.footer is None,
            },
    {
        self.footer.as_ref()
    }

    /// Reads the block at an offset. `Ok(None)` means the end of the data.
    pub fn read_block_at<M: Medium>(&mut self, offset: u64, io: &mut Io<M>) -> (r: Result<
        Option<ReadBlock>,
        Error,
    >)
        ensures
            medium::only_reads(old(io)@, final(io)@),
            medium::quiet(old(io)@, final(io)@),
            final(self)@ == (ReaderView { is_open: final(self)@.is_open, ..old(self)@ }),
            ({
                let v = old(self)@;
                let trace = final(io)@;
                let room = offset + v.layout.block_header <= v.data_end && offset < v.data_end;
                let looks = medium::looks(old(io)@);
                &&& !room ==> r == Ok::<Option<ReadBlock>, Error>(None) && trace == old(io)@
                &&& room ==> trace.len() > old(io)@.len()
                &&& room ==> match r {
                    Ok(None) => medium::looks(trace) == looks.push(
                        Look { file: v.file, offset, found: HeaderProbe::Zero },
                    ),
                    Ok(Some(block)) => medium::looks(trace) == looks.push(
                        Look { file: v.file, offset, found: HeaderProbe::Found(block.header) },
                    ),
                    Err(_) => medium::looks(trace) == looks || looked_once(
                        looks,
                        medium::looks(trace),
                        v.file,
                        offset,
                    ),
                }
                &&& room ==> match r {
                    Ok(None) => trace.last() == (Op::BlockHeader {
                        file: v.file,
                        offset,
                        outcome: HeaderProbe::Zero,
                    }),
                    Ok(Some(block)) => {
                        &&& trace.len() >= 2
                        &&& trace[trace.len() - 2] == (Op::BlockHeader {
                            file: v.file,
                            offset,
                            outcome: HeaderProbe::Found(block.header),
                        })
                        &&& trace.last() == (Op::BlockBody {
                            file: v.file,
                            offset,
                            header: block.header,
                            outcome: block.body,
                        })
                        &&& !(block.body is Unreadable)
                        &&& block.next == offset + v.layout.block_header + block.header.body_len
                        &&& block.next <= v.data_end
                    },
                    Err(e) => {
                        ||| medium::refused_with(trace.last(), e) && medium::troubled(
                            old(io)@,
                            trace,
                        )
                        ||| is_damaged(v, trace, offset, e) && looked_once(
                            looks,
                            medium::looks(trace),
                            v.file,
                            offset,
                        ) && is_damage(v, offset, medium::looks(trace).last().found, e)
                    },
                }
            }),
    {
        broadcast use {
            medium::group_trace,
            medium::lemma_changes_push,
            medium::lemma_read_out_push,
        };

        let hdr: u64 = self.layout.block_header as u64;
        if offset >= self.data_end || self.data_end - offset < hdr {
            return Ok(None);
        }
        match self.attach(io) {
            Ok(()) => {},
            Err(e) => {
                return Err(e);
            },
        }
        let header: BlockHeader = match io.read_block_header(self.file, offset) {
            HeaderProbe::Found(h) => h,
            HeaderProbe::Zero => {
                return Ok(None);
            },
            HeaderProbe::Invalid(reason) => {
                let path = io.path_of(self.file);
                let why = block_header_reason(offset, reason.as_str());
                return Err(Error::Corrupt { path, reason: why });
            },
            HeaderProbe::Unreadable(e) => {
                return Err(e);
            },
        };
        let body_len: u64 = header.body_len as u64;
        if body_len > self.data_end - offset - hdr {
            let path = io.path_of(self.file);
            let why = past_the_end_reason(offset);
            return Err(Error::Corrupt { path, reason: why });
        }
        let body = io.read_block_body(self.file, offset, header);
        match body {
            BodyProbe::Unreadable(e) => Err(e),
            other => Ok(Some(ReadBlock { header, next: offset + hdr + body_len, body: other })),
        }
    }

    /// Where the first block begins.
    pub fn first_block_offset(&self) -> (at: u64)
        ensures
            at == self@.layout.segment_header,
    {
        self.layout.segment_header as u64
    }

    /// Where the blocks begin: from the footer if there is one, otherwise by
    /// walking. Damage breaks the **walk**, not the answer: the blocks already
    /// found are returned.
    pub fn block_offsets<M: Medium>(&mut self, io: &mut Io<M>) -> (offsets: Vec<u64>)
        requires
            old(self)@.layout.block_header > 0,
        ensures
            medium::only_reads(old(io)@, final(io)@),
            medium::quiet(old(io)@, final(io)@),
            final(self)@ == (ReaderView { is_open: final(self)@.is_open, ..old(self)@ }),
            lists_blocks(old(self)@, offsets@, old(io)@, final(io)@),
    {
        if let Some(f) = &self.footer {
            let mut out: Vec<u64> = Vec::new();
            let ghost all = f.blocks@.map_values(|b: BlockEntry| b.offset);
            let mut i: usize = 0;
            while i < f.blocks.len()
                invariant
                    i <= f.blocks@.len(),
                    all == f.blocks@.map_values(|b: BlockEntry| b.offset),
                    out@ == all.take(i as int),
                decreases f.blocks@.len() - i,
            {
                out.push(f.blocks[i].offset);
                i = i + 1;
                assert(out@ =~= all.take(i as int));
            }
            assert(out@ =~= all);
            return out;
        }
        self.scan_block_offsets(io).offsets
    }

    /// The same by walking, with the place where the walk broke off.
    pub fn scan_block_offsets<M: Medium>(&mut self, io: &mut Io<M>) -> (scan: BlockScan)
        requires
            old(self)@.layout.block_header > 0,
        ensures
            medium::only_reads(old(io)@, final(io)@),
            medium::quiet(old(io)@, final(io)@),
            final(self)@ == (ReaderView { is_open: final(self)@.is_open, ..old(self)@ }),
            exists|blocks: Seq<BlockHeader>| #[trigger]
                walked_over(
                    old(self)@,
                    old(io)@,
                    final(io)@,
                    old(self)@.layout.segment_header as u64,
                    0,
                    blocks,
                    scan,
                ),
    {
        let start: u64 = self.first_block_offset();
        let scan = self.scan_block_offsets_from(start, 0, io);
        assert(start == old(self)@.layout.segment_header as u64);
        scan
    }

    /// Continues a walk from a known place. The numbering of blocks is carried
    /// along: a partial walk would otherwise declare a gap at its first block.
    pub fn scan_block_offsets_from<M: Medium>(
        &mut self,
        start: u64,
        expected_seq: u32,
        io: &mut Io<M>,
    ) -> (scan: BlockScan)
        requires
            old(self)@.layout.block_header > 0,
        ensures
            medium::only_reads(old(io)@, final(io)@),
            medium::quiet(old(io)@, final(io)@),
            final(self)@ == (ReaderView { is_open: final(self)@.is_open, ..old(self)@ }),
            exists|blocks: Seq<BlockHeader>| #[trigger]
                walked_over(
                    old(self)@,
                    old(io)@,
                    final(io)@,
                    start,
                    expected_seq,
                    blocks,
                    scan,
                ),
    {
        let ghost layout = self@.layout;
        let ghost data_end = self@.data_end;
        let ghost mut blocks: Seq<BlockHeader> = Seq::empty();
        let mut scan = BlockScan {
            offsets: Vec::new(),
            end: start,
            next_seq: expected_seq,
            stopped: None,
        };
        let ghost v = self@;
        let ghost t0 = io@;
        assert(block_walk(layout, data_end, start, expected_seq, blocks, scan));
        assert(medium::looks(t0) + found_in_turn(v.file, scan.offsets@, blocks) =~= medium::looks(
            t0,
        ));
        loop
            invariant
                v == old(self)@,
                t0 == old(io)@,
                medium::looks(io@) == medium::looks(t0) + found_in_turn(
                    v.file,
                    scan.offsets@,
                    blocks,
                ),
                layout == old(self)@.layout,
                data_end == old(self)@.data_end,
                layout.block_header > 0,
                self@ == (ReaderView { is_open: self@.is_open, ..old(self)@ }),
                medium::quiet(t0, io@),
                medium::only_reads(t0, io@),
                scan.stopped is None,
                block_walk(layout, data_end, start, expected_seq, blocks, scan),
            decreases (if data_end >= scan.end { data_end - scan.end } else { 0 }),
        {
            let at: u64 = scan.end;
            match self.read_block_at(at, io) {
                Ok(Some(block)) => {
                    assert(has_header(v, at));
                    if block.header.seq != scan.next_seq {
                        scan.stopped = Some(
                            (
                                at,
                                Stopped::Gap { expected: scan.next_seq, found: block.header.seq },
                            ),
                        );
                        assert(walked_over(v, t0, io@, start, expected_seq, blocks, scan));
                        return scan;
                    }
                    let ghost longer = blocks.push(block.header);
                    let ghost earlier = scan;
                    scan.next_seq = scan.next_seq.saturating_add(1);
                    scan.offsets.push(at);
                    scan.end = block.next;
                    proof {
                        assert(longer.drop_last() =~= blocks);
                        assert forall|i: int| 0 <= i < longer.len() implies {
                            &&& #[trigger] scan.offsets@[i] == end_from(
                                layout,
                                start as int,
                                longer.take(i),
                            )
                            &&& longer[i].seq == seq_after((expected_seq + i) as nat)
                            &&& end_from(layout, start as int, longer.take(i + 1)) <= data_end
                        } by {
                            if i < blocks.len() {
                                assert(longer.take(i) =~= blocks.take(i));
                                assert(longer.take(i + 1) =~= blocks.take(i + 1));
                                assert(earlier.offsets@[i] == scan.offsets@[i]);
                            } else {
                                assert(longer.take(i) =~= blocks);
                                assert(longer.take(i + 1) =~= longer);
                            }
                        }
                        assert(found_in_turn(v.file, scan.offsets@, longer) =~= found_in_turn(
                            v.file,
                            earlier.offsets@,
                            blocks,
                        ).push(
                            Look {
                                file: v.file,
                                offset: at,
                                found: HeaderProbe::Found(block.header),
                            },
                        ));
                        assert(medium::looks(io@) =~= medium::looks(t0) + found_in_turn(
                            v.file,
                            scan.offsets@,
                            longer,
                        ));
                        blocks = longer;
                    }
                },
                Ok(None) => {
                    assert(walked_over(v, t0, io@, start, expected_seq, blocks, scan));
                    return scan;
                },
                Err(e) => {
                    scan.stopped = Some((at, Stopped::Failed(e)));
                    assert(has_header(v, at));
                    assert(walked_over(v, t0, io@, start, expected_seq, blocks, scan));
                    return scan;
                },
            }
        }
    }
}

proof fn lemma_end_adds_up(layout: Layout, start: int, a: Seq<BlockHeader>, b: Seq<BlockHeader>)
    ensures
        end_from(layout, start, a + b) == end_from(layout, end_from(layout, start, a), b),
    decreases b.len(),
{
    if b.len() == 0 {
        assert(a + b =~= a);
    } else {
        assert((a + b).drop_last() =~= a + b.drop_last());
        lemma_end_adds_up(layout, start, a, b.drop_last());
    }
}

/// The medium says of a place what it said before.
pub open spec fn same_looks(before: Seq<Look>, a: Seq<Look>, earlier: Seq<Look>, b: Seq<Look>) -> bool {
    forall|p: int, q: int|
        before.len() <= p < a.len() && earlier.len() <= q < b.len() && (#[trigger] a[p]).offset == (
        #[trigger] b[q]).offset ==> a[p].found == b[q].found
}

/// A walk broke off at a block that the medium refused to read.
pub open spec fn cut_short(scan: BlockScan, before: Seq<Op>, after: Seq<Op>) -> bool {
    &&& scan.stopped matches Some((_, Stopped::Failed(_)))
    &&& medium::troubled(before, after)
}

/// Two walks stopped at the same place, for the same reason.
pub open spec fn stopped_alike(a: BlockScan, b: BlockScan) -> bool {
    match (a.stopped, b.stopped) {
        (Some((p, Stopped::Failed(e))), Some((q, Stopped::Failed(f)))) => p == q && exists|
            text: Seq<char>,
        | #[trigger] corrupt_because(e, text) && corrupt_because(f, text),
        _ => a.stopped == b.stopped,
    }
}

/// A walk that is taken up at a block of an earlier one, or at its end, in a file that
/// did not change, finds the rest of what the earlier one found: as far as both go they
/// agree, and either stops short of the other only at a block that the medium refused to
/// read. Where neither does, the second ends where the first ended, and for the same
/// reason: damage met once is met again.
#[verifier::rlimit(60)]
pub proof fn law_a_walk_can_be_continued(
    v: ReaderView,
    t0: Seq<Op>,
    t1: Seq<Op>,
    start: u64,
    seq: u32,
    blocks: Seq<BlockHeader>,
    scan: BlockScan,
    i: int,
    t2: Seq<Op>,
    t3: Seq<Op>,
    rest: Seq<BlockHeader>,
    more: BlockScan,
)
    requires
        v.layout.block_header > 0,
        walked_over(v, t0, t1, start, seq, blocks, scan),
        0 <= i <= blocks.len(),
        walked_over(
            v,
            t2,
            t3,
            if i < blocks.len() {
                scan.offsets@[i]
            } else {
                scan.end
            },
            seq_after((seq + i) as nat),
            rest,
            more,
        ),
        same_looks(
            medium::looks(t0),
            medium::looks(t1),
            medium::looks(t2),
            medium::looks(t3),
        ),
    ensures
        forall|k: int|
            0 <= k < rest.len() && i + k < blocks.len() ==> (#[trigger] more.offsets@[k])
                == scan.offsets@[i + k],
        !cut_short(more, t2, t3) ==> i + rest.len() >= blocks.len(),
        !cut_short(scan, t0, t1) ==> i + rest.len() <= blocks.len(),
        !cut_short(scan, t0, t1) && !cut_short(more, t2, t3) ==> {
            &&& more.offsets@ == scan.offsets@.skip(i)
            &&& more.end == scan.end
            &&& more.next_seq == scan.next_seq
            &&& stopped_alike(more, scan)
        },
{
    let n = min(blocks.len() - i, rest.len() as int);
    lemma_walks_agree(v, t0, t1, start, seq, blocks, scan, i, t2, t3, rest, more, n);
    let tail = blocks.skip(i);
    let from = if i < blocks.len() {
        scan.offsets@[i]
    } else {
        scan.end
    };
    let la = medium::looks(t0);
    let lb = medium::looks(t2);
    let a = medium::looks(t1);
    let b = medium::looks(t3);
    assert(blocks.take(i) + tail =~= blocks);
    lemma_end_adds_up(v.layout, start as int, blocks.take(i), tail);
    assert(blocks.take(blocks.len() as int) =~= blocks);
    assert(from == end_from(v.layout, start as int, blocks.take(i)));
    assert(rest.take(n) == tail.take(n));
    assert forall|k: int| 0 <= k < n implies (#[trigger] more.offsets@[k]) == scan.offsets@[i + k] by {
        lemma_same_place(v, start, blocks, scan, i, rest, more, n, k);
    }
    if i + rest.len() < blocks.len() && !cut_short(more, t2, t3) {
        lemma_same_end(v, start, blocks, i, rest, n);
        assert(rest.take(n) =~= rest);
        assert(scan.offsets@[i + n] == end_from(v.layout, start as int, blocks.take(i + n)));
        assert(more.end == scan.offsets@[i + n]);
        let p = la.len() + i + n;
        assert(a[p] == (Look {
            file: v.file,
            offset: scan.offsets@[i + n],
            found: HeaderProbe::Found(blocks[i + n]),
        }));
        assert(blocks.take(i + n + 1).drop_last() =~= blocks.take(i + n));
        assert(has_header(v, more.end));
        let q = lb.len() + rest.len();
        assert(b.len() == q + 1);
        assert(b[q as int].offset == more.end);
        assert(a[p].found == b[q as int].found);
        assert(false);
    }
    if i + rest.len() > blocks.len() && !cut_short(scan, t0, t1) {
        assert(n == blocks.len() - i);
        assert(tail.take(n) =~= tail);
        assert(scan.end == end_from(v.layout, from as int, tail));
        assert(more.offsets@[n] == end_from(v.layout, from as int, rest.take(n)));
        assert(rest.take(n + 1).drop_last() =~= rest.take(n));
        assert(has_header(v, scan.end));
        let q = lb.len() + n;
        assert(b[q] == (Look {
            file: v.file,
            offset: more.offsets@[n],
            found: HeaderProbe::Found(rest[n]),
        }));
        let p = la.len() + blocks.len();
        assert(a.len() == p + 1);
        assert(a[p as int].offset == scan.end);
        assert(a[p as int].found == b[q].found);
        assert(false);
    }
    if !cut_short(scan, t0, t1) && !cut_short(more, t2, t3) {
        assert(n == rest.len() && n == tail.len());
        assert(rest.take(n) =~= rest && tail.take(n) =~= tail);
        assert(more.offsets@ =~= scan.offsets@.skip(i));
        assert(more.end == scan.end);
        let p = la.len() + blocks.len();
        let q = lb.len() + rest.len();
        if has_header(v, scan.end) {
            assert(a.len() == p + 1 && b.len() == q + 1);
            assert(a[p as int].offset == scan.end && b[q as int].offset == scan.end);
            assert(a[p as int].found == b[q as int].found);
            match (scan.stopped, more.stopped) {
                (Some((_, Stopped::Failed(e))), Some((_, Stopped::Failed(f)))) => {
                    match a[p as int].found {
                        HeaderProbe::Invalid(reason) => {
                            let text = block_header_text(scan.end, reason@);
                            assert(corrupt_because(e, text) && corrupt_because(f, text));
                        },
                        _ => {
                            let text = past_the_end_text(scan.end);
                            assert(corrupt_because(e, text) && corrupt_because(f, text));
                        },
                    }
                },
                _ => {},
            }
        }
    }
}

proof fn lemma_same_end(
    v: ReaderView,
    start: u64,
    blocks: Seq<BlockHeader>,
    i: int,
    rest: Seq<BlockHeader>,
    n: int,
)
    requires
        0 <= i <= blocks.len(),
        0 <= n <= blocks.len() - i,
        n <= rest.len(),
        rest.take(n) == blocks.skip(i).take(n),
    ensures
        end_from(v.layout, end_from(v.layout, start as int, blocks.take(i)), rest.take(n))
            == end_from(v.layout, start as int, blocks.take(i + n)),
{
    lemma_end_adds_up(v.layout, start as int, blocks.take(i), rest.take(n));
    assert(blocks.take(i) + blocks.skip(i).take(n) =~= blocks.take(i + n));
}

proof fn lemma_same_place(
    v: ReaderView,
    start: u64,
    blocks: Seq<BlockHeader>,
    scan: BlockScan,
    i: int,
    rest: Seq<BlockHeader>,
    more: BlockScan,
    n: int,
    k: int,
)
    requires
        0 <= i <= blocks.len(),
        0 <= k < n <= blocks.len() - i,
        n <= rest.len(),
        rest.take(n) == blocks.skip(i).take(n),
        scan.offsets@.len() == blocks.len(),
        more.offsets@.len() == rest.len(),
        scan.offsets@[i + k] == end_from(v.layout, start as int, blocks.take(i + k)),
        more.offsets@[k] == end_from(
            v.layout,
            end_from(v.layout, start as int, blocks.take(i)),
            rest.take(k),
        ),
    ensures
        more.offsets@[k] == scan.offsets@[i + k],
{
    assert(rest.take(k) =~= rest.take(n).take(k));
    assert(blocks.skip(i).take(k) =~= blocks.skip(i).take(n).take(k));
    lemma_same_end(v, start, blocks, i, rest, k);
}

/// Two walks over one file see the same blocks from the same place on.
proof fn lemma_walks_agree(
    v: ReaderView,
    t0: Seq<Op>,
    t1: Seq<Op>,
    start: u64,
    seq: u32,
    blocks: Seq<BlockHeader>,
    scan: BlockScan,
    i: int,
    t2: Seq<Op>,
    t3: Seq<Op>,
    rest: Seq<BlockHeader>,
    more: BlockScan,
    n: int,
)
    requires
        walked_over(v, t0, t1, start, seq, blocks, scan),
        0 <= i <= blocks.len(),
        walked_over(
            v,
            t2,
            t3,
            if i < blocks.len() {
                scan.offsets@[i]
            } else {
                scan.end
            },
            seq_after((seq + i) as nat),
            rest,
            more,
        ),
        same_looks(
            medium::looks(t0),
            medium::looks(t1),
            medium::looks(t2),
            medium::looks(t3),
        ),
        0 <= n <= blocks.len() - i,
        n <= rest.len(),
    ensures
        rest.take(n) == blocks.skip(i).take(n),
    decreases n,
{
    if n > 0 {
        let m = n - 1;
        lemma_walks_agree(v, t0, t1, start, seq, blocks, scan, i, t2, t3, rest, more, m);
        lemma_same_end(v, start, blocks, i, rest, m);
        assert(blocks.take(blocks.len() as int) =~= blocks);
        assert(scan.offsets@[i] == end_from(v.layout, start as int, blocks.take(i)));
        assert(more.offsets@[m] == end_from(
            v.layout,
            scan.offsets@[i] as int,
            rest.take(m),
        ));
        assert(scan.offsets@[i + m] == end_from(v.layout, start as int, blocks.take(i + m)));
        let a = medium::looks(t1);
        let b = medium::looks(t3);
        let p = medium::looks(t0).len() + i + m;
        let q = medium::looks(t2).len() + m;
        assert(a[p] == (Look {
            file: v.file,
            offset: scan.offsets@[i + m],
            found: HeaderProbe::Found(blocks[i + m]),
        }));
        assert(b[q] == (Look {
            file: v.file,
            offset: more.offsets@[m],
            found: HeaderProbe::Found(rest[m]),
        }));
        assert(a[p].found == b[q].found);
        assert(rest.take(n) =~= rest.take(m).push(rest[m]));
        assert(blocks.skip(i).take(n) =~= blocks.skip(i).take(m).push(blocks[i + m]));
    }
}

/// What recovery keeps of a segment is a whole beginning of it: the blocks are numbered from zero
/// without a gap, the body of each agrees with its checksum, and they lie one behind the other
/// inside the file, from the header on.
pub proof fn law_recovery_keeps_a_whole_beginning(
    layout: Layout,
    file_len: u64,
    blocks: Seq<Walked>,
    k: int,
)
    requires
        walkable(layout, file_len, blocks),
        0 <= k < blocks.len(),
    ensures
        k < u32::MAX ==> blocks[k].0.seq == k,
        blocks[k].1 is Sound || blocks[k].1 is Opaque,
        end_of(layout, blocks.take(0)) == layout.segment_header,
        end_of(layout, blocks.take(k + 1)) == end_of(layout, blocks.take(k)) + layout.block_header
            + blocks[k].0.body_len,
        end_of(layout, blocks.take(k + 1)) <= file_len,
    decreases blocks.len(),
{
    let rest = blocks.drop_last();
    assert(blocks.take(k + 1).drop_last() =~= blocks.take(k));
    assert(blocks.take(k + 1).last() == blocks[k]);
    if k < blocks.len() - 1 {
        law_recovery_keeps_a_whole_beginning(layout, file_len, rest, k);
        assert(rest.take(k + 1) =~= blocks.take(k + 1));
    } else {
        assert(blocks.take(k + 1) =~= blocks);
    }
}

/// Recovery gives up a segment's tail only for a reason: the file ends, a header is all zeros, or
/// what stands there is no next block: it cannot be read, has another number, does not fit the file,
/// or its body does not agree with its checksum. Only the last of these is damage.
pub proof fn law_recovery_stops_only_where_no_block_follows(
    before: Seq<Op>,
    after: Seq<Op>,
    file: SegmentFile,
    layout: Layout,
    file_len: u64,
    blocks: Seq<Walked>,
    end: ScanEnd,
)
    requires
        walk_ends(before, after, file, layout, file_len, blocks, end),
    ensures
        end.damage() <==> !(end is FileEnd) && !(end is ZeroTail),
        end is FileEnd <==> file_len - end_of(layout, blocks) < layout.block_header,
        end is ZeroTail ==> (after.last() matches Op::BlockHeader { outcome: HeaderProbe::Zero, .. }),
        end matches ScanEnd::SeqGap { expected, found } ==> {
            &&& found != expected
            &&& blocks.len() < u32::MAX ==> expected == blocks.len()
            &&& after.last() matches Op::BlockHeader { outcome: HeaderProbe::Found(h), .. } && h.seq
                == found
        },
        end is Corrupt ==> {
            ||| after.last() matches Op::BlockHeader { outcome: HeaderProbe::Unreadable(_), .. }
            ||| after.last() matches Op::BlockHeader { outcome: HeaderProbe::Invalid(_), .. }
            ||| after.last() matches Op::BlockHeader { outcome: HeaderProbe::Found(h), .. }
                && end_of(layout, blocks) + layout.block_header + h.body_len > file_len
            ||| after.last() matches Op::BlockBody { outcome, .. } && !(outcome is Sound)
                && !(outcome is Opaque)
        },
{
}

/// A sealed torn segment is as long as its intact data and its footer; what it occupied beyond that
/// went back to the medium; and it counts as truncated if and only if damage ended the walk.
pub proof fn law_a_torn_segment_is_cut_to_its_data(scan: Scan, len: u64, footer_len: u64)
    requires
        scan.data_end + footer_len <= u64::MAX,
    ensures
        ({
            let r = recovered(scan, len, footer_len);
            &&& r.size_bytes == scan.data_end + footer_len
            &&& r.reclaimed + r.size_bytes == len || r.reclaimed == 0 && len <= r.size_bytes
            &&& r.truncated <==> scan.stopped_by is Corrupt || scan.stopped_by is SeqGap
            &&& r.name.boot == scan.header.boot && r.name.base == scan.header.base
        }),
{
}

/// A segment that is reopened goes on where its intact data ends, under its own header, within the
/// limit it is given or what it has on the medium, whichever is more, and asks for no space.
pub proof fn law_a_reopened_segment_goes_on_where_it_ended(
    file: SegmentFile,
    scan: Scan,
    on_disk: u64,
    limit: Option<u64>,
    layout: Layout,
)
    ensures
        ({
            let w = reopened(file, scan, on_disk, limit, layout);
            &&& w.end == scan.data_end && w.capacity == scan.data_end
            &&& w.next_seq == scan.next_seq
            &&& w.header == scan.header
            &&& !w.dirty
            &&& w.limit >= on_disk
            &&& limit matches Some(l) ==> w.limit >= l && (w.limit == l || w.limit == on_disk)
            &&& limit is None ==> w.limit == on_disk
        }),
        belongs(scan, None),
        forall|store: u64| #[trigger]
            belongs(scan, Some(store)) <==> scan.header.store_id == store,
{
}

/// A fresh segment begins behind its header, takes no more of the medium than its limit or a first
/// extent, whichever is less, and has nothing to sync.
pub proof fn law_a_fresh_segment_takes_a_first_extent(
    file: SegmentFile,
    header: SegmentHeader,
    limit: u64,
    layout: Layout,
)
    ensures
        ({
            let w = SegmentWriter::created(file, header, limit, layout);
            &&& w.end == layout.segment_header
            &&& w.next_seq == 0
            &&& !w.dirty
            &&& w.capacity <= w.limit
            &&& w.end + layout.block_header <= w.capacity
            &&& limit >= layout.segment_header + layout.block_header ==> w.limit == limit
            &&& 65_536 <= limit && layout.segment_header + layout.block_header <= 65_536
                ==> w.capacity == 65_536
            &&& limit < 65_536 && layout.segment_header + layout.block_header <= limit
                ==> w.capacity == limit
        }),
{
}

/// A block fits if and only if it ends, with a zero header behind it, within the limit; one that is
/// written moves the end by its length and the number by one, and leaves something to sync.
pub proof fn law_a_block_goes_behind_the_others(w: SegmentWriter, block: BlockInfo)
    ensures
        w.has_room(block.len as int) <==> w.end + block.len + w.layout.block_header <= w.limit,
        w.end + block.len <= u64::MAX ==> w.with_block(block).end == w.end + block.len,
        w.next_seq < u32::MAX ==> w.with_block(block).next_seq == w.next_seq + 1,
        w.with_block(block).dirty,
        w.with_block(block).file == w.file && w.with_block(block).limit == w.limit
            && w.with_block(block).header == w.header,
        w.end + block.len + w.layout.block_header <= u64::MAX ==> {
            &&& w.windowed(block.len).capacity >= w.end + block.len + w.layout.block_header
            &&& w.windowed(block.len).capacity >= w.capacity || w.capacity > w.limit
            &&& w.windowed(block.len).end == w.end
            &&& w.windowed(block.len).next_seq == w.next_seq
        },
{
}

/// What a block holds is noted until the block lands: its events among the events, its metrics among
/// the metrics, and nothing that was noted is forgotten.
pub proof fn law_types_are_noted_with_their_block(
    v: FooterView,
    types: BlockTypes,
    event: EventId,
    metric: MetricId,
)
    ensures
        with_types(v, types).pending_events.contains(event.0) <==> v.pending_events.contains(event.0)
            || types.events@.contains(event),
        with_types(v, types).pending_metrics.contains(metric.0) <==> v.pending_metrics.contains(
            metric.0,
        ) || types.metrics@.contains(metric),
        with_types(v, types).events == v.events,
        with_types(v, types).metrics == v.metrics,
{
    let events = types.events@.map_values(|id: EventId| id.0);
    let metrics = types.metrics@.map_values(|id: MetricId| id.0);
    if types.events@.contains(event) {
        let k = types.events@.index_of(event);
        assert(events[k] == event.0);
    }
    if events.contains(event.0) {
        let k = events.index_of(event.0);
        assert(types.events@[k] == event);
    }
    if types.metrics@.contains(metric) {
        let k = types.metrics@.index_of(metric);
        assert(metrics[k] == metric.0);
    }
    if metrics.contains(metric.0) {
        let k = metrics.index_of(metric.0);
        assert(types.metrics@[k] == metric);
    }
}

} // verus!
