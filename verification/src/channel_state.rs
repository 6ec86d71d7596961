//! One channel as the writer sees it: the segment being written, the block being
//! assembled, and what is owed to the medium.
//!
//! The accounting is the point. A record that entered the accumulator either
//! lands on the medium with its block or is counted as lost, in the total counter
//! and in the channel's own, from which a notice goes into the stream.

use crate::channel::ChannelConfig;
use crate::error::Error;
use crate::footer::{BlockEntry, Footer, FooterBuilder, FooterView};
use crate::format::{
    BlockHeader, BootCounter, Layout, Micros, ProtocolVersion, SegmentHeader, SegmentName,
};
use crate::medium;
use crate::medium::{BlockInfo, Finished, Io, Listed, Medium, Op, Place, SegmentFile, Stamped};
use crate::rotation;
use crate::rotation::{Inventory, SegmentEntry};
use crate::segment::{
    appended, lemma_appended_keeps_layout, orphan_settled, seal_orphan, seq_after, was_reopened,
    Recovered, SegmentWriter,
};
use crate::stats;
use crate::staged::{RecordView, Staged};
use crate::stats::Counters;
use vstd::prelude::*;

verus! {

broadcast use {
    crate::medium::group_trace,
    crate::medium::group_synced,
    crate::medium::group_answered,
};

/// The attributes that go into the header of every segment of a channel.
#[derive(Debug, Clone, Copy, PartialEq, Eq, Structural)]
pub struct SegmentIdentity {
    pub protocol_version: ProtocolVersion,
    pub store_id: u64,
    pub boot: BootCounter,
}

/// The block being assembled.
#[derive(Debug, Clone, Copy, PartialEq, Eq, Structural)]
pub struct Accumulator {
    /// How many records are in it.
    pub count: u32,
    /// The length of its body so far.
    pub raw_len: u64,
    /// The times of its first and its last record.
    pub first: Micros,
    pub last: Micros,
}

impl Accumulator {
    pub open spec fn empty() -> Accumulator {
        Accumulator { count: 0, raw_len: 0, first: Micros(0), last: Micros(0) }
    }

    pub fn new() -> (a: Accumulator)
        ensures
            a == Accumulator::empty(),
    {
        Accumulator { count: 0, raw_len: 0, first: Micros(0), last: Micros(0) }
    }
}

/// Where an assembled block landed.
#[derive(Debug, Clone, Copy, PartialEq, Eq, Structural)]
pub enum Placement {
    /// Written at an offset.
    At(u64),
    /// Discarded: it does not fit even a fresh segment. The loss is counted.
    Dropped,
}

/// The later of two times.
pub open spec fn max_time(a: Micros, b: Micros) -> u64 {
    if a.0 >= b.0 {
        a.0
    } else {
        b.0
    }
}

/// Where an error comes from: the medium answered with it, or every name tried for a new
/// segment was taken.
pub open spec fn blamed(before: Seq<Op>, after: Seq<Op>, e: Error) -> bool {
    ||| medium::answered(before, after, e)
    ||| medium::troubled(before, after) && is_out_of_names(e)
}

/// No name was found for a new segment.
pub open spec fn is_out_of_names(e: Error) -> bool {
    match e {
        Error::Corrupt { reason, .. } => reason@ == NO_NAME@,
        _ => false,
    }
}

/// A block was refused for want of space.
pub open spec fn is_starved(r: Result<u64, Error>) -> bool {
    match r {
        Ok(_) => false,
        Err(e) => e.is_out_of_space(),
    }
}

/// The counters once a segment is sealed.
pub open spec fn one_sealed(c: Counters) -> Counters {
    Counters { segments_sealed: stats::plus(c.segments_sealed, 1), ..c }
}

/// How many names are tried for a new segment.
pub const NAME_ATTEMPTS: u32 = 64;

/// After how many refusals for want of space a new segment is given up.
pub const SPACE_ATTEMPTS: u32 = 8;

/// The state of a channel.
#[derive(Debug)]
pub struct ChannelState {
    pub place: Place,
    pub config: ChannelConfig,
    /// The channel's budget group.
    pub group: usize,
    /// The medium the group lives on.
    pub root_key: u8,
    /// The namespace's personal quota; `None` means the group budget only.
    pub quota_bytes: Option<u64>,
    pub identity: SegmentIdentity,
    pub layout: Layout,
    pub inventory: Inventory,
    /// The open segment.
    pub segment: Option<SegmentWriter>,
    /// A segment released for idleness: cut down to its data and closed, but not
    /// sealed; the next write continues it.
    pub parked_segment: Option<SegmentName>,
    pub block: Accumulator,
    pub footer: FooterBuilder,
    /// The greatest time written: time that went backwards is pulled forward.
    pub last_time: Micros,
    /// Since when the block is open.
    pub block_opened: Option<u64>,
    pub last_sync: u64,
    pub dirty_since_sync: bool,
    /// Whether the channel is in the list of those with something to service.
    pub is_in_active_list: bool,
    /// Since when the channel has had nothing to service.
    pub idle_since: Option<u64>,
    /// Whether the buffers of this idle spell have been given back.
    pub buffers_released: bool,
    /// Records lost in this channel and not yet announced in its stream.
    pub lost: u64,
}

impl ChannelState {
    /// What every operation keeps.
    pub open spec fn wf(&self) -> bool {
        &&& self.inventory.wf()
        &&& self.footer.wf()
        &&& self.layout.block_header > 0
        &&& self.segment matches Some(s) ==> s.wf() && s.file.place == self.place
        &&& !(self.segment is Some && self.parked_segment is Some)
        &&& self.block.count > 0 ==> self.block_opened is Some
        &&& self.block.count > 0 || self.dirty_since_sync ==> self.is_in_active_list
        &&& (self.segment matches Some(s) && s.dirty) ==> self.dirty_since_sync
    }

    /// The block can take another record.
    pub open spec fn ready(&self) -> bool {
        self.wf() && self.block.count < u32::MAX
    }

    /// A segment that passes for synced is: every block written to it was synced. And
    /// the block being assembled holds as many records as are counted in it, the first and
    /// the last of the times noted.
    pub open spec fn honest(&self, trace: Seq<Op>) -> bool {
        let records = medium::assembled(trace, self.place);
        &&& self.segment matches Some(s) ==> (medium::unsynced(trace, s.file) ==> s.dirty)
        &&& records.len() == self.block.count
        &&& self.block.count > 0 ==> records[0].0 == self.block.first && records.last().0
            == self.block.last
    }

    /// An open block has a segment to go to.
    pub open spec fn housed(&self) -> bool {
        self.block.count > 0 ==> self.segment is Some
    }

    /// Nothing is owed to the medium: every block of the open segment was synced.
    pub open spec fn is_synced(&self, trace: Seq<Op>) -> bool {
        &&& !self.dirty_since_sync
        &&& self.segment matches Some(s) ==> !s.dirty && !medium::unsynced(trace, s.file)
    }

    /// Nothing but the channel's own files and its own block changed, and the channel
    /// stays honest.
    pub open spec fn faithful(
        before: &ChannelState,
        after: &ChannelState,
        t0: Seq<Op>,
        t1: Seq<Op>,
    ) -> bool {
        &&& medium::grown(t0, t1)
        &&& medium::dirties_at(t0, t1, before.place)
        &&& before.honest(t0) ==> after.honest(t1)
    }

    /// What no operation changes.
    pub open spec fn same_channel(&self, other: &ChannelState) -> bool {
        &&& self.place == other.place
        &&& self.config == other.config
        &&& self.group == other.group
        &&& self.root_key == other.root_key
        &&& self.quota_bytes == other.quota_bytes
        &&& self.identity == other.identity
        &&& self.layout == other.layout
    }

    /// The bookkeeping of servicing, which only the loop itself changes.
    pub open spec fn same_service(&self, other: &ChannelState) -> bool {
        &&& self.is_in_active_list == other.is_in_active_list
        &&& self.idle_since == other.idle_since
        &&& self.buffers_released == other.buffers_released
    }

    /// The block being assembled and the time it has reached.
    pub open spec fn same_block(&self, other: &ChannelState) -> bool {
        &&& self.block == other.block
        &&& self.block_opened == other.block_opened
    }

    /// The segment the channel is writing to or will go on writing to: neither
    /// rotation nor a budget may evict it.
    pub open spec fn live(&self) -> Option<SegmentName> {
        match self.segment {
            Some(s) => Some(s.header.name()),
            None => self.parked_segment,
        }
    }

    pub fn live_segment(&self) -> (name: Option<SegmentName>)
        ensures
            name == self.live(),
    {
        match &self.segment {
            Some(s) => Some(s.header.file_name()),
            None => self.parked_segment,
        }
    }

    /// When an incomplete block has to be flushed.
    pub open spec fn flush_due(&self) -> Option<int> {
        match self.block_opened {
            Some(t) => Some(t + self.config.flush_interval.nanos),
            None => None,
        }
    }

    /// When the channel has to be synced.
    pub open spec fn sync_due(&self) -> Option<int> {
        if self.dirty_since_sync {
            Some(self.last_sync + self.config.sync_interval.nanos)
        } else {
            None
        }
    }

    /// When an incomplete block has to be flushed.
    pub fn flush_deadline(&self) -> (t: Option<u128>)
        ensures
            match t {
                Some(d) => self.flush_due() == Some(d as int),
                None => self.flush_due() is None,
            },
    {
        match self.block_opened {
            Some(t) => Some(t as u128 + self.config.flush_interval.nanos as u128),
            None => None,
        }
    }

    /// When the channel has to be synced.
    pub fn sync_deadline(&self) -> (t: Option<u128>)
        ensures
            match t {
                Some(d) => self.sync_due() == Some(d as int),
                None => self.sync_due() is None,
            },
    {
        if self.dirty_since_sync {
            Some(self.last_sync as u128 + self.config.sync_interval.nanos as u128)
        } else {
            None
        }
    }

    /// The oldest segment, unless it is the live one.
    pub open spec fn oldest_evictable(&self) -> Option<SegmentEntry> {
        match Inventory::front(self.inventory@) {
            Some(e) => if Some(e.name) == self.live() {
                None
            } else {
                Some(e)
            },
            None => None,
        }
    }

    /// The oldest segment, unless it is the live one.
    pub fn evictable(&self) -> (e: Option<SegmentEntry>)
        ensures
            e == self.oldest_evictable(),
    {
        let live = self.live_segment();
        match self.inventory.oldest() {
            Some(e) => if Some(e.name) == live {
                None
            } else {
                Some(e)
            },
            None => None,
        }
    }

    /// Deletes exactly one segment, the oldest. Used when the medium has run out
    /// of space.
    pub fn rotate_one<M: Medium>(&mut self, counters: &mut Counters, io: &mut Io<M>) -> (r: Result<
        bool,
        Error,
    >)
        requires
            old(self).wf(),
        ensures
            final(self).wf(),
            *final(self) == (ChannelState { inventory: final(self).inventory, ..*old(self) }),
            medium::quiet(old(io)@, final(io)@),
            r is Err ==> medium::troubled(old(io)@, final(io)@),
            r matches Err(e) ==> blamed(old(io)@, final(io)@, e),
            match old(self).oldest_evictable() {
                None => {
                    &&& r == Ok::<bool, Error>(false)
                    &&& *final(self) == *old(self)
                    &&& *final(counters) == *old(counters)
                    &&& final(io)@ == old(io)@
                },
                Some(victim) => {
                    let file = SegmentFile { place: old(self).place, name: victim.name };
                    match r {
                        Ok(freed) => {
                            &&& freed
                            &&& final(self).inventory@ == rotation::forgotten(
                                old(self).inventory@,
                                victim.name,
                            )
                            &&& final(self).inventory@ == old(self).inventory@.skip(1)
                            &&& *final(counters) == (Counters {
                                segments_rotated: stats::plus(old(counters).segments_rotated, 1),
                                ..*old(counters)
                            })
                            &&& final(io)@ == old(io)@.push(Op::Remove { file, refused: None })
                        },
                        Err(e) => {
                            &&& *final(self) == *old(self)
                            &&& *final(counters) == *old(counters)
                            &&& final(io)@ == old(io)@.push(Op::Remove { file, refused: Some(e) })
                        },
                    }
                },
            },
    {
        match self.evictable() {
            None => Ok(false),
            Some(victim) => {
                match io.remove(victim.file(self.place)) {
                    Ok(()) => {},
                    Err(e) => {
                        return Err(e);
                    },
                }
                proof {
                    rotation::lemma_oldest_forgotten(self.inventory@);
                }
                self.inventory.remove(victim.name);
                Counters::bump(&mut counters.segments_rotated);
                Ok(true)
            },
        }
    }

    /// What keeping the quota comes to: the oldest segments over it were deleted, or the
    /// medium refused.
    pub open spec fn rotated(
        before: &ChannelState,
        after: &ChannelState,
        c0: Counters,
        c1: Counters,
        t0: Seq<Op>,
        t1: Seq<Op>,
        refused: Option<Error>,
    ) -> bool {
        &&& *after == (ChannelState { inventory: after.inventory, ..*before })
        &&& match before.quota_bytes {
            None => refused is None && *after == *before && c1 == c0 && t1 == t0,
            Some(quota) => match refused {
                None => {
                    let k = rotation::to_evict(before.inventory@, quota, before.live());
                    &&& rotation::budget_kept(
                        before.inventory@,
                        after.inventory@,
                        before.place,
                        quota,
                        before.live(),
                        t0,
                        t1,
                    )
                    &&& c1 == (Counters {
                        segments_rotated: stats::plus(c0.segments_rotated, k as int),
                        ..c0
                    })
                },
                Some(e) => c1 == c0 && rotation::budget_exceeded(
                    before.inventory@,
                    after.inventory@,
                    before.place,
                    quota,
                    before.live(),
                    t0,
                    t1,
                    e,
                ),
            },
        }
    }

    /// Keeps the channel within the namespace's personal quota, if one is set.
    /// Without a quota there is no rotation per channel: the limit is the group
    /// budget.
    pub fn rotate<M: Medium>(&mut self, counters: &mut Counters, io: &mut Io<M>) -> (r: Result<
        (),
        Error,
    >)
        requires
            old(self).wf(),
        ensures
            final(self).wf(),
            Self::rotated(
                old(self),
                final(self),
                *old(counters),
                *final(counters),
                old(io)@,
                final(io)@,
                medium::refusal(r),
            ),
            medium::quiet(old(io)@, final(io)@),
            medium::made(final(io)@) == medium::made(old(io)@),
            r is Err ==> medium::troubled(old(io)@, final(io)@),
            r matches Err(e) ==> blamed(old(io)@, final(io)@, e),
            match old(self).quota_bytes {
                None => *final(counters) == *old(counters),
                Some(quota) => {
                    let k = rotation::to_evict(old(self).inventory@, quota, old(self).live());
                    &&& r is Ok ==> final(self).inventory@ == old(self).inventory@.skip(k as int)
                        && *final(counters) == (Counters {
                        segments_rotated: stats::plus(old(counters).segments_rotated, k as int),
                        ..*old(counters)
                    })
                    &&& r is Err ==> *final(counters) == *old(counters) && exists|n: nat|
                        n <= k && final(self).inventory@ == #[trigger] old(self).inventory@.skip(n as int)
                },
            },
    {
        let quota: u64 = match self.quota_bytes {
            None => {
                return Ok(());
            },
            Some(q) => q,
        };
        let live = self.live_segment();
        match self.inventory.enforce_budget(self.place, quota, live, io) {
            Ok(n) => {
                Counters::add(&mut counters.segments_rotated, n as u64);
                Ok(())
            },
            Err(e) => Err(e),
        }
    }

    /// A header of a segment of this channel.
    pub open spec fn header_at(&self, base: Micros) -> SegmentHeader {
        SegmentHeader {
            protocol_version: self.identity.protocol_version,
            boot: self.identity.boot,
            base,
            store_id: self.identity.store_id,
        }
    }

    /// A fresh segment of this channel.
    pub open spec fn fresh_segment(&self, base: Micros) -> SegmentWriter {
        SegmentWriter::created(
            SegmentFile { place: self.place, name: self.header_at(base).name() },
            self.header_at(base),
            self.config.segment_bytes,
            self.layout,
        )
    }

    /// A block of this size does not fit even a fresh segment.
    pub open spec fn too_large(&self, len: int) -> bool {
        !self.fresh_segment(Micros(0)).has_room(len)
    }

    /// Only the counters of segments moved.
    pub open spec fn only_segments_counted(before: Counters, after: Counters) -> bool {
        after == (Counters {
            segments_created: after.segments_created,
            segments_sealed: after.segments_sealed,
            segments_rotated: after.segments_rotated,
            segments_opened: after.segments_opened,
            occupancy_raised: after.occupancy_raised,
            io_errors: after.io_errors,
            ..before
        })
    }

    /// What a channel holds once a segment was to be opened: without the `spared`
    /// oldest segments, given up for want of space, with the new one, and without
    /// the `over` oldest of those, given up for the quota.
    pub open spec fn restocked(
        before: Seq<SegmentEntry>,
        opened: Option<SegmentWriter>,
        after: Seq<SegmentEntry>,
        spared: nat,
        over: nat,
    ) -> bool {
        &&& spared <= before.len()
        &&& match opened {
            Some(s) => {
                let held = Self::with_segment(before, s, spared);
                &&& over <= held.len()
                &&& after == held.skip(over as int)
            },
            None => over == 0 && after == before.skip(spared as int),
        }
    }

    /// The segments without the oldest ones and with a new one.
    pub open spec fn with_segment(
        before: Seq<SegmentEntry>,
        s: SegmentWriter,
        spared: nat,
    ) -> Seq<SegmentEntry> {
        before.skip(spared as int).push(
            SegmentEntry { name: s.header.name(), size_bytes: s.capacity },
        )
    }

    /// Attempts to open a segment one after another: each but the last was refused, and the
    /// refusal answered.
    #[verifier::opaque]
    pub open spec fn tried(
        before: &ChannelState,
        at: Micros,
        c0: Counters,
        t0: Seq<Op>,
        tries: Seq<Attempt>,
    ) -> bool {
        &&& tries.len() > 0
        &&& tries[0] == (Attempt { state: *before, base: at, counters: c0, trace: t0 })
        &&& forall|k: int|
            #![trigger tries[k]]
            0 <= k < tries.len() - 1 ==> tries[k].led_to(tries[k + 1], k)
    }

    proof fn lemma_tried_once(before: &ChannelState, at: Micros, c0: Counters, t0: Seq<Op>)
        ensures
            Self::tried(
                before,
                at,
                c0,
                t0,
                seq![Attempt { state: *before, base: at, counters: c0, trace: t0 }],
            ),
    {
        reveal(ChannelState::tried);
    }

    proof fn lemma_tried_again(
        before: &ChannelState,
        at: Micros,
        c0: Counters,
        t0: Seq<Op>,
        tries: Seq<Attempt>,
        next: Attempt,
    )
        requires
            Self::tried(before, at, c0, t0, tries),
            tries.last().led_to(next, tries.len() - 1),
        ensures
            Self::tried(before, at, c0, t0, tries.push(next)),
    {
        reveal(ChannelState::tried);
        let more = tries.push(next);
        assert forall|k: int|
            #![trigger more[k]]
            0 <= k < more.len() - 1 implies more[k].led_to(more[k + 1], k) by {
            assert(more[k] == tries[k]);
            if k < tries.len() - 1 {
                assert(more[k + 1] == tries[k + 1]);
            }
        }
    }

    /// What opening a segment whose first record has the time `at` comes to: attempts, the
    /// first under that time, and an end to them.
    pub open spec fn opening(
        before: &ChannelState,
        after: &ChannelState,
        at: Micros,
        c0: Counters,
        c1: Counters,
        t0: Seq<Op>,
        t1: Seq<Op>,
        refused: Option<Error>,
    ) -> bool {
        exists|tries: Seq<Attempt>|
            {
                &&& #[trigger] Self::tried(before, at, c0, t0, tries)
                &&& tries.last().ended(after, tries.len() - 1, c1, t1, refused)
            }
    }

    /// Opens a new segment whose first record has the time `at`.
    ///
    /// A name that is taken is answered by shifting the base by a microsecond; a
    /// medium without space by giving up the channel's own oldest segment. What
    /// the new segment counts as is its first window, not its growth limit.
    #[verifier::rlimit(40)]
    pub fn open_segment<M: Medium>(
        &mut self,
        at: Micros,
        counters: &mut Counters,
        io: &mut Io<M>,
    ) -> (r: Result<(), Error>)
        requires
            old(self).wf(),
            old(self).segment is None,
            old(self).parked_segment is None,
        ensures
            final(self).wf(),
            *final(self) == (ChannelState {
                inventory: final(self).inventory,
                segment: final(self).segment,
                footer: final(self).footer,
                last_time: final(self).last_time,
                ..*old(self)
            }),
            Self::opening(
                old(self),
                final(self),
                at,
                *old(counters),
                *final(counters),
                old(io)@,
                final(io)@,
                medium::refusal(r),
            ),
            medium::quiet(old(io)@, final(io)@),
            r is Err ==> medium::troubled(old(io)@, final(io)@),
            r matches Err(e) ==> blamed(old(io)@, final(io)@, e),
            Self::only_segments_counted(*old(counters), *final(counters)),
            final(counters).segments_sealed == old(counters).segments_sealed,
            final(counters).io_errors == old(counters).io_errors,
            match final(self).segment {
                Some(s) => {
                    &&& exists|base: Micros|
                        {
                            &&& s == #[trigger] old(self).fresh_segment(base)
                            &&& at.0 <= base.0
                            &&& base.0 < at.0 + NAME_ATTEMPTS
                            &&& !medium::troubled(old(io)@, final(io)@) ==> base == at
                            &&& (base == at && final(self).last_time == old(self).last_time)
                                || final(self).last_time.0 == max_time(old(self).last_time, base)
                        }
                    &&& final(self).footer@ == old(self).footer@.fresh()
                    &&& final(counters).segments_created == stats::plus(
                        old(counters).segments_created,
                        1,
                    )
                    &&& final(counters).segments_opened == stats::plus(
                        old(counters).segments_opened,
                        1,
                    )
                    &&& final(counters).occupancy_raised == stats::plus(
                        old(counters).occupancy_raised,
                        1,
                    )
                },
                None => {
                    &&& r is Err
                    &&& final(self).footer@ == old(self).footer@
                    &&& final(counters).segments_created == old(counters).segments_created
                    &&& final(counters).segments_opened == old(counters).segments_opened
                    &&& final(counters).occupancy_raised == old(counters).occupancy_raised
                },
            },
            r is Ok ==> final(self).segment is Some,
            final(self).last_time.0 >= old(self).last_time.0,
            Self::faithful(old(self), final(self), old(io)@, final(io)@),
            // The file of the new segment was created, and no other.
            medium::made(final(io)@) == match final(self).segment {
                Some(s) => medium::made(old(io)@).push(
                    medium::Made { file: s.file, header: s.header, capacity: s.capacity },
                ),
                None => medium::made(old(io)@),
            },
            exists|spared: nat, over: nat|
                {
                    &&& #[trigger] Self::restocked(
                        old(self).inventory@,
                        final(self).segment,
                        final(self).inventory@,
                        spared,
                        over,
                    )
                    &&& spared > 0 ==> medium::troubled(old(io)@, final(io)@)
                    &&& final(counters).segments_rotated == stats::plus(
                        old(counters).segments_rotated,
                        if r is Ok {
                            spared + over as int
                        } else {
                            spared as int
                        },
                    )
                    &&& match (final(self).segment, old(self).quota_bytes) {
                        (Some(s), Some(quota)) => {
                            let k = rotation::to_evict(
                                Self::with_segment(old(self).inventory@, s, spared),
                                quota,
                                Some(s.header.name()),
                            );
                            &&& over <= k
                            &&& r is Ok ==> over == k
                        },
                        _ => over == 0,
                    }
                },
    {
        let mut base: Micros = at;
        let mut attempt: u32 = 0;
        let ghost mut spared: nat = 0;
        let ghost mut tries: Seq<Attempt> = seq![
            Attempt { state: *self, base: at, counters: *counters, trace: io@ },
        ];
        proof {
            Self::lemma_tried_once(self, at, *counters, io@);
            stats::lemma_plus_nothing(counters.segments_rotated);
            assert(self.inventory@.skip(0) =~= self.inventory@);
        }
        while attempt < NAME_ATTEMPTS
            invariant
                attempt <= NAME_ATTEMPTS,
                Self::tried(old(self), at, *old(counters), old(io)@, tries),
                tries.len() == attempt + 1,
                tries.last() == (Attempt { state: *self, base, counters: *counters, trace: io@ }),
                attempt == 0 ==> base == at,
                self.wf(),
                self.segment is None,
                self.parked_segment is None,
                *self == (ChannelState {
                    inventory: self.inventory,
                    last_time: self.last_time,
                    ..*old(self)
                }),
                at.0 <= base.0 <= at.0 + attempt,
                self.last_time.0 >= old(self).last_time.0,
                (base == at && self.last_time == old(self).last_time) || self.last_time.0
                    == max_time(old(self).last_time, base),
                medium::quiet(old(io)@, io@),
                attempt > 0 ==> medium::troubled(old(io)@, io@),
                medium::made(io@) == medium::made(old(io)@),
                spared <= old(self).inventory@.len(),
                spared > 0 ==> attempt > 0,
                self.inventory@ == old(self).inventory@.skip(spared as int),
                counters.segments_rotated == stats::plus(
                    old(counters).segments_rotated,
                    spared as int,
                ),
                *counters == (Counters {
                    segments_rotated: counters.segments_rotated,
                    ..*old(counters)
                }),
            decreases NAME_ATTEMPTS - attempt,
        {
            let header = SegmentHeader {
                protocol_version: self.identity.protocol_version,
                boot: self.identity.boot,
                base,
                store_id: self.identity.store_id,
            };
            proof {
                assert(Self::restocked(
                    old(self).inventory@,
                    None,
                    self.inventory@,
                    spared,
                    0,
                ));
            }
            match SegmentWriter::create(
                io,
                self.place,
                header,
                self.config.segment_bytes,
                self.layout,
            ) {
                Ok(seg) => {
                    assert(seg == old(self).fresh_segment(base));
                    let ghost made = io@;
                    self.inventory.push_newest(
                        SegmentEntry { name: header.file_name(), size_bytes: seg.capacity() },
                    );
                    self.segment = Some(seg);
                    self.footer.reset();
                    Counters::bump(&mut counters.segments_created);
                    Counters::bump(&mut counters.segments_opened);
                    Counters::bump(&mut counters.occupancy_raised);
                    let ghost held = self.inventory@;
                    let ghost opened = *self;
                    let ghost tally = *counters;
                    let r = self.rotate(counters, io);
                    proof {
                        let last = tries.last();
                        let refused = medium::refusal(r);
                        assert(last.asking(None) == made);
                        assert(last.tally() == tally);
                        assert(Self::rotated(&opened, self, tally, *counters, made, io@, refused));
                        assert(last.ended(self, attempt as int, *counters, io@, refused));
                        let over: nat = match self.quota_bytes {
                            None => 0,
                            Some(quota) => {
                                let k = rotation::to_evict(held, quota, Some(seg.header.name()));
                                rotation::lemma_to_evict_bound(
                                    held,
                                    quota,
                                    Some(seg.header.name()),
                                );
                                if r is Ok {
                                    k
                                } else {
                                    choose|n: nat|
                                        n <= k && self.inventory@ == #[trigger] held.skip(n as int)
                                }
                            },
                        };
                        assert(held.skip(0) =~= held);
                        assert(held == Self::with_segment(old(self).inventory@, seg, spared));
                        stats::law_counters_add_up(
                            old(counters).segments_rotated,
                            spared as int,
                            over as int,
                        );
                        assert(Self::restocked(
                            old(self).inventory@,
                            self.segment,
                            self.inventory@,
                            spared,
                            over,
                        ));
                    }
                    return r;
                },
                Err(e) => {
                    let ghost last = tries.last();
                    assert(io@ == last.asking(Some(e)));
                    if e.is_already_exists() {
                        base = Micros(base.0.saturating_add(1));
                        if self.last_time.0 < base.0 {
                            self.last_time = base;
                        }
                    } else if e.is_no_space() {
                        if attempt > SPACE_ATTEMPTS {
                            assert(last.ended(self, attempt as int, *counters, io@, Some(e)));
                            return Err(e);
                        }
                        match self.rotate_one(counters, io) {
                            Ok(freed) => {
                                if !freed {
                                    assert(last.ended(self, attempt as int, *counters, io@, Some(e)));
                                    return Err(e);
                                }
                                proof {
                                    stats::law_counters_add_up(
                                        old(counters).segments_rotated,
                                        spared as int,
                                        1,
                                    );
                                    spared = spared + 1;
                                    assert(self.inventory@ =~= old(self).inventory@.skip(
                                        spared as int,
                                    ));
                                }
                            },
                            Err(cause) => {
                                proof {
                                    assert(last.denied(e, cause, io@));
                                    assert(last.ended(self, attempt as int, *counters, io@, Some(cause)));
                                }
                                return Err(cause);
                            },
                        }
                    } else {
                        assert(last.ended(self, attempt as int, *counters, io@, Some(e)));
                        return Err(e);
                    }
                    proof {
                        let next = Attempt {
                            state: *self,
                            base,
                            counters: *counters,
                            trace: io@,
                        };
                        assert(last.answered_by(next, attempt as int, e));
                        Self::lemma_tried_again(
                            old(self),
                            at,
                            *old(counters),
                            old(io)@,
                            tries,
                            next,
                        );
                        tries = tries.push(next);
                    }
                },
            }
            attempt = attempt + 1;
        }
        proof {
            assert(Self::restocked(old(self).inventory@, None, self.inventory@, spared, 0));
        }
        let path = io.dir_of(self.place);
        Err(Error::Corrupt { path, reason: no_name_reason() })
    }
}

/// An attempt to open a segment: the channel as it is, and the base the segment is to have.
pub struct Attempt {
    pub state: ChannelState,
    pub base: Micros,
    pub counters: Counters,
    pub trace: Seq<Op>,
}

impl Attempt {
    /// The file of the segment is asked for.
    pub open spec fn asking(self, refused: Option<Error>) -> Seq<Op> {
        let s = self.state.fresh_segment(self.base);
        self.trace.push(
            Op::Create { file: s.file, header: s.header, capacity: s.capacity, refused },
        )
    }

    /// The deletion of the oldest segment is asked for, after the file was refused.
    pub open spec fn sparing(self, e: Error, refused: Option<Error>) -> Seq<Op> {
        self.asking(Some(e)).push(
            Op::Remove {
                file: SegmentFile {
                    place: self.state.place,
                    name: self.state.oldest_evictable()->0.name,
                },
                refused,
            },
        )
    }

    /// The base a microsecond later.
    pub open spec fn shifted(self) -> Micros {
        if self.base.0 < u64::MAX {
            Micros((self.base.0 + 1) as u64)
        } else {
            self.base
        }
    }

    /// How the refusal of attempt number `k` is answered: a name that is taken by the next
    /// microsecond, which the channel's time then does not stay behind; a medium without
    /// space by giving up the oldest segment. Then the next attempt is made.
    pub open spec fn answered_by(self, next: Attempt, k: int, e: Error) -> bool {
        if e.is_name_taken() {
            next == (Attempt {
                state: ChannelState {
                    last_time: Micros(max_time(self.state.last_time, self.shifted())),
                    ..self.state
                },
                base: self.shifted(),
                counters: self.counters,
                trace: self.asking(Some(e)),
            })
        } else {
            &&& e.is_out_of_space()
            &&& k <= SPACE_ATTEMPTS
            &&& self.state.oldest_evictable() is Some
            &&& next == (Attempt {
                state: ChannelState { inventory: next.state.inventory, ..self.state },
                base: self.base,
                counters: Counters {
                    segments_rotated: stats::plus(self.counters.segments_rotated, 1),
                    ..self.counters
                },
                trace: self.sparing(e, None),
            })
            &&& next.state.inventory@ == self.state.inventory@.skip(1)
        }
    }

    /// Attempt number `k` was refused, the refusal answered, and the next one made.
    pub open spec fn led_to(self, next: Attempt, k: int) -> bool {
        exists|e: Error| #[trigger] self.answered_by(next, k, e)
    }

    /// The oldest segment was to make room, and its deletion refused.
    pub open spec fn denied(self, space: Error, e: Error, t1: Seq<Op>) -> bool {
        &&& space.is_out_of_space()
        &&& self.state.oldest_evictable() is Some
        &&& t1 == self.sparing(space, Some(e))
    }

    /// How attempts end at number `k`: the file was created, and the channel keeps its quota
    /// with it; or it was refused for a reason that has no answer, or none any more; or there
    /// were too many attempts.
    pub open spec fn ended(
        self,
        after: &ChannelState,
        k: int,
        c1: Counters,
        t1: Seq<Op>,
        refused: Option<Error>,
    ) -> bool {
        if k >= NAME_ATTEMPTS {
            &&& k == NAME_ATTEMPTS
            &&& *after == self.state
            &&& c1 == self.counters
            &&& t1 == self.trace
            &&& refused matches Some(e) && is_out_of_names(e)
        } else if after.segment is Some {
            exists|opened: ChannelState|
                {
                    &&& #[trigger] ChannelState::rotated(
                        &opened,
                        after,
                        self.tally(),
                        c1,
                        self.asking(None),
                        t1,
                        refused,
                    )
                    &&& self.made(opened)
                }
        } else {
            &&& *after == self.state
            &&& c1 == self.counters
            &&& refused matches Some(e) && {
                ||| {
                    &&& t1 == self.asking(Some(e))
                    &&& !e.is_name_taken()
                    &&& e.is_out_of_space() ==> k > SPACE_ATTEMPTS
                        || self.state.oldest_evictable() is None
                }
                ||| {
                    &&& k <= SPACE_ATTEMPTS
                    &&& exists|s: Error| #[trigger] self.denied(s, e, t1)
                }
            }
        }
    }

    /// The counters once the file is created.
    pub open spec fn tally(self) -> Counters {
        Counters {
            segments_created: stats::plus(self.counters.segments_created, 1),
            segments_opened: stats::plus(self.counters.segments_opened, 1),
            occupancy_raised: stats::plus(self.counters.occupancy_raised, 1),
            ..self.counters
        }
    }

    /// The segment is open, without blocks, and counts as its first window.
    pub open spec fn made(self, opened: ChannelState) -> bool {
        let s = self.state.fresh_segment(self.base);
        &&& opened == (ChannelState {
            segment: Some(s),
            inventory: opened.inventory,
            footer: opened.footer,
            ..self.state
        })
        &&& opened.inventory@ == self.state.inventory@.push(
            SegmentEntry { name: s.header.name(), size_bytes: s.capacity },
        )
        &&& opened.footer@ == self.state.footer@.fresh()
    }
}

pub const NO_NAME: &'static str = "could not find a name for the new segment";

fn no_name_reason() -> (s: String)
    ensures
        s@ == NO_NAME@,
{
    NO_NAME.to_owned()
}

impl ChannelState {
    /// The open segment, if there was one, was sealed with a footer that describes
    /// it, and the inventory counts what is left of it.
    pub open spec fn sealed(
        before: &ChannelState,
        after: &ChannelState,
        t0: Seq<Op>,
        t1: Seq<Op>,
    ) -> bool {
        &&& *after == (ChannelState {
            inventory: after.inventory,
            segment: None,
            footer: after.footer,
            dirty_since_sync: before.segment is None && before.dirty_since_sync,
            ..*before
        })
        &&& match before.segment {
            None => *after == *before && t1 == t0,
            Some(seg) => after.footer@ == before.footer@.fresh() && exists|footer: Footer, len: u64|
                {
                    &&& footer.describes(before.footer@)
                    &&& t1 == #[trigger] seg.sealed_trace(t0, footer, len)
                    &&& after.inventory@ == rotation::resized(
                        before.inventory@,
                        seg.header.name(),
                        if seg.end + len <= u64::MAX {
                            (seg.end + len) as u64
                        } else {
                            u64::MAX
                        },
                    )
                },
        }
    }

    /// The open segment could not be sealed, and is given up as it is.
    pub open spec fn unsealed(
        before: &ChannelState,
        after: &ChannelState,
        t0: Seq<Op>,
        t1: Seq<Op>,
        e: Error,
    ) -> bool {
        &&& before.segment matches Some(s) && s.seal_refused(t0, t1, e)
        &&& *after == (ChannelState { segment: None, ..*before })
    }

    /// Seals the open segment, whose block is already flushed.
    ///
    /// A sealed file is cut down to its data, and the inventory learns that: a
    /// reserve must not count as permanent. Where sealing fails the segment is
    /// given up unsealed: it reads by scanning.
    fn seal_flushed<M: Medium>(&mut self, counters: &mut Counters, io: &mut Io<M>) -> (r: Result<
        (),
        Error,
    >)
        requires
            old(self).wf(),
        ensures
            final(self).wf(),
            final(self).segment is None,
            Self::faithful(old(self), final(self), old(io)@, final(io)@),
            medium::quiet(old(io)@, final(io)@),
            r is Err ==> medium::troubled(old(io)@, final(io)@),
            r matches Err(e) ==> blamed(old(io)@, final(io)@, e),
            match old(self).segment {
                None => {
                    &&& r is Ok
                    &&& *final(self) == *old(self)
                    &&& *final(counters) == *old(counters)
                    &&& final(io)@ == old(io)@
                },
                Some(seg) => match r {
                    Ok(_) => {
                        &&& Self::sealed(old(self), final(self), old(io)@, final(io)@)
                        &&& *final(counters) == (Counters {
                            segments_sealed: stats::plus(old(counters).segments_sealed, 1),
                            ..*old(counters)
                        })
                    },
                    Err(e) => {
                        &&& Self::unsealed(old(self), final(self), old(io)@, final(io)@, e)
                        &&& *final(counters) == *old(counters)
                    },
                },
            },
    {
        let seg: SegmentWriter = match self.segment {
            None => {
                return Ok(());
            },
            Some(s) => s,
        };
        self.segment = None;
        let footer = self.footer.build();
        match seg.seal(&footer, io) {
            Ok(footer_len) => {
                let size: u64 = seg.end.saturating_add(footer_len);
                self.inventory.update_size_bytes(seg.header.file_name(), size);
                assert(io@ == seg.sealed_trace(old(io)@, footer, footer_len));
                self.footer.reset();
                self.dirty_since_sync = false;
                Counters::bump(&mut counters.segments_sealed);
                Ok(())
            },
            Err(e) => Err(e),
        }
    }

    /// Counts `n` records as lost: in the total, and where the hole is.
    fn count_lost(&mut self, n: u64, counters: &mut Counters)
        ensures
            *final(self) == (ChannelState {
                lost: stats::plus(old(self).lost, n as int),
                ..*old(self)
            }),
            *final(counters) == (Counters {
                dropped: stats::plus(old(counters).dropped, n as int),
                ..*old(counters)
            }),
    {
        Counters::add(&mut self.lost, n);
        Counters::add(&mut counters.dropped, n);
    }

    /// The segment a block of a length goes to: the open one where there is room for
    /// it, else a fresh one.
    pub open spec fn home(before: &ChannelState, after: &ChannelState, len: u64) -> SegmentWriter {
        if before.segment->0.has_room(len as int) {
            before.segment->0
        } else {
            before.fresh_segment(after.segment->0.header.base)
        }
    }

    /// What the footer of the segment that a block of a length goes to holds so far,
    /// and the types of the block.
    pub open spec fn footer_for(&self, len: u64) -> FooterView {
        if self.segment->0.has_room(len as int) {
            self.footer@
        } else {
            self.footer@.fresh()
        }
    }

    /// One block landed, behind the others of its segment and under the number that is
    /// next there; what was written is the block closed last, stamped with that number.
    pub open spec fn placed(
        before: &ChannelState,
        after: &ChannelState,
        block: BlockInfo,
        closed: Stamped,
        t0: Seq<Op>,
        t1: Seq<Op>,
    ) -> bool {
        let home = Self::home(before, after, block.len);
        let numbered = BlockInfo {
            header: BlockHeader { seq: home.next_seq, ..block.header },
            len: block.len,
        };
        &&& after.segment == Some(
            SegmentWriter {
                capacity: after.segment->0.capacity,
                ..home.with_block(numbered)
            },
        )
        &&& !medium::troubled(t0, t1) ==> after.segment->0.capacity == if home.window_holds(
            block.len,
        ) {
            home.capacity as int
        } else {
            home.stretched(block.len)
        }
        &&& medium::written(t1) == medium::written(t0).push(
            medium::Landed {
                file: home.file,
                offset: home.end,
                block: numbered,
                stamped: Some(Stamped { seq: home.next_seq, ..closed }),
            },
        )
        &&& medium::landed(t1) == medium::landed(t0) + block.header.count
    }

    /// A block was offered to the open segment. Where the medium had no space for it, the
    /// oldest segment was given up, and the same block offered once more.
    pub open spec fn offered(
        before: &ChannelState,
        after: &ChannelState,
        block: BlockInfo,
        c0: Counters,
        c1: Counters,
        t0: Seq<Op>,
        t1: Seq<Op>,
        r: Result<u64, Error>,
    ) -> bool {
        exists|s: SegmentWriter, t: Seq<Op>, first: Result<u64, Error>|
            {
                &&& #[trigger] before.segment->0.appending(s, block, t0, t, first)
                &&& if is_starved(first) && before.oldest_evictable() is Some {
                    Self::offered_again(before, after, s, block, first, c0, c1, t, t1, r)
                } else {
                    &&& *after == (ChannelState { segment: Some(s), ..*before })
                    &&& c1 == c0
                    &&& t1 == t
                    &&& r == first
                }
            }
    }

    /// The second time a block is offered. Where the oldest segment could not be deleted
    /// there is none, and the want of space is the answer.
    pub open spec fn offered_again(
        before: &ChannelState,
        after: &ChannelState,
        s: SegmentWriter,
        block: BlockInfo,
        first: Result<u64, Error>,
        c0: Counters,
        c1: Counters,
        t0: Seq<Op>,
        t1: Seq<Op>,
        r: Result<u64, Error>,
    ) -> bool {
        let file = SegmentFile { place: before.place, name: before.oldest_evictable()->0.name };
        ||| {
            &&& exists|e: Error| t1 == #[trigger] t0.push(Op::Remove { file, refused: Some(e) })
            &&& *after == (ChannelState { segment: Some(s), ..*before })
            &&& c1 == c0
            &&& r == first
        }
        ||| {
            &&& after.segment is Some
            &&& s.appending(
                after.segment->0,
                block,
                t0.push(Op::Remove { file, refused: None }),
                t1,
                r,
            )
            &&& *after == (ChannelState {
                segment: after.segment,
                inventory: after.inventory,
                ..*before
            })
            &&& after.inventory@ == before.inventory@.skip(1)
            &&& c1 == (Counters { segments_rotated: stats::plus(c0.segments_rotated, 1), ..c0 })
        }
    }

    /// A block landed: the channel owes a sync, and where the window was stretched for it,
    /// the segment counts as what it takes now, and the channel keeps its quota. That the
    /// medium refuses that is no failure of the block.
    pub open spec fn counted_in(
        capacity: u64,
        before: &ChannelState,
        after: &ChannelState,
        c0: Counters,
        c1: Counters,
        t0: Seq<Op>,
        t1: Seq<Op>,
    ) -> bool {
        let s = before.segment->0;
        if s.capacity == capacity {
            &&& *after == (ChannelState { dirty_since_sync: true, ..*before })
            &&& c1 == c0
            &&& t1 == t0
        } else {
            let raised = Counters {
                occupancy_raised: stats::plus(c0.occupancy_raised, 1),
                ..c0
            };
            exists|sized: ChannelState, c: Counters, refused: Option<Error>|
                {
                    &&& #[trigger] Self::rotated(&sized, after, raised, c, t0, t1, refused)
                    &&& c1 == (Counters {
                        io_errors: if refused is Some {
                            stats::plus(c.io_errors, 1)
                        } else {
                            c.io_errors
                        },
                        ..c
                    })
                    &&& sized == (ChannelState {
                        inventory: sized.inventory,
                        dirty_since_sync: true,
                        ..*before
                    })
                    &&& sized.inventory@ == rotation::resized(
                        before.inventory@,
                        s.header.name(),
                        s.capacity,
                    )
                }
        }
    }

    /// A block was put into the open segment, or refused.
    pub open spec fn put_in(
        before: &ChannelState,
        after: &ChannelState,
        block: BlockInfo,
        c0: Counters,
        c1: Counters,
        t0: Seq<Op>,
        t1: Seq<Op>,
        r: Result<Placement, Error>,
    ) -> bool {
        exists|mid: ChannelState, c: Counters, t: Seq<Op>, q: Result<u64, Error>|
            {
                &&& #[trigger] Self::offered(before, &mid, block, c0, c, t0, t, q)
                &&& match q {
                    Ok(at) => {
                        &&& r == Ok::<Placement, Error>(Placement::At(at))
                        &&& Self::counted_in(
                            before.segment->0.capacity,
                            &mid,
                            after,
                            c,
                            c1,
                            t,
                            t1,
                        )
                    },
                    Err(e) => {
                        &&& r == Err::<Placement, Error>(e)
                        &&& *after == mid
                        &&& c1 == c
                        &&& t1 == t
                    },
                }
            }
    }

    /// A block was carried over into the segment that was opened for it, and renumbered
    /// there; one that does not fit even that is discarded.
    pub open spec fn carried_over(
        opened: &ChannelState,
        after: &ChannelState,
        block: BlockInfo,
        c0: Counters,
        c1: Counters,
        t0: Seq<Op>,
        t1: Seq<Op>,
        r: Result<Placement, Error>,
    ) -> bool {
        let s = opened.segment->0;
        if !s.has_room(block.len as int) {
            &&& r == Ok::<Placement, Error>(Placement::Dropped)
            &&& *after == (ChannelState {
                lost: stats::plus(opened.lost, block.header.count as int),
                ..*opened
            })
            &&& c1 == (Counters {
                dropped: stats::plus(c0.dropped, block.header.count as int),
                ..c0
            })
            &&& t1 == t0
        } else {
            ||| {
                &&& *after == *opened
                &&& c1 == c0
                &&& r matches Err(e) && t1 == t0.push(
                    Op::Restamp { place: opened.place, seq: s.next_seq, refused: Some(e) },
                )
            }
            ||| Self::put_in(
                opened,
                after,
                BlockInfo {
                    header: BlockHeader { seq: s.next_seq, ..block.header },
                    len: block.len,
                },
                c0,
                c1,
                t0.push(Op::Restamp { place: opened.place, seq: s.next_seq, refused: None }),
                t1,
                r,
            )
        }
    }

    /// What placing a block comes to: it goes into the open segment where there is room for
    /// it. Else that one is sealed, and one opened whose first record is the block's.
    pub open spec fn placing(
        before: &ChannelState,
        after: &ChannelState,
        block: BlockInfo,
        c0: Counters,
        c1: Counters,
        t0: Seq<Op>,
        t1: Seq<Op>,
        r: Result<Placement, Error>,
    ) -> bool {
        if before.segment->0.has_room(block.len as int) {
            Self::put_in(before, after, block, c0, c1, t0, t1, r)
        } else {
            ||| c1 == c0 && (r matches Err(e) && Self::unsealed(before, after, t0, t1, e))
            ||| exists|shut: ChannelState, ta: Seq<Op>|
                {
                    &&& #[trigger] Self::sealed(before, &shut, t0, ta)
                    &&& Self::moved_on(&shut, after, block, one_sealed(c0), c1, ta, t1, r)
                }
        }
    }

    /// A segment was opened for a block, and the block carried over into it; or none was.
    pub open spec fn moved_on(
        shut: &ChannelState,
        after: &ChannelState,
        block: BlockInfo,
        c0: Counters,
        c1: Counters,
        t0: Seq<Op>,
        t1: Seq<Op>,
        r: Result<Placement, Error>,
    ) -> bool {
        let at = block.header.base;
        ||| r matches Err(e) && Self::opening(shut, after, at, c0, c1, t0, t1, Some(e))
        ||| exists|opened: ChannelState, c: Counters, t: Seq<Op>|
            {
                &&& #[trigger] Self::opening(shut, &opened, at, c0, c, t0, t, None)
                &&& Self::carried_over(&opened, after, block, c, c1, t, t1, r)
            }
    }

    /// Puts an assembled block into a segment, changing segment if need be.
    ///
    /// A block that does not fit even a fresh segment is discarded and counted:
    /// growing past the limit would cancel the rotation boundary. An error means
    /// the block is lost; counting that is the caller's business.
    #[verifier::rlimit(40)]
    fn place_block<M: Medium>(
        &mut self,
        block: BlockInfo,
        counters: &mut Counters,
        io: &mut Io<M>,
    ) -> (r: Result<Placement, Error>)
        requires
            old(self).wf(),
            old(self).segment is Some,
            old(self).is_in_active_list,
            old(self).block.count == 0,
            block.header.seq == old(self).segment->0.next_seq,
            medium::stamped(old(io)@) matches Some(s) && s.place == old(self).place && s.seq
                == block.header.seq,
        ensures
            final(self).wf(),
            final(self).same_channel(old(self)),
            Self::faithful(old(self), final(self), old(io)@, final(io)@),
            final(self).parked_segment == old(self).parked_segment,
            medium::assembled(final(io)@, old(self).place) == medium::assembled(
                old(io)@,
                old(self).place,
            ),
            final(self).same_service(old(self)),
            final(self).same_block(old(self)),
            final(self).last_sync == old(self).last_sync,
            final(self).last_time.0 >= old(self).last_time.0,
            Self::only_segments_counted(
                *old(counters),
                (Counters { dropped: old(counters).dropped, ..*final(counters) }),
            ),
            match r {
                Ok(Placement::At(offset)) => {
                    &&& Self::placed(
                        old(self),
                        final(self),
                        block,
                        medium::stamped(old(io)@)->0,
                        old(io)@,
                        final(io)@,
                    )
                    &&& offset == Self::home(old(self), final(self), block.len).end
                    &&& final(counters).io_errors == old(counters).io_errors || (
                    medium::troubled(old(io)@, final(io)@) && final(counters).io_errors
                        == stats::plus(old(counters).io_errors, 1))
                    &&& medium::accepted(final(io)@) == medium::accepted(old(io)@)
                    &&& medium::finished(final(io)@) == medium::finished(old(io)@)
                    &&& medium::refusals(final(io)@) >= medium::refusals(old(io)@)
                    &&& final(counters).dropped == old(counters).dropped
                    &&& final(self).lost == old(self).lost
                    &&& final(self).dirty_since_sync
                    &&& final(self).footer@ == old(self).footer_for(block.len)
                },
                Ok(Placement::Dropped) => {
                    &&& medium::quiet(old(io)@, final(io)@)
                    &&& final(counters).dropped == stats::plus(
                        old(counters).dropped,
                        block.header.count as int,
                    )
                    &&& final(self).lost == stats::plus(old(self).lost, block.header.count as int)
                    &&& !old(self).segment->0.has_room(block.len as int)
                    &&& old(self).too_large(block.len as int)
                    &&& final(counters).io_errors == old(counters).io_errors
                },
                Err(e) => {
                    &&& medium::written(final(io)@) == medium::written(old(io)@)
                    &&& medium::landed(final(io)@) == medium::landed(old(io)@)
                    &&& medium::accepted(final(io)@) == medium::accepted(old(io)@)
                    &&& medium::finished(final(io)@) == medium::finished(old(io)@)
                    &&& medium::troubled(old(io)@, final(io)@)
                    &&& blamed(old(io)@, final(io)@, e)
                    &&& final(counters).dropped == old(counters).dropped
                    &&& final(counters).io_errors == old(counters).io_errors
                    &&& final(self).lost == old(self).lost
                },
            },
            Self::placing(
                old(self),
                final(self),
                block,
                *old(counters),
                *final(counters),
                old(io)@,
                final(io)@,
                r,
            ),
    {
        let ghost asked = block;
        let ghost mut shut = *self;
        let ghost mut ta = io@;
        let ghost mut fresh = *self;
        let ghost mut cb = *counters;
        let ghost mut tb = io@;
        let ghost c0 = *counters;
        let mut block: BlockInfo = block;
        let fits: bool = match &self.segment {
            Some(seg) => seg.fits(block.len),
            None => false,
        };
        if !fits {
            match self.seal_flushed(counters, io) {
                Ok(()) => {},
                Err(e) => {
                    return Err(e);
                },
            }
            proof {
                shut = *self;
                ta = io@;
                assert(Self::sealed(old(self), &shut, old(io)@, ta));
            }
            match self.open_segment(block.header.base, counters, io) {
                Ok(()) => {},
                Err(e) => {
                    assert(Self::moved_on(&shut, self, asked, one_sealed(c0), *counters, ta, io@, Err(e)));
                    return Err(e);
                },
            }
            proof {
                fresh = *self;
                cb = *counters;
                tb = io@;
                assert(Self::opening(
                    &shut,
                    &fresh,
                    asked.header.base,
                    one_sealed(c0),
                    cb,
                    ta,
                    tb,
                    None,
                ));
                let base = choose|base: Micros|
                    self.segment->0 == #[trigger] shut.fresh_segment(base);
                assert(shut.fresh_segment(base) == old(self).fresh_segment(base));
            }
            let seg: SegmentWriter = match self.segment {
                Some(s) => s,
                None => {
                    return Err(Error::WriterDead);
                },
            };
            if !seg.fits(block.len) {
                self.count_lost(block.header.count as u64, counters);
                proof {
                    let r: Result<Placement, Error> = Ok(Placement::Dropped);
                    assert(Self::carried_over(&fresh, self, asked, cb, *counters, tb, io@, r));
                    assert(Self::moved_on(&shut, self, asked, one_sealed(c0), *counters, ta, io@, r));
                }
                return Ok(Placement::Dropped);
            }
            // Block numbering restarts in a new segment.
            match io.restamp(self.place, seg.next_seq) {
                Ok(()) => {},
                Err(e) => {
                    proof {
                        assert(Self::carried_over(&fresh, self, asked, cb, *counters, tb, io@, Err(e)));
                        assert(Self::moved_on(&shut, self, asked, one_sealed(c0), *counters, ta, io@, Err(e)));
                    }
                    return Err(e);
                },
            }
            block = BlockInfo {
                header: BlockHeader { seq: seg.next_seq, ..block.header },
                len: block.len,
            };
        }
        let mut seg: SegmentWriter = match self.segment {
            Some(s) => s,
            None => {
                return Err(Error::WriterDead);
            },
        };
        let before: u64 = seg.capacity;
        let ghost opened = *self;
        let ghost trace = io@;
        let ghost ct = *counters;
        assert(seg == Self::home(old(self), self, block.len));
        let mut placed = seg.append_block(block, io);
        self.segment = Some(seg);
        // The window did not extend: the channel gives up its own oldest segment
        // first, and tries once more. The failure that goes up is the want of
        // space, not that a file could not be deleted as well.
        let starved: bool = match &placed {
            Ok(_) => false,
            Err(e) => e.is_no_space(),
        };
        let ghost first = placed;
        let ghost s1 = seg;
        let ghost t1 = io@;
        assert(opened.segment->0.appending(s1, block, trace, t1, first));
        if starved {
            assert(self.oldest_evictable() == opened.oldest_evictable());
            let freed: bool = match self.rotate_one(counters, io) {
                Ok(f) => f,
                Err(_) => false,
            };
            if freed {
                placed = seg.append_block(block, io);
                self.segment = Some(seg);
            }
        }
        let ghost mid = *self;
        let ghost cm = *counters;
        let ghost tm = io@;
        proof {
            if is_starved(first) && opened.oldest_evictable() is Some {
                assert(Self::offered_again(&opened, &mid, s1, block, first, ct, cm, t1, tm, placed));
            }
            assert(Self::offered(&opened, &mid, block, ct, cm, trace, tm, placed));
        }
        let offset: u64 = match placed {
            Ok(at) => at,
            Err(e) => {
                proof {
                    let r: Result<Placement, Error> = Err(e);
                    assert(Self::put_in(&opened, self, block, ct, *counters, trace, io@, r));
                    if !old(self).segment->0.has_room(asked.len as int) {
                        assert(Self::carried_over(&fresh, self, asked, cb, *counters, tb, io@, r));
                        assert(Self::moved_on(&shut, self, asked, one_sealed(c0), *counters, ta, io@, r));
                    }
                }
                return Err(e);
            },
        };
        // A block that landed is owed a sync, whichever segment it landed in.
        self.dirty_since_sync = true;
        if seg.capacity != before {
            self.inventory.update_size_bytes(seg.header.file_name(), seg.capacity);
            Counters::bump(&mut counters.occupancy_raised);
            let ghost sized = *self;
            let ghost raised = *counters;
            // The block is on the medium, so a failure of the rotation is not a
            // failure of the block.
            let kept = self.rotate(counters, io);
            assert(Self::rotated(
                &sized,
                self,
                raised,
                *counters,
                tm,
                io@,
                medium::refusal(kept),
            ));
            if kept.is_err() {
                Counters::bump(&mut counters.io_errors);
            }
        }
        proof {
            let r: Result<Placement, Error> = Ok(Placement::At(offset));
            assert(Self::counted_in(before, &mid, self, cm, *counters, tm, io@));
            assert(Self::put_in(&opened, self, block, ct, *counters, trace, io@, r));
            if !old(self).segment->0.has_room(asked.len as int) {
                assert(Self::carried_over(&fresh, self, asked, cb, *counters, tb, io@, r));
                assert(Self::moved_on(&shut, self, asked, one_sealed(c0), *counters, ta, io@, r));
            }
        }
        Ok(Placement::At(offset))
    }
}

impl ChannelState {
    /// How many of the records that were in the block are on the medium neither
    /// before nor after: those the flush lost.
    pub open spec fn gone(before: &ChannelState, landed_before: int, landed_after: int) -> int {
        before.block.count + landed_before - landed_after
    }

    /// A block closed at the channel's place in between was too long for any segment.
    #[verifier::opaque]
    pub open spec fn oversized(&self, before: Seq<Op>, after: Seq<Op>) -> bool {
        exists|k: int|
            before.len() <= k < after.len() && self.is_oversize(#[trigger] after[k])
    }

    pub open spec fn is_oversize(&self, op: Op) -> bool {
        match op {
            Op::Finish { place, outcome: Ok(f), .. } => place == self.place && self.too_large(
                f.len as int,
            ),
            _ => false,
        }
    }

    pub proof fn lemma_oversized(
        before: &ChannelState,
        after: &ChannelState,
        a: Seq<Op>,
        b: Seq<Op>,
        c: Seq<Op>,
        d: Seq<Op>,
    )
        requires
            before.same_channel(after),
            after.oversized(b, c),
            medium::grown(a, b),
            medium::grown(c, d),
        ensures
            before.oversized(a, d),
    {
        reveal(ChannelState::oversized);
        reveal(medium::grown);
        let k = choose|k: int| b.len() <= k < c.len() && after.is_oversize(#[trigger] c[k]);
        assert(d[k] == c[k]);
        assert(before.is_oversize(d[k]));
    }

    /// Why records may be lost: the medium refused something, there is no segment, or a
    /// block fits none.
    pub open spec fn may_lose(&self, t0: Seq<Op>, t1: Seq<Op>) -> bool {
        ||| medium::troubled(t0, t1)
        ||| self.segment is None
        ||| self.oversized(t0, t1)
    }

    /// The block being assembled, as it is closed for the open segment.
    pub open spec fn closed_block(&self, f: Finished) -> BlockInfo {
        BlockInfo {
            header: BlockHeader {
                seq: self.segment->0.next_seq,
                body_len: f.body_len,
                base: self.block.first,
                count: self.block.count,
            },
            len: f.len,
        }
    }

    /// Closing the block for the open segment.
    pub open spec fn closing(&self, outcome: Result<Finished, Error>) -> Op {
        Op::Finish {
            place: self.place,
            seq: self.segment->0.next_seq,
            compression: self.config.compression,
            outcome,
        }
    }

    /// The entry of the block in the index of its segment.
    pub open spec fn entry_at(&self, offset: u64) -> BlockEntry {
        BlockEntry {
            offset,
            base: self.block.first,
            last: self.block.last,
            count: self.block.count,
        }
    }

    /// The channel once its block is closed and to be placed.
    pub open spec fn emptied(&self) -> ChannelState {
        ChannelState { block: Accumulator::empty(), block_opened: None, ..*self }
    }

    /// The block landed: it holds what was assembled, stands behind the others of its
    /// segment, and is in the index together with its types.
    pub open spec fn block_landed(
        before: &ChannelState,
        after: &ChannelState,
        f: Finished,
        c0: Counters,
        c1: Counters,
        t0: Seq<Op>,
        t1: Seq<Op>,
    ) -> bool {
        let tf = t0.push(before.closing(Ok(f)));
        &&& Self::placed(
            before,
            after,
            before.closed_block(f),
            Stamped {
                place: before.place,
                seq: before.segment->0.next_seq,
                compression: before.config.compression,
                finished: f,
                records: medium::assembled(t0, before.place),
            },
            tf,
            t1,
        )
        &&& exists|put: ChannelState, c: Counters|
            {
                &&& #[trigger] Self::placing(
                    &before.emptied(),
                    &put,
                    before.closed_block(f),
                    c0,
                    c,
                    tf,
                    t1,
                    Ok(Placement::At(Self::home(before, after, f.len).end)),
                )
                &&& *after == (ChannelState { footer: after.footer, ..put })
                &&& c1 == (Counters {
                    blocks_written: stats::plus(c.blocks_written, 1),
                    bytes_written: stats::plus(c.bytes_written, f.len as int),
                    ..c
                })
            }
        &&& after.dirty_since_sync
        &&& after.footer@ == before.footer_for(f.len).with_block(
            before.entry_at(Self::home(before, after, f.len).end),
        )
    }

    /// The block did not land, and its types settle nowhere: there was no segment; or
    /// the medium did not close it, or did not take it; or it fits no segment.
    pub open spec fn block_lost(
        before: &ChannelState,
        after: &ChannelState,
        c0: Counters,
        c1: Counters,
        t0: Seq<Op>,
        t1: Seq<Op>,
        r: Result<(), Error>,
    ) -> bool {
        let count = before.block.count as int;
        let given_up = ChannelState {
            footer: after.footer,
            lost: stats::plus(before.lost, count),
            ..before.emptied()
        };
        let missed = Counters { dropped: stats::plus(c0.dropped, count), ..c0 };
        &&& medium::written(t1) == medium::written(t0)
        &&& match before.segment {
            None => {
                &&& r is Ok
                &&& *after == given_up
                &&& c1 == missed
                &&& after.footer@ == before.footer@.without_pending()
                &&& t1 == t0.push(Op::ResetBlock { place: before.place })
            },
            Some(_) => {
                ||| {
                    &&& r matches Err(e) && t1 == t0.push(before.closing(Err(e))).push(
                        Op::ResetBlock { place: before.place },
                    )
                    &&& *after == given_up
                    &&& c1 == missed
                    &&& after.footer@ == before.footer@.without_pending()
                }
                ||| exists|
                    f: Finished,
                    put: ChannelState,
                    c: Counters,
                    t: Seq<Op>,
                    q: Result<Placement, Error>,
                |
                    {
                        &&& #[trigger] Self::placing(
                            &before.emptied(),
                            &put,
                            before.closed_block(f),
                            c0,
                            c,
                            t0.push(before.closing(Ok(f))),
                            t,
                            q,
                        )
                        &&& *after == (ChannelState {
                            footer: after.footer,
                            lost: stats::plus(before.lost, count),
                            ..put
                        })
                        &&& after.footer@ == put.footer@.without_pending()
                        &&& match q {
                            Ok(p) => {
                                &&& p is Dropped
                                &&& r is Ok
                                &&& c1 == c
                                &&& t1 == t.push(Op::ReleaseBuffers { place: before.place })
                            },
                            Err(e) => {
                                &&& r == Err::<(), Error>(e)
                                &&& c1 == (Counters {
                                    dropped: stats::plus(c.dropped, count),
                                    ..c
                                })
                                &&& t1 == t
                            },
                        }
                    }
            },
        }
    }

    /// What flushing the block comes to.
    pub open spec fn flushed(
        before: &ChannelState,
        after: &ChannelState,
        c0: Counters,
        c1: Counters,
        t0: Seq<Op>,
        t1: Seq<Op>,
        r: Result<(), Error>,
    ) -> bool {
        &&& after.same_channel(before)
        &&& after.same_service(before)
        &&& after.parked_segment == before.parked_segment
        &&& after.block.count == 0
        &&& after.block_opened is None
        &&& after.last_sync == before.last_sync
        &&& after.last_time.0 >= before.last_time.0
        &&& medium::no_input(t0, t1)
        &&& r is Err ==> medium::troubled(t0, t1)
        &&& r matches Err(e) ==> blamed(t0, t1, e)
        &&& if before.block.count == 0 {
            &&& r is Ok
            &&& *after == (ChannelState { block_opened: None, ..*before })
            &&& c1 == c0
            &&& t1 == t0
        } else {
            let gone = Self::gone(before, medium::landed(t0), medium::landed(t1));
            let f = medium::finished(t1);
            &&& gone == 0 || gone == before.block.count
            // Records are lost only where the medium refuses, there is no segment, or
            // the block fits none.
            &&& gone > 0 ==> before.may_lose(t0, t1)
            &&& r is Err ==> gone > 0
            &&& gone == 0 ==> before.segment is Some && f is Some && Self::block_landed(
                before,
                after,
                f->0,
                c0,
                c1,
                t0,
                t1,
            )
            &&& gone > 0 ==> Self::block_lost(before, after, c0, c1, t0, t1, r)
            &&& after.lost == stats::plus(before.lost, gone)
            &&& c1.dropped == stats::plus(c0.dropped, gone)
            &&& c1.blocks_written == stats::plus(
                c0.blocks_written,
                if gone == 0 {
                    1
                } else {
                    0
                },
            )
            &&& c1.bytes_written == stats::plus(
                c0.bytes_written,
                if gone == 0 {
                    f->0.len as int
                } else {
                    0
                },
            )
            &&& c1.io_errors == c0.io_errors || (gone == 0 && medium::troubled(t0, t1)
                && c1.io_errors == stats::plus(c0.io_errors, 1))
            &&& Self::only_segments_counted(
                c0,
                (Counters {
                    dropped: c0.dropped,
                    blocks_written: c0.blocks_written,
                    bytes_written: c0.bytes_written,
                    ..c1
                }),
            )
        }
    }

    /// Flushes the block being assembled.
    ///
    /// Whatever happens the accumulator is empty afterwards: the records either
    /// landed or are counted as lost, as many as there were.
    #[verifier::rlimit(40)]
    pub fn flush_block<M: Medium>(&mut self, counters: &mut Counters, io: &mut Io<M>) -> (r: Result<
        (),
        Error,
    >)
        requires
            old(self).wf(),
        ensures
            final(self).wf(),
            Self::faithful(old(self), final(self), old(io)@, final(io)@),
            Self::flushed(
                old(self),
                final(self),
                *old(counters),
                *final(counters),
                old(io)@,
                final(io)@,
                r,
            ),
    {
        proof {
            stats::lemma_plus_nothing(counters.dropped);
            stats::lemma_plus_nothing(counters.blocks_written);
            stats::lemma_plus_nothing(counters.bytes_written);
            stats::lemma_plus_nothing(self.lost);
        }
        // The mark of an open block is cleared before anything can fail: an
        // overdue deadline left behind would turn the loop into a busy one.
        self.block_opened = None;
        if self.block.count == 0 {
            return Ok(());
        }
        let count: u32 = self.block.count;
        let last: Micros = self.block.last;
        let base: Micros = self.block.first;
        let seq: u32 = match &self.segment {
            Some(seg) => seg.next_seq,
            None => {
                io.reset_block(self.place);
                proof {
                    medium::lemma_dirties_push(old(io)@, io@.last(), self.place);
                }
                self.block = Accumulator::new();
                self.count_lost(count as u64, counters);
                self.footer.discard_pending();
                return Ok(());
            },
        };
        let finished = match io.finish_block(self.place, seq, self.config.compression) {
            Ok(f) => f,
            Err(e) => {
                let ghost refused = io@;
                io.reset_block(self.place);
                proof {
                    medium::lemma_dirties_push(refused, io@.last(), self.place);
                }
                self.block = Accumulator::new();
                self.count_lost(count as u64, counters);
                self.footer.discard_pending();
                return Err(e);
            },
        };
        self.block = Accumulator::new();
        let header = BlockHeader { seq, body_len: finished.body_len, base, count };
        let block = BlockInfo { header, len: finished.len };
        let ghost ready = *self;
        let ghost tf = io@;
        proof {
            assert(tf == old(io)@.push(old(self).closing(Ok(finished))));
            medium::lemma_dirties_push(old(io)@, tf.last(), self.place);
            assert(block == old(self).closed_block(finished));
        }
        let placed = self.place_block(block, counters, io);
        let ghost put = *self;
        let ghost cp = *counters;
        let ghost tp = io@;
        proof {
            assert(ready == old(self).emptied());
            assert(Self::placing(
                &old(self).emptied(),
                &put,
                old(self).closed_block(finished),
                *old(counters),
                cp,
                tf,
                tp,
                placed,
            ));
        }
        match placed {
            Ok(Placement::At(offset)) => {
                self.footer.add_block(offset, &header, last);
                Counters::bump(&mut counters.blocks_written);
                Counters::add(&mut counters.bytes_written, finished.len);
                Ok(())
            },
            Ok(Placement::Dropped) => {
                self.footer.discard_pending();
                // An oversized block inflated the buffers to a size the channel
                // will not see again.
                io.release_buffers(self.place);
                proof {
                    reveal(ChannelState::oversized);
                    reveal(medium::grown);
                    assert(io@[old(io)@.len() as int] == tf[old(io)@.len() as int]);
                    assert(old(self).is_oversize(io@[old(io)@.len() as int]));
                }
                Ok(())
            },
            Err(e) => {
                self.count_lost(count as u64, counters);
                self.footer.discard_pending();
                Err(e)
            },
        }
    }

    /// The open segment was synced, if anything was unsynced, and the clock was read.
    pub open spec fn was_synced(
        before: &ChannelState,
        after: &ChannelState,
        t0: Seq<Op>,
        t1: Seq<Op>,
    ) -> bool {
        &&& t1 == (match before.segment {
            Some(s) if s.dirty => t0.push(Op::Sync { file: s.file, refused: None }),
            _ => t0,
        }).push(Op::Now { nanos: after.last_sync })
        &&& *after == (ChannelState {
            segment: match before.segment {
                Some(s) => Some(SegmentWriter { dirty: false, ..s }),
                None => None,
            },
            last_sync: after.last_sync,
            dirty_since_sync: false,
            ..*before
        })
    }

    /// What syncing comes to.
    pub open spec fn synced(
        before: &ChannelState,
        after: &ChannelState,
        c0: Counters,
        c1: Counters,
        t0: Seq<Op>,
        t1: Seq<Op>,
        r: Result<(), Error>,
    ) -> bool {
        match r {
            Ok(_) => {
                &&& Self::was_synced(before, after, t0, t1)
                &&& c1 == (Counters {
                    syncs: if before.segment matches Some(s) && s.dirty {
                        stats::plus(c0.syncs, 1)
                    } else {
                        c0.syncs
                    },
                    ..c0
                })
            },
            Err(e) => {
                &&& before.segment matches Some(s) && s.dirty && t1 == t0.push(
                    Op::Sync { file: s.file, refused: Some(e) },
                )
                &&& c1 == c0
                &&& *after == *before
            },
        }
    }

    /// Syncs what was written. A channel without unsynced data asks nothing of
    /// the medium.
    pub fn sync_channel<M: Medium>(&mut self, counters: &mut Counters, io: &mut Io<M>) -> (r:
        Result<(), Error>)
        requires
            old(self).wf(),
        ensures
            final(self).wf(),
            Self::faithful(old(self), final(self), old(io)@, final(io)@),
            medium::quiet(old(io)@, final(io)@),
            r is Err ==> medium::troubled(old(io)@, final(io)@),
            r matches Err(e) ==> blamed(old(io)@, final(io)@, e),
            Self::synced(
                old(self),
                final(self),
                *old(counters),
                *final(counters),
                old(io)@,
                final(io)@,
                r,
            ),
    {
        if let Some(s) = self.segment {
            let mut seg: SegmentWriter = s;
            if seg.is_dirty() {
                match seg.sync(io) {
                    Ok(()) => {},
                    Err(e) => {
                        return Err(e);
                    },
                }
                self.segment = Some(seg);
                Counters::bump(&mut counters.syncs);
            }
        }
        self.last_sync = io.now();
        self.dirty_since_sync = false;
        Ok(())
    }

    /// What a flush that is part of a larger operation owes: the accumulator is
    /// empty, and every record that was in it landed or is counted as lost, and lost only
    /// for a reason.
    pub open spec fn settled(
        before: &ChannelState,
        after: &ChannelState,
        c0: Counters,
        c1: Counters,
        t0: Seq<Op>,
        t1: Seq<Op>,
    ) -> bool {
        let gone = Self::gone(before, medium::landed(t0), medium::landed(t1));
        &&& after.block.count == 0
        &&& gone == 0 || gone == before.block.count
        &&& gone > 0 ==> before.may_lose(t0, t1)
        &&& c1.dropped == stats::plus(c0.dropped, gone)
        &&& after.lost == stats::plus(before.lost, gone)
        &&& c1.records_written == c0.records_written
    }

    /// What sealing the open segment comes to once the block is flushed.
    pub open spec fn shut(
        before: &ChannelState,
        after: &ChannelState,
        c0: Counters,
        c1: Counters,
        t0: Seq<Op>,
        t1: Seq<Op>,
        r: Result<(), Error>,
    ) -> bool {
        &&& *after == (ChannelState {
            inventory: after.inventory,
            segment: None,
            footer: after.footer,
            dirty_since_sync: after.dirty_since_sync,
            ..*before
        })
        &&& medium::quiet(t0, t1)
        &&& r matches Err(e) ==> before.segment is Some && medium::troubled(t0, t1) && blamed(
            t0,
            t1,
            e,
        )
        &&& if before.segment is Some && r is Ok {
            &&& Self::sealed(before, after, t0, t1)
            &&& !after.dirty_since_sync
            &&& c1 == (Counters { segments_sealed: stats::plus(c0.segments_sealed, 1), ..c0 })
        } else {
            // Given up unsealed, or there was none.
            &&& after.inventory@ == before.inventory@
            &&& after.footer@ == before.footer@
            &&& after.dirty_since_sync == before.dirty_since_sync
            &&& c1 == c0
            &&& before.segment is None ==> t1 == t0
        }
    }

    /// What flushing and sealing comes to.
    pub open spec fn finished_off(
        before: &ChannelState,
        after: &ChannelState,
        c0: Counters,
        c1: Counters,
        t0: Seq<Op>,
        t1: Seq<Op>,
        r: Result<(), Error>,
    ) -> bool {
        ||| r is Err && Self::flushed(before, after, c0, c1, t0, t1, r)
        ||| exists|mid: ChannelState, c: Counters, t: Seq<Op>|
            {
                &&& #[trigger] Self::flushed(before, &mid, c0, c, t0, t, Ok(()))
                &&& #[trigger] Self::shut(&mid, after, c, c1, t, t1, r)
            }
    }

    /// What releasing the segment of an idle channel comes to: what was left was flushed,
    /// and the segment, cut down to its data, becomes the parked one and counts as what
    /// its data takes.
    pub open spec fn parked(
        before: &ChannelState,
        after: &ChannelState,
        c0: Counters,
        c1: Counters,
        t0: Seq<Op>,
        t1: Seq<Op>,
        r: Result<(), Error>,
    ) -> bool {
        ||| r is Err && Self::flushed(before, after, c0, c1, t0, t1, r)
        ||| exists|mid: ChannelState, t: Seq<Op>|
            {
                &&& #[trigger] Self::flushed(before, &mid, c0, c1, t0, t, Ok(()))
                &&& Self::let_go(&mid, after, t, t1, r)
            }
    }

    /// The open segment was cut down to its data and closed, and is the parked one; or the
    /// medium refused, and it is given up unsealed.
    pub open spec fn let_go(
        before: &ChannelState,
        after: &ChannelState,
        t0: Seq<Op>,
        t1: Seq<Op>,
        r: Result<(), Error>,
    ) -> bool {
        match before.segment {
            None => r is Ok && *after == *before && t1 == t0,
            Some(s) => {
                &&& s.was_closed(t0, t1, r)
                &&& *after == (ChannelState {
                    segment: None,
                    parked_segment: if r is Ok {
                        Some(s.header.name())
                    } else {
                        before.parked_segment
                    },
                    inventory: after.inventory,
                    ..*before
                })
                &&& after.inventory@ == if r is Ok {
                    rotation::resized(before.inventory@, s.header.name(), s.end)
                } else {
                    before.inventory@
                }
            },
        }
    }

    /// Flushes what is left and seals the segment. A segment released for
    /// idleness stays unsealed: the next start appends its footer.
    pub fn seal_segment<M: Medium>(&mut self, counters: &mut Counters, io: &mut Io<M>) -> (r:
        Result<(), Error>)
        requires
            old(self).wf(),
        ensures
            final(self).wf(),
            final(self).same_channel(old(self)),
            final(self).same_service(old(self)),
            final(self).last_time.0 >= old(self).last_time.0,
            final(self).block_opened is None,
            Self::faithful(old(self), final(self), old(io)@, final(io)@),
            medium::no_input(old(io)@, final(io)@),
            r is Err ==> medium::troubled(old(io)@, final(io)@),
            r matches Err(e) ==> blamed(old(io)@, final(io)@, e),
            final(counters).same_upkeep(*old(counters)),
            Self::settled(
                old(self),
                final(self),
                *old(counters),
                *final(counters),
                old(io)@,
                final(io)@,
            ),
            Self::finished_off(
                old(self),
                final(self),
                *old(counters),
                *final(counters),
                old(io)@,
                final(io)@,
                r,
            ),
            old(self).segment is None ==> r is Ok,
            r is Ok ==> final(self).segment is None,
    {
        proof {
            stats::lemma_plus_nothing(counters.dropped);
            stats::lemma_plus_nothing(self.lost);
        }
        match self.flush_block(counters, io) {
            Ok(()) => {},
            Err(e) => {
                return Err(e);
            },
        }
        let ghost flushed = *self;
        let ghost c = *counters;
        let ghost t = io@;
        assert(Self::flushed(old(self), &flushed, *old(counters), c, old(io)@, t, Ok(())));
        let r = self.seal_flushed(counters, io);
        proof {
            assert(r is Ok ==> Self::sealed(&flushed, self, t, io@));
            assert(Self::shut(&flushed, self, c, *counters, t, io@, r));
            if old(self).oversized(old(io)@, t) {
                Self::lemma_oversized(old(self), old(self), old(io)@, old(io)@, t, io@);
            }
        }
        r
    }

    /// Releases an idle channel's segment while keeping the option of continuing
    /// it: the file is cut down to its data and closed, but not sealed. Both the
    /// descriptor and the unwritten tail of the window come back.
    #[verifier::rlimit(40)]
    pub fn park_segment<M: Medium>(&mut self, counters: &mut Counters, io: &mut Io<M>) -> (r:
        Result<(), Error>)
        requires
            old(self).wf(),
        ensures
            final(self).wf(),
            final(self).same_channel(old(self)),
            final(self).same_service(old(self)),
            final(self).last_time.0 >= old(self).last_time.0,
            final(self).block_opened is None,
            Self::faithful(old(self), final(self), old(io)@, final(io)@),
            medium::no_input(old(io)@, final(io)@),
            r is Err ==> medium::troubled(old(io)@, final(io)@),
            r matches Err(e) ==> blamed(old(io)@, final(io)@, e),
            final(counters).same_upkeep(*old(counters)),
            Self::settled(
                old(self),
                final(self),
                *old(counters),
                *final(counters),
                old(io)@,
                final(io)@,
            ),
            r is Ok ==> final(self).segment is None,
            Self::parked(
                old(self),
                final(self),
                *old(counters),
                *final(counters),
                old(io)@,
                final(io)@,
                r,
            ),
    {
        proof {
            stats::lemma_plus_nothing(counters.dropped);
            stats::lemma_plus_nothing(self.lost);
        }
        match self.flush_block(counters, io) {
            Ok(()) => {},
            Err(e) => {
                return Err(e);
            },
        }
        let ghost flushed = *self;
        let ghost t = io@;
        proof {
            assert(Self::flushed(
                old(self),
                &flushed,
                *old(counters),
                *counters,
                old(io)@,
                t,
                Ok(()),
            ));
            if old(self).oversized(old(io)@, t) {
                Self::lemma_oversized(old(self), old(self), old(io)@, old(io)@, t, io@);
            }
        }
        let seg: SegmentWriter = match self.segment {
            None => {
                return Ok(());
            },
            Some(s) => s,
        };
        self.segment = None;
        let name = seg.header.file_name();
        let closed = seg.close_unsealed(io);
        proof {
            if old(self).oversized(old(io)@, t) {
                Self::lemma_oversized(old(self), old(self), old(io)@, old(io)@, t, io@);
            }
        }
        match closed {
            Ok(()) => {},
            Err(e) => {
                assert(Self::let_go(&flushed, self, t, io@, Err(e)));
                return Err(e);
            },
        }
        self.inventory.update_size_bytes(name, seg.end);
        self.parked_segment = Some(name);
        assert(Self::let_go(&flushed, self, t, io@, Ok(())));
        Ok(())
    }

    /// A released segment, if there was one, was opened again; one that did not open was
    /// given up.
    pub open spec fn brought_back(
        before: &ChannelState,
        after: &ChannelState,
        t0: Seq<Op>,
        t1: Seq<Op>,
    ) -> bool {
        &&& *after == (ChannelState {
            inventory: after.inventory,
            segment: after.segment,
            parked_segment: None,
            footer: after.footer,
            ..*before
        })
        &&& match before.parked_segment {
            None => *after == *before && t1 == t0,
            Some(name) => exists|r: Result<SegmentWriter, Error>|
                {
                    &&& #[trigger] was_reopened(
                        SegmentFile { place: before.place, name },
                        Some(before.identity.store_id),
                        Some(before.config.segment_bytes),
                        before.layout,
                        t0,
                        t1,
                        r,
                    )
                    &&& after.segment == match r {
                        Ok(s) => Some(s),
                        Err(_) => None,
                    }
                    &&& after.inventory@ == match r {
                        Ok(s) => rotation::resized(before.inventory@, name, s.capacity),
                        Err(_) => rotation::forgotten(before.inventory@, name),
                    }
                    &&& after.footer@ == match r {
                        Ok(_) => before.footer@,
                        Err(_) => FooterView::empty(),
                    }
                },
        }
    }

    /// What bringing a released segment back comes to, with the counters.
    pub open spec fn unparked(
        before: &ChannelState,
        after: &ChannelState,
        c0: Counters,
        c1: Counters,
        t0: Seq<Op>,
        t1: Seq<Op>,
    ) -> bool {
        &&& Self::brought_back(before, after, t0, t1)
        &&& c1 == if before.parked_segment is None {
            c0
        } else if after.segment is Some {
            Counters { segments_opened: stats::plus(c0.segments_opened, 1), ..c0 }
        } else {
            Counters { io_errors: stats::plus(c0.io_errors, 1), ..c0 }
        }
    }

    /// Brings a released segment back into work; `false` means there was none or
    /// it could not be opened. In that case it is forgotten together with its
    /// index, and a new one will be started.
    pub fn unpark<M: Medium>(&mut self, counters: &mut Counters, io: &mut Io<M>) -> (ok: bool)
        requires
            old(self).wf(),
        ensures
            final(self).wf(),
            final(self).parked_segment is None,
            Self::unparked(
                old(self),
                final(self),
                *old(counters),
                *final(counters),
                old(io)@,
                final(io)@,
            ),
            Self::faithful(old(self), final(self), old(io)@, final(io)@),
            final(counters).same_upkeep(*old(counters)),
            medium::quiet(old(io)@, final(io)@),
            *final(self) == (ChannelState {
                inventory: final(self).inventory,
                segment: final(self).segment,
                parked_segment: None,
                footer: final(self).footer,
                ..*old(self)
            }),
            match old(self).parked_segment {
                None => {
                    &&& !ok
                    &&& *final(self) == *old(self)
                    &&& *final(counters) == *old(counters)
                    &&& final(io)@ == old(io)@
                },
                Some(name) => exists|r: Result<SegmentWriter, Error>|
                    {
                        &&& #[trigger] was_reopened(
                            SegmentFile { place: old(self).place, name },
                            Some(old(self).identity.store_id),
                            Some(old(self).config.segment_bytes),
                            old(self).layout,
                            old(io)@,
                            final(io)@,
                            r,
                        )
                        &&& ok == r is Ok
                        &&& match r {
                            Ok(s) => {
                                &&& final(self).segment == Some(s)
                                &&& s.capacity == s.end
                                &&& final(self).inventory@ == rotation::resized(
                                    old(self).inventory@,
                                    name,
                                    s.capacity,
                                )
                                &&& final(self).footer@ == old(self).footer@
                                &&& *final(counters) == (Counters {
                                    segments_opened: stats::plus(
                                        old(counters).segments_opened,
                                        1,
                                    ),
                                    ..*old(counters)
                                })
                            },
                            Err(_) => {
                                &&& final(self).segment is None
                                &&& final(self).inventory@ == rotation::forgotten(
                                    old(self).inventory@,
                                    name,
                                )
                                &&& final(self).footer@ == FooterView::empty()
                                &&& *final(counters) == (Counters {
                                    io_errors: stats::plus(old(counters).io_errors, 1),
                                    ..*old(counters)
                                })
                            },
                        }
                    },
            },
    {
        let name: SegmentName = match self.parked_segment {
            None => {
                return false;
            },
            Some(n) => n,
        };
        self.parked_segment = None;
        let file = SegmentFile { place: self.place, name };
        let opened = SegmentWriter::reopen(
            io,
            file,
            Some(self.identity.store_id),
            Some(self.config.segment_bytes),
            self.layout,
        );
        assert(was_reopened(
            file,
            Some(old(self).identity.store_id),
            Some(old(self).config.segment_bytes),
            old(self).layout,
            old(io)@,
            io@,
            opened,
        ));
        match opened {
            Ok(seg) => {
                self.inventory.update_size_bytes(name, seg.capacity);
                self.segment = Some(seg);
                Counters::bump(&mut counters.segments_opened);
                true
            },
            Err(_) => {
                Counters::bump(&mut counters.io_errors);
                self.inventory.remove(name);
                self.footer.reset();
                self.footer.discard_pending();
                assert(self.footer@ =~= FooterView::empty());
                false
            },
        }
    }

    /// How much room a block may need: itself, its header and a zero terminator.
    pub open spec fn room_needed(&self) -> int {
        let need = self.config.block_max_bytes + 2 * self.layout.block_header;
        if need <= u64::MAX {
            need
        } else {
            u64::MAX as int
        }
    }

    /// The open segment has room for a whole block.
    pub open spec fn has_room(&self) -> bool {
        self.segment matches Some(s) && s.has_room(self.room_needed())
    }

    /// The counters once the open segment, if there is one, is sealed.
    pub open spec fn sealing(&self, c: Counters) -> Counters {
        if self.segment is Some {
            one_sealed(c)
        } else {
            c
        }
    }

    /// There is a segment with room: the one that was open or was brought back; or that one
    /// left none and was sealed, and one opened whose first record has the time `at`.
    pub open spec fn found_room(
        before: &ChannelState,
        after: &ChannelState,
        at: Micros,
        c0: Counters,
        c1: Counters,
        t0: Seq<Op>,
        t1: Seq<Op>,
    ) -> bool {
        ||| after.has_room() && Self::unparked(before, after, c0, c1, t0, t1)
        ||| exists|
            back: ChannelState,
            shut: ChannelState,
            c: Counters,
            ta: Seq<Op>,
            tb: Seq<Op>,
        |
            {
                &&& #[trigger] Self::unparked(before, &back, c0, c, t0, ta)
                &&& !back.has_room()
                &&& #[trigger] Self::sealed(&back, &shut, ta, tb)
                &&& Self::opening(&shut, after, at, back.sealing(c), c1, tb, t1, None)
            }
    }

    /// There is no segment with room: the one that was open or was brought back left none,
    /// and could not be sealed; or no other was opened.
    pub open spec fn found_no_room(
        before: &ChannelState,
        after: &ChannelState,
        at: Micros,
        c0: Counters,
        c1: Counters,
        t0: Seq<Op>,
        t1: Seq<Op>,
        e: Error,
    ) -> bool {
        ||| exists|back: ChannelState, ta: Seq<Op>|
            {
                &&& #[trigger] Self::unparked(before, &back, c0, c1, t0, ta)
                &&& !back.has_room()
                &&& Self::unsealed(&back, after, ta, t1, e)
            }
        ||| exists|
            back: ChannelState,
            shut: ChannelState,
            c: Counters,
            ta: Seq<Op>,
            tb: Seq<Op>,
        |
            {
                &&& #[trigger] Self::unparked(before, &back, c0, c, t0, ta)
                &&& !back.has_room()
                &&& #[trigger] Self::sealed(&back, &shut, ta, tb)
                &&& Self::opening(&shut, after, at, back.sealing(c), c1, tb, t1, Some(e))
            }
    }

    /// Makes sure there is a segment with room for a whole block.
    #[verifier::rlimit(40)]
    pub fn ensure_room<M: Medium>(
        &mut self,
        at: Micros,
        counters: &mut Counters,
        io: &mut Io<M>,
    ) -> (r: Result<(), Error>)
        requires
            old(self).wf(),
            old(self).block.count == 0,
        ensures
            final(self).wf(),
            final(self).same_channel(old(self)),
            final(self).same_service(old(self)),
            final(self).same_block(old(self)),
            final(self).lost == old(self).lost,
            final(self).last_time.0 >= old(self).last_time.0,
            Self::faithful(old(self), final(self), old(io)@, final(io)@),
            medium::quiet(old(io)@, final(io)@),
            r is Err ==> medium::troubled(old(io)@, final(io)@),
            r matches Err(e) ==> blamed(old(io)@, final(io)@, e),
            Self::only_segments_counted(*old(counters), *final(counters)),
            r is Ok ==> final(self).segment is Some && final(self).parked_segment is None,
            match r {
                Ok(_) => Self::found_room(
                    old(self),
                    final(self),
                    at,
                    *old(counters),
                    *final(counters),
                    old(io)@,
                    final(io)@,
                ),
                Err(e) => Self::found_no_room(
                    old(self),
                    final(self),
                    at,
                    *old(counters),
                    *final(counters),
                    old(io)@,
                    final(io)@,
                    e,
                ),
            },
            // There is room for a block, or the segment is a fresh one.
            r is Ok ==> final(self).segment->0.has_room(old(self).room_needed()) || exists|
                base: Micros,
            |
                final(self).segment == Some(#[trigger] old(self).fresh_segment(base)) && at.0
                    <= base.0 && base.0 < at.0 + NAME_ATTEMPTS && (!medium::troubled(
                    old(io)@,
                    final(io)@,
                ) ==> base == at),
            // A segment with room is kept as it is.
            old(self).has_room() ==> r is Ok && *final(self) == *old(self) && final(io)@ == old(io)@ && *final(counters)
                == *old(counters),
    {
        let need: u64 = (self.config.block_max_bytes as u64).saturating_add(
            2 * self.layout.block_header as u64,
        );
        if self.segment.is_none() && self.parked_segment.is_some() {
            let _ = self.unpark(counters, io);
        }
        let ghost back = *self;
        let ghost ca = *counters;
        let ghost ta = io@;
        assert(Self::unparked(old(self), &back, *old(counters), ca, old(io)@, ta));
        if let Some(seg) = &self.segment {
            if seg.fits(need) {
                return Ok(());
            }
        }
        if self.segment.is_some() {
            match self.seal_flushed(counters, io) {
                Ok(()) => {},
                Err(e) => {
                    assert(Self::unsealed(&back, self, ta, io@, e));
                    return Err(e);
                },
            }
        }
        let ghost emptied = *self;
        let ghost tb = io@;
        assert(Self::sealed(&back, &emptied, ta, tb));
        let r = self.open_segment(at, counters, io);
        proof {
            if r is Ok {
                let base = choose|base: Micros|
                    self.segment->0 == #[trigger] emptied.fresh_segment(base) && at.0 <= base.0
                        && base.0 < at.0 + NAME_ATTEMPTS && (!medium::troubled(tb, io@) ==> base
                        == at);
                assert(emptied.fresh_segment(base) == old(self).fresh_segment(base));
            }
        }
        r
    }
}

impl ChannelState {
    /// The time a record gets: time from the past is pulled forward, so times
    /// within a channel never decrease.
    pub open spec fn time_for(&self, at: Micros) -> Micros {
        Micros(max_time(at, self.last_time))
    }

    /// A record as it goes into this channel's block.
    pub open spec fn accepts(&self, item: &Staged) -> medium::Accepted {
        medium::Accepted {
            place: self.place,
            at: self.time_for(item.at),
            record: item.record@,
        }
    }

    /// A block that was open is open since then; a new one since the reading of the
    /// clock that stands `back` questions before the end of the trace.
    pub open spec fn opened_at(
        before: &ChannelState,
        after: &ChannelState,
        trace: Seq<Op>,
        back: int,
    ) -> bool {
        if before.block.count > 0 {
            after.block_opened == before.block_opened
        } else {
            &&& trace.len() >= back
            &&& trace[trace.len() - back] matches Op::Now { nanos } && after.block_opened == Some(
                nanos,
            )
        }
    }

    /// The channel once it has reached the time of a record.
    pub open spec fn reaching(&self, at: Micros) -> ChannelState {
        ChannelState { last_time: self.time_for(at), ..*self }
    }

    /// A record has a segment to go to: the one of the block it joins; or room was found
    /// for the block it begins, before the clock was read and the record went in.
    pub open spec fn has_place(
        before: &ChannelState,
        housed: &ChannelState,
        item: &Staged,
        c0: Counters,
        c1: Counters,
        t0: Seq<Op>,
        t1: Seq<Op>,
    ) -> bool {
        let early = before.reaching(item.at);
        if before.block.count > 0 {
            *housed == early && c1 == c0 && t1 == t0.push(t1.last())
        } else {
            &&& t1.len() >= 2
            &&& Self::found_room(
                &early,
                housed,
                before.time_for(item.at),
                c0,
                c1,
                t0,
                t1.take(t1.len() - 2),
            )
        }
    }

    /// A record went into the block.
    pub open spec fn took(
        before: &ChannelState,
        after: &ChannelState,
        item: &Staged,
        c0: Counters,
        c1: Counters,
        t0: Seq<Op>,
        t1: Seq<Op>,
    ) -> bool {
        &&& after.same_channel(before)
        &&& after.lost == before.lost
        &&& after.last_time.0 >= before.time_for(item.at).0
        &&& after.block == (Accumulator {
            count: (before.block.count + 1) as u32,
            raw_len: after.block.raw_len,
            first: if before.block.count == 0 {
                before.time_for(item.at)
            } else {
                before.block.first
            },
            last: before.time_for(item.at),
        })
        &&& t1.len() > 0
        &&& t1.last() == (Op::PushRecord {
            place: before.place,
            at: before.time_for(item.at),
            record: item.record@,
            outcome: Ok(after.block.raw_len),
        })
        &&& medium::assembled(t1, before.place) == medium::assembled(t0, before.place).push(
            (before.time_for(item.at), item.record@),
        )
        &&& Self::opened_at(before, after, t1, 2)
        // The type of the record is noted for the footer of the segment it goes to.
        &&& exists|housed: ChannelState, c: Counters|
            {
                &&& #[trigger] Self::has_place(before, &housed, item, c0, c, t0, t1)
                &&& c1 == (Counters { records_written: stats::plus(c.records_written, 1), ..c })
                &&& *after == (ChannelState {
                    block: after.block,
                    block_opened: after.block_opened,
                    footer: after.footer,
                    dirty_since_sync: true,
                    is_in_active_list: true,
                    idle_since: None,
                    buffers_released: false,
                    ..housed
                })
                &&& after.footer@ == housed.footer@.noting(item.record@)
            }
    }

    /// The block is full: it goes to the medium.
    pub open spec fn is_full(&self) -> bool {
        self.block.count == u32::MAX || self.block.raw_len >= self.config.block_max_bytes
    }

    /// What writing a record comes to: it went into the block, which went to the medium
    /// if that filled it; or it did not get there.
    pub open spec fn wrote(
        before: &ChannelState,
        after: &ChannelState,
        item: &Staged,
        c0: Counters,
        c1: Counters,
        t0: Seq<Op>,
        t1: Seq<Op>,
        r: Result<(), Error>,
    ) -> bool {
        ||| r is Ok && !after.is_full() && Self::took(
            before,
            after,
            item,
            c0,
            c1,
            t0,
            t1,
        )
        ||| exists|full: ChannelState, c: Counters, t: Seq<Op>|
            {
                &&& #[trigger] Self::took(before, &full, item, c0, c, t0, t)
                &&& full.is_full()
                &&& #[trigger] Self::flushed(&full, after, c, c1, t, t1, r)
            }
        ||| {
            &&& after.block == before.block
            &&& after.lost == stats::plus(before.lost, 1)
            &&& medium::assembled(t1, before.place) == medium::assembled(t0, before.place)
            &&& r matches Err(e) && Self::turned_away(
                before,
                after,
                item,
                c0,
                c1,
                t0,
                t1,
                e,
            )
        }
    }

    /// A record did not get into the block it was to join or to begin: no room was found for
    /// it, or the medium refused it.
    pub open spec fn turned_away(
        before: &ChannelState,
        after: &ChannelState,
        item: &Staged,
        c0: Counters,
        c1: Counters,
        t0: Seq<Op>,
        t1: Seq<Op>,
        e: Error,
    ) -> bool {
        let early = before.reaching(item.at);
        let at = before.time_for(item.at);
        let refused = Op::PushRecord {
            place: before.place,
            at,
            record: item.record@,
            outcome: Err(e),
        };
        let lost = stats::plus(before.lost, 1);
        if before.block.count > 0 {
            &&& *after == (ChannelState { lost, ..early })
            &&& c1 == (Counters { dropped: stats::plus(c0.dropped, 1), ..c0 })
            &&& t1 == t0.push(refused)
        } else {
            ||| exists|left: ChannelState, c: Counters|
                {
                    &&& #[trigger] Self::found_no_room(&early, &left, at, c0, c, t0, t1, e)
                    &&& *after == (ChannelState { lost, ..left })
                    &&& c1 == (Counters { dropped: stats::plus(c.dropped, 1), ..c })
                }
            ||| exists|left: ChannelState, c: Counters, t: Seq<Op>, nanos: u64|
                {
                    &&& #[trigger] Self::found_room(&early, &left, at, c0, c, t0, t)
                    &&& c1 == (Counters { dropped: stats::plus(c.dropped, 1), ..c })
                    &&& t1 == #[trigger] t.push(Op::Now { nanos }).push(refused)
                    &&& *after == (ChannelState {
                        lost,
                        block_opened: Some(nanos),
                        ..left
                    })
                }
        }
    }

    /// Takes a record into the accumulator, opening a block and a segment for it
    /// if need be. A record that does not get there is lost and counted.
    fn accept<M: Medium>(&mut self, item: &Staged, counters: &mut Counters, io: &mut Io<M>) -> (r:
        Result<(), Error>)
        requires
            old(self).ready(),
        ensures
            final(self).wf(),
            final(self).same_channel(old(self)),
            Self::faithful(old(self), final(self), old(io)@, final(io)@),
            final(self).is_in_active_list == (old(self).is_in_active_list || r is Ok),
            medium::landed(final(io)@) == medium::landed(old(io)@),
            medium::finished(final(io)@) == medium::finished(old(io)@),
            medium::refusals(final(io)@) >= medium::refusals(old(io)@),
            r is Err ==> medium::troubled(old(io)@, final(io)@) && medium::accepted(final(io)@)
                == medium::accepted(old(io)@),
            r matches Err(e) ==> blamed(old(io)@, final(io)@, e),
            r is Ok ==> medium::accepted(final(io)@) == medium::accepted(old(io)@).push(
                old(self).accepts(item),
            ) && (final(self).segment is Some || (old(self).block.count > 0 && old(self).segment is None)),
            final(self).last_time.0 >= old(self).time_for(item.at).0,
            Self::only_segments_counted(
                *old(counters),
                (Counters {
                    dropped: old(counters).dropped,
                    records_written: old(counters).records_written,
                    ..*final(counters)
                }),
            ),
            match r {
                Ok(_) => {
                    &&& Self::took(
                        old(self),
                        final(self),
                        item,
                        *old(counters),
                        *final(counters),
                        old(io)@,
                        final(io)@,
                    )
                    &&& final(counters).dropped == old(counters).dropped
                    &&& final(counters).records_written == stats::plus(
                        old(counters).records_written,
                        1,
                    )
                },
                Err(e) => {
                    &&& final(self).block == old(self).block
                    &&& final(self).lost == stats::plus(old(self).lost, 1)
                    &&& final(counters).dropped == stats::plus(old(counters).dropped, 1)
                    &&& final(counters).records_written == old(counters).records_written
                    &&& final(self).same_service(old(self))
                    &&& medium::assembled(final(io)@, old(self).place) == medium::assembled(
                        old(io)@,
                        old(self).place,
                    )
                    &&& Self::turned_away(
                        old(self),
                        final(self),
                        item,
                        *old(counters),
                        *final(counters),
                        old(io)@,
                        final(io)@,
                        e,
                    )
                },
            },
    {
        let at: Micros = if item.at.0 >= self.last_time.0 {
            item.at
        } else {
            self.last_time
        };
        self.last_time = at;
        let ghost early = *self;
        let ghost mut found = io@;
        let ghost mut housed = *self;
        let ghost mut spent = *counters;
        if self.block.count == 0 {
            match self.ensure_room(at, counters, io) {
                Ok(()) => {},
                Err(e) => {
                    let ghost left = *self;
                    let ghost c = *counters;
                    self.count_lost(1, counters);
                    assert(Self::found_no_room(
                        &early,
                        &left,
                        at,
                        *old(counters),
                        c,
                        old(io)@,
                        io@,
                        e,
                    ));
                    return Err(e);
                },
            }
            proof {
                found = io@;
                housed = *self;
                spent = *counters;
            }
            let now: u64 = io.now();
            self.block_opened = Some(now);
            assert(io@ == found.push(Op::Now { nanos: now }));
        }
        assert(early == old(self).reaching(item.at));
        let record = item.record.as_record();
        let ghost asked = io@;
        let pushed = io.push_record(self.place, at, &record);
        proof {
            medium::lemma_dirties_push(asked, io@.last(), self.place);
        }
        let raw_len: u64 = match pushed {
            Ok(n) => n,
            Err(e) => {
                self.count_lost(1, counters);
                proof {
                    if old(self).block.count == 0 {
                        assert(Self::found_room(
                            &early,
                            &housed,
                            at,
                            *old(counters),
                            spent,
                            old(io)@,
                            found,
                        ));
                        let nanos = self.block_opened->0;
                        assert(io@ == found.push(Op::Now { nanos }).push(
                            Op::PushRecord {
                                place: old(self).place,
                                at,
                                record: item.record@,
                                outcome: Err(e),
                            },
                        ));
                    }
                }
                return Err(e);
            },
        };
        let first: Micros = if self.block.count == 0 {
            at
        } else {
            self.block.first
        };
        self.block = Accumulator { count: self.block.count + 1, raw_len, first, last: at };
        Counters::bump(&mut counters.records_written);
        let (event, metric) = item.footer_ids();
        if let Some(id) = event {
            self.footer.add_event(id);
        }
        if let Some(id) = metric {
            self.footer.add_metric(id);
        }
        self.dirty_since_sync = true;
        self.idle_since = None;
        self.buffers_released = false;
        self.is_in_active_list = true;
        proof {
            assert(self.footer@ =~= housed.footer@.noting(item.record@));
            if old(self).block.count == 0 {
                assert(io@.take(io@.len() - 2) =~= found);
            }
            assert(Self::has_place(
                old(self),
                &housed,
                item,
                *old(counters),
                spent,
                old(io)@,
                io@,
            ));
        }
        Ok(())
    }

    /// How many records a push lost: the one handed in and those in the block,
    /// less what is in the block or on the medium afterwards.
    pub open spec fn lost_by_push(
        before: &ChannelState,
        after: &ChannelState,
        landed0: int,
        landed1: int,
    ) -> int {
        1 + before.block.count + landed0 - after.block.count - landed1
    }

    /// Writes a record: into the accumulator, and the accumulator to the medium
    /// once it is full.
    pub fn push<M: Medium>(&mut self, item: &Staged, counters: &mut Counters, io: &mut Io<M>) -> (r:
        Result<(), Error>)
        requires
            old(self).ready(),
        ensures
            final(self).ready(),
            final(self).same_channel(old(self)),
            Self::faithful(old(self), final(self), old(io)@, final(io)@),
            Self::wrote(
                old(self),
                final(self),
                item,
                *old(counters),
                *final(counters),
                old(io)@,
                final(io)@,
                r,
            ),
            old(self).is_in_active_list || r is Ok ==> final(self).is_in_active_list,
            final(self).last_time.0 >= old(self).time_for(item.at).0,
            ({
                let gone = Self::lost_by_push(
                    old(self),
                    final(self),
                    medium::landed(old(io)@),
                    medium::landed(final(io)@),
                );
                &&& 0 <= gone <= 1 + old(self).block.count
                &&& final(counters).dropped == stats::plus(old(counters).dropped, gone)
                &&& final(self).lost == stats::plus(old(self).lost, gone)
                &&& r is Err ==> gone > 0
                &&& gone > 0 ==> {
                    ||| medium::troubled(old(io)@, final(io)@)
                    ||| !old(self).housed()
                    ||| old(self).oversized(old(io)@, final(io)@)
                }
            }),
            old(self).housed() ==> final(self).housed(),
            medium::refusals(final(io)@) >= medium::refusals(old(io)@),
            r is Err ==> medium::troubled(old(io)@, final(io)@),
            r matches Err(e) ==> blamed(old(io)@, final(io)@, e),
            medium::accepted(final(io)@) == medium::accepted(old(io)@).push(
                old(self).accepts(item),
            ) || (r is Err && medium::accepted(final(io)@) == medium::accepted(old(io)@)),

            Self::only_segments_counted(
                *old(counters),
                (Counters {
                    dropped: old(counters).dropped,
                    records_written: old(counters).records_written,
                    blocks_written: old(counters).blocks_written,
                    bytes_written: old(counters).bytes_written,
                    ..*final(counters)
                }),
            ),
            ({
                let before = old(counters).records_written;
                let after = final(counters).records_written;
                after == before || after == stats::plus(before, 1)
            }),
            r is Ok ==> final(counters).records_written == stats::plus(
                old(counters).records_written,
                1,
            ),
    {
        proof {
            stats::lemma_plus_nothing(counters.dropped);
            stats::lemma_plus_nothing(self.lost);
        }
        match self.accept(item, counters, io) {
            Ok(()) => {},
            Err(e) => {
                return Err(e);
            },
        }
        let ghost full = *self;
        let ghost t = io@;
        assert(Self::took(old(self), &full, item, *old(counters), *counters, old(io)@, t));
        if self.block.count == u32::MAX || self.block.raw_len >= self.config.block_max_bytes as u64 {
            let ghost c = *counters;
            let r = self.flush_block(counters, io);
            proof {
                assert(Self::flushed(&full, self, c, *counters, t, io@, r));
                if full.oversized(t, io@) {
                    Self::lemma_oversized(old(self), &full, old(io)@, t, io@, io@);
                }
            }
            return r;
        }
        Ok(())
    }
}

/// A count that stays within a time.
spec fn capped(n: int) -> int {
    if n <= u64::MAX {
        n
    } else {
        u64::MAX as int
    }
}

/// What attempts one after another leave alone, and what they cost.
proof fn lemma_tried(
    before: &ChannelState,
    at: Micros,
    c0: Counters,
    t0: Seq<Op>,
    tries: Seq<Attempt>,
    n: int,
)
    requires
        ChannelState::tried(before, at, c0, t0, tries),
        0 <= n < tries.len(),
    ensures
        tries[n].state == (ChannelState {
            inventory: tries[n].state.inventory,
            last_time: tries[n].state.last_time,
            ..*before
        }),
        tries[n].base.0 == capped(
            at.0 + medium::names_taken(tries[n].trace) - medium::names_taken(t0),
        ),
        medium::names_taken(tries[n].trace) >= medium::names_taken(t0),
        medium::uncreated(tries[n].trace) == medium::uncreated(t0) + n,
        medium::refusals(tries[n].trace) >= medium::refusals(t0) + n,
    decreases n,
{
    reveal(ChannelState::tried);
    if n > 0 {
        let a = tries[n - 1];
        let b = tries[n];
        lemma_tried(before, at, c0, t0, tries, n - 1);
        assert(a.led_to(b, n - 1));
        let e = choose|e: Error| #[trigger] a.answered_by(b, n - 1, e);
        let s = a.state.fresh_segment(a.base);
        let op = Op::Create {
            file: s.file,
            header: s.header,
            capacity: s.capacity,
            refused: Some(e),
        };
        medium::lemma_uncreated_push(a.trace, op);
        if !e.is_name_taken() {
            medium::lemma_uncreated_push(a.asking(Some(e)), b.trace.last());
        }
    }
}

/// Deleting segments creates none.
proof fn lemma_unlinks_create_nothing(
    trace: Seq<Op>,
    place: Place,
    segments: Seq<SegmentEntry>,
    n: nat,
)
    ensures
        medium::uncreated(rotation::after_unlinks(trace, place, segments, n))
            == medium::uncreated(trace),
        medium::names_taken(rotation::after_unlinks(trace, place, segments, n))
            == medium::names_taken(trace),
        medium::refusals(rotation::after_unlinks(trace, place, segments, n))
            == medium::refusals(trace),
    decreases n,
{
    if n > 0 {
        let m = (n - 1) as nat;
        lemma_unlinks_create_nothing(trace, place, segments, m);
        medium::lemma_uncreated_push(
            rotation::after_unlinks(trace, place, segments, m),
            rotation::after_unlinks(trace, place, segments, n).last(),
        );
    }
}

/// Keeping the quota creates nothing.
proof fn lemma_rotated(
    before: &ChannelState,
    after: &ChannelState,
    c0: Counters,
    c1: Counters,
    t0: Seq<Op>,
    t1: Seq<Op>,
    refused: Option<Error>,
)
    requires
        ChannelState::rotated(before, after, c0, c1, t0, t1, refused),
    ensures
        medium::uncreated(t1) == medium::uncreated(t0),
        medium::names_taken(t1) == medium::names_taken(t0),
        medium::refusals(t1) >= medium::refusals(t0),
{
    if let Some(quota) = before.quota_bytes {
        let segments = before.inventory@;
        let all = rotation::to_evict(segments, quota, before.live());
        let k = match refused {
            None => all,
            Some(e) => choose|k: nat|
                #![trigger segments.skip(k as int)]
                {
                    let unlinked = rotation::after_unlinks(t0, before.place, segments, k);
                    &&& k <= all
                    &&& after.inventory@ == segments.skip(k as int)
                    &&& if k < all {
                        t1 == unlinked.push(
                            Op::Unlink {
                                file: SegmentFile {
                                    place: before.place,
                                    name: segments[k as int].name,
                                },
                                refused: Some(e),
                            },
                        )
                    } else {
                        k > 0 && t1 == unlinked.push(
                            Op::SyncDir { place: before.place, refused: Some(e) },
                        )
                    }
                },
        };
        lemma_unlinks_create_nothing(t0, before.place, segments, k);
        let unlinked = rotation::after_unlinks(t0, before.place, segments, k);
        if t1 != unlinked {
            medium::lemma_uncreated_push(unlinked, t1.last());
        }
    }
}

/// What opening a segment leaves alone, and which segment it is.
proof fn lemma_opening(
    before: &ChannelState,
    after: &ChannelState,
    at: Micros,
    c0: Counters,
    c1: Counters,
    t0: Seq<Op>,
    t1: Seq<Op>,
    refused: Option<Error>,
)
    requires
        ChannelState::opening(before, after, at, c0, c1, t0, t1, refused),
        before.segment is None,
    ensures
        after.same_channel(before),
        refused is None ==> after.segment is Some,
        after.segment is Some ==> {
            let base = after.segment->0.header.base;
            &&& after.segment == Some(before.fresh_segment(base))
            &&& after.footer@ == before.footer@.fresh()
            &&& base.0 == capped(at.0 + medium::names_taken(t1) - medium::names_taken(t0))
            &&& medium::names_taken(t1) >= medium::names_taken(t0)
            &&& medium::refusals(t1) - medium::refusals(t0) >= medium::uncreated(t1)
                - medium::uncreated(t0)
            &&& !medium::troubled(t0, t1) ==> base == at
        },
        after.segment is None ==> after.footer@ == before.footer@,
{
    let tries = choose|tries: Seq<Attempt>|
        {
            &&& #[trigger] ChannelState::tried(before, at, c0, t0, tries)
            &&& tries.last().ended(after, tries.len() - 1, c1, t1, refused)
        };
    assert(tries.len() > 0 && tries[0] == (Attempt { state: *before, base: at, counters: c0, trace: t0 })) by {
        reveal(ChannelState::tried);
    }
    let n = tries.len() - 1;
    let last = tries[n];
    lemma_tried(before, at, c0, t0, tries, n);
    if n < NAME_ATTEMPTS && after.segment is Some {
        let opened = choose|opened: ChannelState|
            {
                &&& #[trigger] ChannelState::rotated(
                    &opened,
                    after,
                    last.tally(),
                    c1,
                    last.asking(None),
                    t1,
                    refused,
                )
                &&& last.made(opened)
            };
        lemma_rotated(&opened, after, last.tally(), c1, last.asking(None), t1, refused);
        medium::lemma_uncreated_push(last.trace, last.asking(None).last());
        assert(last.state.fresh_segment(last.base) == before.fresh_segment(last.base));
    }
}

/// A new segment has the name and the base of its first record, unless that name is taken:
/// each name that is costs a microsecond.
pub proof fn law_a_segment_is_named_by_its_first_record(
    before: &ChannelState,
    after: &ChannelState,
    at: Micros,
    c0: Counters,
    c1: Counters,
    t0: Seq<Op>,
    t1: Seq<Op>,
    refused: Option<Error>,
)
    requires
        ChannelState::opening(before, after, at, c0, c1, t0, t1, refused),
        before.segment is None,
        after.segment is Some,
    ensures
        ({
            let base = after.segment->0.header.base;
            let taken = medium::names_taken(t1) - medium::names_taken(t0);
            &&& after.segment == Some(before.fresh_segment(base))
            &&& taken >= 0
            &&& base.0 == if at.0 + taken <= u64::MAX {
                at.0 + taken
            } else {
                u64::MAX as int
            }
            &&& !medium::troubled(t0, t1) ==> base == at
        }),
{
    lemma_opening(before, after, at, c0, c1, t0, t1, refused);
}

/// No segment is opened only for a reason that has no answer. A taken name is none. A
/// medium without space is one once the channel has nothing left to give up, or gave up
/// enough, or could not delete it. That no name was found is one after as many attempts as
/// are made.
pub proof fn law_a_segment_is_not_opened_only_for_a_reason(
    before: &ChannelState,
    after: &ChannelState,
    at: Micros,
    c0: Counters,
    c1: Counters,
    t0: Seq<Op>,
    t1: Seq<Op>,
    e: Error,
)
    requires
        ChannelState::opening(before, after, at, c0, c1, t0, t1, Some(e)),
        before.segment is None,
        before.parked_segment is None,
        after.segment is None,
    ensures
        ({
            let failed = medium::uncreated(t1) - medium::uncreated(t0);
            let undeleted = t1.len() > 0 && (t1.last() matches Op::Remove { refused: Some(f), .. }
                && f == e);
            &&& e.is_name_taken() ==> undeleted
            &&& e.is_out_of_space() ==> {
                ||| after.inventory@.len() == 0
                ||| failed > SPACE_ATTEMPTS + 1
                ||| undeleted
            }
            &&& (t1.len() > 0 && medium::refused_with(t1.last(), e)) || (is_out_of_names(e)
                && failed == NAME_ATTEMPTS)
        }),
{
    let tries = choose|tries: Seq<Attempt>|
        {
            &&& #[trigger] ChannelState::tried(before, at, c0, t0, tries)
            &&& tries.last().ended(after, tries.len() - 1, c1, t1, Some(e))
        };
    assert(tries.len() > 0) by {
        reveal(ChannelState::tried);
    }
    let n = tries.len() - 1;
    let last = tries[n];
    lemma_tried(before, at, c0, t0, tries, n);
    if n < NAME_ATTEMPTS {
        if t1 == last.asking(Some(e)) {
            medium::lemma_uncreated_push(last.trace, t1.last());
        }
        assert(medium::refused_with(t1.last(), e));
    }
}

/// A block is not refused for want of space while the channel has a segment to give up:
/// then the deletion of the oldest was asked for, and where it was granted, the block was
/// offered once more.
pub proof fn law_want_of_space_costs_the_oldest_segment(
    before: &ChannelState,
    after: &ChannelState,
    block: BlockInfo,
    c0: Counters,
    c1: Counters,
    t0: Seq<Op>,
    t1: Seq<Op>,
    e: Error,
)
    requires
        ChannelState::offered(before, after, block, c0, c1, t0, t1, Err(e)),
        e.is_out_of_space(),
        before.oldest_evictable() is Some,
    ensures
        ({
            let file = SegmentFile {
                place: before.place,
                name: before.oldest_evictable()->0.name,
            };
            ||| t1.len() > 0 && (t1.last() matches Op::Remove { file: f, refused: Some(_) } && f
                == file)
            ||| {
                &&& after.inventory@ == before.inventory@.skip(1)
                &&& exists|s: SegmentWriter, t: Seq<Op>| #[trigger]
                    s.appending(after.segment->0, block, t, t1, Err(e)) && t.len() > 0 && t.last()
                        == (Op::Remove { file, refused: None })
            }
        }),
{
}

/// Blocks without the files they landed in.
pub open spec fn blocks_alone(blocks: Seq<medium::Landed>) -> Seq<BlockInfo> {
    Seq::new(blocks.len(), |k: int| blocks[k].block)
}

impl ChannelState {
    /// The open segment was a fresh one, these blocks landed in it one behind the other,
    /// numbered from the first on, and the footer holds the entry of each, its types, and
    /// the types of the block being assembled.
    pub open spec fn holds(
        &self,
        base: Micros,
        blocks: Seq<medium::Landed>,
        trace: Seq<Op>,
    ) -> bool {
        let fresh = self.fresh_segment(base);
        &&& self.segment matches Some(s) && s == (SegmentWriter {
            capacity: s.capacity,
            dirty: s.dirty,
            ..appended(fresh, blocks_alone(blocks))
        })
        &&& forall|k: int|
            0 <= k < blocks.len() ==> {
                &&& (#[trigger] blocks[k]).file == fresh.file
                &&& blocks[k].block.header.seq == seq_after(k as nat)
                &&& blocks[k].stamped is Some
                &&& blocks[k].stamped->0.seq == blocks[k].block.header.seq
                &&& blocks[k].offset == appended(fresh, blocks_alone(blocks.take(k))).end
            }
        &&& appended(fresh, blocks_alone(blocks)).next_seq == seq_after(blocks.len())
        &&& self.footer@ == medium::footer_of(blocks).noting_all(
            medium::assembled(trace, self.place),
        )
    }
}

proof fn lemma_footer_settled(blocks: Seq<medium::Landed>)
    ensures
        medium::footer_of(blocks).without_pending() == medium::footer_of(blocks),
        medium::footer_of(blocks).fresh() == FooterView::empty(),
{
    let f = medium::footer_of(blocks);
    assert(f.pending_events == Set::<u16>::empty() && f.pending_metrics == Set::<u16>::empty());
    assert(f.without_pending() =~= f);
    assert(f.fresh() =~= FooterView::empty());
}

proof fn lemma_noting_fresh(f: FooterView, records: Seq<(Micros, RecordView)>)
    ensures
        f.noting_all(records).fresh() == f.fresh().noting_all(records),
    decreases records.len(),
{
    if records.len() > 0 {
        lemma_noting_fresh(f, records.drop_last());
        assert(f.noting_all(records).fresh() =~= f.fresh().noting_all(records));
    }
}

proof fn lemma_noting_one_more(
    f: FooterView,
    records: Seq<(Micros, RecordView)>,
    record: (Micros, RecordView),
)
    ensures
        f.noting_all(records.push(record)) == f.noting_all(records).noting(record.1),
{
    assert(records.push(record).drop_last() =~= records);
}

proof fn lemma_one_block_more(
    before: &ChannelState,
    after: &ChannelState,
    base: Micros,
    blocks: Seq<medium::Landed>,
    b: medium::Landed,
    t1: Seq<Op>,
)
    requires
        ({
            let fresh = before.fresh_segment(base);
            let home = appended(fresh, blocks_alone(blocks));
            &&& after.same_channel(before)
            &&& after.segment matches Some(s) && s == (SegmentWriter {
                capacity: s.capacity,
                dirty: s.dirty,
                ..home.with_block(b.block)
            })
            &&& b.file == fresh.file
            &&& b.offset == home.end
            &&& b.block.header.seq == home.next_seq
            &&& home.next_seq == seq_after(blocks.len())
            &&& b.stamped is Some
            &&& b.stamped->0.seq == b.block.header.seq
            &&& after.footer@ == medium::footer_of(blocks).noting_all(
                b.stamped->0.records,
            ).with_block(medium::entry_of(b))
            &&& forall|k: int|
                0 <= k < blocks.len() ==> {
                    &&& (#[trigger] blocks[k]).file == fresh.file
                    &&& blocks[k].block.header.seq == seq_after(k as nat)
                    &&& blocks[k].stamped is Some
                    &&& blocks[k].stamped->0.seq == blocks[k].block.header.seq
                    &&& blocks[k].offset == appended(fresh, blocks_alone(blocks.take(k))).end
                }
        }),
        medium::assembled(t1, after.place).len() == 0,
    ensures
        after.holds(base, blocks.push(b), t1),
{
    let fresh = before.fresh_segment(base);
    let more = blocks.push(b);
    assert(after.fresh_segment(base) == fresh);
    assert(blocks_alone(more) =~= blocks_alone(blocks).push(b.block));
    assert(blocks_alone(more).drop_last() =~= blocks_alone(blocks));
    assert(more.drop_last() =~= blocks);
    assert forall|k: int| 0 <= k < more.len() implies {
        &&& (#[trigger] more[k]).file == fresh.file
        &&& more[k].block.header.seq == seq_after(k as nat)
        &&& more[k].stamped is Some
        &&& more[k].stamped->0.seq == more[k].block.header.seq
        &&& more[k].offset == appended(fresh, blocks_alone(more.take(k))).end
    } by {
        if k < blocks.len() {
            assert(more[k] == blocks[k]);
            assert(more.take(k) =~= blocks.take(k));
        } else {
            assert(more.take(k) =~= blocks);
        }
    }
}

/// A block that lands is the next one of its segment: it joins the others in the file, in
/// their numbering and in the index, its types with it; or, where they leave it no room,
/// it is the first of a fresh segment. Recovery, which accepts blocks that follow one
/// another and are numbered from the first on, finds what a channel writes.
pub proof fn law_a_block_is_listed_where_it_lands(
    before: &ChannelState,
    after: &ChannelState,
    base: Micros,
    blocks: Seq<medium::Landed>,
    c0: Counters,
    c1: Counters,
    t0: Seq<Op>,
    t1: Seq<Op>,
    r: Result<(), Error>,
)
    requires
        before.holds(base, blocks, t0),
        before.honest(t0),
        ChannelState::flushed(before, after, c0, c1, t0, t1, r),
        ChannelState::faithful(before, after, t0, t1),
        before.block.count > 0,
        medium::landed(t1) > medium::landed(t0),
    ensures
        ({
            let b = medium::written(t1).last();
            let len = b.block.len;
            &&& medium::written(t1) == medium::written(t0).push(b)
            &&& b.stamped->0.records == medium::assembled(t0, before.place)
            &&& if before.segment->0.has_room(len as int) {
                after.holds(base, blocks.push(b), t1)
            } else {
                after.holds(after.segment->0.header.base, seq![b], t1)
            }
        }),
{
    let f = medium::finished(t1)->0;
    assert(ChannelState::block_landed(before, after, f, c0, c1, t0, t1));
    let home = ChannelState::home(before, after, f.len);
    let b = medium::written(t1).last();
    let records = medium::assembled(t0, before.place);
    let kept = before.segment->0.has_room(f.len as int);
    assert(medium::entry_of(b) == before.entry_at(home.end));
    lemma_footer_settled(blocks);
    if kept {
        lemma_appended_keeps_layout(before.fresh_segment(base), blocks_alone(blocks));
        lemma_one_block_more(before, after, base, blocks, b, t1);
    } else {
        let at = after.segment->0.header.base;
        let none = Seq::<medium::Landed>::empty();
        lemma_noting_fresh(medium::footer_of(blocks), records);
        assert(blocks_alone(none) =~= Seq::<BlockInfo>::empty());
        lemma_one_block_more(before, after, at, none, b, t1);
        assert(none.push(b) =~= seq![b]);
    }
}

/// A record that joins a block is noted for the footer of the segment the block goes to:
/// the open one, or, where that one left no room for a block, a fresh one without blocks.
pub proof fn law_a_record_is_noted_where_it_goes(
    before: &ChannelState,
    after: &ChannelState,
    base: Micros,
    blocks: Seq<medium::Landed>,
    item: &Staged,
    c0: Counters,
    c1: Counters,
    t0: Seq<Op>,
    t1: Seq<Op>,
)
    requires
        before.holds(base, blocks, t0),
        before.honest(t0),
        before.parked_segment is None,
        ChannelState::took(before, after, item, c0, c1, t0, t1),
    ensures
        after.holds(base, blocks, t1) || (before.block.count == 0 && exists|fresh: Micros| #[trigger]
            after.holds(fresh, Seq::empty(), t1)),
{
    let was = medium::assembled(t0, before.place);
    let record = (before.time_for(item.at), item.record@);
    let f = medium::footer_of(blocks);
    lemma_noting_one_more(f, was, record);
    assert(after.fresh_segment(base) == before.fresh_segment(base));
    let (housed, spent) = choose|housed: ChannelState, c: Counters|
        {
            &&& #[trigger] ChannelState::has_place(before, &housed, item, c0, c, t0, t1)
            &&& c1 == (Counters { records_written: stats::plus(c.records_written, 1), ..c })
            &&& *after == (ChannelState {
                block: after.block,
                block_opened: after.block_opened,
                footer: after.footer,
                dirty_since_sync: true,
                is_in_active_list: true,
                idle_since: None,
                buffers_released: false,
                ..housed
            })
            &&& after.footer@ == housed.footer@.noting(item.record@)
        };
    if before.block.count == 0 {
        assert(was =~= Seq::empty());
        let t = t1.take(t1.len() - 2);
        let early = before.reaching(item.at);
        let at = before.time_for(item.at);
        assert(ChannelState::found_room(&early, &housed, at, c0, spent, t0, t));
        if !(housed.has_room() && ChannelState::unparked(&early, &housed, c0, spent, t0, t)) {
            let (back, shut, c, ta, tb) = choose|
                back: ChannelState,
                shut: ChannelState,
                c: Counters,
                ta: Seq<Op>,
                tb: Seq<Op>,
            |
                {
                    &&& #[trigger] ChannelState::unparked(&early, &back, c0, c, t0, ta)
                    &&& !back.has_room()
                    &&& #[trigger] ChannelState::sealed(&back, &shut, ta, tb)
                    &&& ChannelState::opening(
                        &shut,
                        &housed,
                        at,
                        back.sealing(c),
                        spent,
                        tb,
                        t,
                        None,
                    )
                };
            lemma_opening(&shut, &housed, at, back.sealing(c), spent, tb, t, None);
            let fresh = housed.segment->0.header.base;
            let none = Seq::<medium::Landed>::empty();
            lemma_footer_settled(blocks);
            lemma_footer_settled(none);
            assert(before.footer@ == f);
            assert(housed.footer@ =~= FooterView::empty());
            assert(blocks_alone(none) =~= Seq::<BlockInfo>::empty());
            assert(shut.fresh_segment(fresh) == after.fresh_segment(fresh));
            lemma_noting_one_more(medium::footer_of(none), was, record);
            assert(after.holds(fresh, none, t1));
        } else {
            assert(after.holds(base, blocks, t1));
        }
    }
}

/// A segment is sealed with a footer that lists every block that landed in it, and every
/// type in them, and nothing else.
pub proof fn law_a_sealed_segment_lists_its_blocks(
    before: &ChannelState,
    after: &ChannelState,
    base: Micros,
    blocks: Seq<medium::Landed>,
    t0: Seq<Op>,
    t1: Seq<Op>,
)
    requires
        before.holds(base, blocks, t0),
        before.honest(t0),
        before.block.count == 0,
        ChannelState::sealed(before, after, t0, t1),
    ensures
        exists|footer: Footer, len: u64|
            footer.describes(medium::footer_of(blocks)) && t1
                == #[trigger] before.segment->0.sealed_trace(t0, footer, len),
{
    assert(medium::assembled(t0, before.place) =~= Seq::empty());
}

/// Time within a channel never goes back: a record gets no earlier a time than the
/// one taken before it, and never one before its own.
pub proof fn law_time_in_a_channel_never_goes_back(
    before: ChannelState,
    first: &Staged,
    after: ChannelState,
    second: &Staged,
)
    requires
        after.last_time.0 >= before.time_for(first.at).0,
    ensures
        after.accepts(second).at.0 >= before.accepts(first).at.0,
        after.accepts(second).at.0 >= second.at.0,
{
}

/// One channel of a namespace as it is registered with the writer, which knows
/// nothing of storage classes: the directory, the policy, the budget group and
/// the personal quota.
#[derive(Debug)]
pub struct ChannelSpec {
    /// The directory, with the root of the class applied.
    pub dir: String,
    /// The budget group.
    pub group: usize,
    /// The namespace's personal quota within the group.
    pub quota_bytes: Option<u64>,
    pub config: ChannelConfig,
}

/// The segments of a listing, in order.
pub open spec fn is_stock(listing: Option<Vec<Listed>>, found: Seq<SegmentEntry>) -> bool {
    &&& rotation::in_order(found)
    &&& found.to_multiset() == match listing {
        Some(l) => rotation::segments_in(l@).to_multiset(),
        None => vstd::multiset::Multiset::empty(),
    }
}

impl ChannelState {
    /// The newest segment was seen to, if it is of another run: what sealing it came
    /// to stands in the inventory and in the counters. A failure is counted, except
    /// that the segment belongs to another store.
    pub open spec fn saw_to_orphan(
        place: Place,
        identity: SegmentIdentity,
        layout: Layout,
        i0: Seq<SegmentEntry>,
        i1: Seq<SegmentEntry>,
        c0: Counters,
        c1: Counters,
        t0: Seq<Op>,
        t1: Seq<Op>,
    ) -> bool {
        if i0.len() == 0 || i0.last().name.boot == identity.boot {
            i1 == i0 && c1 == c0 && t1 == t0
        } else {
            exists|r: Result<Option<Recovered>, Error>|
                {
                    &&& #[trigger] orphan_settled(
                        SegmentFile { place, name: i0.last().name },
                        Some(identity.store_id),
                        layout,
                        t0,
                        t1,
                        r,
                    )
                    &&& match r {
                        Ok(Some(rec)) => {
                            &&& i1 == rotation::resized(i0, rec.name, rec.size_bytes)
                            &&& c1 == (Counters {
                                segments_sealed: stats::plus(c0.segments_sealed, 1),
                                truncated_tails: if rec.truncated {
                                    stats::plus(c0.truncated_tails, 1)
                                } else {
                                    c0.truncated_tails
                                },
                                ..c0
                            })
                        },
                        Ok(None) => i1 == i0 && c1 == c0,
                        Err(e) => i1 == i0 && c1 == (Counters {
                            io_errors: if e is ForeignSegment {
                                c0.io_errors
                            } else {
                                stats::plus(c0.io_errors, 1)
                            },
                            ..c0
                        }),
                    }
                }
        }
    }

    /// A channel came up: its directory was swept and listed, its inventory is what
    /// was listed, with the newest segment seen to, and the clock was read.
    pub open spec fn came_up(
        ch: &ChannelState,
        c0: Counters,
        c1: Counters,
        t0: Seq<Op>,
        t1: Seq<Op>,
    ) -> bool {
        &&& exists|listing: Option<Vec<Listed>>, found: Seq<SegmentEntry>| #[trigger]
            is_stock(listing, found) && Self::saw_to_orphan(
                ch.place,
                ch.identity,
                ch.layout,
                found,
                ch.inventory@,
                c0,
                c1,
                t0.push(Op::Sweep { place: ch.place, refused: None }).push(
                    Op::List { place: ch.place, outcome: Ok(listing) },
                ),
                t1.drop_last(),
            )
        &&& t1.len() > 0
        &&& t1.last() == (Op::Now { nanos: ch.last_sync })
    }

    /// Bringing up a channel counts nothing but the recovery of a segment.
    pub open spec fn only_recovery_counted(c0: Counters, c1: Counters) -> bool {
        c1 == (Counters {
            segments_sealed: c1.segments_sealed,
            truncated_tails: c1.truncated_tails,
            io_errors: c1.io_errors,
            ..c0
        })
    }

    /// Brings up a channel: sweeps what an interrupted migration left behind,
    /// lists the segments, and seals the one a previous run tore.
    pub fn new<M: Medium>(
        spec: ChannelSpec,
        place: Place,
        root_key: u8,
        identity: SegmentIdentity,
        layout: Layout,
        counters: &mut Counters,
        io: &mut Io<M>,
    ) -> (r: Result<ChannelState, Error>)
        requires
            layout.block_header > 0,
        ensures
            medium::quiet(old(io)@, final(io)@),
            match r {
                Ok(ch) => {
                    &&& ch.ready()
                    &&& ch.place == place && ch.root_key == root_key && ch.identity == identity
                    &&& ch.layout == layout && ch.group == spec.group && ch.quota_bytes
                        == spec.quota_bytes && ch.config == spec.config
                    &&& ch.segment is None && ch.parked_segment is None
                    &&& ch.block == Accumulator::empty() && ch.block_opened is None
                    &&& ch.footer@ == FooterView::empty()
                    &&& ch.last_time == Micros(0)
                    &&& !ch.dirty_since_sync && !ch.is_in_active_list && ch.idle_since is None
                        && ch.buffers_released && ch.lost == 0
                    &&& Self::came_up(&ch, *old(counters), *final(counters), old(io)@, final(io)@)
                },
                Err(e) => {
                    ||| final(io)@ == old(io)@.push(Op::Sweep { place, refused: Some(e) })
                    ||| final(io)@ == old(io)@.push(Op::Sweep { place, refused: None }).push(
                        Op::List { place, outcome: Err(e) },
                    )
                },
            },
            r is Err ==> medium::troubled(old(io)@, final(io)@),
            r is Err ==> *final(counters) == *old(counters),
            Self::only_recovery_counted(*old(counters), *final(counters)),
    {
        match io.sweep(place) {
            Ok(()) => {},
            Err(e) => {
                return Err(e);
            },
        }
        let listing: Option<Vec<Listed>> = match io.list(place) {
            Ok(l) => l,
            Err(e) => {
                return Err(e);
            },
        };
        let mut inventory: Inventory = Inventory::scan(listing.as_ref());
        assert(is_stock(listing, inventory@));
        Self::recover_orphan(place, &mut inventory, identity, layout, counters, io);
        let ghost recovered = io@;
        let now: u64 = io.now();
        assert(io@.drop_last() =~= recovered);
        Ok(
            ChannelState {
                place,
                config: spec.config,
                group: spec.group,
                root_key,
                quota_bytes: spec.quota_bytes,
                identity,
                layout,
                inventory,
                segment: None,
                parked_segment: None,
                block: Accumulator::new(),
                footer: FooterBuilder::new(),
                last_time: Micros(0),
                block_opened: None,
                last_sync: now,
                dirty_since_sync: false,
                is_in_active_list: false,
                idle_since: None,
                buffers_released: true,
                lost: 0,
            },
        )
    }

    /// Seals the segment a previous run tore, giving the tail of its window back.
    ///
    /// **Only** a segment of another run is touched: one of the current run may be
    /// open in the live state of this very process, and a segment does not cross
    /// the boundary of a run. A recovery that fails is not fatal; a segment
    /// brought from another device is no failure at all.
    fn recover_orphan<M: Medium>(
        place: Place,
        inventory: &mut Inventory,
        identity: SegmentIdentity,
        layout: Layout,
        counters: &mut Counters,
        io: &mut Io<M>,
    )
        requires
            old(inventory).wf(),
            layout.block_header > 0,
        ensures
            final(inventory).wf(),
            medium::quiet(old(io)@, final(io)@),
            Self::only_recovery_counted(*old(counters), *final(counters)),
            Self::saw_to_orphan(
                place,
                identity,
                layout,
                old(inventory)@,
                final(inventory)@,
                *old(counters),
                *final(counters),
                old(io)@,
                final(io)@,
            ),
    {
        let newest: SegmentEntry = match inventory.newest() {
            None => {
                return ;
            },
            Some(e) => e,
        };
        if newest.name.boot == identity.boot {
            return ;
        }
        let settled = seal_orphan(io, newest.file(place), Some(identity.store_id), layout);
        assert(orphan_settled(
            SegmentFile { place, name: newest.name },
            Some(identity.store_id),
            layout,
            old(io)@,
            io@,
            settled,
        ));
        match settled {
            Ok(Some(recovered)) => {
                inventory.update_size_bytes(recovered.name, recovered.size_bytes);
                Counters::bump(&mut counters.segments_sealed);
                if recovered.truncated {
                    Counters::bump(&mut counters.truncated_tails);
                }
            },
            Ok(None) => {},
            Err(Error::ForeignSegment { .. }) => {},
            Err(_) => {
                Counters::bump(&mut counters.io_errors);
            },
        }
    }
}

/// A record never gets a time before one that was written: it keeps its own, or where that lies in
/// the past it gets the latest one written.
pub proof fn law_a_late_record_is_pulled_forward(ch: &ChannelState, at: Micros)
    ensures
        at.0 >= ch.last_time.0 ==> ch.time_for(at) == at,
        at.0 < ch.last_time.0 ==> ch.time_for(at) == ch.last_time,
{
}

/// A block is closed once it has reached the threshold of its channel, and not before.
pub proof fn law_a_block_is_closed_at_its_threshold(ch: &ChannelState)
    requires
        ch.block.count < u32::MAX,
    ensures
        ch.is_full() <==> ch.block.raw_len >= ch.config.block_max_bytes,
{
}

/// A block fits no segment if and only if it does not fit behind the header of a fresh one, with a
/// zero header behind it, under the channel's limit; and a segment is left for another as soon as
/// it has no room for a whole block with its header and that zero header.
pub proof fn law_room_is_measured_by_whole_blocks(ch: &ChannelState, len: u64)
    requires
        ch.config.segment_bytes >= ch.layout.segment_header + ch.layout.block_header,
        ch.config.block_max_bytes + 2 * ch.layout.block_header <= u64::MAX,
    ensures
        ch.too_large(len as int) <==> ch.layout.segment_header + len + ch.layout.block_header
            > ch.config.segment_bytes,
        ch.has_room() <==> (ch.segment matches Some(s) && s.end + ch.config.block_max_bytes + 2
            * ch.layout.block_header + s.layout.block_header <= s.limit),
{
}

/// The segment a channel writes to, or will go on with, is never offered for eviction; the oldest of
/// the others is, if it is the oldest of all.
pub proof fn law_a_live_segment_is_never_given_up(ch: &ChannelState)
    ensures
        ch.oldest_evictable() matches Some(e) ==> {
            &&& ch.inventory@.len() > 0 && e == ch.inventory@[0]
            &&& ch.segment matches Some(s) ==> !(e.name.boot == s.header.boot && e.name.base
                == s.header.base)
            &&& ch.segment is None ==> ch.parked_segment != Some(e.name)
        },
        ch.inventory@.len() > 0 && ch.oldest_evictable() is None ==> {
            let first = ch.inventory@[0].name;
            ||| ch.segment matches Some(s) && first.boot == s.header.boot && first.base
                == s.header.base
            ||| ch.segment is None && ch.parked_segment == Some(first)
        },
{
}

/// A sync is dated by the clock that is read after it: the channel owes nothing from then on, and the
/// next sync is counted from that reading. Nothing is asked of the medium where nothing was owed.
pub proof fn law_a_sync_is_counted_from_its_own_moment(
    before: &ChannelState,
    after: &ChannelState,
    c0: Counters,
    c1: Counters,
    t0: Seq<Op>,
    t1: Seq<Op>,
    r: Result<(), Error>,
)
    requires
        ChannelState::synced(before, after, c0, c1, t0, t1, r),
    ensures
        r is Ok ==> {
            &&& !after.dirty_since_sync
            &&& t1.last() == (Op::Now { nanos: after.last_sync })
            &&& before.segment matches Some(s) ==> (s.dirty ==> {
                &&& t1 == t0.push(Op::Sync { file: s.file, refused: None }).push(t1.last())
                &&& !medium::unsynced(t1, s.file)
                &&& c1.syncs == stats::plus(c0.syncs, 1)
            })
            &&& !(before.segment matches Some(s) && s.dirty) ==> t1 == t0.push(t1.last())
            &&& after.segment matches Some(s) ==> !s.dirty
        },
        r is Err ==> *after == *before && medium::troubled(t0, t1),
        after.block == before.block && after.block_opened == before.block_opened,
{
    if r is Ok {
        if before.segment is Some && before.segment->0.dirty {
            let synced = t0.push(Op::Sync { file: before.segment->0.file, refused: None });
            assert(synced.drop_last() =~= t0);
            assert(t1.drop_last() =~= synced);
        }
    } else {
        let e = r->Err_0;
        medium::lemma_landed_push(
            t0,
            Op::Sync { file: before.segment->0.file, refused: Some(e) },
        );
    }
}

/// Only a sync moves the date of the last sync: a record that is taken, and a block that is flushed,
/// leave the deadline of what is owed where it was.
pub proof fn law_writing_does_not_put_off_a_sync(
    before: &ChannelState,
    after: &ChannelState,
    c0: Counters,
    c1: Counters,
    t0: Seq<Op>,
    t1: Seq<Op>,
    r: Result<(), Error>,
)
    requires
        ChannelState::flushed(before, after, c0, c1, t0, t1, r),
    ensures
        after.last_sync == before.last_sync,
        after.block.count == 0,
        before.block.count > 0 && medium::landed(t1) > medium::landed(t0) ==> after.dirty_since_sync,
{
}

/// Every record is accounted for: one that was pushed is in the block, or landed with it, or is
/// counted as lost, and so is each that was in the block before.
pub proof fn law_a_pushed_record_is_kept_landed_or_lost(
    before: &ChannelState,
    after: &ChannelState,
    landed0: int,
    landed1: int,
)
    ensures
        before.block.count + 1 == after.block.count + (landed1 - landed0)
            + ChannelState::lost_by_push(before, after, landed0, landed1),
{
}

/// A flush leaves no record in the block: all of them landed, or all of them are counted as lost, in
/// the channel and in all. They are lost only where the medium refused, there is no segment, or the
/// block fits none.
pub proof fn law_a_flushed_block_lands_or_is_lost_whole(
    before: &ChannelState,
    after: &ChannelState,
    c0: Counters,
    c1: Counters,
    t0: Seq<Op>,
    t1: Seq<Op>,
    r: Result<(), Error>,
)
    requires
        ChannelState::flushed(before, after, c0, c1, t0, t1, r),
    ensures
        after.block.count == 0,
        after.block_opened is None,
        ({
            let landed = medium::landed(t1) - medium::landed(t0);
            &&& landed == before.block.count || landed == 0
            &&& after.lost == stats::plus(before.lost, before.block.count - landed)
            &&& c1.dropped == stats::plus(c0.dropped, before.block.count - landed)
            &&& landed < before.block.count ==> medium::refusals(t1) > medium::refusals(t0)
                || before.segment is None || before.oversized(t0, t1)
            &&& r is Err ==> landed < before.block.count
            &&& before.block.count > 0 && landed == before.block.count ==> after.dirty_since_sync
        }),
{
    stats::lemma_plus_nothing(before.lost);
    stats::lemma_plus_nothing(c0.dropped);
}

/// A segment that was opened is listed last, with all the room that was taken for it; the others stay
/// as they are, less the oldest that were given up.
pub proof fn law_a_new_segment_is_listed_with_its_room(
    before: Seq<SegmentEntry>,
    s: SegmentWriter,
    spared: nat,
    k: int,
)
    requires
        spared <= before.len(),
    ensures
        ({
            let after = ChannelState::with_segment(before, s, spared);
            &&& after.len() == before.len() - spared + 1
            &&& after.last().name == s.header.name()
            &&& after.last().size_bytes == s.capacity
            &&& 0 <= k < before.len() - spared ==> after[k] == before[k + spared]
        }),
{
}

/// A segment that is put aside is closed, listed with its data and no more, and noted as the one to go
/// on with; one that could not be closed is not.
pub proof fn law_a_segment_put_aside_is_listed_with_its_data(
    before: &ChannelState,
    after: &ChannelState,
    t0: Seq<Op>,
    t1: Seq<Op>,
    r: Result<(), Error>,
    s: SegmentWriter,
    i: int,
)
    requires
        ChannelState::let_go(before, after, t0, t1, r),
        before.segment == Some(s),
        0 <= i < before.inventory@.len(),
        before.inventory@[i].name == s.header.name(),
        forall|k: int|
            0 <= k < i ==> (#[trigger] before.inventory@[k]).name != s.header.name(),
    ensures
        after.segment is None,
        r is Ok ==> after.parked_segment == Some(s.header.name()) && after.inventory@[i].size_bytes
            == s.end,
        r is Err ==> after.parked_segment == before.parked_segment && after.inventory@[i]
            == before.inventory@[i],
        after.inventory@.len() == before.inventory@.len(),
        after.block == before.block && after.lost == before.lost,
{
    rotation::law_a_size_is_corrected_in_its_place(
        before.inventory@,
        s.header.name(),
        s.end,
        i,
    );
}

/// A sealed segment is cut to its data, gets its footer behind them, is synced and closed, in this
/// order; it is listed with its data and its footer.
pub proof fn law_a_segment_is_sealed_behind_its_data(
    before: &ChannelState,
    after: &ChannelState,
    t0: Seq<Op>,
    t1: Seq<Op>,
    s: SegmentWriter,
    i: int,
)
    requires
        ChannelState::sealed(before, after, t0, t1),
        before.segment == Some(s),
        0 <= i < before.inventory@.len(),
        before.inventory@[i].name == s.header.name(),
        forall|k: int|
            0 <= k < i ==> (#[trigger] before.inventory@[k]).name != s.header.name(),
    ensures
        after.segment is None,
        !after.dirty_since_sync,
        t1.len() >= 4,
        t1[t1.len() - 4] == (Op::Truncate { file: s.file, len: s.end, refused: None }),
        t1[t1.len() - 3] matches Op::WriteFooter { file, offset, footer, outcome: Ok(len) } && {
            &&& file == s.file && offset == s.end
            &&& footer.describes(before.footer@)
            &&& s.end + len <= u64::MAX ==> after.inventory@[i].size_bytes == s.end + len
        },
        t1[t1.len() - 2] == (Op::Sync { file: s.file, refused: None }),
        t1[t1.len() - 1] == (Op::Close { file: s.file }),
{
    let (footer, len) = choose|footer: Footer, len: u64|
        {
            &&& footer.describes(before.footer@)
            &&& t1 == #[trigger] s.sealed_trace(t0, footer, len)
            &&& after.inventory@ == rotation::resized(
                before.inventory@,
                s.header.name(),
                if s.end + len <= u64::MAX {
                    (s.end + len) as u64
                } else {
                    u64::MAX
                },
            )
        };
    rotation::law_a_size_is_corrected_in_its_place(
        before.inventory@,
        s.header.name(),
        if s.end + len <= u64::MAX {
            (s.end + len) as u64
        } else {
            u64::MAX
        },
        i,
    );
}

/// Only the newest segment can be an orphan, and only if it is of an earlier run: all others stay as
/// they are listed, and where there is none to see to nothing is touched.
pub proof fn law_only_the_newest_segment_of_another_run_is_seen_to(
    place: Place,
    identity: SegmentIdentity,
    layout: Layout,
    i0: Seq<SegmentEntry>,
    i1: Seq<SegmentEntry>,
    c0: Counters,
    c1: Counters,
    t0: Seq<Op>,
    t1: Seq<Op>,
)
    requires
        ChannelState::saw_to_orphan(place, identity, layout, i0, i1, c0, c1, t0, t1),
    ensures
        i1.len() == i0.len(),
        i0.len() == 0 || i0.last().name.boot == identity.boot ==> i1 == i0 && c1 == c0 && t1 == t0,
        c1.dropped == c0.dropped && c1.records_written == c0.records_written,
        c1.segments_sealed == c0.segments_sealed ==> i1 == i0 && c1.truncated_tails
            == c0.truncated_tails,
{
    stats::law_a_counter_counts_by_one(c0.segments_sealed);
    assert forall|name: SegmentName, size: u64|
        (#[trigger] rotation::resized(i0, name, size)).len() == i0.len() by {
        rotation::lemma_resized_keeps_the_number(i0, name, size);
    }
}

} // verus!
