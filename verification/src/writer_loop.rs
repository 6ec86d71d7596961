//! The writer's loop: the single owner of channels, inventories and rotation.
//!
//! Records are laid out across channels in batches, deadlines are serviced, idle
//! channels give back what they hold, and budgets are kept over the whole fleet.
//! The ledger ties it together: every record the loop took is in a block being
//! assembled, on the medium, or counted as dropped.

use crate::batch;
use crate::budget::{chained, lemma_chain_link, lemma_chain_of_one, Step};
use crate::channel_state::{blamed, ChannelState};
use crate::error::Error;
use crate::fleet;
use crate::fleet::NsState;
use crate::format::Layout;
use crate::medium;
use crate::medium::{Io, Medium, Op};
use crate::rotation;
use crate::staged::Staged;
use crate::stats;
use crate::stats::Counters;
use vstd::prelude::*;

verus! {

broadcast use {
    crate::medium::group_trace,
    crate::medium::group_synced,
    crate::medium::group_answered,
    crate::fleet::lemma_honest_on,
};

/// A budget group: the shared limit on the total size of its channels' segments.
#[derive(Debug, Clone, Copy, PartialEq, Eq, Structural)]
pub struct GroupBudget {
    pub budget_bytes: u64,
    /// The medium: groups with one key share the pressure of a full medium.
    pub root_key: u8,
}

/// What happens to records left in the queue after the allotted passes.
#[derive(Debug, Clone, Copy, PartialEq, Eq, Structural)]
pub enum Leftovers {
    /// They stay: the ordinary course of the loop will write them.
    Keep,
    /// They are counted as lost: there is nobody left to write them.
    Discard,
}

/// The writer.
pub struct WriterLoop {
    /// The namespace slots. A slot of a released namespace is reused rather than
    /// removed: shifting the others would carry records in flight into the wrong
    /// namespace.
    pub namespaces: Vec<Option<NsState>>,
    pub counters: Counters,
    pub batch: Vec<Staged>,
    /// The total of losses at the last walk over the notices.
    pub drops_seen: u64,
    /// The channels that have something to service.
    pub active: Vec<(usize, usize)>,
    pub groups: Vec<GroupBudget>,
    /// The growth of occupancy at the last check of the budgets.
    pub occupancy_seen: u64,
    /// The media that refused for want of space since the last walk, one bit
    /// each.
    pub pressured_roots: u8,
    /// The ceiling on the bytes held for blocks; `None` means there is none.
    pub buffer_ceiling: Option<u64>,
    pub pulsed_blocks: u64,
    pub pulsed_shape: u64,
    /// A namespace came up in this turn.
    pub roster_changed: bool,
    pub layout: Layout,
    /// Losses counted by the callers, before a record reached the loop.
    pub outside: u64,
    /// How many records the loop took.
    pub taken: Ghost<int>,
}

impl WriterLoop {
    /// What every turn of the loop keeps.
    pub open spec fn wf(&self) -> bool {
        &&& self.layout.block_header > 0
        &&& fleet::all_ready(self.namespaces@)
        &&& fleet::all_listed(self.namespaces@, self.active@)
        &&& fleet::all_numbered(self.namespaces@)
        &&& fleet::all_placed(self.namespaces@)
    }

    /// The books are balanced against what was asked of the medium, and a segment
    /// that passes for synced is.
    pub open spec fn balanced(&self, trace: Seq<Op>) -> bool {
        &&& fleet::ledger(
            self.counters.dropped,
            self.outside,
            self.taken@,
            self.namespaces@,
            trace,
        )
        &&& fleet::all_honest(self.namespaces@, trace)
    }

    /// What the servicing of channels leaves alone.
    pub open spec fn same_setup(&self, other: &WriterLoop) -> bool {
        &&& self.groups@ == other.groups@
        &&& self.layout == other.layout
        &&& self.buffer_ceiling == other.buffer_ceiling
        &&& self.outside == other.outside
        &&& self.pulsed_blocks == other.pulsed_blocks
        &&& self.pulsed_shape == other.pulsed_shape
        &&& self.roster_changed == other.roster_changed
    }

    /// A loop without namespaces.
    pub fn new(groups: Vec<GroupBudget>, buffer_ceiling: Option<u64>, layout: Layout) -> (w:
        WriterLoop)
        requires
            layout.block_header > 0,
        ensures
            w.wf(),
            w.balanced(Seq::empty()),
            w.counters == Counters::zero(),
            w.groups@ == groups@,
            w.buffer_ceiling == buffer_ceiling,
            w.layout == layout,
            w.namespaces@.len() == 0,
            w.batch@.len() == 0,
            w.taken@ == 0,
    {
        proof {
            stats::lemma_plus_nothing(0);
            reveal(fleet::all_honest);
        }
        WriterLoop {
            namespaces: Vec::new(),
            counters: Counters::default(),
            batch: Vec::new(),
            drops_seen: 0,
            active: Vec::new(),
            groups,
            occupancy_seen: 0,
            pressured_roots: 0,
            buffer_ceiling,
            pulsed_blocks: 0,
            pulsed_shape: 0,
            roster_changed: false,
            layout,
            outside: 0,
            taken: Ghost(0),
        }
    }

    /// Whether there is a channel at an address.
    pub fn has(&self, ns: usize, ch: usize) -> (yes: bool)
        ensures
            yes == fleet::has_channel(self.namespaces@, ns as int, ch as int),
    {
        if ns >= self.namespaces.len() {
            return false;
        }
        match &self.namespaces[ns] {
            Some(n) => ch < n.channels.len(),
            None => false,
        }
    }

    /// What writing a record comes to: it went to its channel, whose place in the list of
    /// those serviced it takes up; one without a channel is counted as lost.
    pub open spec fn wrote(
        before: &WriterLoop,
        after: &WriterLoop,
        item: &Staged,
        t0: Seq<Op>,
        t1: Seq<Op>,
        r: Result<(), Error>,
    ) -> bool {
        let i = item.ns.0 as int;
        let j = item.channel.0 as int;
        &&& after.same_setup(before)
        &&& after.batch@ == before.batch@
        &&& after.drops_seen == before.drops_seen
        &&& after.occupancy_seen == before.occupancy_seen
        &&& after.pressured_roots == before.pressured_roots
        &&& after.taken@ == before.taken@ + 1
        &&& r matches Err(e) ==> blamed(t0, t1, e)
        &&& if fleet::has_channel(before.namespaces@, i, j) {
            let b = before.at(i, j);
            let a = after.at(i, j);
            let gone = ChannelState::lost_by_push(
                &b,
                &a,
                medium::landed(t0),
                medium::landed(t1),
            );
            &&& fleet::one_channel_changed(before.namespaces@, after.namespaces@, i, j)
            &&& ChannelState::wrote(
                &b,
                &a,
                item,
                before.counters,
                after.counters,
                t0,
                t1,
                r,
            )
            &&& ChannelState::faithful(&b, &a, t0, t1)
            &&& after.counters.dropped == stats::plus(before.counters.dropped, gone)
            &&& gone >= 0
            &&& gone > 0 ==> medium::troubled(t0, t1) || !b.housed() || b.oversized(t0, t1)
            &&& b.housed() ==> a.housed()
            &&& after.active@ == if a.is_in_active_list && !b.is_in_active_list {
                before.active@.push((i as usize, j as usize))
            } else {
                before.active@
            }
        } else {
            &&& r is Ok
            &&& after.namespaces@ == before.namespaces@
            &&& after.active@ == before.active@
            &&& after.counters == (Counters {
                dropped: stats::plus(before.counters.dropped, 1),
                ..before.counters
            })
            &&& t1 == t0
        }
    }

    /// Writes a record to its channel. An address that does not exist is the
    /// caller's mistake, and it is visible as a loss.
    #[verifier::rlimit(40)]
    pub fn push<M: Medium>(&mut self, item: &Staged, io: &mut Io<M>) -> (r: Result<(), Error>)
        requires
            old(self).wf(),
            old(self).balanced(old(io)@),
        ensures
            final(self).wf(),
            final(self).balanced(final(io)@),
            final(self).taken@ == old(self).taken@ + 1,
            final(self).same_setup(old(self)),
            final(self).batch@ == old(self).batch@,
            final(self).drops_seen == old(self).drops_seen,
            final(self).occupancy_seen == old(self).occupancy_seen,
            final(self).pressured_roots == old(self).pressured_roots,
            fleet::same_fleet(old(self).namespaces@, final(self).namespaces@),
            final(self).counters.same_upkeep(old(self).counters),
            medium::grown(old(io)@, final(io)@),
            medium::refusals(final(io)@) >= medium::refusals(old(io)@),
            r is Err ==> medium::troubled(old(io)@, final(io)@),
            r matches Err(e) ==> blamed(old(io)@, final(io)@, e),
            fleet::has_channel(old(self).namespaces@, item.ns.0 as int, item.channel.0 as int)
                ==> {
                let b = old(self).at(item.ns.0 as int, item.channel.0 as int);
                let a = final(self).at(item.ns.0 as int, item.channel.0 as int);
                let gone = ChannelState::lost_by_push(
                    &b,
                    &a,
                    medium::landed(old(io)@),
                    medium::landed(final(io)@),
                );
                &&& fleet::one_channel_changed(
                    old(self).namespaces@,
                    final(self).namespaces@,
                    item.ns.0 as int,
                    item.channel.0 as int,
                )
                &&& medium::accepted(final(io)@) == medium::accepted(old(io)@).push(b.accepts(item))
                    || (r is Err && medium::accepted(final(io)@) == medium::accepted(old(io)@))
                &&& gone >= 0
                &&& final(self).counters.dropped == stats::plus(old(self).counters.dropped, gone)
                &&& a.lost == stats::plus(b.lost, gone)
                &&& gone > 0 ==> {
                    ||| medium::troubled(old(io)@, final(io)@)
                    ||| !b.housed()
                    ||| b.oversized(old(io)@, final(io)@)
                }
                &&& b.housed() ==> a.housed()
                &&& a.last_time.0 >= b.time_for(item.at).0
            },
            Self::wrote(old(self), final(self), item, old(io)@, final(io)@, r),
            !fleet::has_channel(old(self).namespaces@, item.ns.0 as int, item.channel.0 as int) ==> {
                &&& r is Ok
                &&& final(self).namespaces@ == old(self).namespaces@
                &&& final(self).counters == (Counters {
                    dropped: stats::plus(old(self).counters.dropped, 1),
                    ..old(self).counters
                })
                &&& final(io)@ == old(io)@
            },
    {
        let i: usize = item.ns.0 as usize;
        let j: usize = item.channel.0 as usize;
        let ghost before = self.namespaces@;
        let ghost active = self.active@;
        let ghost trace = io@;
        let ghost d0 = self.counters.dropped;
        let ghost taken = self.taken@;
        if !self.has(i, j) {
            Counters::bump(&mut self.counters.dropped);
            self.taken = Ghost(self.taken@ + 1);
            proof {
                fleet::lemma_ledger_step(
                    d0,
                    self.counters.dropped,
                    self.outside,
                    taken,
                    1,
                    before,
                    before,
                    trace,
                    trace,
                    1,
                );
                fleet::lemma_same_fleet_refl(before);
            }
            return Ok(());
        }
        let mut newly: bool = false;
        let mut result: Result<(), Error> = Ok(());
        match &mut self.namespaces[i] {
            Some(ns) => {
                assert(fleet::channel_at(before, i as int, j as int).ready());
                let was: bool = ns.channels[j].is_in_active_list;
                let ch = &mut ns.channels[j];
                result = ch.push(item, &mut self.counters, io);
                newly = !was && ns.channels[j].is_in_active_list;
            },
            None => {},
        }
        self.taken = Ghost(self.taken@ + 1);
        if newly {
            self.active.push((i, j));
        }
        proof {
            let after = self.namespaces@;
            assert(fleet::one_channel_changed(before, after, i as int, j as int));
            fleet::lemma_one_channel(before, after, i as int, j as int);
            fleet::lemma_ledger_step(
                d0,
                self.counters.dropped,
                self.outside,
                taken,
                1,
                before,
                after,
                trace,
                io@,
                ChannelState::lost_by_push(
                    &fleet::channel_at(before, i as int, j as int),
                    &fleet::channel_at(after, i as int, j as int),
                    medium::landed(trace),
                    medium::landed(io@),
                ),
            );
            fleet::lemma_honest_step(before, after, i as int, j as int, trace, io@);
            assert forall|a: int, b: int|
                #![trigger fleet::channel_at(after, a, b)]
                fleet::has_channel(after, a, b) && fleet::channel_at(
                    after,
                    a,
                    b,
                ).is_in_active_list implies self.active@.contains((a as usize, b as usize)) by {
                assert(fleet::has_channel(before, a, b));
                if a != i || b != j {
                    assert(fleet::channel_at(after, a, b) == fleet::channel_at(before, a, b));
                    assert(active.contains((a as usize, b as usize)));
                    let k = active.index_of((a as usize, b as usize));
                    assert(self.active@[k] == (a as usize, b as usize));
                } else if newly {
                    assert(self.active@[self.active@.len() - 1] == (i, j));
                } else {
                    assert(fleet::channel_at(before, a, b).is_in_active_list);
                    assert(active.contains((a as usize, b as usize)));
                }
            }
        }
        result
    }
}

impl WriterLoop {
    /// What a step on a channel leaves alone besides the setup.
    pub open spec fn same_round(&self, other: &WriterLoop) -> bool {
        &&& self.active@ == other.active@
        &&& self.batch@ == other.batch@
        &&& self.drops_seen == other.drops_seen
        &&& self.occupancy_seen == other.occupancy_seen
        &&& self.pressured_roots == other.pressured_roots
        &&& self.taken@ == other.taken@
    }

    /// Only the channel at an address and the counters changed.
    pub open spec fn stepped(before: &WriterLoop, after: &WriterLoop, i: int, j: int) -> bool {
        &&& fleet::one_channel_changed(before.namespaces@, after.namespaces@, i, j)
        &&& after.same_setup(before)
        &&& after.same_round(before)
    }

    /// The channel at an address.
    pub open spec fn at(&self, i: int, j: int) -> ChannelState {
        fleet::channel_at(self.namespaces@, i, j)
    }

    /// A step on a channel that keeps what the channel owes keeps what the loop
    /// owes.
    pub(crate) proof fn lemma_step(
        before: &WriterLoop,
        after: &WriterLoop,
        i: int,
        j: int,
        t0: Seq<Op>,
        t1: Seq<Op>,
        gone: int,
    )
        requires
            before.wf(),
            before.balanced(t0),
            Self::stepped(before, after, i, j),
            after.at(i, j).ready(),
            after.at(i, j).same_channel(&before.at(i, j)),
            ChannelState::faithful(&before.at(i, j), &after.at(i, j), t0, t1),
            after.at(i, j).is_in_active_list ==> before.at(i, j).is_in_active_list,
            after.counters.dropped == stats::plus(before.counters.dropped, gone),
            gone == before.at(i, j).block.count + medium::landed(t0) - after.at(i, j).block.count
                - medium::landed(t1),
        ensures
            after.wf(),
            after.balanced(t1),
            fleet::same_fleet(before.namespaces@, after.namespaces@),
    {
        let n0 = before.namespaces@;
        let n1 = after.namespaces@;
        fleet::lemma_one_channel(n0, n1, i, j);
        fleet::lemma_ledger_step(
            before.counters.dropped,
            after.counters.dropped,
            before.outside,
            before.taken@,
            0,
            n0,
            n1,
            t0,
            t1,
            gone,
        );
        fleet::lemma_honest_step(n0, n1, i, j, t0, t1);
        assert forall|a: int, b: int|
            #![trigger fleet::channel_at(n1, a, b)]
            fleet::has_channel(n1, a, b) && fleet::channel_at(
                n1,
                a,
                b,
            ).is_in_active_list implies after.active@.contains((a as usize, b as usize)) by {
            assert(fleet::has_channel(n0, a, b));
            if a != i || b != j {
                assert(fleet::channel_at(n1, a, b) == fleet::channel_at(n0, a, b));
            }
            assert(fleet::channel_at(n0, a, b).is_in_active_list);
        }
    }

    /// The block of a channel was flushed.
    pub open spec fn flushed_at(
        before: &WriterLoop,
        after: &WriterLoop,
        i: int,
        j: int,
        t0: Seq<Op>,
        t1: Seq<Op>,
        r: Result<(), Error>,
    ) -> bool {
        &&& Self::stepped(before, after, i, j)
        &&& ChannelState::flushed(
            &before.at(i, j),
            &after.at(i, j),
            before.counters,
            after.counters,
            t0,
            t1,
            r,
        )
        &&& ChannelState::faithful(&before.at(i, j), &after.at(i, j), t0, t1)
    }

    /// A channel was synced.
    pub open spec fn synced_at(
        before: &WriterLoop,
        after: &WriterLoop,
        i: int,
        j: int,
        t0: Seq<Op>,
        t1: Seq<Op>,
        r: Result<(), Error>,
    ) -> bool {
        &&& Self::stepped(before, after, i, j)
        &&& ChannelState::synced(
            &before.at(i, j),
            &after.at(i, j),
            before.counters,
            after.counters,
            t0,
            t1,
            r,
        )
    }

    /// The block of a channel was flushed and the channel synced; where the flush failed
    /// that is all.
    pub open spec fn committed_at(
        before: &WriterLoop,
        after: &WriterLoop,
        i: int,
        j: int,
        t0: Seq<Op>,
        t1: Seq<Op>,
        r: Result<(), Error>,
    ) -> bool {
        ||| r is Err && Self::flushed_at(before, after, i, j, t0, t1, r)
        ||| exists|mid: WriterLoop, t: Seq<Op>|
            {
                &&& #[trigger] Self::flushed_at(before, &mid, i, j, t0, t, Ok(()))
                &&& #[trigger] Self::synced_at(&mid, after, i, j, t, t1, r)
            }
    }

    /// The block of a channel was flushed and its segment sealed.
    pub open spec fn sealed_at(
        before: &WriterLoop,
        after: &WriterLoop,
        i: int,
        j: int,
        t0: Seq<Op>,
        t1: Seq<Op>,
        r: Result<(), Error>,
    ) -> bool {
        &&& Self::stepped(before, after, i, j)
        &&& ChannelState::finished_off(
            &before.at(i, j),
            &after.at(i, j),
            before.counters,
            after.counters,
            t0,
            t1,
            r,
        )
        &&& ChannelState::settled(
            &before.at(i, j),
            &after.at(i, j),
            before.counters,
            after.counters,
            t0,
            t1,
        )
        &&& ChannelState::faithful(&before.at(i, j), &after.at(i, j), t0, t1)
    }

    /// The segment of a channel was released, to be continued.
    pub open spec fn parked_at(
        before: &WriterLoop,
        after: &WriterLoop,
        i: int,
        j: int,
        t0: Seq<Op>,
        t1: Seq<Op>,
        r: Result<(), Error>,
    ) -> bool {
        &&& Self::stepped(before, after, i, j)
        &&& ChannelState::parked(
            &before.at(i, j),
            &after.at(i, j),
            before.counters,
            after.counters,
            t0,
            t1,
            r,
        )
        &&& ChannelState::settled(
            &before.at(i, j),
            &after.at(i, j),
            before.counters,
            after.counters,
            t0,
            t1,
        )
    }

    /// The released segment of a channel, if there was one, was brought back into work.
    pub open spec fn unparked_at(
        before: &WriterLoop,
        after: &WriterLoop,
        i: int,
        j: int,
        t0: Seq<Op>,
        t1: Seq<Op>,
    ) -> bool {
        &&& Self::stepped(before, after, i, j)
        &&& ChannelState::unparked(
            &before.at(i, j),
            &after.at(i, j),
            before.counters,
            after.counters,
            t0,
            t1,
        )
        &&& ChannelState::faithful(&before.at(i, j), &after.at(i, j), t0, t1)
        &&& medium::quiet(t0, t1)
    }

    /// An error of the medium at a channel is counted, and a medium that ran out of space
    /// is under pressure.
    pub open spec fn noted(
        before: &WriterLoop,
        after: &WriterLoop,
        i: int,
        j: int,
        r: Result<(), Error>,
    ) -> bool {
        match r {
            Ok(_) => *after == *before,
            Err(e) => {
                &&& *after == (WriterLoop {
                    counters: Counters {
                        io_errors: stats::plus(before.counters.io_errors, 1),
                        ..before.counters
                    },
                    pressured_roots: after.pressured_roots,
                    ..*before
                })
                &&& after.pressured_roots == if e.is_out_of_space() && fleet::has_channel(
                    before.namespaces@,
                    i,
                    j,
                ) {
                    before.pressured_roots | bit_of(before.at(i, j).root_key)
                } else {
                    before.pressured_roots
                }
            },
        }
    }

    /// An error of the medium is counted.
    pub open spec fn counted(
        before: &WriterLoop,
        after: &WriterLoop,
        r: Result<(), Error>,
    ) -> bool {
        *after == (WriterLoop {
            counters: Counters {
                io_errors: if r is Err {
                    stats::plus(before.counters.io_errors, 1)
                } else {
                    before.counters.io_errors
                },
                ..before.counters
            },
            ..*before
        })
    }

    /// Flushes the block of a channel.
    pub(crate) fn flush_at<M: Medium>(&mut self, i: usize, j: usize, io: &mut Io<M>) -> (r: Result<(), Error>)
        requires
            old(self).wf(),
            old(self).balanced(old(io)@),
            fleet::has_channel(old(self).namespaces@, i as int, j as int),
        ensures
            final(self).wf(),
            final(self).balanced(final(io)@),
            medium::no_input(old(io)@, final(io)@),
            r is Err ==> medium::troubled(old(io)@, final(io)@),
            r matches Err(e) ==> blamed(old(io)@, final(io)@, e),
            final(self).counters.same_upkeep(old(self).counters),
            Self::stepped(old(self), final(self), i as int, j as int),
            fleet::same_fleet(old(self).namespaces@, final(self).namespaces@),
            Self::flushed_at(
                old(self),
                final(self),
                i as int,
                j as int,
                old(io)@,
                final(io)@,
                r,
            ),
    {
        let ghost before = *self;
        let ghost t0 = io@;
        let mut r: Result<(), Error> = Ok(());
        assert(fleet::channel_at(self.namespaces@, i as int, j as int).ready());
        match &mut self.namespaces[i] {
            Some(ns) => {
                let ch = &mut ns.channels[j];
                r = ch.flush_block(&mut self.counters, io);
            },
            None => {},
        }
        proof {
            stats::lemma_plus_nothing(before.counters.dropped);
            Self::lemma_step(
                &before,
                self,
                i as int,
                j as int,
                t0,
                io@,
                ChannelState::gone(
                    &before.at(i as int, j as int),
                    medium::landed(t0),
                    medium::landed(io@),
                ),
            );
        }
        r
    }

    /// Syncs a channel.
    pub(crate) fn sync_at<M: Medium>(&mut self, i: usize, j: usize, io: &mut Io<M>) -> (r: Result<(), Error>)
        requires
            old(self).wf(),
            old(self).balanced(old(io)@),
            fleet::has_channel(old(self).namespaces@, i as int, j as int),
        ensures
            final(self).wf(),
            final(self).balanced(final(io)@),
            medium::no_input(old(io)@, final(io)@),
            r is Err ==> medium::troubled(old(io)@, final(io)@),
            r matches Err(e) ==> blamed(old(io)@, final(io)@, e),
            final(self).counters.same_upkeep(old(self).counters),
            Self::stepped(old(self), final(self), i as int, j as int),
            fleet::same_fleet(old(self).namespaces@, final(self).namespaces@),
            ({
                let b = old(self).at(i as int, j as int);
                let a = final(self).at(i as int, j as int);
                &&& r is Ok ==> a.is_synced(final(io)@)
                &&& b.block.count == 0 ==> a.block.count == 0
            }),
            Self::synced_at(
                old(self),
                final(self),
                i as int,
                j as int,
                old(io)@,
                final(io)@,
                r,
            ),
    {
        let ghost before = *self;
        let ghost t0 = io@;
        let mut r: Result<(), Error> = Ok(());
        assert(fleet::channel_at(self.namespaces@, i as int, j as int).ready());
        match &mut self.namespaces[i] {
            Some(ns) => {
                let ch = &mut ns.channels[j];
                r = ch.sync_channel(&mut self.counters, io);
            },
            None => {},
        }
        proof {
            stats::lemma_plus_nothing(before.counters.dropped);
            Self::lemma_step(&before, self, i as int, j as int, t0, io@, 0);
            fleet::lemma_honest_at(self.namespaces@, io@, i as int, j as int);
        }
        r
    }

    /// Seals the segment of a channel.
    pub(crate) fn seal_at<M: Medium>(&mut self, i: usize, j: usize, io: &mut Io<M>) -> (r: Result<(), Error>)
        requires
            old(self).wf(),
            old(self).balanced(old(io)@),
            fleet::has_channel(old(self).namespaces@, i as int, j as int),
        ensures
            final(self).wf(),
            final(self).balanced(final(io)@),
            medium::no_input(old(io)@, final(io)@),
            r is Err ==> medium::troubled(old(io)@, final(io)@),
            r matches Err(e) ==> blamed(old(io)@, final(io)@, e),
            final(self).counters.same_upkeep(old(self).counters),
            Self::stepped(old(self), final(self), i as int, j as int),
            fleet::same_fleet(old(self).namespaces@, final(self).namespaces@),
            final(self).at(i as int, j as int).block.count == 0,
            r is Ok ==> final(self).at(i as int, j as int).segment is None,
            Self::sealed_at(
                old(self),
                final(self),
                i as int,
                j as int,
                old(io)@,
                final(io)@,
                r,
            ),
    {
        let ghost before = *self;
        let ghost t0 = io@;
        let mut r: Result<(), Error> = Ok(());
        assert(fleet::channel_at(self.namespaces@, i as int, j as int).ready());
        match &mut self.namespaces[i] {
            Some(ns) => {
                let ch = &mut ns.channels[j];
                r = ch.seal_segment(&mut self.counters, io);
            },
            None => {},
        }
        proof {
            Self::lemma_step(
                &before,
                self,
                i as int,
                j as int,
                t0,
                io@,
                ChannelState::gone(
                    &before.at(i as int, j as int),
                    medium::landed(t0),
                    medium::landed(io@),
                ),
            );
        }
        r
    }

    /// Releases the segment of an idle channel, keeping it to be continued.
    pub(crate) fn park_at<M: Medium>(&mut self, i: usize, j: usize, io: &mut Io<M>) -> (r: Result<(), Error>)
        requires
            old(self).wf(),
            old(self).balanced(old(io)@),
            fleet::has_channel(old(self).namespaces@, i as int, j as int),
        ensures
            final(self).wf(),
            final(self).balanced(final(io)@),
            medium::no_input(old(io)@, final(io)@),
            r is Err ==> medium::troubled(old(io)@, final(io)@),
            r matches Err(e) ==> blamed(old(io)@, final(io)@, e),
            final(self).counters.same_upkeep(old(self).counters),
            Self::stepped(old(self), final(self), i as int, j as int),
            fleet::same_fleet(old(self).namespaces@, final(self).namespaces@),
            ({
                let b = old(self).at(i as int, j as int);
                let a = final(self).at(i as int, j as int);
                &&& a.block.count == 0 && a.block_opened is None
                &&& a.same_service(&b)
                &&& r is Ok ==> a.segment is None
                &&& b.block.count == 0 ==> a.dirty_since_sync == b.dirty_since_sync
            }),
            Self::parked_at(
                old(self),
                final(self),
                i as int,
                j as int,
                old(io)@,
                final(io)@,
                r,
            ),
    {
        let ghost before = *self;
        let ghost t0 = io@;
        let mut r: Result<(), Error> = Ok(());
        assert(fleet::channel_at(self.namespaces@, i as int, j as int).ready());
        match &mut self.namespaces[i] {
            Some(ns) => {
                let ch = &mut ns.channels[j];
                r = ch.park_segment(&mut self.counters, io);
            },
            None => {},
        }
        proof {
            Self::lemma_step(
                &before,
                self,
                i as int,
                j as int,
                t0,
                io@,
                ChannelState::gone(
                    &before.at(i as int, j as int),
                    medium::landed(t0),
                    medium::landed(io@),
                ),
            );
        }
        r
    }

    /// Brings the released segment of a channel back into work.
    pub(crate) fn unpark_at<M: Medium>(&mut self, i: usize, j: usize, io: &mut Io<M>) -> (ok: bool)
        requires
            old(self).wf(),
            old(self).balanced(old(io)@),
            fleet::has_channel(old(self).namespaces@, i as int, j as int),
        ensures
            final(self).wf(),
            final(self).balanced(final(io)@),
            medium::no_input(old(io)@, final(io)@),
            final(self).counters.same_upkeep(old(self).counters),
            Self::stepped(old(self), final(self), i as int, j as int),
            fleet::same_fleet(old(self).namespaces@, final(self).namespaces@),
            Self::unparked_at(
                old(self),
                final(self),
                i as int,
                j as int,
                old(io)@,
                final(io)@,
            ),
    {
        let ghost before = *self;
        let ghost t0 = io@;
        let mut ok: bool = false;
        assert(fleet::channel_at(self.namespaces@, i as int, j as int).ready());
        match &mut self.namespaces[i] {
            Some(ns) => {
                let ch = &mut ns.channels[j];
                ok = ch.unpark(&mut self.counters, io);
            },
            None => {},
        }
        proof {
            stats::lemma_plus_nothing(before.counters.dropped);
            Self::lemma_step(&before, self, i as int, j as int, t0, io@, 0);
        }
        ok
    }
}

/// The bit of a medium in the mask of those under pressure.
pub open spec fn bit_of(root: u8) -> u8 {
    if root == 0 {
        1
    } else if root == 1 {
        2
    } else if root == 2 {
        4
    } else if root == 3 {
        8
    } else if root == 4 {
        16
    } else if root == 5 {
        32
    } else if root == 6 {
        64
    } else {
        128
    }
}

/// The bit of a medium in the mask of those under pressure. Keys past the last
/// bit share it.
pub fn root_bit(root: u8) -> (bit: u8)
    ensures
        bit == bit_of(root),
{
    match root {
        0 => 1,
        1 => 2,
        2 => 4,
        3 => 8,
        4 => 16,
        5 => 32,
        6 => 64,
        _ => 128,
    }
}

/// The records of a batch as they went into blocks: each at its channel, in this
/// order, and never earlier than it happened.
pub open spec fn laid_out(
    namespaces: Seq<Option<NsState>>,
    items: Seq<Staged>,
    out: Seq<medium::Accepted>,
) -> bool {
    &&& out.len() == items.len()
    &&& forall|k: int|
        0 <= k < items.len() ==> {
            let item = #[trigger] items[k];
            let a = out[k];
            &&& a.record == item.record@
            &&& a.place == fleet::channel_at(
                namespaces,
                item.ns.0 as int,
                item.channel.0 as int,
            ).place
            &&& a.at.0 >= item.at.0
        }
}

/// Every record of a batch has a channel.
pub open spec fn addressed(namespaces: Seq<Option<NsState>>, items: Seq<Staged>) -> bool {
    forall|k: int|
        0 <= k < items.len() ==> fleet::has_channel(
            namespaces,
            (#[trigger] items[k]).ns.0 as int,
            items[k].channel.0 as int,
        )
}

impl WriterLoop {
    /// Notes a refusal for want of space at a channel.
    pub fn note_pressure(&mut self, i: usize, j: usize)
        ensures
            *final(self) == (WriterLoop {
                pressured_roots: if fleet::has_channel(
                    old(self).namespaces@,
                    i as int,
                    j as int,
                ) {
                    old(self).pressured_roots | bit_of(old(self).at(i as int, j as int).root_key)
                } else {
                    old(self).pressured_roots
                },
                ..*old(self)
            }),
    {
        if self.has(i, j) {
            let root: u8 = match &self.namespaces[i] {
                Some(ns) => ns.channels[j].root_key,
                None => 0,
            };
            self.pressured_roots = self.pressured_roots | root_bit(root);
        }
    }

    /// Counts an error of the medium, and notes the pressure if space ran out.
    pub(crate) fn note_error(&mut self, i: usize, j: usize, e: &Error)
        ensures
            Self::noted(old(self), final(self), i as int, j as int, Err(*e)),
    {
        Counters::bump(&mut self.counters.io_errors);
        if e.is_no_space() {
            self.note_pressure(i, j);
        }
    }

    /// Channels that sync at once have nothing unsynced.
    pub open spec fn committed(&self, trace: Seq<Op>) -> bool {
        forall|i: int, j: int|
            #![trigger self.at(i, j)]
            fleet::has_channel(self.namespaces@, i, j) && self.at(
                i,
                j,
            ).config.sync_interval.nanos == 0 ==> self.at(i, j).is_synced(trace)
    }

    /// A record was written, and an error of the medium noted.
    pub open spec fn wrote_and_noted(
        before: &WriterLoop,
        after: &WriterLoop,
        item: &Staged,
        t0: Seq<Op>,
        t1: Seq<Op>,
    ) -> bool {
        exists|mid: WriterLoop, r: Result<(), Error>|
            {
                &&& #[trigger] Self::wrote(before, &mid, item, t0, t1, r)
                &&& Self::noted(&mid, after, item.ns.0 as int, item.channel.0 as int, r)
            }
    }

    /// Records were written one after another.
    #[verifier::opaque]
    pub open spec fn wrote_all(
        items: Seq<Staged>,
        states: Seq<WriterLoop>,
        traces: Seq<Seq<Op>>,
    ) -> bool {
        &&& states.len() == items.len() + 1
        &&& traces.len() == items.len() + 1
        &&& forall|k: int|
            #![trigger states[k]]
            0 <= k < items.len() ==> Self::wrote_and_noted(
                &states[k],
                &states[k + 1],
                &items[k],
                traces[k],
                traces[k + 1],
            )
    }

    proof fn lemma_wrote_on(
        items: Seq<Staged>,
        states: Seq<WriterLoop>,
        traces: Seq<Seq<Op>>,
        item: Staged,
        next: WriterLoop,
        trace: Seq<Op>,
    )
        requires
            Self::wrote_all(items, states, traces),
            Self::wrote_and_noted(&states.last(), &next, &item, traces.last(), trace),
        ensures
            Self::wrote_all(items.push(item), states.push(next), traces.push(trace)),
            states.push(next)[0] == states[0],
            traces.push(trace)[0] == traces[0],
    {
        reveal(WriterLoop::wrote_all);
        let l = items.push(item);
        let s = states.push(next);
        let t = traces.push(trace);
        assert forall|k: int| #![trigger s[k]] 0 <= k < l.len() implies Self::wrote_and_noted(
            &s[k],
            &s[k + 1],
            &l[k],
            t[k],
            t[k + 1],
        ) by {
            assert(s[k] == states[k] && t[k] == traces[k]);
            if k < items.len() {
                assert(l[k] == items[k]);
                assert(s[k + 1] == states[k + 1] && t[k + 1] == traces[k + 1]);
            }
        }
    }

    /// A channel syncs at once and has something unsynced.
    pub open spec fn is_due_at_once(&self, i: int, j: int) -> bool {
        &&& fleet::has_channel(self.namespaces@, i, j)
        &&& self.at(i, j).config.sync_interval.nanos == 0
        &&& self.at(i, j).dirty_since_sync
    }

    /// A channel that syncs at once is committed, and an error of the medium noted.
    pub open spec fn committing() -> Step {
        |before: WriterLoop, after: WriterLoop, t0: Seq<Op>, t1: Seq<Op>|
            exists|i: int, j: int, mid: WriterLoop, r: Result<(), Error>|
                {
                    &&& before.is_due_at_once(i, j)
                    &&& #[trigger] Self::committed_at(&before, &mid, i, j, t0, t1, r)
                    &&& Self::noted(&mid, &after, i, j, r)
                }
    }

    /// A batch was laid out: its records were written in the order of channels and times,
    /// then each channel that syncs at once got its attempt.
    pub open spec fn applied(
        before: &WriterLoop,
        after: &WriterLoop,
        items: Seq<Staged>,
        t0: Seq<Op>,
        t1: Seq<Op>,
    ) -> bool {
        exists|s0: Seq<WriterLoop>, x0: Seq<Seq<Op>>, s1: Seq<WriterLoop>, x1: Seq<Seq<Op>>|
            {
                &&& #[trigger] Self::wrote_all(batch::stable_sorted(items), s0, x0)
                &&& #[trigger] chained(Self::committing(), s1, x1)
                &&& s0[0] == (WriterLoop { batch: s0[0].batch, ..*before })
                &&& x0[0] == t0
                &&& s1[0] == (WriterLoop { batch: s1[0].batch, ..s0.last() })
                &&& x1[0] == x0.last()
                &&& s1.last() == *after
                &&& x1.last() == t1
                &&& forall|i: int, j: int|
                    #![trigger after.at(i, j)]
                    s1[0].is_due_at_once(i, j) ==> after.at(i, j).block.count == 0
            }
    }

    /// Lays the batch out across the channels, then syncs the channels that sync
    /// at once: once per batch, not once per record. The answer says whether all
    /// of those are synced.
    #[verifier::rlimit(40)]
    pub fn apply_batch<M: Medium>(&mut self, io: &mut Io<M>) -> (synced: bool)
        requires
            old(self).wf(),
            old(self).balanced(old(io)@),
        ensures
            final(self).wf(),
            final(self).balanced(final(io)@),
            final(self).same_setup(old(self)),
            final(self).drops_seen == old(self).drops_seen,
            final(self).occupancy_seen == old(self).occupancy_seen,
            fleet::same_fleet(old(self).namespaces@, final(self).namespaces@),
            final(self).batch@.len() == 0,
            final(self).taken@ == old(self).taken@ + old(self).batch@.len(),
            medium::refusals(final(io)@) >= medium::refusals(old(io)@),
            medium::grown(old(io)@, final(io)@),
            synced ==> final(self).committed(final(io)@),
            !synced ==> medium::troubled(old(io)@, final(io)@),
            Self::applied(old(self), final(self), old(self).batch@, old(io)@, final(io)@),
            // Where the medium refuses nothing, every record goes into its
            // channel's block, in the order of channels and times.
            !medium::troubled(old(io)@, final(io)@) && addressed(
                old(self).namespaces@,
                old(self).batch@,
            ) ==> exists|out: Seq<medium::Accepted>|
                {
                    &&& #[trigger] laid_out(
                        old(self).namespaces@,
                        batch::stable_sorted(old(self).batch@),
                        out,
                    )
                    &&& medium::accepted(final(io)@) == medium::accepted(old(io)@) + out
                },
    {
        let ghost before = *self;
        let ghost t0 = io@;
        proof {
            batch::law_a_batch_is_only_reordered(self.batch@);
            fleet::lemma_same_fleet_refl(self.namespaces@);
        }
        if !batch::is_sorted(&self.batch) {
            batch::sort_batch(&mut self.batch);
        }
        let mut items: Vec<Staged> = Vec::new();
        std::mem::swap(&mut self.batch, &mut items);
        let ghost sorted = batch::stable_sorted(before.batch@);
        let ghost calm = addressed(before.namespaces@, sorted);
        let ghost mut out: Seq<medium::Accepted> = Seq::empty();
        assert(medium::accepted(t0) + out =~= medium::accepted(t0));
        let ghost mut s0: Seq<WriterLoop> = seq![*self];
        let ghost mut x0: Seq<Seq<Op>> = seq![io@];
        let ghost start = *self;
        proof {
            assert(sorted.take(0) =~= Seq::<Staged>::empty());
            reveal(WriterLoop::wrote_all);
        }
        let mut k: usize = 0;
        while k < items.len()
            invariant
                k <= items@.len(),
                Self::wrote_all(sorted.take(k as int), s0, x0),
                s0[0] == start,
                s0.last() == *self,
                x0[0] == t0,
                x0.last() == io@,
                items@ == sorted,
                self.wf(),
                self.balanced(io@),
                self.same_setup(&before),
                self.drops_seen == before.drops_seen,
                self.occupancy_seen == before.occupancy_seen,
                self.batch@.len() == 0,
                fleet::same_fleet(before.namespaces@, self.namespaces@),
                self.taken@ == before.taken@ + k,
                medium::refusals(io@) >= medium::refusals(t0),
                medium::grown(t0, io@),
                calm == addressed(before.namespaces@, sorted),
                calm && !medium::troubled(t0, io@) ==> laid_out(
                    before.namespaces@,
                    sorted.take(k as int),
                    out,
                ) && medium::accepted(io@) == medium::accepted(t0) + out,
            decreases items@.len() - k,
        {
            let ghost mid = *self;
            let ghost t1 = io@;
            let i: usize = items[k].ns.0 as usize;
            let j: usize = items[k].channel.0 as usize;
            let r = self.push(&items[k], io);
            proof {
                fleet::lemma_same_fleet_trans(
                    before.namespaces@,
                    mid.namespaces@,
                    self.namespaces@,
                );
                let item = sorted[k as int];
                if calm && !medium::troubled(t0, io@) {
                    assert(fleet::has_channel(before.namespaces@, i as int, j as int));
                    assert(mid.namespaces@[i as int] == mid.namespaces@[i as int]);
                    assert(fleet::has_channel(mid.namespaces@, i as int, j as int));
                    let b = fleet::channel_at(mid.namespaces@, i as int, j as int);
                    assert(b.same_channel(
                        &fleet::channel_at(before.namespaces@, i as int, j as int),
                    ));
                    let prev = out;
                    out = out.push(b.accepts(&item));
                    assert(medium::accepted(t0) + out =~= (medium::accepted(t0) + prev).push(
                        b.accepts(&item),
                    ));
                    assert(sorted.take(k + 1) =~= sorted.take(k as int).push(item));
                    assert forall|m: int| 0 <= m < k + 1 implies {
                        let it = #[trigger] sorted.take(k + 1)[m];
                        let a = out[m];
                        &&& a.record == it.record@
                        &&& a.place == fleet::channel_at(
                            before.namespaces@,
                            it.ns.0 as int,
                            it.channel.0 as int,
                        ).place
                        &&& a.at.0 >= it.at.0
                    } by {
                        if m < k {
                            assert(sorted.take(k as int)[m] == sorted.take(k + 1)[m]);
                            assert(out[m] == prev[m]);
                        }
                    }
                }
            }
            let ghost wrote = *self;
            let ghost outcome = r;
            match r {
                Ok(()) => {},
                Err(e) => {
                    self.note_error(i, j, &e);
                },
            }
            proof {
                let item = sorted[k as int];
                assert(Self::wrote(&mid, &wrote, &item, t1, io@, outcome));
                assert(Self::noted(&wrote, self, i as int, j as int, outcome));
                assert(Self::wrote_and_noted(&mid, self, &item, t1, io@));
                Self::lemma_wrote_on(sorted.take(k as int), s0, x0, item, *self, io@);
                assert(sorted.take(k + 1) =~= sorted.take(k as int).push(item));
                s0 = s0.push(*self);
                x0 = x0.push(io@);
            }
            k = k + 1;
        }
        proof {
            assert(sorted.take(k as int) =~= sorted);
            let original = before.batch@;
            if addressed(before.namespaces@, original) {
                assert forall|m: int| 0 <= m < sorted.len() implies fleet::has_channel(
                    before.namespaces@,
                    (#[trigger] sorted[m]).ns.0 as int,
                    sorted[m].channel.0 as int,
                ) by {
                    sorted.to_multiset_ensures();
                    original.to_multiset_ensures();
                    assert(sorted.contains(sorted[m]));
                    assert(sorted.to_multiset().count(sorted[m]) > 0);
                    assert(original.to_multiset().count(sorted[m]) > 0);
                    assert(original.contains(sorted[m]));
                }
            }
        }
        items.clear();
        std::mem::swap(&mut self.batch, &mut items);
        let ghost written = *self;
        let ghost t2 = io@;
        let ghost mut s1: Seq<WriterLoop> = seq![*self];
        let ghost mut x1: Seq<Seq<Op>> = seq![io@];
        proof {
            lemma_chain_of_one(Self::committing(), *self, io@);
            fleet::lemma_same_fleet_refl(self.namespaces@);
        }
        let mut synced: bool = true;
        let mut n: usize = 0;
        while n < self.active.len()
            invariant
                n <= self.active@.len(),
                chained(Self::committing(), s1, x1),
                s1[0] == written,
                s1.last() == *self,
                x1[0] == t2,
                x1.last() == io@,
                s1.len() > 0,
                x1.len() > 0,
                fleet::same_fleet(written.namespaces@, self.namespaces@),
                forall|a: int, b: int|
                    #![trigger self.at(a, b)]
                    fleet::has_channel(written.namespaces@, a, b) ==> self.at(a, b) == written.at(
                        a,
                        b,
                    ) || self.at(a, b).block.count == 0,
                forall|m: int|
                    0 <= m < n ==> self.is_attempted(&written, #[trigger] self.active@[m]),
                self.wf(),
                self.balanced(io@),
                self.same_setup(&before),
                self.drops_seen == before.drops_seen,
                self.occupancy_seen == before.occupancy_seen,
                self.batch@.len() == 0,
                self.taken@ == written.taken@,
                self.active@ == written.active@,
                fleet::same_fleet(before.namespaces@, self.namespaces@),
                medium::no_input(t2, io@),
                medium::grown(t0, t2),
                medium::refusals(t2) >= medium::refusals(t0),
                !synced ==> medium::troubled(t0, io@),
                synced ==> forall|m: int|
                    0 <= m < n ==> self.is_committed((#[trigger] self.active@[m])),
            decreases self.active@.len() - n,
        {
            let ghost mid = *self;
            let ghost t3 = io@;
            let (i, j) = self.active[n];
            if self.due_at_once(i, j) {
                let done = self.commit_at(i, j, io);
                let ghost tried = *self;
                let ghost outcome = done;
                proof {
                    fleet::lemma_same_fleet_trans(
                        before.namespaces@,
                        mid.namespaces@,
                        self.namespaces@,
                    );
                    fleet::lemma_same_fleet_trans(
                        written.namespaces@,
                        mid.namespaces@,
                        self.namespaces@,
                    );
                    fleet::lemma_one_channel(
                        mid.namespaces@,
                        self.namespaces@,
                        i as int,
                        j as int,
                    );
                }
                match done {
                    Ok(()) => {
                        proof {
                            if synced {
                                assert forall|m: int| 0 <= m < n + 1 implies self.is_committed(
                                    (#[trigger] self.active@[m]),
                                ) by {
                                    let (a, b) = self.active@[m];
                                    if fleet::has_channel(self.namespaces@, a as int, b as int) {
                                        fleet::lemma_one_channel(
                                            mid.namespaces@,
                                            self.namespaces@,
                                            i as int,
                                            j as int,
                                        );
                                        assert(fleet::has_channel(
                                            mid.namespaces@,
                                            a as int,
                                            b as int,
                                        ));
                                        if (a, b) != (i, j) {
                                            assert(self.at(a as int, b as int) == mid.at(
                                                a as int,
                                                b as int,
                                            ));
                                            assert(m < n);
                                            assert(mid.is_committed(mid.active@[m]));
                                        }
                                    }
                                }
                            }
                        }
                    },
                    Err(e) => {
                        synced = false;
                        self.note_error(i, j, &e);
                    },
                }
                proof {
                    assert(mid.is_due_at_once(i as int, j as int));
                    assert(Self::committed_at(
                        &mid,
                        &tried,
                        i as int,
                        j as int,
                        t3,
                        io@,
                        outcome,
                    ));
                    assert(Self::noted(&tried, self, i as int, j as int, outcome));
                    lemma_chain_link(Self::committing(), s1, x1, *self, io@);
                    s1 = s1.push(*self);
                    x1 = x1.push(io@);
                    assert forall|a: int, b: int|
                        #![trigger self.at(a, b)]
                        fleet::has_channel(written.namespaces@, a, b) implies self.at(a, b)
                        == written.at(a, b) || self.at(a, b).block.count == 0 by {
                        let _ = mid.at(a, b);
                        assert(mid.namespaces@[a] == mid.namespaces@[a]);
                        if a != i || b != j {
                            assert(fleet::channel_at(self.namespaces@, a, b)
                                == fleet::channel_at(mid.namespaces@, a, b));
                        }
                    }
                }
            }
            proof {
                assert forall|m: int| 0 <= m < n + 1 implies self.is_attempted(
                    &written,
                    #[trigger] self.active@[m],
                ) by {
                    let (a, b) = self.active@[m];
                    let _ = self.at(a as int, b as int);
                    let _ = mid.at(a as int, b as int);
                    if m < n {
                        assert(mid.is_attempted(&written, mid.active@[m]));
                        if written.is_due_at_once(a as int, b as int) && (a, b) != (i, j) {
                            assert(mid.namespaces@[a as int] == mid.namespaces@[a as int]);
                            assert(fleet::channel_at(self.namespaces@, a as int, b as int)
                                == fleet::channel_at(mid.namespaces@, a as int, b as int));
                        }
                    } else if written.is_due_at_once(a as int, b as int) {
                        assert(mid.namespaces@[a as int] == mid.namespaces@[a as int]);
                        assert(fleet::has_channel(mid.namespaces@, a as int, b as int));
                    }
                }
            }
            n = n + 1;
        }
        proof {
            if synced {
                assert forall|i: int, j: int|
                    #![trigger self.at(i, j)]
                    fleet::has_channel(self.namespaces@, i, j) && self.at(
                        i,
                        j,
                    ).config.sync_interval.nanos == 0 implies self.at(i, j).is_synced(io@) by {
                    let c = fleet::channel_at(self.namespaces@, i, j);
                    assert(c.ready());
                    fleet::lemma_honest_at(self.namespaces@, io@, i, j);
                    if c.dirty_since_sync {
                        assert(c.ready());
                        assert(c.is_in_active_list);
                        assert(self.active@.contains((i as usize, j as usize)));
                        let m = self.active@.index_of((i as usize, j as usize));
                        assert(self.is_committed(self.active@[m]));
                    }
                }
            }
            if !medium::troubled(t0, io@) && addressed(before.namespaces@, before.batch@) {
                assert(laid_out(before.namespaces@, sorted, out));
            }
            assert forall|i: int, j: int|
                #![trigger self.at(i, j)]
                written.is_due_at_once(i, j) implies self.at(i, j).block.count == 0 by {
                let c = fleet::channel_at(written.namespaces@, i, j);
                assert(c.ready());
                assert(written.active@.contains((i as usize, j as usize)));
                let m = written.active@.index_of((i as usize, j as usize));
                assert(self.is_attempted(&written, self.active@[m]));
            }
            assert(Self::wrote_all(batch::stable_sorted(before.batch@), s0, x0));
            assert(chained(Self::committing(), s1, x1));
        }
        synced
    }

    /// A channel that was to be synced at once has had its block flushed.
    spec fn is_attempted(&self, written: &WriterLoop, address: (usize, usize)) -> bool {
        let (i, j) = (address.0 as int, address.1 as int);
        written.is_due_at_once(i, j) ==> self.at(i, j).block.count == 0
    }

    /// A channel that syncs at once has nothing unsynced.
    spec fn is_committed(&self, address: (usize, usize)) -> bool {
        let (i, j) = address;
        fleet::has_channel(self.namespaces@, i as int, j as int) && self.at(
            i as int,
            j as int,
        ).config.sync_interval.nanos == 0 ==> !self.at(i as int, j as int).dirty_since_sync
    }

    /// Whether a channel syncs at once and has something unsynced.
    fn due_at_once(&self, i: usize, j: usize) -> (yes: bool)
        ensures
            yes == self.is_due_at_once(i as int, j as int),
    {
        if !self.has(i, j) {
            return false;
        }
        match &self.namespaces[i] {
            Some(ns) => ns.channels[j].config.sync_interval.is_zero()
                && ns.channels[j].dirty_since_sync,
            None => false,
        }
    }

    /// Flushes a channel and syncs it.
    pub(crate) fn commit_at<M: Medium>(&mut self, i: usize, j: usize, io: &mut Io<M>) -> (r: Result<(), Error>)
        requires
            old(self).wf(),
            old(self).balanced(old(io)@),
            fleet::has_channel(old(self).namespaces@, i as int, j as int),
        ensures
            final(self).wf(),
            final(self).balanced(final(io)@),
            medium::no_input(old(io)@, final(io)@),
            r is Err ==> medium::troubled(old(io)@, final(io)@),
            r matches Err(e) ==> blamed(old(io)@, final(io)@, e),
            final(self).counters.same_upkeep(old(self).counters),
            Self::stepped(old(self), final(self), i as int, j as int),
            fleet::same_fleet(old(self).namespaces@, final(self).namespaces@),
            final(self).at(i as int, j as int).block.count == 0,
            final(self).at(i as int, j as int).same_service(&old(self).at(i as int, j as int)),
            r is Ok ==> final(self).at(i as int, j as int).is_synced(final(io)@),
            Self::committed_at(
                old(self),
                final(self),
                i as int,
                j as int,
                old(io)@,
                final(io)@,
                r,
            ),
    {
        let ghost before = *self;
        let ghost t0 = io@;
        match self.flush_at(i, j, io) {
            Ok(()) => {},
            Err(e) => {
                return Err(e);
            },
        }
        let ghost mid = *self;
        let ghost t = io@;
        let r = self.sync_at(i, j, io);
        proof {
            assert(Self::flushed_at(&before, &mid, i as int, j as int, t0, t, Ok(())));
            assert(Self::synced_at(&mid, self, i as int, j as int, t, io@, r));
            fleet::lemma_same_fleet_trans(
                before.namespaces@,
                mid.namespaces@,
                self.namespaces@,
            );
        }
        r
    }
}

impl WriterLoop {
    /// Gives back the buffers of a channel.
    pub(crate) fn release_at<M: Medium>(&mut self, i: usize, j: usize, io: &mut Io<M>)
        requires
            old(self).wf(),
            old(self).balanced(old(io)@),
            fleet::has_channel(old(self).namespaces@, i as int, j as int),
        ensures
            final(self).wf(),
            final(self).balanced(final(io)@),
            Self::stepped(old(self), final(self), i as int, j as int),
            fleet::same_fleet(old(self).namespaces@, final(self).namespaces@),
            final(self).counters == old(self).counters,
            final(self).at(i as int, j as int) == (ChannelState {
                buffers_released: true,
                ..old(self).at(i as int, j as int)
            }),
            final(io)@ == old(io)@.push(
                Op::ReleaseBuffers { place: old(self).at(i as int, j as int).place },
            ),
            medium::quiet(old(io)@, final(io)@),
    {
        let ghost before = *self;
        let ghost t0 = io@;
        assert(fleet::channel_at(self.namespaces@, i as int, j as int).ready());
        match &mut self.namespaces[i] {
            Some(ns) => {
                let ch = &mut ns.channels[j];
                io.release_buffers(ch.place);
                ch.buffers_released = true;
            },
            None => {},
        }
        proof {
            stats::lemma_plus_nothing(before.counters.dropped);
            Self::lemma_step(&before, self, i as int, j as int, t0, io@, 0);
        }
    }
}

/// Want of space is noted for the medium it happened on: the mark of one medium is never taken for
/// that of another, among the first seven, and it stays until it is seen to.
pub proof fn law_media_are_marked_apart(marks: u8, root: u8, other: u8)
    ensures
        (marks | bit_of(root)) & bit_of(root) != 0,
        root != other && (root < 7 || other < 7) ==> (marks | bit_of(root)) & bit_of(other) == marks
            & bit_of(other),
        0u8 & bit_of(root) == 0,
{
    let a = bit_of(root);
    let b = bit_of(other);
    assert((marks | a) & a != 0 && 0u8 & a == 0) by (bit_vector)
        requires
            a == 1 || a == 2 || a == 4 || a == 8 || a == 16 || a == 32 || a == 64 || a == 128,
    ;
    if a != b {
        assert((marks | a) & b == marks & b) by (bit_vector)
            requires
                a == 1 || a == 2 || a == 4 || a == 8 || a == 16 || a == 32 || a == 64 || a == 128,
                b == 1 || b == 2 || b == 4 || b == 8 || b == 16 || b == 32 || b == 64 || b == 128,
                a != b,
        ;
    }
}

/// A channel that syncs at once has, once a batch is committed, no block in its open segment that was
/// not synced.
pub proof fn law_what_syncs_at_once_owes_nothing(w: &WriterLoop, trace: Seq<Op>, i: int, j: int)
    requires
        w.committed(trace),
        fleet::has_channel(w.namespaces@, i, j),
        w.at(i, j).config.sync_interval.nanos == 0,
    ensures
        !w.at(i, j).dirty_since_sync,
        w.at(i, j).segment matches Some(s) ==> !s.dirty && !medium::unsynced(trace, s.file),
{
}

/// The records of a batch that was laid out are in blocks: each in the block of its own channel, with
/// its own contents, and not dated before it happened.
pub proof fn law_a_record_goes_to_its_own_channel(
    namespaces: Seq<Option<NsState>>,
    items: Seq<Staged>,
    out: Seq<medium::Accepted>,
    k: int,
)
    requires
        laid_out(namespaces, items, out),
        fleet::all_placed(namespaces),
        addressed(namespaces, items),
        0 <= k < items.len(),
    ensures
        out.len() == items.len(),
        out[k].record == items[k].record@,
        out[k].at.0 >= items[k].at.0,
        out[k].place.ns == items[k].ns,
        out[k].place.channel == items[k].channel,
{
    let item = items[k];
    let (i, j) = (item.ns.0 as int, item.channel.0 as int);
    assert(fleet::has_channel(namespaces, i, j));
    let _ = fleet::channel_at(namespaces, i, j);
}

/// A failure is counted once, whatever it is, and nothing else is touched; want of space is remembered
/// for the medium of the channel it happened on.
pub proof fn law_a_failure_is_counted_once(
    before: &WriterLoop,
    after: &WriterLoop,
    i: int,
    j: int,
    r: Result<(), Error>,
)
    requires
        WriterLoop::noted(before, after, i, j, r),
    ensures
        r is Ok ==> *after == *before,
        r is Err ==> after.counters.io_errors == stats::plus(before.counters.io_errors, 1),
        after.counters.dropped == before.counters.dropped,
        after.namespaces == before.namespaces,
        (r matches Err(e) && e is NoSpace && fleet::has_channel(before.namespaces@, i, j))
            ==> after.pressured_roots & bit_of(before.at(i, j).root_key) != 0,
        (r matches Err(e) && !e.is_out_of_space()) ==> after.pressured_roots
            == before.pressured_roots,
{
    if fleet::has_channel(before.namespaces@, i, j) {
        law_media_are_marked_apart(before.pressured_roots, before.at(i, j).root_key, 0);
    }
}

} // verus!
