//! A turn of the loop: deadlines, idleness and the memory ceiling.

use crate::budget::{elapsed, RELEASE_AFTER};
use crate::channel_state::ChannelState;
use crate::error::Error;
use crate::fleet;
use crate::medium;
use crate::medium::{Io, Medium, Op};
use crate::stats;
use crate::stats::Counters;
use crate::writer_loop::WriterLoop;
use vstd::prelude::*;

verus! {

broadcast use {
    crate::medium::group_trace,
    crate::medium::group_synced,
    crate::fleet::lemma_honest_on,
};

/// How long a channel has to sit idle before it gives up its segment, in
/// nanoseconds. Buffers cost a couple of allocations, a segment a sync and a walk
/// over the file when it comes back: hence the longer pause.
pub const PARK_AFTER: u64 = 300_000_000_000;

/// How long to sleep when there is nothing to service, in nanoseconds.
pub const IDLE_TIMEOUT: u128 = 250_000_000;

/// The shortest wait, in nanoseconds: an overdue deadline would otherwise turn the
/// loop into a busy wait.
pub const MIN_TIMEOUT: u128 = 1_000_000;

/// A deadline that has come.
pub open spec fn is_due(deadline: Option<int>, now: u64) -> bool {
    deadline is Some && deadline->0 <= now
}

/// A moment is a deadline of a channel in the list of those serviced.
pub open spec fn is_deadline(w: &WriterLoop, d: int) -> bool {
    exists|k: int|
        0 <= k < w.active@.len() && {
            let (i, j) = #[trigger] w.active@[k];
            &&& fleet::has_channel(w.namespaces@, i as int, j as int)
            &&& w.at(i as int, j as int).flush_due() == Some(d) || w.at(
                i as int,
                j as int,
            ).sync_due() == Some(d)
        }
}

/// Every deadline of a channel before position `n` of the list is `d` or later.
pub open spec fn no_deadline_before(w: &WriterLoop, n: int, d: int) -> bool {
    forall|k: int|
        0 <= k < n ==> {
            let (i, j) = #[trigger] w.active@[k];
            fleet::has_channel(w.namespaces@, i as int, j as int) ==> {
                &&& w.at(i as int, j as int).flush_due() matches Some(f) ==> d <= f
                &&& w.at(i as int, j as int).sync_due() matches Some(f) ==> d <= f
            }
        }
}

/// No channel before position `n` of the list has a deadline.
pub open spec fn no_deadline(w: &WriterLoop, n: int) -> bool {
    forall|k: int|
        0 <= k < n ==> {
            let (i, j) = #[trigger] w.active@[k];
            fleet::has_channel(w.namespaces@, i as int, j as int) ==> w.at(
                i as int,
                j as int,
            ).flush_due() is None && w.at(i as int, j as int).sync_due() is None
        }
}

/// The wait until the nearest deadline, or the longest wait where there is none.
pub open spec fn wakes_in(w: &WriterLoop, now: u64, wait: u128) -> bool {
    &&& no_deadline(w, w.active@.len() as int) ==> wait == IDLE_TIMEOUT
    &&& !no_deadline(w, w.active@.len() as int) ==> exists|d: int| #[trigger]
        is_deadline(w, d) && no_deadline_before(w, w.active@.len() as int, d) && wait == if d - now
            >= MIN_TIMEOUT {
            d - now
        } else {
            MIN_TIMEOUT as int
        }
}

fn sooner(best: Option<u128>, d: Option<u128>) -> (r: Option<u128>)
    ensures
        r == match (best, d) {
            (None, _) => d,
            (_, None) => best,
            (Some(a), Some(b)) => if b < a {
                d
            } else {
                best
            },
        },
{
    match (best, d) {
        (None, _) => d,
        (_, None) => best,
        (Some(a), Some(b)) => if b < a {
            d
        } else {
            best
        },
    }
}

impl WriterLoop {
    /// The deadlines of the channel at an address.
    fn deadlines_at(&self, i: usize, j: usize) -> (d: (Option<u128>, Option<u128>))
        requires
            fleet::has_channel(self.namespaces@, i as int, j as int),
        ensures
            match d.0 {
                Some(t) => self.at(i as int, j as int).flush_due() == Some(t as int),
                None => self.at(i as int, j as int).flush_due() is None,
            },
            match d.1 {
                Some(t) => self.at(i as int, j as int).sync_due() == Some(t as int),
                None => self.at(i as int, j as int).sync_due() is None,
            },
    {
        match &self.namespaces[i] {
            Some(ns) => (ns.channels[j].flush_deadline(), ns.channels[j].sync_deadline()),
            None => (None, None),
        }
    }

    /// How long until the nearest deadline, over the channels that have something
    /// to service; nothing if it has passed.
    pub fn next_deadline(&self, now: u64) -> (wait: Option<u128>)
        ensures
            match wait {
                Some(n) => exists|d: int| #[trigger]
                    is_deadline(self, d) && no_deadline_before(
                        self,
                        self.active@.len() as int,
                        d,
                    ) && n == if d >= now {
                        d - now
                    } else {
                        0
                    },
                None => no_deadline(self, self.active@.len() as int),
            },
    {
        let mut best: Option<u128> = None;
        let mut k: usize = 0;
        while k < self.active.len()
            invariant
                k <= self.active@.len(),
                match best {
                    Some(d) => is_deadline(self, d as int) && no_deadline_before(
                        self,
                        k as int,
                        d as int,
                    ),
                    None => no_deadline(self, k as int),
                },
            decreases self.active@.len() - k,
        {
            let (i, j) = self.active[k];
            if self.has(i, j) {
                let (flush, sync) = self.deadlines_at(i, j);
                let ghost had = best;
                best = sooner(sooner(best, flush), sync);
                proof {
                    let (a, b) = self.active@[k as int];
                    if let Some(d) = best {
                        if had == Some(d) {
                            assert(is_deadline(self, d as int));
                        } else {
                            assert(is_deadline(self, d as int)) by {
                                assert(self.active@[k as int] == (i, j));
                            }
                        }
                    }
                }
            }
            k = k + 1;
        }
        match best {
            None => None,
            Some(d) => {
                assert(is_deadline(self, d as int));
                Some(d.saturating_sub(now as u128))
            },
        }
    }

    /// How long to wait for a record: until the nearest deadline, but never so
    /// short that the loop would spin.
    pub fn timeout(&self, now: u64) -> (wait: u128)
        ensures
            wakes_in(self, now, wait),
            wait >= MIN_TIMEOUT,
            no_deadline(self, self.active@.len() as int) ==> wait == IDLE_TIMEOUT,
            !no_deadline(self, self.active@.len() as int) ==> exists|d: int| #[trigger]
                is_deadline(self, d) && no_deadline_before(self, self.active@.len() as int, d)
                    && wait == if d - now >= MIN_TIMEOUT {
                    d - now
                } else {
                    MIN_TIMEOUT as int
                },
    {
        match self.next_deadline(now) {
            None => IDLE_TIMEOUT,
            Some(n) => {
                proof {
                    let d = choose|d: int| #[trigger]
                        is_deadline(self, d) && no_deadline_before(
                            self,
                            self.active@.len() as int,
                            d,
                        ) && n == if d >= now {
                            d - now
                        } else {
                            0
                        };
                    assert(is_deadline(self, d));
                    assert(!no_deadline(self, self.active@.len() as int));
                }
                if n >= MIN_TIMEOUT {
                    n
                } else {
                    MIN_TIMEOUT
                }
            },
        }
    }

    /// Notes in a channel how it stands with its idleness.
    fn note_idleness<M: Medium>(
        &mut self,
        i: usize,
        j: usize,
        idle_since: Option<u64>,
        listed: bool,
        io: &Io<M>,
    )
        requires
            old(self).wf(),
            old(self).balanced(io@),
            fleet::has_channel(old(self).namespaces@, i as int, j as int),
            listed ==> old(self).at(i as int, j as int).is_in_active_list,
            !listed ==> !old(self).at(i as int, j as int).is_in_active_list || (old(self).at(
                i as int,
                j as int,
            ).block.count == 0 && !old(self).at(i as int, j as int).dirty_since_sync),
        ensures
            final(self).wf(),
            final(self).balanced(io@),
            Self::stepped(old(self), final(self), i as int, j as int),
            fleet::same_fleet(old(self).namespaces@, final(self).namespaces@),
            final(self).counters == old(self).counters,
            final(self).at(i as int, j as int) == (ChannelState {
                idle_since,
                is_in_active_list: listed,
                ..old(self).at(i as int, j as int)
            }),
    {
        let ghost before = *self;
        assert(fleet::channel_at(self.namespaces@, i as int, j as int).ready());
        match &mut self.namespaces[i] {
            Some(ns) => {
                let ch = &mut ns.channels[j];
                ch.idle_since = idle_since;
                ch.is_in_active_list = listed;
            },
            None => {},
        }
        proof {
            stats::lemma_plus_nothing(before.counters.dropped);
            Self::lemma_step(&before, self, i as int, j as int, io@, io@, 0);
        }
    }

    /// How it stands with the channel at an address: whether it has something to
    /// service, since when it has not, and whether its buffers are given back.
    fn standing_at(&self, i: usize, j: usize) -> (r: (bool, Option<u64>, bool, bool))
        requires
            fleet::has_channel(self.namespaces@, i as int, j as int),
        ensures
            r.0 == (self.at(i as int, j as int).block_opened is Some || self.at(
                i as int,
                j as int,
            ).sync_due() is Some),
            r.1 == self.at(i as int, j as int).idle_since,
            r.2 == self.at(i as int, j as int).buffers_released,
            r.3 == self.at(i as int, j as int).is_in_active_list,
    {
        match &self.namespaces[i] {
            Some(ns) => {
                let ch = &ns.channels[j];
                (
                    ch.block_opened.is_some() || ch.sync_deadline().is_some(),
                    ch.idle_since,
                    ch.buffers_released,
                    ch.is_in_active_list,
                )
            },
            None => (false, None, false, false),
        }
    }
}

/// Since when a channel without anything to service is idle: since now, unless it has
/// been.
pub open spec fn idle_from(ch: ChannelState, now: u64) -> u64 {
    match ch.idle_since {
        Some(t) => t,
        None => now,
    }
}

/// What servicing a channel at a moment comes to.
pub open spec fn serviced(before: ChannelState, after: ChannelState, now: u64, keep: bool) -> bool {
    // A due block is flushed, and what was not due is not touched.
    &&& is_due(before.flush_due(), now) ==> after.block.count == 0
    &&& !is_due(after.flush_due(), now)
    &&& !is_due(before.flush_due(), now) && before.block.count > 0 ==> after.block == before.block
        && after.block_opened == before.block_opened
    // A channel with something to service stays in the list and is not idle.
    &&& after.block_opened is Some || after.sync_due() is Some ==> keep && after.idle_since is None
    // Idleness is given up in two stages: the buffers, then the segment.
    &&& after.block_opened is None && after.sync_due() is None ==> {
        let since = idle_from(before, now);
        &&& keep == (elapsed(since, now) < PARK_AFTER)
        &&& keep ==> after.idle_since == Some(since)
        &&& !keep ==> after.idle_since is None && !after.is_in_active_list
        &&& elapsed(since, now) >= RELEASE_AFTER ==> after.buffers_released
    }
}

/// A channel has something to service, but nothing of it is due.
pub open spec fn waits(ch: ChannelState, now: u64) -> bool {
    &&& !is_due(ch.flush_due(), now)
    &&& !is_due(ch.sync_due(), now)
    &&& ch.block_opened is Some || ch.sync_due() is Some
}

/// What meeting the deadlines of a channel at a moment comes to.
pub open spec fn on_time(before: ChannelState, after: ChannelState, now: u64) -> bool {
    &&& after.same_service(&before)
    &&& if is_due(before.flush_due(), now) {
        after.block.count == 0 && after.block_opened is None
    } else {
        after.block == before.block && after.block_opened == before.block_opened
    }
}

impl WriterLoop {
    /// What servicing a channel leaves alone.
    pub open spec fn same_queue(&self, other: &WriterLoop) -> bool {
        &&& self.same_setup(other)
        &&& self.active@ == other.active@
        &&& self.batch@ == other.batch@
        &&& self.drops_seen == other.drops_seen
        &&& self.occupancy_seen == other.occupancy_seen
        &&& self.taken@ == other.taken@
    }

    /// A block that is due was flushed, and an error of the medium noted.
    pub open spec fn flushed_in_time(
        before: &WriterLoop,
        after: &WriterLoop,
        i: int,
        j: int,
        now: u64,
        t0: Seq<Op>,
        t1: Seq<Op>,
    ) -> bool {
        if is_due(before.at(i, j).flush_due(), now) {
            exists|mid: WriterLoop, r: Result<(), Error>|
                {
                    &&& #[trigger] Self::flushed_at(before, &mid, i, j, t0, t1, r)
                    &&& Self::noted(&mid, after, i, j, r)
                }
        } else {
            *after == *before && t1 == t0
        }
    }

    /// A channel that is due was synced, and an error of the medium noted.
    pub open spec fn synced_in_time(
        before: &WriterLoop,
        after: &WriterLoop,
        i: int,
        j: int,
        now: u64,
        t0: Seq<Op>,
        t1: Seq<Op>,
    ) -> bool {
        if is_due(before.at(i, j).sync_due(), now) {
            exists|mid: WriterLoop, r: Result<(), Error>|
                {
                    &&& #[trigger] Self::synced_at(before, &mid, i, j, t0, t1, r)
                    &&& Self::noted(&mid, after, i, j, r)
                }
        } else {
            *after == *before && t1 == t0
        }
    }

    /// The deadlines of a channel were met: the block first, then the sync.
    pub open spec fn deadlines_met(
        before: &WriterLoop,
        after: &WriterLoop,
        i: int,
        j: int,
        now: u64,
        t0: Seq<Op>,
        t1: Seq<Op>,
    ) -> bool {
        exists|mid: WriterLoop, t: Seq<Op>|
            {
                &&& #[trigger] Self::flushed_in_time(before, &mid, i, j, now, t0, t)
                &&& #[trigger] Self::synced_in_time(&mid, after, i, j, now, t, t1)
            }
    }

    /// How it stands with the idleness of a channel was noted.
    pub open spec fn noted_idle(
        before: &WriterLoop,
        after: &WriterLoop,
        i: int,
        j: int,
        idle_since: Option<u64>,
        listed: bool,
    ) -> bool {
        &&& Self::stepped(before, after, i, j)
        &&& after.counters == before.counters
        &&& after.at(i, j) == (ChannelState {
            idle_since,
            is_in_active_list: listed,
            ..before.at(i, j)
        })
    }

    /// The buffers of a channel that has been idle for a while were given back, unless
    /// they had been.
    pub open spec fn buffers_given(
        before: &WriterLoop,
        after: &WriterLoop,
        i: int,
        j: int,
        now: u64,
        t0: Seq<Op>,
        t1: Seq<Op>,
    ) -> bool {
        if elapsed(idle_from(before.at(i, j), now), now) >= RELEASE_AFTER && !before.at(i, j).buffers_released {
            &&& Self::stepped(before, after, i, j)
            &&& after.counters == before.counters
            &&& after.at(i, j) == (ChannelState { buffers_released: true, ..before.at(i, j) })
            &&& t1 == t0.push(Op::ReleaseBuffers { place: before.at(i, j).place })
        } else {
            *after == *before && t1 == t0
        }
    }

    /// The idleness of a channel was seen to: one with something to service is not idle;
    /// the others give up what they hold in two stages, the buffers, then the segment.
    pub open spec fn idleness_met(
        before: &WriterLoop,
        after: &WriterLoop,
        i: int,
        j: int,
        now: u64,
        keep: bool,
        t0: Seq<Op>,
        t1: Seq<Op>,
    ) -> bool {
        let b = before.at(i, j);
        let since = idle_from(b, now);
        if b.block_opened is Some || b.sync_due() is Some {
            keep && t1 == t0 && Self::noted_idle(before, after, i, j, None, b.is_in_active_list)
        } else {
            exists|given: WriterLoop, t: Seq<Op>|
                {
                    &&& #[trigger] Self::buffers_given(before, &given, i, j, now, t0, t)
                    &&& if elapsed(since, now) < PARK_AFTER {
                        keep && t1 == t && Self::noted_idle(
                            &given,
                            after,
                            i,
                            j,
                            Some(since),
                            b.is_in_active_list,
                        )
                    } else {
                        !keep && exists|mid: WriterLoop, told: WriterLoop, r: Result<(), Error>|
                            {
                                &&& #[trigger] Self::parked_at(&given, &mid, i, j, t, t1, r)
                                &&& #[trigger] Self::counted(&mid, &told, r)
                                &&& Self::noted_idle(&told, after, i, j, None, false)
                            }
                    }
                }
        }
    }

    /// Meets the deadlines of the channel at an address.
    #[verifier::rlimit(40)]
    fn meet_deadlines_at<M: Medium>(&mut self, i: usize, j: usize, now: u64, io: &mut Io<M>)
        requires
            old(self).wf(),
            old(self).balanced(old(io)@),
            fleet::has_channel(old(self).namespaces@, i as int, j as int),
        ensures
            final(self).wf(),
            final(self).balanced(final(io)@),
            final(self).same_queue(old(self)),
            fleet::one_channel_changed(
                old(self).namespaces@,
                final(self).namespaces@,
                i as int,
                j as int,
            ),
            fleet::same_fleet(old(self).namespaces@, final(self).namespaces@),
            medium::no_input(old(io)@, final(io)@),
            on_time(old(self).at(i as int, j as int), final(self).at(i as int, j as int), now),
            Self::deadlines_met(
                old(self),
                final(self),
                i as int,
                j as int,
                now,
                old(io)@,
                final(io)@,
            ),
            waits(old(self).at(i as int, j as int), now) ==> *final(self) == *old(self) && old(io)@
                == final(io)@,
            is_due(old(self).at(i as int, j as int).sync_due(), now) ==> !final(self).at(
                i as int,
                j as int,
            ).dirty_since_sync || medium::troubled(old(io)@, final(io)@),
            is_due(final(self).at(i as int, j as int).sync_due(), now) ==> medium::troubled(
                old(io)@,
                final(io)@,
            ),
    {
        let ghost before = *self;
        proof {
            fleet::lemma_same_fleet_refl(self.namespaces@);
        }
        let (flush, _) = self.deadlines_at(i, j);
        let flush_now: bool = match flush {
            Some(d) => d <= now as u128,
            None => false,
        };
        let ghost t0 = io@;
        if flush_now {
            let done = self.flush_at(i, j, io);
            let ghost mid = *self;
            let ghost outcome = done;
            match done {
                Ok(()) => {},
                Err(e) => {
                    self.note_error(i, j, &e);
                },
            }
            proof {
                assert(Self::flushed_at(&before, &mid, i as int, j as int, t0, io@, outcome));
                assert(Self::noted(&mid, self, i as int, j as int, outcome));
            }
        }
        let ghost flushed = *self;
        let ghost t = io@;
        assert(Self::flushed_in_time(&before, &flushed, i as int, j as int, now, t0, t));
        let (_, sync) = self.deadlines_at(i, j);
        let sync_now: bool = match sync {
            Some(d) => d <= now as u128,
            None => false,
        };
        if sync_now {
            let done = self.sync_at(i, j, io);
            let ghost mid = *self;
            let ghost outcome = done;
            match done {
                Ok(()) => {},
                Err(e) => {
                    self.note_error(i, j, &e);
                },
            }
            proof {
                assert(Self::synced_at(&flushed, &mid, i as int, j as int, t, io@, outcome));
                assert(Self::noted(&mid, self, i as int, j as int, outcome));
                fleet::lemma_same_fleet_trans(
                    before.namespaces@,
                    flushed.namespaces@,
                    self.namespaces@,
                );
            }
        }
        assert(Self::synced_in_time(&flushed, self, i as int, j as int, now, t, io@));
    }

    /// Gives up what an idle channel holds, in two stages. The answer says whether
    /// it stays in the list of those serviced.
    #[verifier::rlimit(40)]
    fn give_up_at<M: Medium>(&mut self, i: usize, j: usize, now: u64, io: &mut Io<M>) -> (keep: bool)
        requires
            old(self).wf(),
            old(self).balanced(old(io)@),
            fleet::has_channel(old(self).namespaces@, i as int, j as int),
            old(self).at(i as int, j as int).block_opened is None,
            old(self).at(i as int, j as int).sync_due() is None,
        ensures
            final(self).wf(),
            final(self).balanced(final(io)@),
            final(self).same_queue(old(self)),
            fleet::one_channel_changed(
                old(self).namespaces@,
                final(self).namespaces@,
                i as int,
                j as int,
            ),
            fleet::same_fleet(old(self).namespaces@, final(self).namespaces@),
            medium::no_input(old(io)@, final(io)@),
            ({
                let b = old(self).at(i as int, j as int);
                let a = final(self).at(i as int, j as int);
                let since = idle_from(b, now);
                &&& a.block_opened is None && a.sync_due() is None && a.block.count == 0
                &&& keep == (elapsed(since, now) < PARK_AFTER)
                &&& keep ==> a.idle_since == Some(since) && a.is_in_active_list
                    == b.is_in_active_list
                &&& !keep ==> a.idle_since is None && !a.is_in_active_list
                &&& !keep ==> a.segment is None || medium::troubled(old(io)@, final(io)@)
                &&& elapsed(since, now) >= RELEASE_AFTER ==> a.buffers_released
            }),
            Self::idleness_met(
                old(self),
                final(self),
                i as int,
                j as int,
                now,
                keep,
                old(io)@,
                final(io)@,
            ),
    {
        let ghost before = *self;
        proof {
            fleet::lemma_same_fleet_refl(self.namespaces@);
            assert(fleet::channel_at(self.namespaces@, i as int, j as int).ready());
        }
        let (_, idle_since, released, listed) = self.standing_at(i, j);
        let since: u64 = match idle_since {
            Some(t) => t,
            None => now,
        };
        let idle: u64 = now.saturating_sub(since);
        if idle >= RELEASE_AFTER && !released {
            self.release_at(i, j, io);
        }
        let ghost released_now = *self;
        let ghost t = io@;
        assert(Self::buffers_given(
            &before,
            &released_now,
            i as int,
            j as int,
            now,
            old(io)@,
            t,
        ));
        if idle < PARK_AFTER {
            self.note_idleness(i, j, Some(since), listed, io);
            proof {
                fleet::lemma_same_fleet_trans(
                    before.namespaces@,
                    released_now.namespaces@,
                    self.namespaces@,
                );
            }
            return true;
        }
        let done = self.park_at(i, j, io);
        let ghost mid = *self;
        let ghost outcome = done;
        match done {
            Ok(()) => {},
            Err(_) => {
                Counters::bump(&mut self.counters.io_errors);
            },
        }
        let ghost parked = *self;
        self.note_idleness(i, j, None, false, io);
        proof {
            assert(Self::parked_at(&released_now, &mid, i as int, j as int, t, io@, outcome));
            assert(Self::counted(&mid, &parked, outcome));
            fleet::lemma_same_fleet_trans(
                before.namespaces@,
                released_now.namespaces@,
                parked.namespaces@,
            );
            fleet::lemma_same_fleet_trans(
                before.namespaces@,
                parked.namespaces@,
                self.namespaces@,
            );
        }
        false
    }

    /// Services the channel at an address: its deadlines, then its idleness. The
    /// answer says whether it stays in the list of those serviced.
    #[verifier::rlimit(40)]
    pub(crate) fn service_at<M: Medium>(
        &mut self,
        i: usize,
        j: usize,
        now: u64,
        io: &mut Io<M>,
    ) -> (keep: bool)
        requires
            old(self).wf(),
            old(self).balanced(old(io)@),
            fleet::has_channel(old(self).namespaces@, i as int, j as int),
        ensures
            final(self).wf(),
            final(self).balanced(final(io)@),
            final(self).same_queue(old(self)),
            fleet::one_channel_changed(
                old(self).namespaces@,
                final(self).namespaces@,
                i as int,
                j as int,
            ),
            fleet::same_fleet(old(self).namespaces@, final(self).namespaces@),
            medium::no_input(old(io)@, final(io)@),
            serviced(
                old(self).at(i as int, j as int),
                final(self).at(i as int, j as int),
                now,
                keep,
            ),
            is_due(final(self).at(i as int, j as int).sync_due(), now) ==> medium::troubled(
                old(io)@,
                final(io)@,
            ),
            !keep ==> final(self).at(i as int, j as int).segment is None || medium::troubled(
                old(io)@,
                final(io)@,
            ),
            attended(
                old(self),
                final(self),
                (i, j),
                now,
                keep,
                old(io)@,
                final(io)@,
            ),
    {
        let ghost before = *self;
        self.meet_deadlines_at(i, j, now, io);
        let ghost met = *self;
        let ghost t = io@;
        let (busy, _, _, listed) = self.standing_at(i, j);
        let keep: bool = if busy {
            self.note_idleness(i, j, None, listed, io);
            true
        } else {
            self.give_up_at(i, j, now, io)
        };
        proof {
            fleet::lemma_same_fleet_trans(
                before.namespaces@,
                met.namespaces@,
                self.namespaces@,
            );
            assert(fleet::channel_at(self.namespaces@, i as int, j as int).ready());
            fleet::lemma_honest_at(self.namespaces@, io@, i as int, j as int);
            assert(Self::deadlines_met(&before, &met, i as int, j as int, now, old(io)@, t));
            assert(Self::idleness_met(&met, self, i as int, j as int, now, keep, t, io@));
        }
        keep
    }
}

/// The channel at an address of the list was serviced: what was due was done, unless
/// the medium refused, and what waits was left alone. An address without a channel
/// leaves the list.
pub open spec fn attended(
    before: &WriterLoop,
    after: &WriterLoop,
    address: (usize, usize),
    now: u64,
    keep: bool,
    t0: Seq<Op>,
    t1: Seq<Op>,
) -> bool {
    let (i, j) = (address.0 as int, address.1 as int);
    if fleet::has_channel(before.namespaces@, i, j) {
        let b = before.at(i, j);
        let a = after.at(i, j);
        &&& after.same_queue(before)
        &&& fleet::one_channel_changed(before.namespaces@, after.namespaces@, i, j)
        &&& a.same_channel(&b)
        &&& medium::no_input(t0, t1)
        &&& serviced(b, a, now, keep)
        &&& is_due(b.sync_due(), now) ==> a.is_synced(t1) || medium::troubled(t0, t1)
        &&& !keep ==> a.segment is None || medium::troubled(t0, t1)
        &&& exists|met: WriterLoop, t: Seq<Op>|
            {
                &&& #[trigger] WriterLoop::deadlines_met(before, &met, i, j, now, t0, t)
                &&& #[trigger] WriterLoop::idleness_met(&met, after, i, j, now, keep, t, t1)
            }
        &&& waits(b, now) ==> {
            &&& a == (ChannelState { idle_since: None, ..b })
            &&& after.counters == before.counters
            &&& t1 == t0
        }
    } else {
        !keep && *after == *before && t1 == t0
    }
}

/// The addresses that stay in a list.
pub open spec fn still_listed(list: Seq<(usize, usize)>, keeps: Seq<bool>) -> Seq<(usize, usize)>
    decreases list.len(),
{
    if list.len() == 0 {
        Seq::empty()
    } else {
        let rest = still_listed(list.drop_last(), keeps);
        if keeps[list.len() - 1] {
            rest.push(list.last())
        } else {
            rest
        }
    }
}

proof fn lemma_still_listed(list: Seq<(usize, usize)>, k0: Seq<bool>, k1: Seq<bool>)
    requires
        forall|k: int| 0 <= k < list.len() ==> (#[trigger] k0[k]) == k1[k],
    ensures
        still_listed(list, k0) == still_listed(list, k1),
    decreases list.len(),
{
    if list.len() > 0 {
        lemma_still_listed(list.drop_last(), k0, k1);
        assert(k0[list.len() - 1] == k1[list.len() - 1]);
    }
}

/// The channels of a list were serviced one after another.
pub open spec fn went_round(
    list: Seq<(usize, usize)>,
    now: u64,
    keeps: Seq<bool>,
    states: Seq<WriterLoop>,
    traces: Seq<Seq<Op>>,
) -> bool {
    &&& keeps.len() == list.len()
    &&& states.len() == list.len() + 1
    &&& traces.len() == list.len() + 1
    &&& forall|k: int|
        #![trigger states[k]]
        0 <= k < list.len() ==> attended(
            &states[k],
            &states[k + 1],
            list[k],
            now,
            keeps[k],
            traces[k],
            traces[k + 1],
        )
}

proof fn lemma_went_on(
    list: Seq<(usize, usize)>,
    address: (usize, usize),
    now: u64,
    keeps: Seq<bool>,
    states: Seq<WriterLoop>,
    traces: Seq<Seq<Op>>,
    keep: bool,
    next: WriterLoop,
    trace: Seq<Op>,
)
    requires
        went_round(list, now, keeps, states, traces),
        attended(&states.last(), &next, address, now, keep, traces.last(), trace),
    ensures
        went_round(
            list.push(address),
            now,
            keeps.push(keep),
            states.push(next),
            traces.push(trace),
        ),
        still_listed(list.push(address), keeps.push(keep)) == if keep {
            still_listed(list, keeps).push(address)
        } else {
            still_listed(list, keeps)
        },
{
    let l = list.push(address);
    let p = keeps.push(keep);
    let s = states.push(next);
    let t = traces.push(trace);
    assert forall|k: int| #![trigger s[k]] 0 <= k < l.len() implies attended(
        &s[k],
        &s[k + 1],
        l[k],
        now,
        p[k],
        t[k],
        t[k + 1],
    ) by {
        assert(s[k] == states[k] && t[k] == traces[k]);
        if k < list.len() {
            assert(s[k + 1] == states[k + 1] && t[k + 1] == traces[k + 1]);
        }
    }
    assert(l.drop_last() =~= list);
    assert forall|k: int| 0 <= k < list.len() implies (#[trigger] keeps[k]) == p[k] by {}
    lemma_still_listed(list, keeps, p);
}

/// A channel that is not among those serviced in between is left as it is.
proof fn lemma_left_alone(
    list: Seq<(usize, usize)>,
    now: u64,
    keeps: Seq<bool>,
    states: Seq<WriterLoop>,
    traces: Seq<Seq<Op>>,
    from: int,
    to: int,
    address: (usize, usize),
)
    requires
        went_round(list, now, keeps, states, traces),
        0 <= from <= to < states.len(),
        fleet::has_channel(states[from].namespaces@, address.0 as int, address.1 as int),
        forall|m: int| from <= m < to ==> #[trigger] list[m] != address,
    ensures
        fleet::has_channel(states[to].namespaces@, address.0 as int, address.1 as int),
        states[to].at(address.0 as int, address.1 as int) == states[from].at(
            address.0 as int,
            address.1 as int,
        ),
    decreases to - from,
{
    if from < to {
        let m = to - 1;
        lemma_left_alone(list, now, keeps, states, traces, from, m, address);
        let (i, j) = (list[m].0 as int, list[m].1 as int);
        assert(list[m] != address);
        assert(attended(
            &states[m],
            &states[m + 1],
            list[m],
            now,
            keeps[m],
            traces[m],
            traces[m + 1],
        ));
        if fleet::has_channel(states[m].namespaces@, i, j) {
            fleet::lemma_one_channel(states[m].namespaces@, states[m + 1].namespaces@, i, j);
            assert(fleet::channel_at(
                states[m + 1].namespaces@,
                address.0 as int,
                address.1 as int,
            ) == fleet::channel_at(
                states[m].namespaces@,
                address.0 as int,
                address.1 as int,
            ));
        }
    }
}

/// Servicing one channel leaves the others alone: over a round in which it stands once in
/// the list, a channel comes to what servicing it comes to, and one that waits is left as
/// it is.
pub proof fn law_a_round_services_each_channel(
    list: Seq<(usize, usize)>,
    now: u64,
    keeps: Seq<bool>,
    states: Seq<WriterLoop>,
    traces: Seq<Seq<Op>>,
    k: int,
)
    requires
        went_round(list, now, keeps, states, traces),
        list.no_duplicates(),
        0 <= k < list.len(),
        fleet::has_channel(states[0].namespaces@, list[k].0 as int, list[k].1 as int),
    ensures
        ({
            let before = states[0].at(list[k].0 as int, list[k].1 as int);
            let after = states.last().at(list[k].0 as int, list[k].1 as int);
            &&& serviced(before, after, now, keeps[k])
            &&& waits(before, now) ==> after == (ChannelState { idle_since: None, ..before })
        }),
{
    let n = list.len() as int;
    lemma_left_alone(list, now, keeps, states, traces, 0, k, list[k]);
    assert(attended(
        &states[k],
        &states[k + 1],
        list[k],
        now,
        keeps[k],
        traces[k],
        traces[k + 1],
    ));
    fleet::lemma_one_channel(
        states[k].namespaces@,
        states[k + 1].namespaces@,
        list[k].0 as int,
        list[k].1 as int,
    );
    lemma_left_alone(list, now, keeps, states, traces, k + 1, n, list[k]);
}

/// No channel in the list of those serviced has a block that is due.
pub open spec fn nothing_overdue(w: &WriterLoop, now: u64) -> bool {
    forall|k: int|
        0 <= k < w.active@.len() ==> {
            let (i, j) = #[trigger] w.active@[k];
            fleet::has_channel(w.namespaces@, i as int, j as int) ==> !is_due(
                w.at(i as int, j as int).flush_due(),
                now,
            )
        }
}

/// No channel in the list of those serviced has a sync that is due.
pub open spec fn nothing_unsynced(w: &WriterLoop, now: u64) -> bool {
    forall|k: int|
        0 <= k < w.active@.len() ==> {
            let (i, j) = #[trigger] w.active@[k];
            fleet::has_channel(w.namespaces@, i as int, j as int) ==> !is_due(
                w.at(i as int, j as int).sync_due(),
                now,
            )
        }
}

impl WriterLoop {
    /// Services every channel in the list, and leaves in it those that still have
    /// something to service.
    #[verifier::rlimit(40)]
    pub fn service<M: Medium>(&mut self, now: u64, io: &mut Io<M>)
        requires
            old(self).wf(),
            old(self).balanced(old(io)@),
        ensures
            final(self).wf(),
            final(self).balanced(final(io)@),
            final(self).same_setup(old(self)),
            final(self).batch@ == old(self).batch@,
            final(self).drops_seen == old(self).drops_seen,
            final(self).occupancy_seen == old(self).occupancy_seen,
            final(self).taken@ == old(self).taken@,
            fleet::same_fleet(old(self).namespaces@, final(self).namespaces@),
            medium::no_input(old(io)@, final(io)@),
            nothing_overdue(final(self), now),
            nothing_unsynced(final(self), now) || medium::troubled(old(io)@, final(io)@),
            Self::serviced_all(old(self), final(self), now, old(io)@, final(io)@),
    {
        let ghost before = *self;
        let ghost t0 = io@;
        let ghost mut keeps: Seq<bool> = Seq::empty();
        let ghost mut states: Seq<WriterLoop> = seq![*self];
        let ghost mut traces: Seq<Seq<Op>> = seq![io@];
        assert(before.active@.take(0) =~= Seq::<(usize, usize)>::empty());
        proof {
            fleet::lemma_same_fleet_refl(self.namespaces@);
        }
        let mut kept: Vec<(usize, usize)> = Vec::new();
        let mut n: usize = 0;
        while n < self.active.len()
            invariant
                n <= self.active@.len(),
                self.wf(),
                self.balanced(io@),
                self.same_queue(&before),
                fleet::same_fleet(before.namespaces@, self.namespaces@),
                medium::no_input(t0, io@),
                went_round(before.active@.take(n as int), now, keeps, states, traces),
                kept@ == still_listed(before.active@.take(n as int), keeps),
                states[0] == before,
                states.last() == *self,
                traces[0] == t0,
                traces.last() == io@,
                forall|m: int|
                    0 <= m < n ==> Self::listed_in(self, (#[trigger] self.active@[m]), kept@),
                forall|m: int|
                    0 <= m < kept@.len() ==> Self::met(self, (#[trigger] kept@[m]), now, t0, io@),
            decreases self.active@.len() - n,
        {
            let ghost mid = *self;
            let ghost t1 = io@;
            let ghost had = kept@;
            let (i, j) = self.active[n];
            let ghost list = before.active@.take(n as int);
            assert(before.active@.take(n + 1) =~= list.push((i, j)));
            if !self.has(i, j) {
                proof {
                    lemma_went_on(list, (i, j), now, keeps, states, traces, false, *self, io@);
                    keeps = keeps.push(false);
                    states = states.push(*self);
                    traces = traces.push(io@);
                }
            } else {
                let keep: bool = self.service_at(i, j, now, io);
                if keep {
                    kept.push((i, j));
                }
                proof {
                    lemma_went_on(list, (i, j), now, keeps, states, traces, keep, *self, io@);
                    keeps = keeps.push(keep);
                    states = states.push(*self);
                    traces = traces.push(io@);
                    fleet::lemma_same_fleet_trans(
                        before.namespaces@,
                        mid.namespaces@,
                        self.namespaces@,
                    );
                    fleet::lemma_one_channel(
                        mid.namespaces@,
                        self.namespaces@,
                        i as int,
                        j as int,
                    );
                    if keep {
                        assert(kept@[had.len() as int] == (i, j));
                    }
                    assert forall|m: int| 0 <= m < n + 1 implies Self::listed_in(
                        self,
                        (#[trigger] self.active@[m]),
                        kept@,
                    ) by {
                        let (a, b) = self.active@[m];
                        if fleet::has_channel(self.namespaces@, a as int, b as int) && self.at(
                            a as int,
                            b as int,
                        ).is_in_active_list {
                            assert(fleet::has_channel(mid.namespaces@, a as int, b as int));
                            if (a, b) != (i, j) {
                                assert(fleet::channel_at(self.namespaces@, a as int, b as int)
                                    == fleet::channel_at(mid.namespaces@, a as int, b as int));
                                assert(Self::listed_in(&mid, mid.active@[m], had));
                                let x = had.index_of((a, b));
                                assert(kept@[x] == (a, b));
                            }
                        }
                    }
                    assert forall|m: int| 0 <= m < kept@.len() implies Self::met(
                        self,
                        (#[trigger] kept@[m]),
                        now,
                        t0,
                        io@,
                    ) by {
                        let (a, b) = kept@[m];
                        if (a, b) != (i, j) {
                            assert(kept@[m] == had[m]);
                            assert(Self::met(&mid, had[m], now, t0, t1));
                            if fleet::has_channel(self.namespaces@, a as int, b as int) {
                                assert(fleet::has_channel(mid.namespaces@, a as int, b as int));
                                assert(fleet::channel_at(self.namespaces@, a as int, b as int)
                                    == fleet::channel_at(mid.namespaces@, a as int, b as int));
                            }
                        }
                    }
                }
            }
            n = n + 1;
        }
        let ghost last = *self;
        self.active = kept;
        proof {
            assert(before.active@.take(n as int) =~= before.active@);
            assert(went_round(before.active@, now, keeps, states, traces));
            assert forall|a: int, b: int|
                #![trigger fleet::channel_at(self.namespaces@, a, b)]
                fleet::has_channel(self.namespaces@, a, b) && fleet::channel_at(
                    self.namespaces@,
                    a,
                    b,
                ).is_in_active_list implies self.active@.contains((a as usize, b as usize)) by {
                assert(fleet::channel_at(last.namespaces@, a, b).is_in_active_list);
                assert(last.active@.contains((a as usize, b as usize)));
                let m = last.active@.index_of((a as usize, b as usize));
                assert(Self::listed_in(&last, last.active@[m], kept@));
            }
            assert forall|k: int| 0 <= k < self.active@.len() implies {
                let (i, j) = #[trigger] self.active@[k];
                fleet::has_channel(self.namespaces@, i as int, j as int) ==> !is_due(
                    self.at(i as int, j as int).flush_due(),
                    now,
                )
            } by {
                assert(Self::met(&last, kept@[k], now, t0, io@));
                let (i, j) = kept@[k];
                assert(self.at(i as int, j as int) == last.at(i as int, j as int));
            }
            if !medium::troubled(t0, io@) {
                assert forall|k: int| 0 <= k < self.active@.len() implies {
                    let (i, j) = #[trigger] self.active@[k];
                    fleet::has_channel(self.namespaces@, i as int, j as int) ==> !is_due(
                        self.at(i as int, j as int).sync_due(),
                        now,
                    )
                } by {
                    assert(Self::met(&last, kept@[k], now, t0, io@));
                    let (i, j) = kept@[k];
                    assert(self.at(i as int, j as int) == last.at(i as int, j as int));
                }
            }
        }
    }

    /// Every channel of the list was serviced, and the list holds those that still have
    /// something to service.
    pub open spec fn serviced_all(
        before: &WriterLoop,
        after: &WriterLoop,
        now: u64,
        t0: Seq<Op>,
        t1: Seq<Op>,
    ) -> bool {
        exists|keeps: Seq<bool>, states: Seq<WriterLoop>, traces: Seq<Seq<Op>>|
            {
                &&& #[trigger] went_round(before.active@, now, keeps, states, traces)
                &&& states[0] == *before
                &&& traces[0] == t0
                &&& traces.last() == t1
                &&& after.active@ == still_listed(before.active@, keeps)
                &&& *after == (WriterLoop { active: after.active, ..states.last() })
            }
    }

    /// The channel at an address is in the list, if it has to be.
    spec fn listed_in(w: &WriterLoop, address: (usize, usize), list: Seq<(usize, usize)>) -> bool {
        let (i, j) = address;
        fleet::has_channel(w.namespaces@, i as int, j as int) && w.at(
            i as int,
            j as int,
        ).is_in_active_list ==> list.contains(address)
    }

    /// The deadlines of the channel at an address are met.
    spec fn met(
        w: &WriterLoop,
        address: (usize, usize),
        now: u64,
        t0: Seq<Op>,
        t1: Seq<Op>,
    ) -> bool {
        let (i, j) = address;
        fleet::has_channel(w.namespaces@, i as int, j as int) ==> {
            &&& !is_due(w.at(i as int, j as int).flush_due(), now)
            &&& is_due(w.at(i as int, j as int).sync_due(), now) ==> medium::troubled(t0, t1)
        }
    }

    /// A turn of the loop: the notices, then, at a reading of the clock, the deadlines and the
    /// limits, then the ceiling on memory.
    pub open spec fn ticked(
        before: &WriterLoop,
        after: &WriterLoop,
        now: u64,
        t0: Seq<Op>,
        t4: Seq<Op>,
    ) -> bool {
        exists|
            a: WriterLoop,
            b: WriterLoop,
            c: WriterLoop,
            ta: Seq<Op>,
            t2: Seq<Op>,
            t3: Seq<Op>,
            overruns: Option<usize>,
            over: bool,
        |
            {
                let t1 = ta.push(Op::Now { nanos: now });
                &&& #[trigger] Self::noticed(before, &a, t0, ta)
                &&& medium::refusals(ta) >= medium::refusals(t0)
                &&& b.wf()
                &&& Self::serviced_all(&a, &b, now, t1, t2)
                &&& nothing_overdue(&b, now)
                &&& nothing_unsynced(&b, now) || medium::troubled(t1, t2)
                &&& fleet::same_fleet(a.namespaces@, b.namespaces@)
                &&& b.taken@ == a.taken@
                &&& medium::no_input(t1, t2)
                &&& #[trigger] Self::within_limits(&b, &c, now, overruns, t2, t3)
                &&& #[trigger] Self::relieved(&c, after, over, t3, t4)
                &&& after.same_setup(before)
                &&& c.same_setup(before)
                &&& medium::no_input(t3, t4)
                &&& fleet::same_fleet(b.namespaces@, c.namespaces@)
                &&& fleet::same_fleet(c.namespaces@, after.namespaces@)
            }
    }

    /// A turn of the loop: the notices, the deadlines and the limits. The clock is read after
    /// the notices, so that a block begun by one counts from before that reading.
    pub fn tick<M: Medium>(&mut self, io: &mut Io<M>)
        requires
            old(self).wf(),
            old(self).balanced(old(io)@),
        ensures
            final(self).wf(),
            final(self).balanced(final(io)@),
            final(self).same_setup(old(self)),
            final(self).batch@ == old(self).batch@,
            fleet::same_fleet(old(self).namespaces@, final(self).namespaces@),
            medium::refusals(final(io)@) >= medium::refusals(old(io)@),
            medium::grown(old(io)@, final(io)@),
            final(self).drops_seen == old(self).counters.dropped,
            final(self).taken@ >= old(self).taken@,
            exists|now: u64| #[trigger]
                Self::ticked(old(self), final(self), now, old(io)@, final(io)@),
    {
        let ghost before = *self;
        let ghost t0 = io@;
        self.emit_drop_notices(io);
        let ghost a = *self;
        let ghost ta = io@;
        let now: u64 = io.now();
        self.service(now, io);
        let ghost b = *self;
        let ghost t2 = io@;
        let overruns = self.enforce_limits(now, io);
        let ghost c = *self;
        let ghost t3 = io@;
        let over: bool = self.enforce_memory(io);
        proof {
            fleet::lemma_same_fleet_trans(before.namespaces@, a.namespaces@, b.namespaces@);
            fleet::lemma_same_fleet_trans(before.namespaces@, b.namespaces@, c.namespaces@);
            fleet::lemma_same_fleet_trans(before.namespaces@, c.namespaces@, self.namespaces@);
            assert(Self::noticed(&before, &a, t0, ta));
            assert(Self::within_limits(&b, &c, now, overruns, t2, t3));
            assert(Self::relieved(&c, self, over, t3, io@));
            assert(Self::ticked(&before, self, now, t0, io@));
        }
    }
}

// ---------------------------------------------------------------------------
// What a turn of the loop promises
// ---------------------------------------------------------------------------

/// A channel that owes the medium a sync, or holds a block, is in the list of those serviced.
proof fn lemma_debtors_are_listed(w: &WriterLoop, i: int, j: int) -> (k: int)
    requires
        w.wf(),
        fleet::has_channel(w.namespaces@, i, j),
        w.at(i, j).dirty_since_sync || w.at(i, j).block.count > 0,
    ensures
        0 <= k < w.active@.len(),
        w.active@[k].0 == i,
        w.active@[k].1 == j,
{
    assert(fleet::channel_at(w.namespaces@, i, j).ready());
    assert(w.active@.contains((i as usize, j as usize)));
    w.active@.index_of((i as usize, j as usize))
}

/// What was written is synced within the channel's sync interval, and what was taken is written
/// within its flush interval. After the deadlines were met at `now`, unless the medium refused
/// something, a channel whose last sync lies its sync interval back has no block in its open segment
/// that was not synced, and no channel holds a block that was begun its flush interval ago.
pub proof fn law_deadlines_are_met_within_the_interval(
    w: &WriterLoop,
    now: u64,
    t0: Seq<Op>,
    t1: Seq<Op>,
    i: int,
    j: int,
)
    requires
        w.wf(),
        w.balanced(t1),
        nothing_overdue(w, now),
        nothing_unsynced(w, now) || medium::troubled(t0, t1),
        !medium::troubled(t0, t1),
        fleet::has_channel(w.namespaces@, i, j),
    ensures
        ({
            let ch = w.at(i, j);
            &&& ch.last_sync + ch.config.sync_interval.nanos <= now ==> ch.is_synced(t1) && (
            ch.segment matches Some(s) ==> !medium::unsynced(t1, s.file))
            &&& ch.block.count > 0 ==> (ch.block_opened matches Some(since) && since
                + ch.config.flush_interval.nanos > now)
        }),
{
    let ch = w.at(i, j);
    assert(fleet::channel_at(w.namespaces@, i, j).ready());
    fleet::lemma_honest_at(w.namespaces@, t1, i, j);
    if ch.dirty_since_sync || ch.block.count > 0 {
        let k = lemma_debtors_are_listed(w, i, j);
        let (a, b) = w.active@[k];
        assert(!is_due(w.at(a as int, b as int).flush_due(), now));
        assert(!is_due(w.at(a as int, b as int).sync_due(), now));
    }
}

/// After a turn of the loop at `now` in which the medium refused nothing, no channel has written a
/// block that is not synced although its last sync lies its sync interval back, and none holds a
/// block that was begun its flush interval ago. Where memory is bounded there is one exception: a
/// block that was flushed at the end of the turn for the sake of its memory is synced by the next
/// turn.
pub proof fn law_a_turn_leaves_nothing_unsynced_beyond_the_interval(
    before: &WriterLoop,
    after: &WriterLoop,
    now: u64,
    t0: Seq<Op>,
    t4: Seq<Op>,
    i: int,
    j: int,
)
    requires
        WriterLoop::ticked(before, after, now, t0, t4),
        after.wf(),
        after.balanced(t4),
        !medium::troubled(t0, t4),
        fleet::has_channel(after.namespaces@, i, j),
    ensures
        ({
            let ch = after.at(i, j);
            &&& ch.last_sync + ch.config.sync_interval.nanos <= now && (ch.segment matches Some(s)
                && medium::unsynced(t4, s.file)) ==> {
                &&& before.buffer_ceiling is Some
                &&& ch.block.count == 0
                &&& ch.buffers_released
            }
            &&& ch.block.count > 0 ==> (ch.block_opened matches Some(since) && since
                + ch.config.flush_interval.nanos > now)
        }),
{
    let (a, b, c, ta, t2, t3, overruns, over) = choose|
        a: WriterLoop,
        b: WriterLoop,
        c: WriterLoop,
        ta: Seq<Op>,
        t2: Seq<Op>,
        t3: Seq<Op>,
        overruns: Option<usize>,
        over: bool,
    |
        {
            let t1 = ta.push(Op::Now { nanos: now });
            &&& #[trigger] WriterLoop::noticed(before, &a, t0, ta)
            &&& medium::refusals(ta) >= medium::refusals(t0)
            &&& b.wf()
            &&& WriterLoop::serviced_all(&a, &b, now, t1, t2)
            &&& nothing_overdue(&b, now)
            &&& nothing_unsynced(&b, now) || medium::troubled(t1, t2)
            &&& fleet::same_fleet(a.namespaces@, b.namespaces@)
            &&& b.taken@ == a.taken@
            &&& medium::no_input(t1, t2)
            &&& #[trigger] WriterLoop::within_limits(&b, &c, now, overruns, t2, t3)
            &&& #[trigger] WriterLoop::relieved(&c, after, over, t3, t4)
            &&& after.same_setup(before)
            &&& c.same_setup(before)
            &&& medium::no_input(t3, t4)
            &&& fleet::same_fleet(b.namespaces@, c.namespaces@)
            &&& fleet::same_fleet(c.namespaces@, after.namespaces@)
        };
    let t1 = ta.push(Op::Now { nanos: now });
    crate::upkeep::lemma_limits_owe_nothing(&b, &c, now, overruns, t2, t3);
    medium::lemma_landed_push(ta, Op::Now { nanos: now });
    assert(after.namespaces@[i] is Some);
    assert(c.namespaces@[i] is Some);
    assert(fleet::has_channel(c.namespaces@, i, j));
    assert(b.namespaces@[i] is Some);
    assert(fleet::has_channel(b.namespaces@, i, j));
    let ch = after.at(i, j);
    assert(fleet::channel_at(after.namespaces@, i, j).ready());
    assert(fleet::channel_at(after.namespaces@, i, j).same_channel(&c.at(i, j)));
    assert(fleet::channel_at(c.namespaces@, i, j).same_channel(&b.at(i, j)));
    fleet::lemma_honest_at(after.namespaces@, t4, i, j);
    let untouched = ch == c.at(i, j);
    assert(untouched || ch.block.count == 0 && ch.buffers_released);
    if untouched && (ch.segment matches Some(s) && medium::unsynced(t4, s.file)) {
        assert(b.at(i, j).dirty_since_sync);
        let k = lemma_debtors_are_listed(&b, i, j);
        let (x, y) = b.active@[k];
        assert(!is_due(b.at(x as int, y as int).sync_due(), now));
    }
    if ch.block.count > 0 {
        assert(b.at(i, j).block.count > 0);
        let k = lemma_debtors_are_listed(&b, i, j);
        let (x, y) = b.active@[k];
        assert(!is_due(b.at(x as int, y as int).flush_due(), now));
    }
    if before.buffer_ceiling is None {
        assert(*after == c);
    }
}

/// The loop wakes up in time: it never sleeps past the moment at which a block has been open for
/// its channel's flush interval or a sync is its sync interval old, except for the shortest wait.
/// With nothing to service it sleeps a quarter of a second.
pub proof fn law_the_loop_wakes_up_in_time(w: &WriterLoop, now: u64, wait: u128, i: int, j: int)
    requires
        w.wf(),
        wakes_in(w, now, wait),
        fleet::has_channel(w.namespaces@, i, j),
    ensures
        ({
            let ch = w.at(i, j);
            &&& ch.block.count > 0 ==> (ch.block_opened matches Some(since) && (now + wait <= since
                + ch.config.flush_interval.nanos || wait == 1_000_000))
            &&& ch.dirty_since_sync ==> now + wait <= ch.last_sync
                + ch.config.sync_interval.nanos || wait == 1_000_000
            &&& w.active@.len() == 0 ==> wait == 250_000_000
        }),
{
    let ch = w.at(i, j);
    assert(fleet::channel_at(w.namespaces@, i, j).ready());
    if ch.dirty_since_sync || ch.block.count > 0 {
        let k = lemma_debtors_are_listed(w, i, j);
        let (a, b) = w.active@[k];
        assert(w.at(a as int, b as int) == ch);
        assert(!no_deadline(w, w.active@.len() as int));
    }
}

/// The loop does not wake up for nothing: where it does not sleep as long as it may, some channel
/// has a block that has been open for its flush interval, or a sync its sync interval old, by then.
pub proof fn law_the_loop_wakes_up_for_a_reason(w: &WriterLoop, now: u64, wait: u128)
    requires
        wakes_in(w, now, wait),
        wait != 250_000_000,
    ensures
        exists|i: int, j: int|
            {
                &&& #[trigger] fleet::has_channel(w.namespaces@, i, j)
                &&& {
                    ||| w.at(i, j).block_opened matches Some(since) && since + w.at(
                        i,
                        j,
                    ).config.flush_interval.nanos <= now + wait
                    ||| w.at(i, j).dirty_since_sync && w.at(i, j).last_sync + w.at(
                        i,
                        j,
                    ).config.sync_interval.nanos <= now + wait
                }
            },
{
    let d = choose|d: int| #[trigger]
        is_deadline(w, d) && no_deadline_before(w, w.active@.len() as int, d) && wait == if d - now
            >= MIN_TIMEOUT {
            d - now
        } else {
            MIN_TIMEOUT as int
        };
    let k = choose|k: int|
        0 <= k < w.active@.len() && {
            let (i, j) = #[trigger] w.active@[k];
            &&& fleet::has_channel(w.namespaces@, i as int, j as int)
            &&& w.at(i as int, j as int).flush_due() == Some(d) || w.at(
                i as int,
                j as int,
            ).sync_due() == Some(d)
        };
    let (i, j) = w.active@[k];
    assert(fleet::has_channel(w.namespaces@, i as int, j as int));
}

/// A channel without anything to service gives up what it holds in two stages: its buffers once it
/// has been idle for two seconds, its segment and its place in the list once it has been for five
/// minutes. One with something to service is not idle and stays in the list.
pub proof fn law_idleness_is_given_up_in_two_stages(
    before: ChannelState,
    after: ChannelState,
    now: u64,
    keep: bool,
)
    requires
        serviced(before, after, now, keep),
    ensures
        after.block_opened is Some || after.dirty_since_sync ==> keep && after.idle_since is None,
        after.block_opened is None && !after.dirty_since_sync ==> match before.idle_since {
            Some(since) => {
                &&& since <= now ==> (keep <==> now - since < 300_000_000_000)
                &&& keep ==> after.idle_since == Some(since)
                &&& since + 2_000_000_000 <= now ==> after.buffers_released
                &&& !keep ==> !after.is_in_active_list && after.idle_since is None
            },
            None => keep && after.idle_since == Some(now),
        },
        before.block.count > 0 && (before.block_opened matches Some(since) && since
            + before.config.flush_interval.nanos > now) ==> after.block == before.block
            && after.block_opened == before.block_opened,
        before.block_opened matches Some(since) && since + before.config.flush_interval.nanos <= now
            ==> after.block.count == 0,
{
}

} // verus!
