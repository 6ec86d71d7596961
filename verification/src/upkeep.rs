//! What the loop does between batches: budgets, deadlines, idleness, memory.

use crate::budget;
use crate::budget::{Pick, Step, RELEASE_AFTER};
use crate::channel_state::ChannelState;
use crate::error::Error;
use crate::fleet;
use crate::fleet::NsState;
use crate::losses;
use crate::medium;
use crate::medium::{Io, Medium, Op, SegmentFile};
use crate::stats;
use crate::stats::Counters;
use crate::writer_loop;
use crate::writer_loop::{GroupBudget, WriterLoop};
use vstd::prelude::*;

verus! {

broadcast use {
    crate::medium::group_trace,
    crate::medium::group_synced,
    crate::fleet::lemma_honest_on,
};

/// How many of the first `n` groups are over their budgets.
pub open spec fn over_count(
    groups: Seq<GroupBudget>,
    namespaces: Seq<Option<NsState>>,
    n: int,
) -> int
    decreases n,
{
    if n <= 0 {
        0
    } else {
        over_count(groups, namespaces, n - 1) + if fleet::group_total(namespaces, (n - 1) as usize)
            > groups[n - 1].budget_bytes {
            1int
        } else {
            0
        }
    }
}

/// Every group is within its budget.
pub open spec fn all_within(groups: Seq<GroupBudget>, namespaces: Seq<Option<NsState>>) -> bool {
    forall|g: int|
        0 <= g < groups.len() ==> fleet::group_total(namespaces, g as usize)
            <= (#[trigger] groups[g]).budget_bytes
}

/// The largest growth limit among the channels of a medium.
pub open spec fn is_largest_on(namespaces: Seq<Option<NsState>>, root: u8, n: u64) -> bool {
    &&& forall|i: int, j: int|
        #![trigger fleet::channel_at(namespaces, i, j)]
        fleet::has_channel(namespaces, i, j) && fleet::channel_at(namespaces, i, j).root_key == root
            ==> fleet::channel_at(namespaces, i, j).config.segment_bytes <= n
    &&& n == 0 || exists|i: int, j: int|
        #![trigger fleet::channel_at(namespaces, i, j)]
        fleet::has_channel(namespaces, i, j) && fleet::channel_at(namespaces, i, j).root_key == root
            && fleet::channel_at(namespaces, i, j).config.segment_bytes == n
}

impl WriterLoop {
    /// The largest growth limit among the channels of a medium: what has to be
    /// freed for the next write to stand a chance. Less than a whole segment would
    /// cost one more lost record on every turn.
    pub fn max_segment_bytes_on(&self, root: u8) -> (n: u64)
        ensures
            is_largest_on(self.namespaces@, root, n),
    {
        let ghost nss = self.namespaces@;
        let mut most: u64 = 0;
        let mut i: usize = 0;
        while i < self.namespaces.len()
            invariant
                i <= self.namespaces@.len(),
                nss == self.namespaces@,
                largest_before(nss, root, most, i as int, 0),
            decreases self.namespaces@.len() - i,
        {
            let n: usize = self.channels_in(i);
            let mut j: usize = 0;
            while j < n
                invariant
                    i < self.namespaces@.len(),
                    n == match self.namespaces@[i as int] {
                        Some(ns) => ns.channels@.len(),
                        None => 0,
                    },
                    j <= n,
                    nss == self.namespaces@,
                    largest_before(nss, root, most, i as int, j as int),
                decreases n - j,
            {
                assert(fleet::has_channel(nss, i as int, j as int));
                proof {
                    let _ = fleet::channel_at(nss, i as int, j as int);
                }
                match &self.namespaces[i] {
                    Some(ns) => {
                        if ns.channels[j].root_key == root && ns.channels[j].config.segment_bytes
                            > most {
                            most = ns.channels[j].config.segment_bytes;
                        }
                    },
                    None => {},
                }
                j = j + 1;
            }
            proof {
                assert forall|a: int, b: int| #[trigger] fleet::has_channel(
                    nss,
                    a,
                    b,
                ) implies losses::before_address(a, b, i as int, j as int)
                    == losses::before_address(a, b, i + 1, 0) by {}
            }
            i = i + 1;
        }
        proof {
            assert forall|a: int, b: int| #[trigger] fleet::has_channel(
                nss,
                a,
                b,
            ) implies losses::before_address(a, b, i as int, 0) by {}
        }
        most
    }

    /// A medium gives up its oldest segment while its segments occupy more than `target`.
    pub open spec fn clearing(root: u8, target: int) -> Step {
        |before: WriterLoop, after: WriterLoop, t0: Seq<Op>, t1: Seq<Op>|
            {
                &&& budget::root_total(before.namespaces@, root) > target
                &&& exists|freed: Option<u64>, i: int, j: int|
                    budget::is_victim(before.namespaces@, Pick::Root(root), i, j)
                        && #[trigger] budget::evicted(&before, &after, t0, t1, freed, i, j)
            }
    }

    /// At least the largest segment of a medium was freed, one segment after another,
    /// the oldest first, and no more of them than that takes; or there is nothing left to
    /// give.
    pub open spec fn made_room(
        before: &WriterLoop,
        after: &WriterLoop,
        root: u8,
        freed: int,
        t0: Seq<medium::Op>,
        t1: Seq<medium::Op>,
    ) -> bool {
        &&& budget::root_total(after.namespaces@, root) == budget::root_total(
            before.namespaces@,
            root,
        ) - freed
        &&& exists|need: u64, states: Seq<WriterLoop>, traces: Seq<Seq<Op>>|
            {
                &&& #[trigger] is_largest_on(before.namespaces@, root, need)
                &&& #[trigger] budget::chained(
                    Self::clearing(root, budget::root_total(before.namespaces@, root) - need),
                    states,
                    traces,
                )
                &&& states[0] == *before
                &&& states.last() == *after
                &&& traces[0] == t0
                &&& traces.last() == t1
                &&& freed >= need || budget::exhausted(after.namespaces@, Pick::Root(root))
                    || budget::undeleted(t1)
            }
    }

    /// The first `n` media one after another: where one ran out of space, room was
    /// made on it.
    pub open spec fn freed_media(
        pressured: u8,
        states: Seq<WriterLoop>,
        traces: Seq<Seq<medium::Op>>,
        n: int,
    ) -> bool {
        &&& states.len() == n + 1
        &&& traces.len() == n + 1
        &&& forall|k: int|
            #![trigger states[k]]
            0 <= k < n ==> Self::freed_medium(
                pressured,
                k as u8,
                &states[k],
                &states[k + 1],
                traces[k],
                traces[k + 1],
            )
    }

    /// Where a medium ran out of space, room was made on it.
    pub open spec fn freed_medium(
        pressured: u8,
        root: u8,
        before: &WriterLoop,
        after: &WriterLoop,
        t0: Seq<medium::Op>,
        t1: Seq<medium::Op>,
    ) -> bool {
        if pressured & writer_loop::bit_of(root) != 0 {
            exists|freed: int| #[trigger] Self::made_room(before, after, root, freed, t0, t1)
        } else {
            *after == *before && t1 == t0
        }
    }

    /// Frees at least the largest segment of a medium, the oldest history first;
    /// the answer is how much was freed.
    #[verifier::rlimit(40)]
    pub fn make_room<M: Medium>(&mut self, root: u8, io: &mut Io<M>) -> (freed: u128)
        requires
            old(self).wf(),
            old(self).balanced(old(io)@),
        ensures
            final(self).wf(),
            final(self).balanced(final(io)@),
            final(self).same_setup(old(self)),
            final(self).same_round(old(self)),
            final(self).counters.same_upkeep(old(self).counters),
            fleet::same_fleet(old(self).namespaces@, final(self).namespaces@),
            medium::no_input(old(io)@, final(io)@),
            Self::made_room(old(self), final(self), root, freed as int, old(io)@, final(io)@),
    {
        let ghost before = *self;
        let ghost t0 = io@;
        let need: u64 = self.max_segment_bytes_on(root);
        let mut freed: u128 = 0;
        let mut more: bool = true;
        proof {
            fleet::lemma_same_fleet_refl(self.namespaces@);
            budget::lemma_segments_not_negative(self.namespaces@);
        }
        let ghost target = budget::root_total(self.namespaces@, root) - need;
        let ghost step = Self::clearing(root, target);
        proof {
            budget::lemma_chain_of_one(step, *self, io@);
        }
        let ghost mut states: Seq<WriterLoop> = seq![*self];
        let ghost mut traces: Seq<Seq<Op>> = seq![io@];
        while more && freed < need as u128
            invariant
                target == budget::root_total(before.namespaces@, root) - need,
                step == Self::clearing(root, target),
                budget::chained(step, states, traces),
                states[0] == before,
                states.last() == *self,
                traces[0] == t0,
                traces.last() == io@,
                self.wf(),
                self.balanced(io@),
                self.same_setup(&before),
                self.same_round(&before),
                self.counters.same_upkeep(before.counters),
                fleet::same_fleet(before.namespaces@, self.namespaces@),
                medium::no_input(t0, io@),
                freed <= 2 * u64::MAX,
                budget::root_total(self.namespaces@, root) == budget::root_total(
                    before.namespaces@,
                    root,
                ) - freed,
                !more ==> budget::exhausted(self.namespaces@, Pick::Root(root))
                    || budget::undeleted(io@),
                budget::segments(self.namespaces@) >= 0,
            decreases
                    budget::segments(self.namespaces@) + if more {
                        1int
                    } else {
                        0
                    },
        {
            let ghost mid = *self;
            let ghost t1 = io@;
            let went = self.evict_oldest_where(Pick::Root(root), io);
            proof {
                fleet::lemma_same_fleet_trans(
                    before.namespaces@,
                    mid.namespaces@,
                    self.namespaces@,
                );
                if !budget::exhausted(mid.namespaces@, Pick::Root(root)) {
                    let (i, j) = choose|i: int, j: int|
                        budget::is_victim(mid.namespaces@, Pick::Root(root), i, j)
                            && #[trigger] budget::evicted(&mid, self, t1, io@, went, i, j);
                    assert(step(mid, *self, t1, io@));
                    budget::lemma_chain_link(step, states, traces, *self, io@);
                    states = states.push(*self);
                    traces = traces.push(io@);
                    if went is Some {
                        budget::lemma_eviction(
                            mid.namespaces@,
                            self.namespaces@,
                            Pick::Root(root),
                            i,
                            j,
                        );
                    }
                }
            }
            match went {
                Some(n) => {
                    freed = freed + n as u128;
                },
                None => {
                    more = false;
                },
            }
        }
        assert(is_largest_on(before.namespaces@, root, need));
        assert(budget::chained(Self::clearing(root, target), states, traces));
        freed
    }

    /// A step of bringing groups under their budgets: a group over its budget gives up
    /// its oldest segment; where it has none left to give up, or none that could be deleted,
    /// quiet channels release theirs.
    pub open spec fn slimming(groups: Seq<GroupBudget>, now: u64) -> Step {
        |before: WriterLoop, after: WriterLoop, t0: Seq<Op>, t1: Seq<Op>|
            exists|g: usize| #[trigger] Self::slimmed(groups, g, now, before, after, t0, t1)
    }

    pub open spec fn slimmed(
        groups: Seq<GroupBudget>,
        g: usize,
        now: u64,
        before: WriterLoop,
        after: WriterLoop,
        t0: Seq<Op>,
        t1: Seq<Op>,
    ) -> bool {
        &&& (g as int) < groups.len()
        &&& fleet::group_total(before.namespaces@, g) > groups[g as int].budget_bytes
        &&& {
            ||| budget::giving_up(g, groups[g as int].budget_bytes)(before, after, t0, t1)
            ||| {
                &&& budget::exhausted(before.namespaces@, Pick::Group(g)) || budget::undeleted(t0)
                &&& Self::rested(&before, &after, now, RELEASE_AFTER, t0, t1)
            }
        }
    }

    /// The groups were brought under their budgets step by step, and those that stayed
    /// over were counted.
    pub open spec fn slimmed_down(
        before: &WriterLoop,
        after: &WriterLoop,
        now: u64,
        t0: Seq<Op>,
        t1: Seq<Op>,
    ) -> bool {
        exists|states: Seq<WriterLoop>, traces: Seq<Seq<Op>>|
            {
                &&& #[trigger] budget::chained(Self::slimming(before.groups@, now), states, traces)
                &&& states[0] == *before
                &&& traces[0] == t0
                &&& traces.last() == t1
                &&& *after == (WriterLoop {
                    counters: Counters {
                        budget_overruns: after.counters.budget_overruns,
                        ..states.last().counters
                    },
                    ..states.last()
                })
            }
    }

    /// Brings every group back under its budget. Where evicting is not enough the
    /// unwritten tails of quiet channels go too: that is cheaper than declaring a
    /// budget unmeetable. A group that stays over is counted.
    #[verifier::rlimit(40)]
    pub fn enforce_groups<M: Medium>(&mut self, now: u64, io: &mut Io<M>) -> (overruns: usize)
        requires
            old(self).wf(),
            old(self).balanced(old(io)@),
        ensures
            final(self).wf(),
            final(self).balanced(final(io)@),
            final(self).same_setup(old(self)),
            final(self).same_round(old(self)),
            fleet::all_flushed(old(self).namespaces@) ==> fleet::all_flushed(
                final(self).namespaces@,
            ),
            fleet::all_closed(old(self).namespaces@) ==> fleet::all_closed(
                final(self).namespaces@,
            ),
            fleet::same_fleet(old(self).namespaces@, final(self).namespaces@),
            medium::no_input(old(io)@, final(io)@),
            overruns == over_count(
                old(self).groups@,
                final(self).namespaces@,
                old(self).groups@.len() as int,
            ),
            final(self).counters.budget_overruns == stats::plus(
                old(self).counters.budget_overruns,
                overruns as int,
            ),
            forall|g: int|
                0 <= g < old(self).groups@.len() ==> budget::within(
                    final(self).namespaces@,
                    g as usize,
                    (#[trigger] old(self).groups@[g]).budget_bytes,
                ) || medium::troubled(old(io)@, final(io)@),
            all_within(old(self).groups@, old(self).namespaces@) ==> *final(self) == *old(self)
                && final(io)@ == old(io)@,
            Self::slimmed_down(old(self), final(self), now, old(io)@, final(io)@),
    {
        let ghost before = *self;
        let ghost t0 = io@;
        let ghost groups = self.groups@;
        let ghost step = Self::slimming(groups, now);
        proof {
            budget::lemma_chain_of_one(step, *self, io@);
        }
        let ghost mut states: Seq<WriterLoop> = seq![*self];
        let ghost mut traces: Seq<Seq<Op>> = seq![io@];
        let ghost calm = all_within(groups, before.namespaces@);
        proof {
            fleet::lemma_same_fleet_refl(self.namespaces@);
        }
        let n: usize = self.groups.len();
        let mut parked: bool = false;
        let mut g: usize = 0;
        while g < n
            invariant
                g <= n,
                n == groups.len(),
                groups == before.groups@,
                step == Self::slimming(groups, now),
                budget::chained(step, states, traces),
                states[0] == before,
                states.last() == *self,
                traces[0] == t0,
                traces.last() == io@,
                calm == all_within(groups, before.namespaces@),
                self.wf(),
                self.balanced(io@),
                self.same_setup(&before),
                self.same_round(&before),
                fleet::all_flushed(before.namespaces@) ==> fleet::all_flushed(self.namespaces@),
                fleet::all_closed(before.namespaces@) ==> fleet::all_closed(self.namespaces@),
                fleet::same_fleet(before.namespaces@, self.namespaces@),
                medium::no_input(t0, io@),
                self.counters.budget_overruns == before.counters.budget_overruns,
                calm ==> *self == before && io@ == t0,
                forall|h: int|
                    0 <= h < g ==> budget::within(
                        self.namespaces@,
                        h as usize,
                        (#[trigger] groups[h]).budget_bytes,
                    ) || medium::troubled(t0, io@),
            decreases n - g,
        {
            let ghost mid = *self;
            let ghost t1 = io@;
            let budget_bytes: u64 = self.groups[g].budget_bytes;
            assert(groups[g as int].budget_bytes == budget_bytes);
            let _ = self.evict_group_down_to(g, budget_bytes, io);
            proof {
                fleet::lemma_same_fleet_trans(
                    before.namespaces@,
                    mid.namespaces@,
                    self.namespaces@,
                );
                let (s, t) = Self::lemma_slimmer(&mid, self, groups, g, now, t1, io@, states, traces);
                states = s;
                traces = t;
            }
            if !parked && self.group_bytes(g) > budget_bytes as u128 {
                parked = true;
                let ghost half = *self;
                let ghost t2 = io@;
                let released: usize = self.park_idle(now, RELEASE_AFTER, io);
                proof {
                    assert(Self::slimmed(groups, g, now, half, *self, t2, io@));
                    assert(step(half, *self, t2, io@));
                    budget::lemma_chain_link(step, states, traces, *self, io@);
                    states = states.push(*self);
                    traces = traces.push(io@);
                    fleet::lemma_same_fleet_trans(
                        before.namespaces@,
                        half.namespaces@,
                        self.namespaces@,
                    );
                    if fleet::all_closed(half.namespaces@) {
                        assert forall|a: int, b: int|
                            fleet::has_channel(self.namespaces@, a, b) implies (
                        #[trigger] fleet::channel_at(self.namespaces@, a, b)).segment is None by {
                            assert(half.namespaces@[a] is Some);
                            assert(fleet::has_channel(half.namespaces@, a, b));
                            assert(fleet::channel_at(half.namespaces@, a, b).segment is None);
                            assert(self.at(a, b) == half.at(a, b));
                        }
                    }
                }
                if released > 0 {
                    let mut h: usize = 0;
                    while h <= g
                        invariant
                            g < n,
                            h <= g + 1,
                            n == groups.len(),
                            groups == before.groups@,
                            step == Self::slimming(groups, now),
                            budget::chained(step, states, traces),
                            states[0] == before,
                            states.last() == *self,
                            traces[0] == t0,
                            traces.last() == io@,
                            self.wf(),
                            self.balanced(io@),
                            self.same_setup(&before),
                            self.same_round(&before),
                            fleet::all_flushed(before.namespaces@) ==> fleet::all_flushed(self.namespaces@),
                            fleet::all_closed(before.namespaces@) ==> fleet::all_closed(self.namespaces@),
                            fleet::same_fleet(before.namespaces@, self.namespaces@),
                            medium::no_input(t0, io@),
                            self.counters.budget_overruns == before.counters.budget_overruns,
                            forall|k: int|
                                0 <= k < h ==> budget::within(
                                    self.namespaces@,
                                    k as usize,
                                    (#[trigger] groups[k]).budget_bytes,
                                ) || medium::troubled(t0, io@),
                        decreases g + 1 - h,
                    {
                        let ghost mid = *self;
                        let ghost t3 = io@;
                        let bytes: u64 = self.groups[h].budget_bytes;
                        assert(groups[h as int].budget_bytes == bytes);
                        let _ = self.evict_group_down_to(h, bytes, io);
                        proof {
                            fleet::lemma_same_fleet_trans(
                                before.namespaces@,
                                mid.namespaces@,
                                self.namespaces@,
                            );
                            let (s, t) = Self::lemma_slimmer(
                                &mid,
                                self,
                                groups,
                                h,
                                now,
                                t3,
                                io@,
                                states,
                                traces,
                            );
                            states = s;
                            traces = t;
                        }
                        h = h + 1;
                    }
                }
            }
            g = g + 1;
        }
        let ghost last = *self;
        let mut overruns: usize = 0;
        let mut k: usize = 0;
        proof {
            stats::lemma_plus_nothing(before.counters.budget_overruns);
        }
        while k < n
            invariant
                k <= n,
                n == groups.len(),
                groups == before.groups@,
                self.groups@ == groups,
                self.wf(),
                self.counters.budget_overruns == stats::plus(
                    before.counters.budget_overruns,
                    overruns as int,
                ),
                *self == (WriterLoop {
                    counters: Counters {
                        budget_overruns: self.counters.budget_overruns,
                        ..last.counters
                    },
                    ..last
                }),
                overruns <= k,
                overruns == over_count(groups, self.namespaces@, k as int),
                calm == all_within(groups, before.namespaces@),
                calm ==> *self == before,
            decreases n - k,
        {
            assert(groups[k as int].budget_bytes == self.groups@[k as int].budget_bytes);
            if self.group_bytes(k) > self.groups[k].budget_bytes as u128 {
                Counters::bump(&mut self.counters.budget_overruns);
                proof {
                    stats::law_counters_add_up(
                        before.counters.budget_overruns,
                        overruns as int,
                        1,
                    );
                }
                overruns = overruns + 1;
            }
            k = k + 1;
        }
        assert(budget::chained(Self::slimming(before.groups@, now), states, traces));
        overruns
    }

    /// Thinning a group goes on a chain of such steps.
    proof fn lemma_slimmer(
        before: &WriterLoop,
        after: &WriterLoop,
        groups: Seq<GroupBudget>,
        g: usize,
        now: u64,
        t0: Seq<Op>,
        t1: Seq<Op>,
        states: Seq<WriterLoop>,
        traces: Seq<Seq<Op>>,
    ) -> (r: (Seq<WriterLoop>, Seq<Seq<Op>>))
        requires
            (g as int) < groups.len(),
            Self::thinned(before, after, g, groups[g as int].budget_bytes, t0, t1),
            budget::chained(Self::slimming(groups, now), states, traces),
            states.last() == *before,
            traces.last() == t0,
        ensures
            budget::chained(Self::slimming(groups, now), r.0, r.1),
            r.0[0] == states[0],
            r.1[0] == traces[0],
            r.0.last() == *after,
            r.1.last() == t1,
    {
        let bytes = groups[g as int].budget_bytes;
        let finer = budget::giving_up(g, bytes);
        let step = Self::slimming(groups, now);
        let (s, t) = choose|s: Seq<WriterLoop>, t: Seq<Seq<Op>>|
            {
                &&& #[trigger] budget::chained(finer, s, t)
                &&& s[0] == *before
                &&& s.last() == *after
                &&& t[0] == t0
                &&& t.last() == t1
            };
        assert forall|a: WriterLoop, b: WriterLoop, x: Seq<Op>, y: Seq<Op>| #[trigger]
            finer(a, b, x, y) implies step(a, b, x, y) by {
            let (freed, i, j) = choose|freed: Option<u64>, i: int, j: int| #[trigger]
                budget::gave_up(&a, &b, x, y, g, bytes, freed, i, j);
            assert(Self::slimmed(groups, g, now, a, b, x, y));
        }
        budget::lemma_chains_join(step, states, traces, finer, s, t);
        (states + s.skip(1), traces + t.skip(1))
    }

    /// The loop once the media that ran out of space and the growth of occupancy have
    /// been seen to.
    pub open spec fn with_roots_seen(&self) -> WriterLoop {
        WriterLoop {
            pressured_roots: 0,
            occupancy_seen: self.counters.occupancy_raised,
            ..*self
        }
    }

    /// Where no medium ran out of space and no occupancy grew nothing is touched;
    /// otherwise every group is within its budget, as far as eviction goes.
    pub open spec fn within_limits(
        before: &WriterLoop,
        after: &WriterLoop,
        now: u64,
        overruns: Option<usize>,
        t0: Seq<medium::Op>,
        t1: Seq<medium::Op>,
    ) -> bool {
        &&& after.pressured_roots == 0
        &&& overruns is None == (before.pressured_roots == 0 && before.counters.occupancy_raised
            == before.occupancy_seen)
        &&& match overruns {
            None => *after == *before && t1 == t0,
            Some(n) => {
                &&& before.pressured_roots == 0 ==> Self::slimmed_down(
                    &before.with_roots_seen(),
                    after,
                    now,
                    t0,
                    t1,
                )
                &&& before.pressured_roots != 0 ==> exists|
                    states: Seq<WriterLoop>,
                    traces: Seq<Seq<medium::Op>>,
                |
                    {
                        &&& #[trigger] Self::freed_media(before.pressured_roots, states, traces, 8)
                        &&& Self::rested(
                            &(WriterLoop { pressured_roots: 0, ..*before }),
                            &states[0],
                            now,
                            RELEASE_AFTER,
                            t0,
                            traces[0],
                        )
                        &&& Self::slimmed_down(
                            &states[8].with_roots_seen(),
                            after,
                            now,
                            traces[8],
                            t1,
                        )
                        &&& all_within(before.groups@, states[8].namespaces@) ==> after.namespaces@
                            == states[8].namespaces@
                    }
                &&& after.occupancy_seen == before.counters.occupancy_raised
                    || before.pressured_roots != 0
                &&& n == over_count(
                    before.groups@,
                    after.namespaces@,
                    before.groups@.len() as int,
                )
                &&& forall|g: int|
                    0 <= g < before.groups@.len() ==> budget::within(
                        after.namespaces@,
                        g as usize,
                        (#[trigger] before.groups@[g]).budget_bytes,
                    ) || medium::troubled(t0, t1)
            },
        }
    }

    /// Keeps the store within its limits: frees space on media that ran out of it,
    /// then brings the groups under their budgets. Both call for a view wider than
    /// one channel. Where neither happened since the last time, nothing is walked.
    /// The answer is how many groups stay over, if they were looked at.
    #[verifier::rlimit(40)]
    pub fn enforce_limits<M: Medium>(&mut self, now: u64, io: &mut Io<M>) -> (overruns: Option<
        usize,
    >)
        requires
            old(self).wf(),
            old(self).balanced(old(io)@),
        ensures
            final(self).wf(),
            final(self).balanced(final(io)@),
            final(self).same_setup(old(self)),
            final(self).active@ == old(self).active@,
            final(self).batch@ == old(self).batch@,
            final(self).drops_seen == old(self).drops_seen,
            final(self).taken@ == old(self).taken@,
            fleet::same_fleet(old(self).namespaces@, final(self).namespaces@),
            medium::no_input(old(io)@, final(io)@),
            Self::within_limits(old(self), final(self), now, overruns, old(io)@, final(io)@),
    {
        let ghost before = *self;
        let ghost t0 = io@;
        proof {
            fleet::lemma_same_fleet_refl(self.namespaces@);
        }
        let ghost mut states: Seq<WriterLoop> = Seq::empty();
        let ghost mut traces: Seq<Seq<medium::Op>> = Seq::empty();
        let pressured: u8 = self.pressured_roots;
        self.pressured_roots = 0;
        if pressured != 0 {
            assert(*self == (WriterLoop { pressured_roots: 0, ..before }));
            let _ = self.park_idle(now, RELEASE_AFTER, io);
            let mut root: u8 = 0;
            proof {
                states = seq![*self];
                traces = seq![io@];
            }
            while root < 8
                invariant
                    root <= 8,
                    pressured == before.pressured_roots,
                    Self::freed_media(pressured, states, traces, root as int),
                    states.last() == *self,
                    traces.last() == io@,
                    Self::rested(
                        &(WriterLoop { pressured_roots: 0, ..before }),
                        &states[0],
                        now,
                        RELEASE_AFTER,
                        t0,
                        traces[0],
                    ),
                    self.wf(),
                    self.balanced(io@),
                    self.same_setup(&before),
                    self.active@ == before.active@,
                    self.batch@ == before.batch@,
                    self.drops_seen == before.drops_seen,
                    self.taken@ == before.taken@,
                    self.pressured_roots == 0,
                    fleet::same_fleet(before.namespaces@, self.namespaces@),
                    medium::no_input(t0, io@),
                decreases 8 - root,
            {
                let ghost mid = *self;
                let ghost t1 = io@;
                let ghost mut gain: int = 0;
                if pressured & writer_loop::root_bit(root) != 0 {
                    let freed: u128 = self.make_room(root, io);
                    proof {
                        fleet::lemma_same_fleet_trans(
                            before.namespaces@,
                            mid.namespaces@,
                            self.namespaces@,
                        );
                        gain = freed as int;
                    }
                }
                proof {
                    let s = states.push(*self);
                    let t = traces.push(io@);
                    assert forall|k: int|
                        #![trigger s[k]]
                        0 <= k < root + 1 implies Self::freed_medium(
                        pressured,
                        k as u8,
                        &s[k],
                        &s[k + 1],
                        t[k],
                        t[k + 1],
                    ) by {
                        if k < root {
                            assert(s[k] == states[k] && s[k + 1] == states[k + 1]);
                            assert(t[k] == traces[k] && t[k + 1] == traces[k + 1]);
                        } else {
                            assert(s[k] == mid && t[k] == t1);
                            assert(k as u8 == root);
                            if pressured & writer_loop::bit_of(root) != 0 {
                                assert(Self::made_room(
                                    &s[k],
                                    &s[k + 1],
                                    k as u8,
                                    gain,
                                    t[k],
                                    t[k + 1],
                                ));
                            }
                        }
                    }
                    assert(Self::freed_media(pressured, s, t, root + 1));
                    states = s;
                    traces = t;
                }
                root = root + 1;
            }
        }
        if self.counters.occupancy_raised == self.occupancy_seen && pressured == 0 {
            return None;
        }
        self.occupancy_seen = self.counters.occupancy_raised;
        let ghost mid = *self;
        let n: usize = self.enforce_groups(now, io);
        proof {
            fleet::lemma_same_fleet_trans(
                before.namespaces@,
                mid.namespaces@,
                self.namespaces@,
            );
        }
        Some(n)
    }
}

/// The largest growth limit among the channels of a medium before an address.
spec fn largest_before(nss: Seq<Option<NsState>>, root: u8, n: u64, i: int, j: int) -> bool {
    &&& forall|a: int, b: int|
        #![trigger fleet::channel_at(nss, a, b)]
        fleet::has_channel(nss, a, b) && losses::before_address(a, b, i, j) && fleet::channel_at(
            nss,
            a,
            b,
        ).root_key == root ==> fleet::channel_at(nss, a, b).config.segment_bytes <= n
    &&& n == 0 || exists|a: int, b: int|
        #![trigger fleet::channel_at(nss, a, b)]
        fleet::has_channel(nss, a, b) && fleet::channel_at(nss, a, b).root_key == root
            && fleet::channel_at(nss, a, b).config.segment_bytes == n
}

/// A channel that still has its segment has it as it was, with the debt it had; and a block that is
/// still open is the one that was, since the same moment.
pub open spec fn owes_no_more(before: &WriterLoop, after: &WriterLoop) -> bool {
    forall|i: int, j: int|
        #![trigger after.at(i, j)]
        {
            let b = before.at(i, j);
            let a = after.at(i, j);
            &&& fleet::has_channel(after.namespaces@, i, j) == fleet::has_channel(
                before.namespaces@,
                i,
                j,
            )
            &&& fleet::has_channel(before.namespaces@, i, j) && a.segment is Some ==> {
                &&& a.segment == b.segment
                &&& a.dirty_since_sync == b.dirty_since_sync
                &&& a.last_sync == b.last_sync
            }
            &&& fleet::has_channel(before.namespaces@, i, j) && a.block.count > 0 ==> {
                &&& a.block == b.block
                &&& a.block_opened == b.block_opened
            }
        }
}

/// A step that adds no debt unless the medium refused something.
pub open spec fn is_thrifty(step: Step) -> bool {
    forall|a: WriterLoop, b: WriterLoop, x: Seq<Op>, y: Seq<Op>| #[trigger]
        step(a, b, x, y) ==> {
            &&& medium::refusals(y) >= medium::refusals(x)
            &&& owes_no_more(&a, &b) || medium::troubled(x, y)
        }
}

proof fn lemma_owes_no_more_on(a: &WriterLoop, b: &WriterLoop, c: &WriterLoop)
    requires
        owes_no_more(a, b),
        owes_no_more(b, c),
    ensures
        owes_no_more(a, c),
{
    assert forall|i: int, j: int| #![trigger c.at(i, j)] {
        let x = a.at(i, j);
        let y = c.at(i, j);
        &&& fleet::has_channel(c.namespaces@, i, j) == fleet::has_channel(a.namespaces@, i, j)
        &&& fleet::has_channel(a.namespaces@, i, j) && y.segment is Some ==> {
            &&& y.segment == x.segment
            &&& y.dirty_since_sync == x.dirty_since_sync
            &&& y.last_sync == x.last_sync
        }
        &&& fleet::has_channel(a.namespaces@, i, j) && y.block.count > 0 ==> {
            &&& y.block == x.block
            &&& y.block_opened == x.block_opened
        }
    } by {
        let _ = b.at(i, j);
    }
}

proof fn lemma_thrifty_chain(
    step: Step,
    states: Seq<WriterLoop>,
    traces: Seq<Seq<Op>>,
    n: int,
)
    requires
        is_thrifty(step),
        budget::chained(step, states, traces),
        0 <= n < states.len(),
    ensures
        medium::refusals(traces[n]) >= medium::refusals(traces[0]),
        owes_no_more(&states[0], &states[n]) || medium::troubled(traces[0], traces[n]),
    decreases n,
{
    reveal(budget::chained);
    if n > 0 {
        lemma_thrifty_chain(step, states, traces, n - 1);
        let k = n - 1;
        assert(step(states[k], states[k + 1], traces[k], traces[k + 1]));
        if owes_no_more(&states[0], &states[k]) && owes_no_more(&states[k], &states[n]) {
            lemma_owes_no_more_on(&states[0], &states[k], &states[n]);
        }
    }
}

proof fn lemma_one_channel_owes(before: &WriterLoop, after: &WriterLoop, i: int, j: int)
    requires
        fleet::one_channel_changed(before.namespaces@, after.namespaces@, i, j),
        ({
            let b = before.at(i, j);
            let a = after.at(i, j);
            &&& a.segment is Some ==> {
                &&& a.segment == b.segment
                &&& a.dirty_since_sync == b.dirty_since_sync
                &&& a.last_sync == b.last_sync
            }
            &&& a.block.count > 0 ==> a.block == b.block && a.block_opened == b.block_opened
        }),
    ensures
        owes_no_more(before, after),
{
    fleet::lemma_one_channel(before.namespaces@, after.namespaces@, i, j);
    assert forall|x: int, y: int| #![trigger after.at(x, y)] {
        &&& fleet::has_channel(after.namespaces@, x, y) == fleet::has_channel(
            before.namespaces@,
            x,
            y,
        )
        &&& fleet::has_channel(before.namespaces@, x, y) && (x != i || y != j) ==> after.at(x, y)
            == before.at(x, y)
    } by {
        if 0 <= x < before.namespaces@.len() && x != i {
            assert(after.namespaces@[x] == before.namespaces@[x]);
        }
        if fleet::has_channel(before.namespaces@, x, y) && (x != i || y != j) {
            assert(fleet::channel_at(after.namespaces@, x, y) == fleet::channel_at(
                before.namespaces@,
                x,
                y,
            ));
        }
    }
}

proof fn lemma_eviction_owes(
    before: &WriterLoop,
    after: &WriterLoop,
    t0: Seq<Op>,
    t1: Seq<Op>,
    freed: Option<u64>,
    i: int,
    j: int,
)
    requires
        budget::evicted(before, after, t0, t1, freed, i, j),
    ensures
        medium::refusals(t1) >= medium::refusals(t0),
        owes_no_more(before, after) || medium::troubled(t0, t1),
{
    if freed is Some {
        let file = SegmentFile {
            place: before.at(i, j).place,
            name: budget::offered(before.namespaces@, i, j).name,
        };
        medium::lemma_landed_push(t0, Op::Remove { file, refused: None });
        lemma_one_channel_owes(before, after, i, j);
    }
}

proof fn lemma_resting_is_thrifty(now: u64, quiet_for: u64)
    ensures
        is_thrifty(WriterLoop::resting(now, quiet_for)),
{
    let step = WriterLoop::resting(now, quiet_for);
    assert forall|a: WriterLoop, b: WriterLoop, x: Seq<Op>, y: Seq<Op>| #[trigger]
        step(a, b, x, y) implies {
        &&& medium::refusals(y) >= medium::refusals(x)
        &&& owes_no_more(&a, &b) || medium::troubled(x, y)
    } by {
        let (i, j) = choose|i: int, j: int|
            {
                &&& fleet::has_channel(a.namespaces@, i, j)
                &&& budget::idles(a.at(i, j), now, quiet_for)
                &&& #[trigger] WriterLoop::rested_at(&a, &b, i, j, x, y)
            };
        lemma_rest_owes(&a, &b, i, j, x, y);
    }
}

proof fn lemma_rest_owes(
    before: &WriterLoop,
    after: &WriterLoop,
    i: int,
    j: int,
    t0: Seq<Op>,
    t1: Seq<Op>,
)
    requires
        fleet::has_channel(before.namespaces@, i, j),
        WriterLoop::rested_at(before, after, i, j, t0, t1),
    ensures
        medium::refusals(t1) >= medium::refusals(t0),
        owes_no_more(before, after) || medium::troubled(t0, t1),
{
    reveal(WriterLoop::rested_at);
    let (mid, t, r) = choose|mid: WriterLoop, t: Seq<Op>, r: Result<(), Error>|
        {
            &&& #[trigger] WriterLoop::parked_at(before, &mid, i, j, t0, t, r)
            &&& if r is Ok {
                &&& WriterLoop::stepped(&mid, after, i, j)
                &&& after.counters == mid.counters
                &&& after.at(i, j) == (ChannelState { buffers_released: true, ..mid.at(i, j) })
                &&& t1 == t.push(Op::ReleaseBuffers { place: mid.at(i, j).place })
            } else {
                WriterLoop::counted(&mid, after, r) && t1 == t
            }
        };
    let b = before.at(i, j);
    let m = mid.at(i, j);
    lemma_parking_answers(&b, &m, before.counters, mid.counters, t0, t, r);
    if r is Ok {
        medium::lemma_landed_push(t, Op::ReleaseBuffers { place: m.place });
        lemma_one_channel_owes(before, &mid, i, j);
        lemma_one_channel_owes(&mid, after, i, j);
        lemma_owes_no_more_on(before, &mid, after);
    }
}

proof fn lemma_parking_answers(
    before: &ChannelState,
    after: &ChannelState,
    c0: Counters,
    c1: Counters,
    t0: Seq<Op>,
    t1: Seq<Op>,
    r: Result<(), Error>,
)
    requires
        ChannelState::parked(before, after, c0, c1, t0, t1, r),
    ensures
        medium::refusals(t1) >= medium::refusals(t0),
        r is Err ==> medium::troubled(t0, t1),
        r is Ok ==> after.segment is None && after.block.count == 0,
{
    if !(r is Err && ChannelState::flushed(before, after, c0, c1, t0, t1, r)) {
        let (mid, t) = choose|mid: ChannelState, t: Seq<Op>|
            {
                &&& #[trigger] ChannelState::flushed(before, &mid, c0, c1, t0, t, Ok(()))
                &&& ChannelState::let_go(&mid, after, t, t1, r)
            };
        assert(ChannelState::let_go(&mid, after, t, t1, r));
    }
}

proof fn lemma_rest_is_thrifty(
    before: &WriterLoop,
    after: &WriterLoop,
    now: u64,
    quiet_for: u64,
    t0: Seq<Op>,
    t1: Seq<Op>,
)
    requires
        WriterLoop::rested(before, after, now, quiet_for, t0, t1),
    ensures
        medium::refusals(t1) >= medium::refusals(t0),
        owes_no_more(before, after) || medium::troubled(t0, t1),
{
    let (states, traces) = choose|states: Seq<WriterLoop>, traces: Seq<Seq<Op>>|
        {
            &&& #[trigger] budget::chained(WriterLoop::resting(now, quiet_for), states, traces)
            &&& states[0] == *before
            &&& states.last() == *after
            &&& traces[0] == t0
            &&& traces.last() == t1
        };
    lemma_resting_is_thrifty(now, quiet_for);
    assert(states.len() > 0 && traces.len() == states.len()) by {
        reveal(budget::chained);
    }
    lemma_thrifty_chain(
        WriterLoop::resting(now, quiet_for),
        states,
        traces,
        states.len() - 1,
    );
}

proof fn lemma_clearing_is_thrifty(root: u8, target: int)
    ensures
        is_thrifty(WriterLoop::clearing(root, target)),
{
    let step = WriterLoop::clearing(root, target);
    assert forall|a: WriterLoop, b: WriterLoop, x: Seq<Op>, y: Seq<Op>| #[trigger]
        step(a, b, x, y) implies {
        &&& medium::refusals(y) >= medium::refusals(x)
        &&& owes_no_more(&a, &b) || medium::troubled(x, y)
    } by {
        let (freed, i, j) = choose|freed: Option<u64>, i: int, j: int|
            budget::is_victim(a.namespaces@, Pick::Root(root), i, j) && #[trigger] budget::evicted(
                &a,
                &b,
                x,
                y,
                freed,
                i,
                j,
            );
        lemma_eviction_owes(&a, &b, x, y, freed, i, j);
    }
}

proof fn lemma_slimming_is_thrifty(groups: Seq<GroupBudget>, now: u64)
    ensures
        is_thrifty(WriterLoop::slimming(groups, now)),
{
    let step = WriterLoop::slimming(groups, now);
    assert forall|a: WriterLoop, b: WriterLoop, x: Seq<Op>, y: Seq<Op>| #[trigger]
        step(a, b, x, y) implies {
        &&& medium::refusals(y) >= medium::refusals(x)
        &&& owes_no_more(&a, &b) || medium::troubled(x, y)
    } by {
        let g = choose|g: usize| #[trigger] WriterLoop::slimmed(groups, g, now, a, b, x, y);
        let bytes = groups[g as int].budget_bytes;
        if budget::giving_up(g, bytes)(a, b, x, y) {
            let (freed, i, j) = choose|freed: Option<u64>, i: int, j: int| #[trigger]
                budget::gave_up(&a, &b, x, y, g, bytes, freed, i, j);
            lemma_eviction_owes(&a, &b, x, y, freed, i, j);
        } else {
            lemma_rest_is_thrifty(&a, &b, now, RELEASE_AFTER, x, y);
        }
    }
}

proof fn lemma_slimmed_owes(
    before: &WriterLoop,
    after: &WriterLoop,
    now: u64,
    t0: Seq<Op>,
    t1: Seq<Op>,
)
    requires
        WriterLoop::slimmed_down(before, after, now, t0, t1),
    ensures
        medium::refusals(t1) >= medium::refusals(t0),
        owes_no_more(before, after) || medium::troubled(t0, t1),
{
    let step = WriterLoop::slimming(before.groups@, now);
    let (states, traces) = choose|states: Seq<WriterLoop>, traces: Seq<Seq<Op>>|
        {
            &&& #[trigger] budget::chained(step, states, traces)
            &&& states[0] == *before
            &&& traces[0] == t0
            &&& traces.last() == t1
            &&& *after == (WriterLoop {
                counters: Counters {
                    budget_overruns: after.counters.budget_overruns,
                    ..states.last().counters
                },
                ..states.last()
            })
        };
    lemma_slimming_is_thrifty(before.groups@, now);
    assert(states.len() > 0 && traces.len() == states.len()) by {
        reveal(budget::chained);
    }
    lemma_thrifty_chain(step, states, traces, states.len() - 1);
    lemma_same_namespaces_owe(&states.last(), after);
    if owes_no_more(before, &states.last()) {
        lemma_owes_no_more_on(before, &states.last(), after);
    }
}

proof fn lemma_same_namespaces_owe(before: &WriterLoop, after: &WriterLoop)
    requires
        after.namespaces == before.namespaces,
    ensures
        owes_no_more(before, after),
{
}

proof fn lemma_freed_owes(
    pressured: u8,
    states: Seq<WriterLoop>,
    traces: Seq<Seq<Op>>,
    n: int,
    k: int,
)
    requires
        WriterLoop::freed_media(pressured, states, traces, n),
        0 <= k <= n <= 8,
    ensures
        medium::refusals(traces[k]) >= medium::refusals(traces[0]),
        owes_no_more(&states[0], &states[k]) || medium::troubled(traces[0], traces[k]),
    decreases k,
{
    if k == 0 {
        lemma_same_namespaces_owe(&states[0], &states[0]);
    } else {
        lemma_freed_owes(pressured, states, traces, n, k - 1);
        let m = k - 1;
        let a = states[m];
        let b = states[m + 1];
        let x = traces[m];
        let y = traces[m + 1];
        assert(WriterLoop::freed_medium(pressured, m as u8, &a, &b, x, y));
        if pressured & writer_loop::bit_of(m as u8) != 0 {
            let root = m as u8;
            let freed = choose|freed: int| #[trigger]
                WriterLoop::made_room(&a, &b, root, freed, x, y);
            let (need, s, t) = choose|need: u64, s: Seq<WriterLoop>, t: Seq<Seq<Op>>|
                {
                    &&& #[trigger] is_largest_on(a.namespaces@, root, need)
                    &&& #[trigger] budget::chained(
                        WriterLoop::clearing(root, budget::root_total(a.namespaces@, root) - need),
                        s,
                        t,
                    )
                    &&& s[0] == a
                    &&& s.last() == b
                    &&& t[0] == x
                    &&& t.last() == y
                    &&& freed >= need || budget::exhausted(b.namespaces@, Pick::Root(root))
                        || budget::undeleted(y)
                };
            let target = budget::root_total(a.namespaces@, root) - need;
            lemma_clearing_is_thrifty(root, target);
            assert(s.len() > 0 && t.len() == s.len()) by {
                reveal(budget::chained);
            }
            lemma_thrifty_chain(WriterLoop::clearing(root, target), s, t, s.len() - 1);
        } else {
            lemma_same_namespaces_owe(&a, &b);
        }
        if owes_no_more(&states[0], &a) && owes_no_more(&a, &b) {
            lemma_owes_no_more_on(&states[0], &a, &b);
        }
    }
}

/// Keeping the store within its limits adds nothing to what channels owe the medium: unless it
/// refused something, whoever keeps a segment keeps its debt, and whoever keeps a block keeps its
/// deadline.
pub proof fn lemma_limits_owe_nothing(
    before: &WriterLoop,
    after: &WriterLoop,
    now: u64,
    overruns: Option<usize>,
    t0: Seq<Op>,
    t1: Seq<Op>,
)
    requires
        WriterLoop::within_limits(before, after, now, overruns, t0, t1),
    ensures
        medium::refusals(t1) >= medium::refusals(t0),
        owes_no_more(before, after) || medium::troubled(t0, t1),
{
    if overruns is None {
        lemma_same_namespaces_owe(before, after);
    } else if before.pressured_roots == 0 {
        let seen = before.with_roots_seen();
        lemma_slimmed_owes(&seen, after, now, t0, t1);
        lemma_same_namespaces_owe(before, &seen);
        if owes_no_more(&seen, after) {
            lemma_owes_no_more_on(before, &seen, after);
        }
    } else {
        let calm = WriterLoop { pressured_roots: 0, ..*before };
        let (states, traces) = choose|states: Seq<WriterLoop>, traces: Seq<Seq<medium::Op>>|
            {
                &&& #[trigger] WriterLoop::freed_media(before.pressured_roots, states, traces, 8)
                &&& WriterLoop::rested(&calm, &states[0], now, RELEASE_AFTER, t0, traces[0])
                &&& WriterLoop::slimmed_down(
                    &states[8].with_roots_seen(),
                    after,
                    now,
                    traces[8],
                    t1,
                )
                &&& all_within(before.groups@, states[8].namespaces@) ==> after.namespaces@
                    == states[8].namespaces@
            };
        let seen = states[8].with_roots_seen();
        lemma_rest_is_thrifty(&calm, &states[0], now, RELEASE_AFTER, t0, traces[0]);
        lemma_freed_owes(before.pressured_roots, states, traces, 8, 8);
        lemma_slimmed_owes(&seen, after, now, traces[8], t1);
        lemma_same_namespaces_owe(before, &calm);
        lemma_same_namespaces_owe(&states[8], &seen);
        if !medium::troubled(t0, t1) {
            lemma_owes_no_more_on(before, &calm, &states[0]);
            lemma_owes_no_more_on(before, &states[0], &states[8]);
            lemma_owes_no_more_on(before, &states[8], &seen);
            lemma_owes_no_more_on(before, &seen, after);
        }
    }
}

/// Each group over its budget is counted once: none is counted if and only if all are within theirs.
pub proof fn law_only_groups_over_budget_are_counted(
    groups: Seq<GroupBudget>,
    namespaces: Seq<Option<NsState>>,
    n: int,
)
    requires
        0 <= n <= groups.len(),
    ensures
        0 <= over_count(groups, namespaces, n) <= n,
        over_count(groups, namespaces, n) == 0 <==> forall|g: int|
            0 <= g < n ==> fleet::group_total(namespaces, g as usize) <= (
            #[trigger] groups[g]).budget_bytes,
        n < groups.len() ==> over_count(groups, namespaces, n + 1) == over_count(
            groups,
            namespaces,
            n,
        ) + if fleet::group_total(namespaces, n as usize) > groups[n].budget_bytes {
            1int
        } else {
            0
        },
    decreases n,
{
    if n > 0 {
        law_only_groups_over_budget_are_counted(groups, namespaces, n - 1);
        assert(groups[n - 1].budget_bytes == groups[n - 1].budget_bytes);
    }
}

/// Room is made for a segment of the largest kind on the medium, and there is but one such size:
/// nothing on the medium is larger, and what lies on other media does not count.
pub proof fn law_room_is_made_for_the_largest_segment(
    namespaces: Seq<Option<NsState>>,
    root: u8,
    n: u64,
    m: u64,
    i: int,
    j: int,
)
    requires
        is_largest_on(namespaces, root, n),
    ensures
        fleet::has_channel(namespaces, i, j) && fleet::channel_at(namespaces, i, j).root_key == root
            ==> fleet::channel_at(namespaces, i, j).config.segment_bytes <= n,
        is_largest_on(namespaces, root, m) ==> m == n,
        (forall|a: int, b: int|
            fleet::has_channel(namespaces, a, b) ==> (#[trigger] fleet::channel_at(
                namespaces,
                a,
                b,
            )).root_key != root) ==> n == 0,
{
}

} // verus!
