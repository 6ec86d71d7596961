//! Keeping the fleet within its budgets.
//!
//! The oldest segment goes first, wherever it lies: a segment's name is the run
//! and the moment it began, and the run number is one for the whole store, so
//! "the oldest" has a meaning across channels and namespaces. A live segment is
//! untouchable: one being written to, and one that will be continued.

use crate::channel_state::ChannelState;
use crate::error::Error;
use crate::fleet;
use crate::fleet::NsState;
use crate::losses;
use crate::medium;
use crate::medium::{Io, Medium, Op, SegmentFile};
use crate::rotation;
use crate::rotation::SegmentEntry;
use crate::stats;
use crate::stats::Counters;
use crate::writer_loop;
use crate::writer_loop::WriterLoop;
use vstd::prelude::*;

verus! {

broadcast use {
    crate::medium::group_trace,
    crate::medium::group_synced,
    crate::fleet::lemma_honest_on,
};

/// Whose segments are looked at.
#[derive(Debug, Clone, Copy, PartialEq, Eq, Structural)]
pub enum Pick {
    /// The channels of a medium.
    Root(u8),
    /// The channels of a budget group.
    Group(usize),
}

impl Pick {
    pub open spec fn takes(self, ch: ChannelState) -> bool {
        match self {
            Pick::Root(root) => ch.root_key == root,
            Pick::Group(group) => ch.group == group,
        }
    }

    /// Whether a channel is looked at.
    pub fn picks(&self, ch: &ChannelState) -> (yes: bool)
        ensures
            yes == self.takes(*ch),
    {
        match self {
            Pick::Root(root) => ch.root_key == *root,
            Pick::Group(group) => ch.group == *group,
        }
    }
}

/// The channel at an address is looked at and has a segment to give up.
pub open spec fn candidate(namespaces: Seq<Option<NsState>>, pick: Pick, i: int, j: int) -> bool {
    &&& fleet::has_channel(namespaces, i, j)
    &&& pick.takes(fleet::channel_at(namespaces, i, j))
    &&& fleet::channel_at(namespaces, i, j).oldest_evictable() is Some
}

/// The segment a channel would give up.
pub open spec fn offered(namespaces: Seq<Option<NsState>>, i: int, j: int) -> SegmentEntry {
    fleet::channel_at(namespaces, i, j).oldest_evictable()->0
}

/// There is nothing to give up.
pub open spec fn exhausted(namespaces: Seq<Option<NsState>>, pick: Pick) -> bool {
    forall|i: int, j: int|
        #![trigger fleet::channel_at(namespaces, i, j)]
        !candidate(namespaces, pick, i, j)
}

/// The channel at an address gives up the oldest segment of all; of several of
/// one name the first met.
pub open spec fn is_victim(namespaces: Seq<Option<NsState>>, pick: Pick, i: int, j: int) -> bool {
    &&& candidate(namespaces, pick, i, j)
    &&& forall|a: int, b: int|
        #![trigger fleet::channel_at(namespaces, a, b)]
        candidate(namespaces, pick, a, b) ==> {
            let ours = offered(namespaces, i, j).name;
            let theirs = offered(namespaces, a, b).name;
            &&& !theirs.precedes(ours)
            &&& losses::before_address(a, b, i, j) ==> ours.precedes(theirs)
        }
}

/// How many segments a channel has.
pub open spec fn segment_count() -> spec_fn(ChannelState) -> int {
    |c: ChannelState| c.inventory@.len() as int
}

/// How many segments there are.
pub open spec fn segments(namespaces: Seq<Option<NsState>>) -> int {
    fleet::fleet_sum(namespaces, segment_count())
}

/// What a channel's segments occupy, if it lies on a medium.
pub open spec fn occupied_on(root: u8) -> spec_fn(ChannelState) -> int {
    |c: ChannelState|
        if c.root_key == root {
            rotation::total_of(c.inventory@)
        } else {
            0
        }
}

/// What the segments of a medium occupy.
pub open spec fn root_total(namespaces: Seq<Option<NsState>>, root: u8) -> int {
    fleet::fleet_sum(namespaces, occupied_on(root))
}

proof fn lemma_front_is_first(segments: Seq<SegmentEntry>)
    requires
        segments.len() > 0,
    ensures
        rotation::forgotten(segments, segments[0].name) == segments.remove(0),
        rotation::total_of(segments.remove(0)) == rotation::total_of(segments)
            - segments[0].size_bytes,
{
    let p = rotation::is_named(segments, segments[0].name);
    assert(p(0));
    crate::search::lemma_first_is(p, 0, segments.len() as int, 0);
    rotation::lemma_total_remove(segments, 0);
}

/// A sum of what cannot be negative is not negative.
proof fn lemma_sum_not_negative(
    namespaces: Seq<Option<NsState>>,
    f: spec_fn(ChannelState) -> int,
)
    requires
        forall|c: ChannelState| #[trigger] f(c) >= 0,
    ensures
        fleet::fleet_sum(namespaces, f) >= 0,
    decreases namespaces.len(),
{
    if namespaces.len() > 0 {
        lemma_sum_not_negative(namespaces.drop_last(), f);
        if namespaces.last() is Some {
            lemma_channels_not_negative(namespaces.last()->0.channels@, f);
        }
    }
}

proof fn lemma_channels_not_negative(
    channels: Seq<ChannelState>,
    f: spec_fn(ChannelState) -> int,
)
    requires
        forall|c: ChannelState| #[trigger] f(c) >= 0,
    ensures
        fleet::channels_sum(channels, f) >= 0,
    decreases channels.len(),
{
    if channels.len() > 0 {
        lemma_channels_not_negative(channels.drop_last(), f);
        assert(f(channels.last()) >= 0);
    }
}

/// There are no fewer segments than none.
pub(crate) proof fn lemma_segments_not_negative(namespaces: Seq<Option<NsState>>)
    ensures
        segments(namespaces) >= 0,
{
    lemma_sum_not_negative(namespaces, segment_count());
}

/// What giving up a segment does to the sums.
pub(crate) proof fn lemma_eviction(
    before: Seq<Option<NsState>>,
    after: Seq<Option<NsState>>,
    pick: Pick,
    i: int,
    j: int,
)
    requires
        candidate(before, pick, i, j),
        fleet::one_channel_changed(before, after, i, j),
        fleet::channel_at(after, i, j) == (ChannelState {
            inventory: fleet::channel_at(after, i, j).inventory,
            ..fleet::channel_at(before, i, j)
        }),
        fleet::channel_at(after, i, j).inventory@ == rotation::forgotten(
            fleet::channel_at(before, i, j).inventory@,
            offered(before, i, j).name,
        ),
    ensures
        segments(after) == segments(before) - 1,
        forall|g: usize|
            #[trigger] fleet::group_total(after, g) == fleet::group_total(before, g) - if g
                == fleet::channel_at(before, i, j).group {
                offered(before, i, j).size_bytes as int
            } else {
                0
            },
        forall|r: u8|
            #[trigger] root_total(after, r) == root_total(before, r) - if r == fleet::channel_at(
                before,
                i,
                j,
            ).root_key {
                offered(before, i, j).size_bytes as int
            } else {
                0
            },
        segments(after) >= 0,
{
    let inv = fleet::channel_at(before, i, j).inventory@;
    lemma_front_is_first(inv);
    fleet::lemma_sum_step(before, after, i, j, segment_count());
    assert forall|g: usize|
        #[trigger] fleet::group_total(after, g) == fleet::group_total(before, g) - if g
            == fleet::channel_at(before, i, j).group {
            offered(before, i, j).size_bytes as int
        } else {
            0
        } by {
        fleet::lemma_sum_step(before, after, i, j, fleet::occupied_in(g));
    }
    assert forall|r: u8|
        #[trigger] root_total(after, r) == root_total(before, r) - if r == fleet::channel_at(
            before,
            i,
            j,
        ).root_key {
            offered(before, i, j).size_bytes as int
        } else {
            0
        } by {
        fleet::lemma_sum_step(before, after, i, j, occupied_on(r));
    }
    lemma_sum_not_negative(after, segment_count());
}

impl WriterLoop {
    /// The segment the channel at an address would give up.
    fn offered_at(&self, pick: Pick, i: usize, j: usize) -> (e: Option<SegmentEntry>)
        requires
            fleet::has_channel(self.namespaces@, i as int, j as int),
        ensures
            e == if candidate(self.namespaces@, pick, i as int, j as int) {
                Some(offered(self.namespaces@, i as int, j as int))
            } else {
                None
            },
    {
        match &self.namespaces[i] {
            Some(ns) => {
                let ch = &ns.channels[j];
                if pick.picks(ch) {
                    ch.evictable()
                } else {
                    None
                }
            },
            None => None,
        }
    }

    /// The oldest segment among the channels looked at, and whose it is.
    fn find_victim(&self, pick: Pick) -> (v: Option<(usize, usize, SegmentEntry)>)
        ensures
            match v {
                Some((i, j, e)) => {
                    &&& is_victim(self.namespaces@, pick, i as int, j as int)
                    &&& e == offered(self.namespaces@, i as int, j as int)
                },
                None => exhausted(self.namespaces@, pick),
            },
    {
        let ghost nss = self.namespaces@;
        let mut best: Option<(usize, usize, SegmentEntry)> = None;
        let mut i: usize = 0;
        while i < self.namespaces.len()
            invariant
                i <= self.namespaces@.len(),
                nss == self.namespaces@,
                best_before(nss, pick, best, i as int, 0),
            decreases self.namespaces@.len() - i,
        {
            let n: usize = self.channels_in(i);
            let mut j: usize = 0;
            while j < n
                invariant
                    i < self.namespaces@.len(),
                    n == match self.namespaces@[i as int] {
                        Some(ns) => ns.channels@.len(),
                        None => 0,
                    },
                    j <= n,
                    nss == self.namespaces@,
                    best_before(nss, pick, best, i as int, j as int),
                decreases n - j,
            {
                assert(fleet::has_channel(nss, i as int, j as int));
                let ghost had = best;
                match self.offered_at(pick, i, j) {
                    Some(e) => {
                        let better: bool = match &best {
                            Some((_, _, b)) => e.name.is_before(b.name),
                            None => true,
                        };
                        if better {
                            best = Some((i, j, e));
                        }
                    },
                    None => {},
                }
                j = j + 1;
            }
            proof {
                assert forall|a: int, b: int| #[trigger] fleet::has_channel(
                    nss,
                    a,
                    b,
                ) implies losses::before_address(a, b, i as int, j as int)
                    == losses::before_address(a, b, i + 1, 0) by {}
            }
            i = i + 1;
        }
        proof {
            assert forall|a: int, b: int| #[trigger] fleet::has_channel(
                nss,
                a,
                b,
            ) implies losses::before_address(a, b, i as int, 0) by {}
        }
        best
    }
}

/// The oldest segment offered by the channels before an address.
spec fn best_before(
    nss: Seq<Option<NsState>>,
    pick: Pick,
    best: Option<(usize, usize, SegmentEntry)>,
    i: int,
    j: int,
) -> bool {
    match best {
        None => forall|a: int, b: int|
            #![trigger fleet::channel_at(nss, a, b)]
            candidate(nss, pick, a, b) ==> !losses::before_address(a, b, i, j),
        Some((x, y, e)) => {
            &&& candidate(nss, pick, x as int, y as int)
            &&& losses::before_address(x as int, y as int, i, j)
            &&& e == offered(nss, x as int, y as int)
            &&& forall|a: int, b: int|
                #![trigger fleet::channel_at(nss, a, b)]
                candidate(nss, pick, a, b) && losses::before_address(a, b, i, j) ==> {
                    let theirs = offered(nss, a, b).name;
                    &&& !theirs.precedes(e.name)
                    &&& losses::before_address(a, b, x as int, y as int) ==> e.name.precedes(theirs)
                }
        },
    }
}

/// A segment was given up, or its removal was refused.
pub open spec fn evicted(
    before: &WriterLoop,
    after: &WriterLoop,
    t0: Seq<Op>,
    t1: Seq<Op>,
    freed: Option<u64>,
    i: int,
    j: int,
) -> bool {
    let e = offered(before.namespaces@, i, j);
    let file = SegmentFile { place: before.at(i, j).place, name: e.name };
    match freed {
        Some(n) => {
            &&& n == e.size_bytes
            &&& t1 == t0.push(Op::Remove { file, refused: None })
            &&& WriterLoop::stepped(before, after, i, j)
            &&& after.at(i, j) == (ChannelState {
                inventory: after.at(i, j).inventory,
                ..before.at(i, j)
            })
            &&& after.at(i, j).inventory@ == rotation::forgotten(
                before.at(i, j).inventory@,
                e.name,
            )
            &&& after.counters == (Counters {
                segments_rotated: stats::plus(before.counters.segments_rotated, 1),
                ..before.counters
            })
        },
        None => {
            &&& medium::troubled(t0, t1)
            &&& exists|cause: Error| t1 == #[trigger] t0.push(
                Op::Remove { file, refused: Some(cause) },
            )
            &&& *after == (WriterLoop {
                counters: Counters {
                    io_errors: stats::plus(before.counters.io_errors, 1),
                    ..before.counters
                },
                ..*before
            })
        },
    }
}

/// The deletion of a segment was refused just now.
pub open spec fn undeleted(trace: Seq<Op>) -> bool {
    trace.len() > 0 && (trace.last() matches Op::Remove { refused: Some(_), .. })
}

impl WriterLoop {
    /// Deletes the oldest segment among the channels looked at; the answer is the
    /// bytes freed. `None` means there is nothing to give up, or it could not be
    /// deleted: the next call would pick the same one.
    pub fn evict_oldest_where<M: Medium>(&mut self, pick: Pick, io: &mut Io<M>) -> (freed: Option<
        u64,
    >)
        requires
            old(self).wf(),
            old(self).balanced(old(io)@),
        ensures
            final(self).wf(),
            final(self).balanced(final(io)@),
            final(self).same_setup(old(self)),
            final(self).same_round(old(self)),
            fleet::all_flushed(old(self).namespaces@) ==> fleet::all_flushed(
                final(self).namespaces@,
            ),
            fleet::all_closed(old(self).namespaces@) ==> fleet::all_closed(
                final(self).namespaces@,
            ),
            fleet::same_fleet(old(self).namespaces@, final(self).namespaces@),
            medium::no_input(old(io)@, final(io)@),
            exhausted(old(self).namespaces@, pick) ==> freed is None && *final(self) == *old(self)
                && final(io)@ == old(io)@,
            !exhausted(old(self).namespaces@, pick) ==> exists|i: int, j: int|
                is_victim(old(self).namespaces@, pick, i, j) && #[trigger] evicted(
                    old(self),
                    final(self),
                    old(io)@,
                    final(io)@,
                    freed,
                    i,
                    j,
                ),
    {
        let ghost before = *self;
        let ghost t0 = io@;
        proof {
            fleet::lemma_same_fleet_refl(self.namespaces@);
        }
        let (i, j, entry) = match self.find_victim(pick) {
            None => {
                return None;
            },
            Some(v) => v,
        };
        assert(candidate(before.namespaces@, pick, i as int, j as int));
        assert(!exhausted(before.namespaces@, pick)) by {
            let _ = fleet::channel_at(before.namespaces@, i as int, j as int);
        }
        let place = match &self.namespaces[i] {
            Some(ns) => ns.channels[j].place,
            None => {
                return None;
            },
        };
        match io.remove(entry.file(place)) {
            Ok(()) => {},
            Err(cause) => {
                Counters::bump(&mut self.counters.io_errors);
                assert(io@ == t0.push(
                    Op::Remove {
                        file: SegmentFile { place, name: entry.name },
                        refused: Some(cause),
                    },
                ));
                assert(evicted(&before, self, t0, io@, None, i as int, j as int));
                return None;
            },
        }
        assert(fleet::channel_at(self.namespaces@, i as int, j as int).ready());
        match &mut self.namespaces[i] {
            Some(ns) => {
                let ch = &mut ns.channels[j];
                ch.inventory.remove(entry.name);
            },
            None => {},
        }
        Counters::bump(&mut self.counters.segments_rotated);
        proof {
            stats::lemma_plus_nothing(before.counters.dropped);
            Self::lemma_step(&before, self, i as int, j as int, t0, io@, 0);
            if fleet::all_flushed(before.namespaces@) {
                assert(fleet::channel_at(before.namespaces@, i as int, j as int).block.count == 0);
                fleet::lemma_flushed_step(
                    before.namespaces@,
                    self.namespaces@,
                    i as int,
                    j as int,
                );
            }
            if fleet::all_closed(before.namespaces@) {
                assert(fleet::channel_at(before.namespaces@, i as int, j as int).segment is None);
                fleet::lemma_closed_step(
                    before.namespaces@,
                    self.namespaces@,
                    i as int,
                    j as int,
                );
            }
            assert(evicted(
                &before,
                self,
                t0,
                io@,
                Some(entry.size_bytes),
                i as int,
                j as int,
            ));
        }
        Some(entry.size_bytes)
    }

    /// What the segments of a group occupy, as far as the number can say.
    pub fn group_bytes(&self, group: usize) -> (n: u128)
        requires
            self.wf(),
        ensures
            n as int == if fleet::group_total(self.namespaces@, group) <= u128::MAX {
                fleet::group_total(self.namespaces@, group)
            } else {
                u128::MAX as int
            },
    {
        let ghost f = fleet::occupied_in(group);
        let ghost nss = self.namespaces@;
        let mut sum: u128 = 0;
        let mut i: usize = 0;
        assert(nss.take(0) =~= Seq::<Option<NsState>>::empty());
        while i < self.namespaces.len()
            invariant
                i <= self.namespaces@.len(),
                self.wf(),
                nss == self.namespaces@,
                f == fleet::occupied_in(group),
                sum as int == capped(fleet::fleet_sum(nss.take(i as int), f)),
            decreases self.namespaces@.len() - i,
        {
            let n: usize = self.channels_in(i);
            let ghost chans = match nss[i as int] {
                Some(ns) => ns.channels@,
                None => Seq::empty(),
            };
            let ghost base = fleet::fleet_sum(nss.take(i as int), f);
            let mut j: usize = 0;
            assert(chans.take(0) =~= Seq::<ChannelState>::empty());
            while j < n
                invariant
                    i < self.namespaces@.len(),
                    n == chans.len(),
                    chans == match nss[i as int] {
                        Some(ns) => ns.channels@,
                        None => Seq::empty(),
                    },
                    j <= n,
                    self.wf(),
                    nss == self.namespaces@,
                    f == fleet::occupied_in(group),
                    sum as int == capped(base + fleet::channels_sum(chans.take(j as int), f)),
                decreases n - j,
            {
                assert(fleet::has_channel(nss, i as int, j as int));
                assert(fleet::channel_at(nss, i as int, j as int).ready());
                let bytes: u128 = match &self.namespaces[i] {
                    Some(ns) => if ns.channels[j].group == group {
                        ns.channels[j].inventory.total_bytes()
                    } else {
                        0
                    },
                    None => 0,
                };
                proof {
                    assert(chans.take(j + 1).drop_last() =~= chans.take(j as int));
                    assert(chans.take(j + 1).last() == chans[j as int]);
                    assert(bytes as int == f(chans[j as int]));
                }
                sum = sum.saturating_add(bytes);
                j = j + 1;
            }
            proof {
                assert(chans.take(n as int) =~= chans);
                assert(nss.take(i + 1).drop_last() =~= nss.take(i as int));
                assert(nss.take(i + 1).last() == nss[i as int]);
            }
            i = i + 1;
        }
        assert(nss.take(i as int) =~= nss);
        sum
    }
}

/// A number cut off at what fits.
spec fn capped(n: int) -> int {
    if n <= u128::MAX {
        n
    } else {
        u128::MAX as int
    }
}

/// A group is within its budget, or has nothing to give up.
pub open spec fn within(namespaces: Seq<Option<NsState>>, group: usize, budget: u64) -> bool {
    ||| fleet::group_total(namespaces, group) <= budget
    ||| exhausted(namespaces, Pick::Group(group))
}

/// Giving up a segment of one group changes nothing in another.
proof fn lemma_other_group(
    before: Seq<Option<NsState>>,
    after: Seq<Option<NsState>>,
    i: int,
    j: int,
    group: usize,
    budget: u64,
)
    requires
        fleet::one_channel_changed(before, after, i, j),
        fleet::channel_at(before, i, j).group != group,
        fleet::channel_at(after, i, j).group != group,
    ensures
        fleet::group_total(after, group) == fleet::group_total(before, group),
        within(before, group, budget) ==> within(after, group, budget),
{
    fleet::lemma_sum_step(before, after, i, j, fleet::occupied_in(group));
    fleet::lemma_one_channel(before, after, i, j);
    if exhausted(before, Pick::Group(group)) {
        assert forall|a: int, b: int|
            #![trigger fleet::channel_at(after, a, b)]
            !candidate(after, Pick::Group(group), a, b) by {
            if candidate(after, Pick::Group(group), a, b) {
                assert(fleet::has_channel(before, a, b));
                assert(fleet::channel_at(after, a, b) == fleet::channel_at(before, a, b));
                assert(candidate(before, Pick::Group(group), a, b));
            }
        }
    }
}

/// What one question to the medium, or a few, did to the loop.
pub type Step = spec_fn(WriterLoop, WriterLoop, Seq<Op>, Seq<Op>) -> bool;

/// States of the loop one after another, each a step away from the one before it.
#[verifier::opaque]
pub open spec fn chained(step: Step, states: Seq<WriterLoop>, traces: Seq<Seq<Op>>) -> bool {
    &&& states.len() == traces.len()
    &&& states.len() > 0
    &&& forall|k: int|
        #![trigger states[k]]
        0 <= k < states.len() - 1 ==> step(states[k], states[k + 1], traces[k], traces[k + 1])
}

/// A chain begins with one state.
pub(crate) proof fn lemma_chain_of_one(step: Step, state: WriterLoop, trace: Seq<Op>)
    ensures
        chained(step, seq![state], seq![trace]),
{
    reveal(chained);
}

/// A chain goes on by a step.
pub(crate) proof fn lemma_chain_link(
    step: Step,
    states: Seq<WriterLoop>,
    traces: Seq<Seq<Op>>,
    next: WriterLoop,
    trace: Seq<Op>,
)
    requires
        chained(step, states, traces),
        step(states.last(), next, traces.last(), trace),
    ensures
        chained(step, states.push(next), traces.push(trace)),
        states.push(next)[0] == states[0],
        traces.push(trace)[0] == traces[0],
{
    reveal(chained);
    let s = states.push(next);
    let t = traces.push(trace);
    assert forall|k: int| #![trigger s[k]] 0 <= k < s.len() - 1 implies step(
        s[k],
        s[k + 1],
        t[k],
        t[k + 1],
    ) by {
        assert(s[k] == states[k] && t[k] == traces[k]);
        if k < states.len() - 1 {
            assert(s[k + 1] == states[k + 1] && t[k + 1] == traces[k + 1]);
        }
    }
}

/// Two chains that meet are one, if the steps of the second are such as those of the
/// first.
pub(crate) proof fn lemma_chains_join(
    step: Step,
    s0: Seq<WriterLoop>,
    t0: Seq<Seq<Op>>,
    finer: Step,
    s1: Seq<WriterLoop>,
    t1: Seq<Seq<Op>>,
)
    requires
        chained(step, s0, t0),
        chained(finer, s1, t1),
        s0.last() == s1[0],
        t0.last() == t1[0],
        forall|a: WriterLoop, b: WriterLoop, x: Seq<Op>, y: Seq<Op>| #[trigger]
            finer(a, b, x, y) ==> step(a, b, x, y),
    ensures
        chained(step, s0 + s1.skip(1), t0 + t1.skip(1)),
        (s0 + s1.skip(1))[0] == s0[0],
        (t0 + t1.skip(1))[0] == t0[0],
        (s0 + s1.skip(1)).last() == s1.last(),
        (t0 + t1.skip(1)).last() == t1.last(),
{
    reveal(chained);
    let s = s0 + s1.skip(1);
    let t = t0 + t1.skip(1);
    let n = s0.len() - 1;
    assert forall|k: int| #![trigger s[k]] 0 <= k < s.len() - 1 implies step(
        s[k],
        s[k + 1],
        t[k],
        t[k + 1],
    ) by {
        if k < n {
            assert(s[k] == s0[k] && t[k] == t0[k]);
            assert(s[k + 1] == s0[k + 1] && t[k + 1] == t0[k + 1]);
        } else {
            let m = k - n;
            assert(s[k] == s1[m] && t[k] == t1[m]);
            assert(s[k + 1] == s1[m + 1] && t[k + 1] == t1[m + 1]);
            assert(finer(s1[m], s1[m + 1], t1[m], t1[m + 1]));
        }
    }
}

/// A group over its budget gave up its oldest segment, or its removal was refused.
pub open spec fn gave_up(
    before: &WriterLoop,
    after: &WriterLoop,
    t0: Seq<Op>,
    t1: Seq<Op>,
    group: usize,
    budget_bytes: u64,
    freed: Option<u64>,
    i: int,
    j: int,
) -> bool {
    &&& fleet::group_total(before.namespaces@, group) > budget_bytes
    &&& is_victim(before.namespaces@, Pick::Group(group), i, j)
    &&& evicted(before, after, t0, t1, freed, i, j)
}

/// A group over its budget gives up its oldest segment.
pub open spec fn giving_up(group: usize, budget_bytes: u64) -> Step {
    |before: WriterLoop, after: WriterLoop, t0: Seq<Op>, t1: Seq<Op>|
        exists|freed: Option<u64>, i: int, j: int| #[trigger]
            gave_up(&before, &after, t0, t1, group, budget_bytes, freed, i, j)
}

/// Where a group is over its budget, evicting its oldest segment is such a step.
proof fn lemma_giving_up(
    before: WriterLoop,
    after: WriterLoop,
    t0: Seq<Op>,
    t1: Seq<Op>,
    group: usize,
    budget_bytes: u64,
    freed: Option<u64>,
)
    requires
        fleet::group_total(before.namespaces@, group) > budget_bytes,
        exists|i: int, j: int|
            is_victim(before.namespaces@, Pick::Group(group), i, j) && #[trigger] evicted(
                &before,
                &after,
                t0,
                t1,
                freed,
                i,
                j,
            ),
    ensures
        giving_up(group, budget_bytes)(before, after, t0, t1),
{
    let (i, j) = choose|i: int, j: int|
        is_victim(before.namespaces@, Pick::Group(group), i, j) && #[trigger] evicted(
            &before,
            &after,
            t0,
            t1,
            freed,
            i,
            j,
        );
    assert(gave_up(&before, &after, t0, t1, group, budget_bytes, freed, i, j));
}

impl WriterLoop {
    /// Segments of a group went one by one, the oldest first, each while the group
    /// was over its budget.
    pub open spec fn thinned(
        before: &WriterLoop,
        after: &WriterLoop,
        group: usize,
        budget_bytes: u64,
        t0: Seq<Op>,
        t1: Seq<Op>,
    ) -> bool {
        exists|states: Seq<WriterLoop>, traces: Seq<Seq<Op>>|
            {
                &&& #[trigger] chained(giving_up(group, budget_bytes), states, traces)
                &&& states[0] == *before
                &&& states.last() == *after
                &&& traces[0] == t0
                &&& traces.last() == t1
            }
    }

    /// Evicts the oldest of a group until what it occupies fits the budget: no
    /// more than that takes, and from no other group. The answer is the size of
    /// the last segment that went.
    #[verifier::rlimit(40)]
    pub fn evict_group_down_to<M: Medium>(
        &mut self,
        group: usize,
        budget_bytes: u64,
        io: &mut Io<M>,
    ) -> (last: Option<u64>)
        requires
            old(self).wf(),
            old(self).balanced(old(io)@),
        ensures
            final(self).wf(),
            final(self).balanced(final(io)@),
            final(self).same_setup(old(self)),
            final(self).same_round(old(self)),
            fleet::all_flushed(old(self).namespaces@) ==> fleet::all_flushed(
                final(self).namespaces@,
            ),
            fleet::all_closed(old(self).namespaces@) ==> fleet::all_closed(
                final(self).namespaces@,
            ),
            fleet::same_fleet(old(self).namespaces@, final(self).namespaces@),
            medium::no_input(old(io)@, final(io)@),
            within(final(self).namespaces@, group, budget_bytes) || medium::troubled(
                old(io)@,
                final(io)@,
            ),
            Self::thinned(
                old(self),
                final(self),
                group,
                budget_bytes,
                old(io)@,
                final(io)@,
            ),
            within(final(self).namespaces@, group, budget_bytes) || undeleted(final(io)@),
            last is None ==> final(self).namespaces@ == old(self).namespaces@,
            last matches Some(size) ==> fleet::group_total(final(self).namespaces@, group) + size
                > budget_bytes,
            final(self).counters.segments_rotated == stats::plus(
                old(self).counters.segments_rotated,
                segments(old(self).namespaces@) - segments(final(self).namespaces@),
            ),
            final(self).counters.budget_overruns == old(self).counters.budget_overruns,
            fleet::group_total(old(self).namespaces@, group) <= budget_bytes ==> *final(self)
                == *old(self) && final(io)@ == old(io)@,
            forall|g: usize, budget: u64|
                #![trigger within(final(self).namespaces@, g, budget)]
                g != group && within(old(self).namespaces@, g, budget) ==> within(
                    final(self).namespaces@,
                    g,
                    budget,
                ),
            forall|g: usize|
                g != group ==> #[trigger] fleet::group_total(final(self).namespaces@, g)
                    == fleet::group_total(old(self).namespaces@, g),
    {
        let ghost before = *self;
        let ghost t0 = io@;
        let mut last: Option<u64> = None;
        let mut more: bool = true;
        proof {
            fleet::lemma_same_fleet_refl(self.namespaces@);
            stats::lemma_plus_nothing(self.counters.segments_rotated);
            lemma_sum_not_negative(self.namespaces@, segment_count());
        }
        let ghost step = giving_up(group, budget_bytes);
        proof {
            lemma_chain_of_one(step, *self, io@);
        }
        let ghost mut states: Seq<WriterLoop> = seq![*self];
        let ghost mut traces: Seq<Seq<Op>> = seq![io@];
        while more && self.group_bytes(group) > budget_bytes as u128
            invariant
                before == *old(self),
                t0 == old(io)@,
                step == giving_up(group, budget_bytes),
                chained(step, states, traces),
                states[0] == before,
                states.last() == *self,
                traces[0] == t0,
                traces.last() == io@,
                self.wf(),
                self.balanced(io@),
                self.same_setup(&before),
                self.same_round(&before),
                fleet::all_flushed(before.namespaces@) ==> fleet::all_flushed(self.namespaces@),
                fleet::all_closed(before.namespaces@) ==> fleet::all_closed(self.namespaces@),
                fleet::same_fleet(before.namespaces@, self.namespaces@),
                medium::no_input(t0, io@),
                last is None ==> self.namespaces@ == before.namespaces@,
                last is None && more ==> *self == before && io@ == t0,
                last matches Some(size) ==> fleet::group_total(self.namespaces@, group) + size
                    > budget_bytes,
                self.counters.segments_rotated == stats::plus(
                    before.counters.segments_rotated,
                    segments(before.namespaces@) - segments(self.namespaces@),
                ),
                self.counters.budget_overruns == before.counters.budget_overruns,
                segments(self.namespaces@) >= 0,
                !more ==> exhausted(self.namespaces@, Pick::Group(group)) || undeleted(io@),
                !more ==> (exhausted(self.namespaces@, Pick::Group(group)) || medium::troubled(
                    t0,
                    io@,
                )) && fleet::group_total(before.namespaces@, group) > budget_bytes,
                forall|g: usize, budget: u64|
                    #![trigger within(self.namespaces@, g, budget)]
                    g != group && within(before.namespaces@, g, budget) ==> within(
                        self.namespaces@,
                        g,
                        budget,
                    ),
                forall|g: usize|
                    g != group ==> #[trigger] fleet::group_total(self.namespaces@, g)
                        == fleet::group_total(before.namespaces@, g),
                last is Some ==> fleet::group_total(before.namespaces@, group) > budget_bytes,
            decreases
                    segments(self.namespaces@) + if more {
                        1int
                    } else {
                        0
                    },
        {
            let ghost mid = *self;
            let ghost t1 = io@;
            match self.evict_oldest_where(Pick::Group(group), io) {
                Some(freed) => {
                    proof {
                        assert(!exhausted(mid.namespaces@, Pick::Group(group)));
                        let (i, j) = choose|i: int, j: int|
                            is_victim(mid.namespaces@, Pick::Group(group), i, j) && #[trigger] evicted(
                                &mid,
                                self,
                                t1,
                                io@,
                                Some(freed),
                                i,
                                j,
                            );
                        lemma_giving_up(mid, *self, t1, io@, group, budget_bytes, Some(freed));
                        lemma_chain_link(step, states, traces, *self, io@);
                        states = states.push(*self);
                        traces = traces.push(io@);
                        lemma_eviction(
                            mid.namespaces@,
                            self.namespaces@,
                            Pick::Group(group),
                            i,
                            j,
                        );
                        fleet::lemma_same_fleet_trans(
                            before.namespaces@,
                            mid.namespaces@,
                            self.namespaces@,
                        );
                        stats::law_counters_add_up(
                            before.counters.segments_rotated,
                            segments(before.namespaces@) - segments(mid.namespaces@),
                            1,
                        );
                        assert forall|g: usize, budget: u64|
                            #![trigger within(self.namespaces@, g, budget)]
                            g != group && within(before.namespaces@, g, budget) implies within(
                            self.namespaces@,
                            g,
                            budget,
                        ) by {
                            assert(within(mid.namespaces@, g, budget));
                            lemma_other_group(
                                mid.namespaces@,
                                self.namespaces@,
                                i,
                                j,
                                g,
                                budget,
                            );
                        }
                        assert(fleet::group_total(self.namespaces@, group) == fleet::group_total(
                            mid.namespaces@,
                            group,
                        ) - freed);
                    }
                    last = Some(freed);
                },
                None => {
                    more = false;
                    proof {
                        fleet::lemma_same_fleet_trans(
                            before.namespaces@,
                            mid.namespaces@,
                            self.namespaces@,
                        );
                        if !exhausted(mid.namespaces@, Pick::Group(group)) {
                            let (i, j) = choose|i: int, j: int|
                                is_victim(mid.namespaces@, Pick::Group(group), i, j)
                                    && #[trigger] evicted(&mid, self, t1, io@, None, i, j);
                            lemma_giving_up(mid, *self, t1, io@, group, budget_bytes, None);
                            lemma_chain_link(step, states, traces, *self, io@);
                            states = states.push(*self);
                            traces = traces.push(io@);
                        }
                    }
                },
            }
        }
        assert(chained(giving_up(group, budget_bytes), states, traces));
        last
    }
}

/// How long a channel has to sit idle before it gives its buffers back, in
/// nanoseconds. Not at once: a channel that syncs at once is idle after every
/// batch, and would give up its buffers only to allocate them again.
pub const RELEASE_AFTER: u64 = 2_000_000_000;

/// How long one moment lies after another; nothing if it does not.
pub open spec fn elapsed(since: u64, now: u64) -> int {
    if now >= since {
        now - since
    } else {
        0
    }
}

/// A channel holds a segment and has been idle for a while.
pub open spec fn idles(ch: ChannelState, now: u64, quiet_for: u64) -> bool {
    ch.segment is Some && ch.idle_since is Some && elapsed(ch.idle_since->0, now) >= quiet_for
}

impl WriterLoop {
    /// Whether the channel at an address holds a segment and has been idle.
    fn idles_at(&self, i: usize, j: usize, now: u64, quiet_for: u64) -> (yes: bool)
        requires
            fleet::has_channel(self.namespaces@, i as int, j as int),
        ensures
            yes == idles(self.at(i as int, j as int), now, quiet_for),
    {
        match &self.namespaces[i] {
            Some(ns) => match (&ns.channels[j].segment, ns.channels[j].idle_since) {
                (Some(_), Some(t)) => now.saturating_sub(t) >= quiet_for,
                _ => false,
            },
            None => false,
        }
    }

    /// The segment of a channel that was quiet for a while was released, and then its
    /// buffers; or the medium refused, and that is counted.
    #[verifier::opaque]
    pub open spec fn rested_at(
        before: &WriterLoop,
        after: &WriterLoop,
        i: int,
        j: int,
        t0: Seq<Op>,
        t1: Seq<Op>,
    ) -> bool {
        exists|mid: WriterLoop, t: Seq<Op>, r: Result<(), Error>|
            {
                &&& #[trigger] Self::parked_at(before, &mid, i, j, t0, t, r)
                &&& if r is Ok {
                    &&& Self::stepped(&mid, after, i, j)
                    &&& after.counters == mid.counters
                    &&& after.at(i, j) == (ChannelState {
                        buffers_released: true,
                        ..mid.at(i, j)
                    })
                    &&& t1 == t.push(Op::ReleaseBuffers { place: mid.at(i, j).place })
                } else {
                    Self::counted(&mid, after, r) && t1 == t
                }
            }
    }

    /// A channel that was quiet for a while rests.
    pub open spec fn resting(now: u64, quiet_for: u64) -> Step {
        |before: WriterLoop, after: WriterLoop, t0: Seq<Op>, t1: Seq<Op>|
            exists|i: int, j: int|
                {
                    &&& fleet::has_channel(before.namespaces@, i, j)
                    &&& idles(before.at(i, j), now, quiet_for)
                    &&& #[trigger] Self::rested_at(&before, &after, i, j, t0, t1)
                }
    }

    /// Releases the segment of a channel, and then its buffers. The answer says whether it
    /// was released.
    fn rest_at<M: Medium>(&mut self, i: usize, j: usize, io: &mut Io<M>) -> (done: bool)
        requires
            old(self).wf(),
            old(self).balanced(old(io)@),
            fleet::has_channel(old(self).namespaces@, i as int, j as int),
        ensures
            final(self).wf(),
            final(self).balanced(final(io)@),
            final(self).counters.same_upkeep(old(self).counters),
            Self::stepped(old(self), final(self), i as int, j as int),
            fleet::same_fleet(old(self).namespaces@, final(self).namespaces@),
            medium::no_input(old(io)@, final(io)@),
            final(self).at(i as int, j as int).block.count == 0,
            done ==> final(self).at(i as int, j as int).segment is None && final(self).at(
                i as int,
                j as int,
            ).buffers_released,
            !done ==> medium::troubled(old(io)@, final(io)@),
            Self::rested_at(
                old(self),
                final(self),
                i as int,
                j as int,
                old(io)@,
                final(io)@,
            ),
    {
        let ghost before = *self;
        let ghost t0 = io@;
        let parked = self.park_at(i, j, io);
        let ghost mid = *self;
        let ghost t = io@;
        proof {
            reveal(WriterLoop::rested_at);
            assert(Self::parked_at(&before, &mid, i as int, j as int, t0, t, parked));
        }
        match parked {
            Ok(()) => {
                self.release_at(i, j, io);
                proof {
                    fleet::lemma_same_fleet_trans(
                        before.namespaces@,
                        mid.namespaces@,
                        self.namespaces@,
                    );
                }
                true
            },
            Err(_) => {
                Counters::bump(&mut self.counters.io_errors);
                false
            },
        }
    }

    /// Channels that were quiet for a while released their segments; nothing else
    /// changed.
    pub open spec fn rested(
        before: &WriterLoop,
        after: &WriterLoop,
        now: u64,
        quiet_for: u64,
        t0: Seq<Op>,
        t1: Seq<Op>,
    ) -> bool {
        &&& after.same_setup(before)
        &&& after.same_round(before)
        &&& after.counters.same_upkeep(before.counters)
        &&& fleet::same_fleet(before.namespaces@, after.namespaces@)
        &&& medium::no_input(t0, t1)
        &&& exists|states: Seq<WriterLoop>, traces: Seq<Seq<Op>>|
            {
                &&& #[trigger] chained(Self::resting(now, quiet_for), states, traces)
                &&& states[0] == *before
                &&& states.last() == *after
                &&& traces[0] == t0
                &&& traces.last() == t1
            }
        &&& forall|i: int, j: int|
            #![trigger after.at(i, j)]
            fleet::has_channel(before.namespaces@, i, j) ==> if idles(
                before.at(i, j),
                now,
                quiet_for,
            ) {
                after.at(i, j).segment is None || medium::troubled(t0, t1)
            } else {
                after.at(i, j) == before.at(i, j)
            }
    }

    /// The channels that released their segments, in the order of addresses; one that was
    /// quiet and did not was refused by the medium.
    pub open spec fn were_released(
        before: &WriterLoop,
        after: &WriterLoop,
        now: u64,
        quiet_for: u64,
        released: Seq<(int, int)>,
        refused: bool,
    ) -> bool {
        Self::released_before(
            before,
            after,
            now,
            quiet_for,
            released,
            refused,
            before.namespaces@.len() as int,
            0,
        )
    }

    /// The channels before an address that released their segments.
    pub open spec fn released_before(
        before: &WriterLoop,
        after: &WriterLoop,
        now: u64,
        quiet_for: u64,
        released: Seq<(int, int)>,
        refused: bool,
        i: int,
        j: int,
    ) -> bool {
        &&& forall|k: int|
            0 <= k < released.len() ==> {
                let (a, b) = #[trigger] released[k];
                &&& fleet::has_channel(before.namespaces@, a, b)
                &&& losses::before_address(a, b, i, j)
                &&& idles(before.at(a, b), now, quiet_for)
                &&& after.at(a, b).segment is None
                &&& after.at(a, b).buffers_released
            }
        &&& forall|k: int, m: int|
            0 <= k < m < released.len() ==> losses::before_address(
                (#[trigger] released[k]).0,
                released[k].1,
                (#[trigger] released[m]).0,
                released[m].1,
            )
        &&& !refused ==> forall|a: int, b: int|
            #![trigger before.at(a, b)]
            fleet::has_channel(before.namespaces@, a, b) && losses::before_address(a, b, i, j)
                && idles(before.at(a, b), now, quiet_for) ==> released.contains((a, b))
    }

    /// Another channel was looked at.
    proof fn lemma_released_on(
        before: &WriterLoop,
        mid: &WriterLoop,
        after: &WriterLoop,
        now: u64,
        quiet_for: u64,
        released: Seq<(int, int)>,
        refused: bool,
        i: int,
        j: int,
        done: bool,
        refused_now: bool,
    )
        requires
            Self::released_before(before, mid, now, quiet_for, released, refused, i, j),
            fleet::has_channel(before.namespaces@, i, j),
            forall|a: int, b: int|
                #![trigger after.at(a, b)]
                fleet::has_channel(before.namespaces@, a, b) && (a != i || b != j) ==> after.at(
                    a,
                    b,
                ) == mid.at(a, b),
            done ==> idles(before.at(i, j), now, quiet_for) && after.at(i, j).segment is None
                && after.at(i, j).buffers_released,
            !done && idles(before.at(i, j), now, quiet_for) ==> refused_now,
            refused ==> refused_now,
        ensures
            Self::released_before(
                before,
                after,
                now,
                quiet_for,
                if done {
                    released.push((i, j))
                } else {
                    released
                },
                refused_now,
                i,
                j + 1,
            ),
    {
        let list = if done {
            released.push((i, j))
        } else {
            released
        };
        assert forall|k: int| 0 <= k < list.len() implies {
            let (a, b) = #[trigger] list[k];
            &&& fleet::has_channel(before.namespaces@, a, b)
            &&& losses::before_address(a, b, i, j + 1)
            &&& idles(before.at(a, b), now, quiet_for)
            &&& after.at(a, b).segment is None
            &&& after.at(a, b).buffers_released
        } by {
            if k < released.len() {
                let (a, b) = released[k];
                assert(list[k] == released[k]);
                assert(after.at(a, b) == mid.at(a, b));
            }
        }
        assert forall|k: int, m: int| 0 <= k < m < list.len() implies losses::before_address(
            (#[trigger] list[k]).0,
            list[k].1,
            (#[trigger] list[m]).0,
            list[m].1,
        ) by {
            assert(list[k] == released[k]);
            if m < released.len() {
                assert(list[m] == released[m]);
            }
        }
        if !refused_now {
            assert forall|a: int, b: int|
                #![trigger before.at(a, b)]
                fleet::has_channel(before.namespaces@, a, b) && losses::before_address(
                    a,
                    b,
                    i,
                    j + 1,
                ) && idles(before.at(a, b), now, quiet_for) implies list.contains((a, b)) by {
                if a == i && b == j {
                    assert(list[released.len() as int] == (i, j));
                } else {
                    assert(released.contains((a, b)));
                    let k = released.index_of((a, b));
                    assert(list[k] == (a, b));
                }
            }
        }
    }

    /// Releases the segments of channels that have been quiet for a while, ahead of
    /// time: what is occupied but unused is given up first, before anyone's
    /// history. The answer is how many were released.
    #[verifier::rlimit(40)]
    pub fn park_idle<M: Medium>(&mut self, now: u64, quiet_for: u64, io: &mut Io<M>) -> (parked:
        usize)
        requires
            old(self).wf(),
            old(self).balanced(old(io)@),
        ensures
            final(self).wf(),
            final(self).balanced(final(io)@),
            final(self).same_setup(old(self)),
            final(self).same_round(old(self)),
            final(self).counters.same_upkeep(old(self).counters),
            fleet::all_flushed(old(self).namespaces@) ==> fleet::all_flushed(
                final(self).namespaces@,
            ),
            fleet::same_fleet(old(self).namespaces@, final(self).namespaces@),
            medium::no_input(old(io)@, final(io)@),
            parked == 0 ==> final(self).namespaces@ == old(self).namespaces@ || medium::troubled(
                old(io)@,
                final(io)@,
            ),
            Self::rested(old(self), final(self), now, quiet_for, old(io)@, final(io)@),
            exists|released: Seq<(int, int)>|
                {
                    &&& #[trigger] Self::were_released(
                        old(self),
                        final(self),
                        now,
                        quiet_for,
                        released,
                        medium::troubled(old(io)@, final(io)@),
                    )
                    &&& parked == if released.len() <= usize::MAX {
                        released.len() as int
                    } else {
                        usize::MAX as int
                    }
                },
    {
        let ghost before = *self;
        let ghost t0 = io@;
        proof {
            fleet::lemma_same_fleet_refl(self.namespaces@);
        }
        let mut parked: usize = 0;
        let ghost mut released: Seq<(int, int)> = Seq::empty();
        let ghost mut states: Seq<WriterLoop> = seq![*self];
        let ghost mut traces: Seq<Seq<Op>> = seq![io@];
        proof {
            lemma_chain_of_one(Self::resting(now, quiet_for), *self, io@);
        }
        let mut i: usize = 0;
        while i < self.namespaces.len()
            invariant
                i <= self.namespaces@.len(),
                chained(Self::resting(now, quiet_for), states, traces),
                states.len() > 0,
                traces.len() > 0,
                states[0] == before,
                states.last() == *self,
                traces[0] == t0,
                traces.last() == io@,
                self.wf(),
                self.balanced(io@),
                self.same_setup(&before),
                self.same_round(&before),
                self.counters.same_upkeep(before.counters),
                fleet::all_flushed(before.namespaces@) ==> fleet::all_flushed(self.namespaces@),
                fleet::same_fleet(before.namespaces@, self.namespaces@),
                medium::no_input(t0, io@),
                parked == 0 ==> self.namespaces@ == before.namespaces@ || medium::troubled(t0, io@),
                Self::parked_before(&before, self, t0, io@, now, quiet_for, i as int, 0),
                parked == if released.len() <= usize::MAX {
                    released.len() as int
                } else {
                    usize::MAX as int
                },
                Self::released_before(
                    &before,
                    self,
                    now,
                    quiet_for,
                    released,
                    medium::troubled(t0, io@),
                    i as int,
                    0,
                ),
            decreases self.namespaces@.len() - i,
        {
            let n: usize = self.channels_in(i);
            let mut j: usize = 0;
            while j < n
                invariant
                    i < self.namespaces@.len(),
                    n == match self.namespaces@[i as int] {
                        Some(ns) => ns.channels@.len(),
                        None => 0,
                    },
                    j <= n,
                    chained(Self::resting(now, quiet_for), states, traces),
                    states.len() > 0,
                    traces.len() > 0,
                    states[0] == before,
                    states.last() == *self,
                    traces[0] == t0,
                    traces.last() == io@,
                    self.wf(),
                    self.balanced(io@),
                    self.same_setup(&before),
                    self.same_round(&before),
                    self.counters.same_upkeep(before.counters),
                    fleet::all_flushed(before.namespaces@) ==> fleet::all_flushed(self.namespaces@),
                    fleet::same_fleet(before.namespaces@, self.namespaces@),
                    medium::no_input(t0, io@),
                    parked == 0 ==> self.namespaces@ == before.namespaces@ || medium::troubled(
                        t0,
                        io@,
                    ),
                    Self::parked_before(&before, self, t0, io@, now, quiet_for, i as int, j as int),
                    parked == if released.len() <= usize::MAX {
                        released.len() as int
                    } else {
                        usize::MAX as int
                    },
                    Self::released_before(
                        &before,
                        self,
                        now,
                        quiet_for,
                        released,
                        medium::troubled(t0, io@),
                        i as int,
                        j as int,
                    ),
                decreases n - j,
            {
                let ghost mid = *self;
                let ghost t1 = io@;
                let ghost mut done: bool = false;
                assert(fleet::has_channel(self.namespaces@, i as int, j as int));
                assert(before.namespaces@[i as int] is Some);
                assert(fleet::has_channel(before.namespaces@, i as int, j as int));
                assert(self.at(i as int, j as int) == before.at(i as int, j as int));
                if self.idles_at(i, j, now, quiet_for) {
                    let rests: bool = self.rest_at(i, j, io);
                    if rests {
                        parked = parked.saturating_add(1);
                    }
                    proof {
                        done = rests;
                        assert(idles(mid.at(i as int, j as int), now, quiet_for));
                        assert(Self::rested_at(&mid, self, i as int, j as int, t1, io@));
                        lemma_chain_link(
                            Self::resting(now, quiet_for),
                            states,
                            traces,
                            *self,
                            io@,
                        );
                        states = states.push(*self);
                        traces = traces.push(io@);
                        fleet::lemma_same_fleet_trans(
                            before.namespaces@,
                            mid.namespaces@,
                            self.namespaces@,
                        );
                        fleet::lemma_one_channel(
                            mid.namespaces@,
                            self.namespaces@,
                            i as int,
                            j as int,
                        );
                        if fleet::all_flushed(mid.namespaces@) {
                            fleet::lemma_flushed_step(
                                mid.namespaces@,
                                self.namespaces@,
                                i as int,
                                j as int,
                            );
                        }
                    }
                }
                proof {
                    assert forall|a: int, b: int|
                        #![trigger self.at(a, b)]
                        fleet::has_channel(before.namespaces@, a, b) implies Self::parked_one(
                        &before,
                        self,
                        t0,
                        io@,
                        now,
                        quiet_for,
                        i as int,
                        j + 1,
                        a,
                        b,
                    ) by {
                        assert(mid.namespaces@[a] == mid.namespaces@[a]);
                        assert(fleet::has_channel(mid.namespaces@, a, b));
                        let _ = mid.at(a, b);
                        assert(Self::parked_one(
                            &before,
                            &mid,
                            t0,
                            t1,
                            now,
                            quiet_for,
                            i as int,
                            j as int,
                            a,
                            b,
                        ));
                        if a != i || b != j {
                            assert(fleet::channel_at(self.namespaces@, a, b) == fleet::channel_at(
                                mid.namespaces@,
                                a,
                                b,
                            ));
                        }
                    }
                    assert forall|a: int, b: int|
                        #![trigger self.at(a, b)]
                        fleet::has_channel(before.namespaces@, a, b) && (a != i || b != j)
                            implies self.at(a, b) == mid.at(a, b) by {
                        assert(mid.namespaces@[a] == mid.namespaces@[a]);
                        assert(fleet::has_channel(mid.namespaces@, a, b));
                        assert(fleet::channel_at(self.namespaces@, a, b) == fleet::channel_at(
                            mid.namespaces@,
                            a,
                            b,
                        ));
                    }
                    Self::lemma_released_on(
                        &before,
                        &mid,
                        self,
                        now,
                        quiet_for,
                        released,
                        medium::troubled(t0, t1),
                        i as int,
                        j as int,
                        done,
                        medium::troubled(t0, io@),
                    );
                    if done {
                        released = released.push((i as int, j as int));
                    }
                }
                j = j + 1;
            }
            proof {
                assert forall|a: int, b: int| #[trigger] fleet::has_channel(
                    before.namespaces@,
                    a,
                    b,
                ) implies losses::before_address(a, b, i as int, j as int)
                    == losses::before_address(a, b, i + 1, 0) by {
                    assert(self.namespaces@[a] == self.namespaces@[a]);
                }
                assert(Self::released_before(
                    &before,
                    self,
                    now,
                    quiet_for,
                    released,
                    medium::troubled(t0, io@),
                    i + 1,
                    0,
                )) by {
                    assert forall|k: int| 0 <= k < released.len() implies {
                        let (a, b) = #[trigger] released[k];
                        losses::before_address(a, b, i + 1, 0)
                    } by {}
                }
                assert forall|a: int, b: int|
                    #![trigger self.at(a, b)]
                    fleet::has_channel(before.namespaces@, a, b) implies Self::parked_one(
                    &before,
                    self,
                    t0,
                    io@,
                    now,
                    quiet_for,
                    i + 1,
                    0,
                    a,
                    b,
                ) by {
                    assert(Self::parked_one(
                        &before,
                        self,
                        t0,
                        io@,
                        now,
                        quiet_for,
                        i as int,
                        j as int,
                        a,
                        b,
                    ));
                }
            }
            i = i + 1;
        }
        proof {
            assert forall|a: int, b: int|
                #![trigger self.at(a, b)]
                fleet::has_channel(before.namespaces@, a, b) implies if idles(
                before.at(a, b),
                now,
                quiet_for,
            ) {
                self.at(a, b).segment is None || medium::troubled(t0, io@)
            } else {
                self.at(a, b) == before.at(a, b)
            } by {
                assert(losses::before_address(a, b, i as int, 0));
                assert(self.namespaces@[a] == self.namespaces@[a]);
                assert(Self::parked_one(
                    &before,
                    self,
                    t0,
                    io@,
                    now,
                    quiet_for,
                    i as int,
                    0,
                    a,
                    b,
                ));
            }
        }
        assert(chained(Self::resting(now, quiet_for), states, traces));
        assert(Self::were_released(
            &before,
            self,
            now,
            quiet_for,
            released,
            medium::troubled(t0, io@),
        ));
        parked
    }

    /// What the walk over the idle channels has done to the channel at `(a, b)`
    /// when it has come to `(i, j)`.
    spec fn parked_one(
        before: &WriterLoop,
        after: &WriterLoop,
        t0: Seq<Op>,
        t1: Seq<Op>,
        now: u64,
        quiet_for: u64,
        i: int,
        j: int,
        a: int,
        b: int,
    ) -> bool {
        if losses::before_address(a, b, i, j) && idles(before.at(a, b), now, quiet_for) {
            after.at(a, b).segment is None || medium::troubled(t0, t1)
        } else {
            after.at(a, b) == before.at(a, b)
        }
    }

    spec fn parked_before(
        before: &WriterLoop,
        after: &WriterLoop,
        t0: Seq<Op>,
        t1: Seq<Op>,
        now: u64,
        quiet_for: u64,
        i: int,
        j: int,
    ) -> bool {
        forall|a: int, b: int|
            #![trigger after.at(a, b)]
            fleet::has_channel(before.namespaces@, a, b) ==> Self::parked_one(
                before,
                after,
                t0,
                t1,
                now,
                quiet_for,
                i,
                j,
                a,
                b,
            )
    }
}

/// The channel at an address is one of a group or a medium, and its oldest segment is not the one it
/// writes to or will go on with.
pub open spec fn could_give_up(namespaces: Seq<Option<NsState>>, pick: Pick, i: int, j: int) -> bool {
    let ch = fleet::channel_at(namespaces, i, j);
    &&& fleet::has_channel(namespaces, i, j)
    &&& match pick {
        Pick::Root(root) => ch.root_key == root,
        Pick::Group(group) => ch.group == group,
    }
    &&& ch.inventory@.len() > 0
    &&& match ch.segment {
        Some(s) => !(ch.inventory@[0].name.boot == s.header.boot && ch.inventory@[0].name.base
            == s.header.base),
        None => ch.parked_segment != Some(ch.inventory@[0].name),
    }
}

/// The segment that goes is the oldest of its group or medium, whoever's namespace it lies in: no
/// channel that could give one up has one of an earlier run, or of the same run that begins earlier.
/// No live segment goes, and none of another group or medium.
pub proof fn law_the_oldest_segment_of_all_goes_first(
    namespaces: Seq<Option<NsState>>,
    pick: Pick,
    i: int,
    j: int,
    a: int,
    b: int,
)
    requires
        is_victim(namespaces, pick, i, j),
    ensures
        could_give_up(namespaces, pick, i, j),
        offered(namespaces, i, j) == fleet::channel_at(namespaces, i, j).inventory@[0],
        could_give_up(namespaces, pick, a, b) ==> {
            let ours = fleet::channel_at(namespaces, i, j).inventory@[0].name;
            let theirs = fleet::channel_at(namespaces, a, b).inventory@[0].name;
            ours.boot.0 < theirs.boot.0 || ours.boot == theirs.boot && ours.base.0
                <= theirs.base.0
        },
{
    let ch = fleet::channel_at(namespaces, a, b);
    if could_give_up(namespaces, pick, a, b) {
        assert(candidate(namespaces, pick, a, b));
    }
}

/// There is nothing to give up if and only if no channel of the group or the medium has a segment
/// older than its live one.
pub proof fn law_nothing_is_left_only_where_every_oldest_is_live(
    namespaces: Seq<Option<NsState>>,
    pick: Pick,
)
    ensures
        exhausted(namespaces, pick) <==> forall|i: int, j: int|
            #![trigger fleet::channel_at(namespaces, i, j)]
            !could_give_up(namespaces, pick, i, j),
{
    assert forall|i: int, j: int| #![trigger fleet::channel_at(namespaces, i, j)] could_give_up(
        namespaces,
        pick,
        i,
        j,
    ) == candidate(namespaces, pick, i, j) by {}
}

/// A group that was brought within its budget occupies no more than it, unless all it has left is
/// live: the oldest segment of each of its channels is the one that is written to.
pub proof fn law_a_group_is_within_its_budget_or_all_live(
    namespaces: Seq<Option<NsState>>,
    group: usize,
    budget: u64,
    i: int,
    j: int,
)
    requires
        within(namespaces, group, budget),
        could_give_up(namespaces, Pick::Group(group), i, j),
    ensures
        fleet::group_total(namespaces, group) <= budget,
{
    law_nothing_is_left_only_where_every_oldest_is_live(namespaces, Pick::Group(group));
}

/// An eviction takes the oldest segment off its channel and off the medium, and nothing else: the
/// rest of its segments stay as they were, and so do all other channels. One that the medium refuses
/// takes nothing.
pub proof fn law_an_eviction_takes_one_segment(
    before: &WriterLoop,
    after: &WriterLoop,
    t0: Seq<Op>,
    t1: Seq<Op>,
    freed: Option<u64>,
    pick: Pick,
    i: int,
    j: int,
    a: int,
    b: int,
)
    requires
        is_victim(before.namespaces@, pick, i, j),
        evicted(before, after, t0, t1, freed, i, j),
    ensures
        freed matches Some(n) ==> {
            let gone = before.at(i, j).inventory@[0];
            &&& n == gone.size_bytes
            &&& after.at(i, j).inventory@ == before.at(i, j).inventory@.skip(1)
            &&& t1 == t0.push(
                Op::Remove {
                    file: SegmentFile { place: before.at(i, j).place, name: gone.name },
                    refused: None,
                },
            )
            &&& after.counters.segments_rotated == stats::plus(
                before.counters.segments_rotated,
                1,
            )
        },
        fleet::has_channel(before.namespaces@, a, b) && (a != i || b != j) ==> after.at(a, b)
            == before.at(a, b),
        freed is None ==> after.namespaces == before.namespaces,
{
    law_the_oldest_segment_of_all_goes_first(before.namespaces@, pick, i, j, i, j);
    if freed is Some {
        rotation::lemma_oldest_forgotten(before.at(i, j).inventory@);
        fleet::lemma_one_channel(before.namespaces@, after.namespaces@, i, j);
        if fleet::has_channel(before.namespaces@, a, b) && (a != i || b != j) {
            assert(fleet::channel_at(after.namespaces@, a, b) == fleet::channel_at(
                before.namespaces@,
                a,
                b,
            ));
        }
    }
}

/// A channel rests only if it has held a segment without anything to service for that long.
pub proof fn law_only_idle_channels_rest(ch: ChannelState, now: u64, quiet_for: u64)
    ensures
        idles(ch, now, quiet_for) ==> ch.segment is Some && (ch.idle_since matches Some(since)
            && since + quiet_for <= now || quiet_for == 0),
        ch.segment is Some && (ch.idle_since matches Some(since) && since + quiet_for <= now)
            ==> idles(ch, now, quiet_for),
{
}

} // verus!
