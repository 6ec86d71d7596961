//! Commands to the writer: namespaces coming and going, syncs, migrations, the
//! stop.
//!
//! Commands travel apart from records and would overtake them, so a sync, a
//! release and a stop drain the queues first.

use crate::batch;
use crate::channel_state::{blamed, Accumulator, ChannelSpec, ChannelState, SegmentIdentity};
use crate::error::Error;
use crate::fleet;
use crate::fleet::NsState;
use crate::footer::FooterView;
use crate::format::{BootCounter, Micros, ProtocolVersion, SegmentName};
use crate::intake::{handed_over, Drained, Moment, DRAIN_LIMIT, DRAIN_ROUNDS};
use crate::losses;
use crate::medium;
use crate::medium::{Io, Medium, Op, Place, SegmentFile};
use crate::pulse::{Beat, Pulse};
use crate::queue;
use crate::queue::{Answer, Inbox};
use crate::rotation;
use crate::staged::{ChannelIdx, NsId, Staged};
use crate::stats;
use crate::stats::Counters;
use crate::writer_loop::{addressed, laid_out, Leftovers, WriterLoop};
use vstd::prelude::*;

verus! {

broadcast use {
    crate::medium::group_trace,
    crate::medium::group_synced,
    crate::medium::group_answered,
    crate::fleet::lemma_honest_on,
};

/// The parameters for registering a namespace.
#[derive(Debug)]
pub struct NsSetup {
    pub name: String,
    pub protocol_version: ProtocolVersion,
    pub store_id: u64,
    pub boot: BootCounter,
    pub channels: Vec<ChannelSpec>,
}

/// How the migration of one segment ended.
#[derive(Debug, Clone, Copy, PartialEq, Eq, Structural)]
pub enum MigrationCommit {
    /// The segment file is replaced by the one in the staging area, which is
    /// written and synced. The inventory learns the new size at once: budgets
    /// are kept by those sums.
    Replace { size: u64 },
    /// The segment goes: the migration left no record in it.
    Remove,
}

/// A slot a new namespace can take: the first free one, or the next.
pub open spec fn is_free_slot(namespaces: Seq<Option<NsState>>, i: int) -> bool {
    &&& 0 <= i <= namespaces.len()
    &&& i < namespaces.len() ==> namespaces[i] is None
    &&& forall|k: int| 0 <= k < i ==> (#[trigger] namespaces[k]) is Some
}

/// A channel as it is brought up.
pub open spec fn brought_up(
    ch: ChannelState,
    spec: ChannelSpec,
    place: Place,
    root_key: u8,
    identity: SegmentIdentity,
) -> bool {
    &&& ch.ready()
    &&& ch.place == place
    &&& ch.root_key == root_key
    &&& ch.identity == identity
    &&& ch.group == spec.group
    &&& ch.quota_bytes == spec.quota_bytes
    &&& ch.config == spec.config
    &&& ch.segment is None && ch.parked_segment is None
    &&& ch.block == Accumulator::empty() && ch.block_opened is None
    &&& ch.footer@ == FooterView::empty()
    &&& ch.last_time == Micros(0)
    &&& !ch.dirty_since_sync
    &&& !ch.is_in_active_list && ch.idle_since is None && ch.buffers_released
    &&& ch.lost == 0
}

/// The channels of a namespace came up one after another: each directory was
/// attached, then the channel was brought up in it.
pub open spec fn came_up_in_turn(
    specs: Seq<ChannelSpec>,
    channels: Seq<ChannelState>,
    tallies: Seq<Counters>,
    traces: Seq<Seq<Op>>,
) -> bool {
    &&& tallies.len() == channels.len() + 1
    &&& traces.len() == channels.len() + 1
    &&& forall|j: int|
        #![trigger channels[j]]
        0 <= j < channels.len() ==> ChannelState::came_up(
            &channels[j],
            tallies[j],
            tallies[j + 1],
            traces[j].push(
                Op::Attach { place: channels[j].place, dir: specs[j].dir@, refused: None },
            ),
            traces[j + 1],
        )
}

impl WriterLoop {
    /// The medium of a budget group; a group that does not exist counts as the
    /// first medium.
    pub open spec fn root_of(&self, group: usize) -> u8 {
        if (group as int) < self.groups@.len() {
            self.groups@[group as int].root_key
        } else {
            0
        }
    }

    fn free_slot(&self) -> (i: usize)
        ensures
            is_free_slot(self.namespaces@, i as int),
    {
        let mut i: usize = 0;
        while i < self.namespaces.len()
            invariant
                i <= self.namespaces@.len(),
                forall|k: int| 0 <= k < i ==> (#[trigger] self.namespaces@[k]) is Some,
            decreases self.namespaces@.len() - i,
        {
            if self.namespaces[i].is_none() {
                return i;
            }
            i = i + 1;
        }
        i
    }

    /// The slot holds a namespace as it is set up.
    pub open spec fn holds_setup(&self, slot: Option<NsState>, i: int, setup: &NsSetup) -> bool {
        &&& slot is Some
        &&& slot->0.name == setup.name
        &&& slot->0.channels@.len() == setup.channels@.len()
        &&& forall|j: int|
            0 <= j < setup.channels@.len() ==> brought_up(
                #[trigger] slot->0.channels@[j],
                setup.channels@[j],
                Place { ns: NsId(i as u32), channel: ChannelIdx(j as u16), staging: false },
                self.root_of(setup.channels@[j].group),
                SegmentIdentity {
                    protocol_version: setup.protocol_version,
                    store_id: setup.store_id,
                    boot: setup.boot,
                },
            )
    }

    /// A namespace was brought up in the first free slot, or the medium refused.
    pub open spec fn registered(
        before: &WriterLoop,
        after: &WriterLoop,
        setup: &NsSetup,
        r: Result<NsId, Error>,
        t0: Seq<Op>,
        t1: Seq<Op>,
    ) -> bool {
        &&& after.roster_changed
        &&& after.same_round(before)
        &&& after.groups@ == before.groups@
        &&& after.counters.dropped == before.counters.dropped
        &&& medium::no_input(t0, t1)
        &&& match r {
            Ok(id) => {
                let i = id.0 as int;
                &&& is_free_slot(before.namespaces@, i)
                &&& i < after.namespaces@.len()
                &&& after.namespaces@ == if i < before.namespaces@.len() {
                    before.namespaces@.update(i, after.namespaces@[i])
                } else {
                    before.namespaces@.push(after.namespaces@[i])
                }
                &&& before.holds_setup(after.namespaces@[i], i, setup)
                &&& exists|tallies: Seq<Counters>, traces: Seq<Seq<Op>>|
                    {
                        &&& #[trigger] came_up_in_turn(
                            setup.channels@,
                            after.namespaces@[i]->0.channels@,
                            tallies,
                            traces,
                        )
                        &&& tallies[0] == before.counters
                        &&& tallies.last() == after.counters
                        &&& traces[0] == t0
                        &&& traces.last() == t1
                    }
            },
            // The channels before the one that did not come up had come up.
            Err(e) => {
                &&& after.namespaces@ == before.namespaces@
                &&& medium::troubled(t0, t1)
                &&& medium::refused_with(t1.last(), e)
                &&& exists|
                    channels: Seq<ChannelState>,
                    tallies: Seq<Counters>,
                    traces: Seq<Seq<Op>>,
                |
                    {
                        &&& #[trigger] came_up_in_turn(
                            setup.channels@,
                            channels,
                            tallies,
                            traces,
                        )
                        &&& channels.len() < setup.channels@.len()
                        &&& tallies[0] == before.counters
                        &&& tallies.last() == after.counters
                        &&& traces[0] == t0
                        &&& medium::grown(traces.last(), t1)
                    }
            },
        }
    }

    /// Brings up a namespace. The slot of a released one is reused: otherwise a
    /// service that reconnects would grow the table for the life of the process.
    #[verifier::rlimit(40)]
    pub fn register<M: Medium>(&mut self, setup: NsSetup, io: &mut Io<M>) -> (r: Result<NsId, Error>)
        requires
            old(self).wf(),
            old(self).balanced(old(io)@),
            old(self).namespaces@.len() < u32::MAX,
            setup.channels@.len() <= u16::MAX,
        ensures
            final(self).wf(),
            final(self).balanced(final(io)@),
            Self::registered(old(self), final(self), &setup, r, old(io)@, final(io)@),
    {
        let ghost before = *self;
        let ghost t0 = io@;
        self.roster_changed = true;
        let i: usize = self.free_slot();
        let identity = SegmentIdentity {
            protocol_version: setup.protocol_version,
            store_id: setup.store_id,
            boot: setup.boot,
        };
        let ghost asked = setup.channels@;
        let name: String = setup.name;
        let mut specs: Vec<ChannelSpec> = setup.channels;
        let mut channels: Vec<ChannelState> = Vec::new();
        assert(asked.skip(0) =~= asked);
        let ghost mut tallies: Seq<Counters> = seq![self.counters];
        let ghost mut traces: Seq<Seq<Op>> = seq![io@];
        while specs.len() > 0
            invariant
                before == *old(self),
                t0 == old(io)@,
                asked == setup.channels@,
                name == setup.name,
                identity == (SegmentIdentity {
                    protocol_version: setup.protocol_version,
                    store_id: setup.store_id,
                    boot: setup.boot,
                }),
                asked.len() <= u16::MAX,
                channels@.len() + specs@.len() == asked.len(),
                specs@ == asked.skip(channels@.len() as int),
                i <= before.namespaces@.len() < u32::MAX,
                before.wf(),
                before.balanced(t0),
                *self == (WriterLoop {
                    roster_changed: true,
                    counters: self.counters,
                    ..before
                }),
                self.counters.dropped == before.counters.dropped,
                medium::quiet(t0, io@),
                came_up_in_turn(asked, channels@, tallies, traces),
                tallies[0] == before.counters,
                tallies.last() == self.counters,
                traces[0] == t0,
                traces.last() == io@,
                forall|j: int|
                    0 <= j < channels@.len() ==> brought_up(
                        #[trigger] channels@[j],
                        asked[j],
                        Place { ns: NsId(i as u32), channel: ChannelIdx(j as u16), staging: false },
                        before.root_of(asked[j].group),
                        identity,
                    ),
            decreases specs@.len(),
        {
            let ghost j = channels@.len() as int;
            assert(specs@[0] == asked[j]);
            let place = Place {
                ns: NsId(i as u32),
                channel: ChannelIdx(channels.len() as u16),
                staging: false,
            };
            let spec: ChannelSpec = specs.remove(0);
            let ghost seen = io@;
            let attached = io.attach(place, spec.dir.as_str());
            proof {
                medium::lemma_landed_push(
                    seen,
                    Op::Attach { place, dir: spec.dir@, refused: medium::refusal(attached) },
                );
            }
            match attached {
                Ok(()) => {},
                Err(e) => {
                    assert(came_up_in_turn(asked, channels@, tallies, traces));
                    return Err(e);
                },
            }
            let root_key: u8 = if spec.group < self.groups.len() {
                self.groups[spec.group].root_key
            } else {
                0
            };
            let made = ChannelState::new(
                spec,
                place,
                root_key,
                identity,
                self.layout,
                &mut self.counters,
                io,
            );
            match made {
                Ok(ch) => {
                    let ghost had = channels@;
                    channels.push(ch);
                    proof {
                        let c0 = tallies;
                        let s0 = traces;
                        tallies = tallies.push(self.counters);
                        traces = traces.push(io@);
                        assert forall|k: int|
                            #![trigger channels@[k]]
                            0 <= k < channels@.len() implies ChannelState::came_up(
                            &channels@[k],
                            tallies[k],
                            tallies[k + 1],
                            traces[k].push(
                                Op::Attach {
                                    place: channels@[k].place,
                                    dir: asked[k].dir@,
                                    refused: None,
                                },
                            ),
                            traces[k + 1],
                        ) by {
                            assert(tallies[k] == c0[k] && traces[k] == s0[k]);
                            if k < had.len() {
                                assert(channels@[k] == had[k]);
                                assert(tallies[k + 1] == c0[k + 1] && traces[k + 1] == s0[k + 1]);
                            } else {
                                assert(seen == s0[k]);
                            }
                        }
                        assert(asked.skip(j).remove(0) =~= asked.skip(j + 1));
                        assert forall|k: int| 0 <= k < channels@.len() implies brought_up(
                            #[trigger] channels@[k],
                            asked[k],
                            Place {
                                ns: NsId(i as u32),
                                channel: ChannelIdx(k as u16),
                                staging: false,
                            },
                            before.root_of(asked[k].group),
                            identity,
                        ) by {
                            if k < had.len() {
                                assert(channels@[k] == had[k]);
                            }
                        }
                    }
                },
                Err(e) => {
                    assert(came_up_in_turn(asked, channels@, tallies, traces));
                    return Err(e);
                },
            }
        }
        let ghost n0 = self.namespaces@;
        let state = NsState { name, channels };
        if i < self.namespaces.len() {
            self.namespaces.set(i, Some(state));
        } else {
            self.namespaces.push(Some(state));
        }
        proof {
            let n1 = self.namespaces@;
            assert(came_up_in_turn(
                asked,
                n1[i as int]->0.channels@,
                tallies,
                traces,
            ));
            fleet::lemma_slot_flushed(n1[i as int]);
            reveal(fleet::all_honest);
            assert forall|a: int, b: int| fleet::has_channel(n1, a, b) implies (
            #[trigger] fleet::channel_at(n1, a, b)).honest(io@) && fleet::channel_at(
                n1,
                a,
                b,
            ).place == (Place {
                ns: NsId(a as u32),
                channel: ChannelIdx(b as u16),
                staging: false,
            }) by {
                if a == i {
                    assert(brought_up(
                        channels@[b],
                        asked[b],
                        Place { ns: NsId(i as u32), channel: ChannelIdx(b as u16), staging: false },
                        before.root_of(asked[b].group),
                        identity,
                    ));
                } else {
                    assert(n1[a] == n0[a]);
                    assert(fleet::has_channel(n0, a, b));
                    assert(fleet::channel_at(n1, a, b) == fleet::channel_at(n0, a, b));
                    assert(fleet::channel_at(n0, a, b).honest(t0));
                }
            }
            if i < n0.len() {
                fleet::lemma_fleet_sum_update(n0, n1, i as int, fleet::in_block());
            } else {
                assert(n1.drop_last() =~= n0);
            }
            assert(fleet::pending(n1) == fleet::pending(n0));
            assert forall|a: int, b: int| fleet::has_channel(n1, a, b) implies (
            #[trigger] fleet::channel_at(n1, a, b)).ready() by {
                if a == i {
                    let place = Place {
                        ns: NsId(i as u32),
                        channel: ChannelIdx(b as u16),
                        staging: false,
                    };
                    assert(brought_up(
                        channels@[b],
                        asked[b],
                        place,
                        before.root_of(asked[b].group),
                        identity,
                    ));
                    assert(medium::assembled(io@, place).len() == 0);
                } else {
                    assert(n1[a] == n0[a]);
                    assert(fleet::has_channel(n0, a, b));
                    assert(fleet::channel_at(n1, a, b) == fleet::channel_at(n0, a, b));
                }
            }
            assert forall|p: Place|
                !p.staging && !fleet::has_channel(n1, p.ns.0 as int, p.channel.0 as int) implies (
            #[trigger] medium::assembled(io@, p)).len() == 0 by {
                if fleet::has_channel(n0, p.ns.0 as int, p.channel.0 as int) {
                    assert(n1[p.ns.0 as int] == n0[p.ns.0 as int]);
                }
            }
            assert forall|a: int, b: int|
                #![trigger fleet::channel_at(n1, a, b)]
                fleet::has_channel(n1, a, b) && fleet::channel_at(
                    n1,
                    a,
                    b,
                ).is_in_active_list implies self.active@.contains((a as usize, b as usize)) by {
                if a == i {
                    assert(brought_up(
                        channels@[b],
                        asked[b],
                        Place { ns: NsId(i as u32), channel: ChannelIdx(b as u16), staging: false },
                        before.root_of(asked[b].group),
                        identity,
                    ));
                } else {
                    assert(n1[a] == n0[a]);
                    assert(fleet::has_channel(n0, a, b));
                    assert(fleet::channel_at(n1, a, b) == fleet::channel_at(n0, a, b));
                }
            }
            assert forall|a: int| 0 <= a < n1.len() && (#[trigger] n1[a]) is Some implies n1[a]->0.channels@.len()
                <= u16::MAX by {
                if a != i {
                    assert(n1[a] == n0[a]);
                }
            }
        }
        Ok(NsId(i as u32))
    }
}

/// What was done to the channel at an address, with its outcome.
pub type Visit = spec_fn(
    WriterLoop,
    WriterLoop,
    (int, int),
    Seq<Op>,
    Seq<Op>,
    Result<(), Error>,
) -> bool;

/// Something was done to a channel, and an error of the medium counted.
pub open spec fn visited_one(
    what: Visit,
    before: WriterLoop,
    after: WriterLoop,
    at: (int, int),
    r: Result<(), Error>,
    t0: Seq<Op>,
    t1: Seq<Op>,
) -> bool {
    exists|mid: WriterLoop|
        {
            &&& what(before, mid, at, t0, t1, r)
            &&& #[trigger] WriterLoop::counted(&mid, &after, r)
        }
}

/// The same was done to channels one after another.
#[verifier::opaque]
pub open spec fn visited(
    what: Visit,
    list: Seq<(int, int)>,
    outcomes: Seq<Result<(), Error>>,
    states: Seq<WriterLoop>,
    traces: Seq<Seq<Op>>,
) -> bool {
    &&& outcomes.len() == list.len()
    &&& states.len() == list.len() + 1
    &&& traces.len() == list.len() + 1
    &&& forall|k: int|
        #![trigger states[k]]
        0 <= k < list.len() ==> visited_one(
            what,
            states[k],
            states[k + 1],
            list[k],
            outcomes[k],
            traces[k],
            traces[k + 1],
        )
}

proof fn lemma_visited_none(what: Visit, state: WriterLoop, trace: Seq<Op>)
    ensures
        visited(what, Seq::empty(), Seq::empty(), seq![state], seq![trace]),
{
    reveal(visited);
}

proof fn lemma_visited_on(
    what: Visit,
    list: Seq<(int, int)>,
    outcomes: Seq<Result<(), Error>>,
    states: Seq<WriterLoop>,
    traces: Seq<Seq<Op>>,
    at: (int, int),
    r: Result<(), Error>,
    next: WriterLoop,
    trace: Seq<Op>,
)
    requires
        visited(what, list, outcomes, states, traces),
        visited_one(what, states.last(), next, at, r, traces.last(), trace),
    ensures
        visited(
            what,
            list.push(at),
            outcomes.push(r),
            states.push(next),
            traces.push(trace),
        ),
        states.push(next)[0] == states[0],
        traces.push(trace)[0] == traces[0],
        first_error(outcomes.push(r)) == match (first_error(outcomes), r) {
            (Some(e), _) => Some(e),
            (None, Err(e)) => Some(e),
            (None, Ok(_)) => None,
        },
{
    reveal(visited);
    let l = list.push(at);
    let o = outcomes.push(r);
    let s = states.push(next);
    let t = traces.push(trace);
    assert(o.drop_last() =~= outcomes);
    assert forall|k: int| #![trigger s[k]] 0 <= k < l.len() implies visited_one(
        what,
        s[k],
        s[k + 1],
        l[k],
        o[k],
        t[k],
        t[k + 1],
    ) by {
        assert(s[k] == states[k] && t[k] == traces[k]);
        if k < list.len() {
            assert(l[k] == list[k] && o[k] == outcomes[k]);
            assert(s[k + 1] == states[k + 1] && t[k + 1] == traces[k + 1]);
        }
    }
}

/// The first error among outcomes.
pub open spec fn first_error(outcomes: Seq<Result<(), Error>>) -> Option<Error>
    decreases outcomes.len(),
{
    if outcomes.len() == 0 {
        None
    } else {
        match (first_error(outcomes.drop_last()), outcomes.last()) {
            (Some(e), _) => Some(e),
            (None, Err(e)) => Some(e),
            (None, Ok(_)) => None,
        }
    }
}

/// The channels meant that lie before an address, each once and in order.
pub open spec fn covers(
    namespaces: Seq<Option<NsState>>,
    only: Option<NsId>,
    list: Seq<(int, int)>,
    i: int,
    j: int,
) -> bool {
    &&& forall|k: int|
        0 <= k < list.len() ==> {
            let (a, b) = #[trigger] list[k];
            &&& fleet::has_channel(namespaces, a, b)
            &&& WriterLoop::meant(only, a)
            &&& losses::before_address(a, b, i, j)
        }
    &&& forall|k: int, m: int|
        0 <= k < m < list.len() ==> losses::before_address(
            (#[trigger] list[k]).0,
            list[k].1,
            (#[trigger] list[m]).0,
            list[m].1,
        )
    &&& forall|a: int, b: int|
        #![trigger fleet::has_channel(namespaces, a, b)]
        fleet::has_channel(namespaces, a, b) && WriterLoop::meant(only, a)
            && losses::before_address(a, b, i, j) ==> list.contains((a, b))
}

proof fn lemma_covers_on(
    namespaces: Seq<Option<NsState>>,
    only: Option<NsId>,
    list: Seq<(int, int)>,
    i: int,
    j: int,
)
    requires
        covers(namespaces, only, list, i, j),
        fleet::has_channel(namespaces, i, j),
        WriterLoop::meant(only, i),
    ensures
        covers(namespaces, only, list.push((i, j)), i, j + 1),
{
    let l = list.push((i, j));
    assert forall|k: int| 0 <= k < l.len() implies {
        let (a, b) = #[trigger] l[k];
        &&& fleet::has_channel(namespaces, a, b)
        &&& WriterLoop::meant(only, a)
        &&& losses::before_address(a, b, i, j + 1)
    } by {
        if k < list.len() {
            assert(l[k] == list[k]);
        }
    }
    assert forall|k: int, m: int| 0 <= k < m < l.len() implies losses::before_address(
        (#[trigger] l[k]).0,
        l[k].1,
        (#[trigger] l[m]).0,
        l[m].1,
    ) by {
        assert(l[k] == list[k]);
        if m < list.len() {
            assert(l[m] == list[m]);
        }
    }
    assert forall|a: int, b: int|
        #![trigger fleet::has_channel(namespaces, a, b)]
        fleet::has_channel(namespaces, a, b) && WriterLoop::meant(only, a)
            && losses::before_address(a, b, i, j + 1) implies l.contains((a, b)) by {
        if a == i && b == j {
            assert(l[list.len() as int] == (i, j));
        } else {
            let k = list.index_of((a, b));
            assert(l[k] == (a, b));
        }
    }
}

/// The channels of a slot were gone through, or none of them is meant.
proof fn lemma_covers_slot(
    namespaces: Seq<Option<NsState>>,
    only: Option<NsId>,
    list: Seq<(int, int)>,
    i: int,
    n: int,
)
    requires
        covers(namespaces, only, list, i, n),
        forall|b: int|
            WriterLoop::meant(only, i) && #[trigger] fleet::has_channel(namespaces, i, b) ==> b
                < n,
    ensures
        covers(namespaces, only, list, i + 1, 0),
{
    assert forall|k: int| 0 <= k < list.len() implies {
        let (a, b) = #[trigger] list[k];
        &&& fleet::has_channel(namespaces, a, b)
        &&& WriterLoop::meant(only, a)
        &&& losses::before_address(a, b, i + 1, 0)
    } by {}
}

impl WriterLoop {
    /// A segment was swapped for the result of its migration or deleted; or there
    /// was nothing to commit into, and nothing was touched; or the medium refused.
    pub open spec fn swapped(
        before: &WriterLoop,
        after: &WriterLoop,
        ns: NsId,
        channel: ChannelIdx,
        name: SegmentName,
        commit: MigrationCommit,
        r: Result<bool, Error>,
        t0: Seq<Op>,
        t1: Seq<Op>,
    ) -> bool {
        let known = fleet::has_channel(before.namespaces@, ns.0 as int, channel.0 as int)
            && rotation::lists(before.at(ns.0 as int, channel.0 as int).inventory@, name);
        &&& after.same_setup(before)
        &&& after.same_round(before)
        &&& after.counters == before.counters
        &&& fleet::same_fleet(before.namespaces@, after.namespaces@)
        &&& medium::quiet(t0, t1)
        &&& (r == Ok::<bool, Error>(false)) == !known
        &&& match r {
            Err(e) => medium::troubled(t0, t1) && medium::answered(t0, t1, e)
                && after.namespaces@ == before.namespaces@,
            Ok(false) => *after == *before && t1 == t0,
            Ok(true) => {
                let b = before.at(ns.0 as int, channel.0 as int);
                let a = after.at(ns.0 as int, channel.0 as int);
                let file = SegmentFile { place: b.place, name };
                &&& Self::stepped(before, after, ns.0 as int, channel.0 as int)
                &&& a == (ChannelState { inventory: a.inventory, ..b })
                &&& match commit {
                    MigrationCommit::Replace { size } => {
                        &&& a.inventory@ == rotation::resized(b.inventory@, name, size)
                        &&& t1 == t0.push(Op::SwapIn { file, refused: None }).push(
                            Op::SyncDir { place: b.place, refused: None },
                        )
                    },
                    MigrationCommit::Remove => {
                        &&& a.inventory@ == rotation::forgotten(b.inventory@, name)
                        &&& t1 == t0.push(Op::Remove { file, refused: None })
                    },
                }
            },
        }
    }

    /// Commits the migration of a segment: here rather than on the caller's
    /// thread, because inventory and rotation live only here. `false` means there
    /// is nothing to commit into: the namespace is gone, or the segment was
    /// evicted while it was being rewritten.
    pub fn commit_migration<M: Medium>(
        &mut self,
        ns: NsId,
        channel: ChannelIdx,
        name: SegmentName,
        commit: MigrationCommit,
        io: &mut Io<M>,
    ) -> (r: Result<bool, Error>)
        requires
            old(self).wf(),
            old(self).balanced(old(io)@),
        ensures
            final(self).wf(),
            final(self).balanced(final(io)@),
            Self::swapped(
                old(self),
                final(self),
                ns,
                channel,
                name,
                commit,
                r,
                old(io)@,
                final(io)@,
            ),
    {
        let ghost before = *self;
        let ghost t0 = io@;
        proof {
            fleet::lemma_same_fleet_refl(self.namespaces@);
        }
        let i: usize = ns.0 as usize;
        let j: usize = channel.0 as usize;
        if !self.has(i, j) {
            return Ok(false);
        }
        assert(fleet::channel_at(self.namespaces@, i as int, j as int).ready());
        let place: Place = match &self.namespaces[i] {
            Some(state) => {
                if !state.channels[j].inventory.contains(name) {
                    return Ok(false);
                }
                state.channels[j].place
            },
            None => {
                return Ok(false);
            },
        };
        let file = SegmentFile { place, name };
        match commit {
            MigrationCommit::Replace { .. } => {
                match io.swap_in(file) {
                    Ok(()) => {},
                    Err(e) => {
                        return Err(e);
                    },
                }
                match io.sync_dir(place) {
                    Ok(()) => {},
                    Err(e) => {
                        return Err(e);
                    },
                }
            },
            MigrationCommit::Remove => {
                match io.remove(file) {
                    Ok(()) => {},
                    Err(e) => {
                        return Err(e);
                    },
                }
            },
        }
        match &mut self.namespaces[i] {
            Some(state) => {
                let ch = &mut state.channels[j];
                match commit {
                    MigrationCommit::Replace { size } => {
                        ch.inventory.update_size_bytes(name, size);
                    },
                    MigrationCommit::Remove => {
                        ch.inventory.remove(name);
                    },
                }
            },
            None => {},
        }
        proof {
            stats::lemma_plus_nothing(before.counters.dropped);
            Self::lemma_step(&before, self, i as int, j as int, t0, io@, 0);
        }
        Ok(true)
    }

    /// Whether a namespace is meant by a sync.
    pub open spec fn meant(only: Option<NsId>, i: int) -> bool {
        only matches Some(id) ==> id.0 == i
    }

    /// Everything of the namespaces meant is on the medium and synced.
    pub open spec fn all_synced(&self, only: Option<NsId>, trace: Seq<Op>) -> bool {
        forall|i: int, j: int|
            #![trigger self.at(i, j)]
            fleet::has_channel(self.namespaces@, i, j) && Self::meant(only, i) ==> self.at(
                i,
                j,
            ).block.count == 0 && self.at(i, j).is_synced(trace)
    }

    /// Flushing and syncing the channel at an address.
    pub open spec fn committing_each() -> Visit {
        |before: WriterLoop, after: WriterLoop, at: (int, int), t0: Seq<Op>, t1: Seq<Op>, r: Result<
            (),
            Error,
        >| Self::committed_at(&before, &after, at.0, at.1, t0, t1, r)
    }

    /// Flushing and sealing the channel at an address.
    pub open spec fn sealing_each() -> Visit {
        |before: WriterLoop, after: WriterLoop, at: (int, int), t0: Seq<Op>, t1: Seq<Op>, r: Result<
            (),
            Error,
        >| Self::sealed_at(&before, &after, at.0, at.1, t0, t1, r)
    }

    /// What syncing comes to: every channel meant was flushed and synced, in the order of
    /// addresses, and the first error is the answer.
    pub open spec fn synced_each(
        before: &WriterLoop,
        after: &WriterLoop,
        only: Option<NsId>,
        t0: Seq<Op>,
        t1: Seq<Op>,
        r: Result<(), Error>,
    ) -> bool {
        exists|
            list: Seq<(int, int)>,
            outcomes: Seq<Result<(), Error>>,
            states: Seq<WriterLoop>,
            traces: Seq<Seq<Op>>,
        |
            {
                &&& #[trigger] visited(Self::committing_each(), list, outcomes, states, traces)
                &&& covers(before.namespaces@, only, list, before.namespaces@.len() as int, 0)
                &&& states[0] == *before
                &&& states.last() == *after
                &&& traces[0] == t0
                &&& traces.last() == t1
                &&& match first_error(outcomes) {
                    Some(e) => r == Err::<(), Error>(e),
                    None => r is Ok,
                }
            }
    }

    /// What sealing everything comes to: every channel was flushed and sealed, in the
    /// order of addresses.
    pub open spec fn sealed_each(
        before: &WriterLoop,
        after: &WriterLoop,
        t0: Seq<Op>,
        t1: Seq<Op>,
    ) -> bool {
        exists|
            list: Seq<(int, int)>,
            outcomes: Seq<Result<(), Error>>,
            states: Seq<WriterLoop>,
            traces: Seq<Seq<Op>>,
        |
            {
                &&& #[trigger] visited(Self::sealing_each(), list, outcomes, states, traces)
                &&& covers(before.namespaces@, None, list, before.namespaces@.len() as int, 0)
                &&& states[0] == *before
                &&& states.last() == *after
                &&& traces[0] == t0
                &&& traces.last() == t1
            }
    }

    /// Flushes and syncs everything a namespace has accumulated, or all of them.
    /// Every channel gets its attempt; the first error is the answer.
    #[verifier::rlimit(40)]
    pub fn sync_all<M: Medium>(&mut self, only: Option<NsId>, io: &mut Io<M>) -> (r: Result<
        (),
        Error,
    >)
        requires
            old(self).wf(),
            old(self).balanced(old(io)@),
        ensures
            final(self).wf(),
            final(self).balanced(final(io)@),
            final(self).same_setup(old(self)),
            final(self).same_round(old(self)),
            fleet::same_fleet(old(self).namespaces@, final(self).namespaces@),
            medium::no_input(old(io)@, final(io)@),
            r is Ok ==> final(self).all_synced(only, final(io)@),
            r is Err ==> medium::troubled(old(io)@, final(io)@),
            r matches Err(e) ==> blamed(old(io)@, final(io)@, e),
            forall|i: int|
                0 <= i < old(self).namespaces@.len() && !Self::meant(only, i) ==> (
                #[trigger] final(self).namespaces@[i]) == old(self).namespaces@[i],
            // Every channel gets its attempt, whatever the others came to.
            final(self).all_tried(only),
            Self::synced_each(old(self), final(self), only, old(io)@, final(io)@, r),
    {
        let ghost before = *self;
        let ghost t0 = io@;
        let ghost mut list: Seq<(int, int)> = Seq::empty();
        let ghost mut outcomes: Seq<Result<(), Error>> = Seq::empty();
        let ghost mut states: Seq<WriterLoop> = seq![*self];
        let ghost mut traces: Seq<Seq<Op>> = seq![io@];
        proof {
            fleet::lemma_same_fleet_refl(self.namespaces@);
            lemma_visited_none(Self::committing_each(), *self, io@);
        }
        let mut first: Option<Error> = None;
        let mut i: usize = 0;
        while i < self.namespaces.len()
            invariant
                i <= self.namespaces@.len(),
                visited(Self::committing_each(), list, outcomes, states, traces),
                states.len() > 0,
                traces.len() > 0,
                states[0] == before,
                states.last() == *self,
                traces[0] == t0,
                traces.last() == io@,
                covers(before.namespaces@, only, list, i as int, 0),
                first_error(outcomes) == first,
                self.tried_before(only, i as int, 0),
                self.wf(),
                self.balanced(io@),
                self.same_setup(&before),
                self.same_round(&before),
                fleet::same_fleet(before.namespaces@, self.namespaces@),
                medium::no_input(t0, io@),
                first is Some ==> medium::troubled(t0, io@),
                first matches Some(e) ==> blamed(t0, io@, e),
                first is None ==> self.synced_before(only, i as int, 0),
                forall|k: int|
                    0 <= k < before.namespaces@.len() && !Self::meant(only, k) ==> (
                    #[trigger] self.namespaces@[k]) == before.namespaces@[k],
            decreases self.namespaces@.len() - i,
        {
            let wanted: bool = match only {
                Some(NsId(want)) => want as usize == i,
                None => true,
            };
            let n: usize = if wanted {
                self.channels_in(i)
            } else {
                0
            };
            let mut j: usize = 0;
            while j < n
                invariant
                    i < self.namespaces@.len(),
                    wanted == Self::meant(only, i as int),
                    n == if wanted {
                        match self.namespaces@[i as int] {
                            Some(ns) => ns.channels@.len(),
                            None => 0,
                        }
                    } else {
                        0
                    },
                    j <= n,
                    visited(Self::committing_each(), list, outcomes, states, traces),
                    states.len() > 0,
                    traces.len() > 0,
                    states[0] == before,
                    states.last() == *self,
                    traces[0] == t0,
                    traces.last() == io@,
                    covers(before.namespaces@, only, list, i as int, j as int),
                    first_error(outcomes) == first,
                    self.tried_before(only, i as int, j as int),
                    self.wf(),
                    self.balanced(io@),
                    self.same_setup(&before),
                    self.same_round(&before),
                    fleet::same_fleet(before.namespaces@, self.namespaces@),
                    medium::no_input(t0, io@),
                    first is Some ==> medium::troubled(t0, io@),
                    first matches Some(e) ==> blamed(t0, io@, e),
                    first is None ==> self.synced_before(only, i as int, j as int),
                    forall|k: int|
                        0 <= k < before.namespaces@.len() && !Self::meant(only, k) ==> (
                        #[trigger] self.namespaces@[k]) == before.namespaces@[k],
                decreases n - j,
            {
                let ghost mid = *self;
                let ghost t1 = io@;
                let done = self.commit_at(i, j, io);
                let ghost tried = *self;
                let ghost outcome = done;
                proof {
                    assert(self.namespaces@[i as int] == self.namespaces@[i as int]);
                    assert(fleet::has_channel(before.namespaces@, i as int, j as int));
                    lemma_covers_on(before.namespaces@, only, list, i as int, j as int);
                    Self::lemma_tried_on(&mid, self, only, i as int, j as int);
                    fleet::lemma_same_fleet_trans(
                        before.namespaces@,
                        mid.namespaces@,
                        self.namespaces@,
                    );
                    fleet::lemma_one_channel(
                        mid.namespaces@,
                        self.namespaces@,
                        i as int,
                        j as int,
                    );
                    if first is None && done is Ok {
                        assert forall|a: int, b: int|
                            #![trigger self.at(a, b)]
                            fleet::has_channel(self.namespaces@, a, b) && Self::meant(only, a)
                                && losses::before_address(a, b, i as int, j + 1) implies self.at(
                            a,
                            b,
                        ).block.count == 0 && !self.at(a, b).dirty_since_sync by {
                            if a != i || b != j {
                                let _ = mid.at(a, b);
                                assert(fleet::has_channel(mid.namespaces@, a, b));
                                assert(fleet::channel_at(self.namespaces@, a, b)
                                    == fleet::channel_at(mid.namespaces@, a, b));
                            }
                        }
                    }
                }
                match done {
                    Ok(()) => {},
                    Err(e) => {
                        Counters::bump(&mut self.counters.io_errors);
                        if first.is_none() {
                            first = Some(e);
                        }
                    },
                }
                proof {
                    let at = (i as int, j as int);
                    assert(Self::committing_each()(mid, tried, at, t1, io@, outcome));
                    assert(Self::counted(&tried, self, outcome));
                    lemma_visited_on(
                        Self::committing_each(),
                        list,
                        outcomes,
                        states,
                        traces,
                        at,
                        outcome,
                        *self,
                        io@,
                    );
                    list = list.push(at);
                    outcomes = outcomes.push(outcome);
                    states = states.push(*self);
                    traces = traces.push(io@);
                    assert(self.tried_before(only, i as int, j + 1)) by {
                        assert forall|a: int, b: int|
                            #![trigger self.at(a, b)]
                            fleet::has_channel(self.namespaces@, a, b) && Self::meant(only, a)
                                && losses::before_address(a, b, i as int, j + 1) implies self.at(
                            a,
                            b,
                        ).block.count == 0 by {
                            let _ = tried.at(a, b);
                        }
                    }
                }
                j = j + 1;
            }
            proof {
                assert forall|a: int, b: int|
                    fleet::has_channel(self.namespaces@, a, b) && Self::meant(only, a)
                        implies losses::before_address(a, b, i as int, j as int)
                    == #[trigger] losses::before_address(a, b, i + 1, 0) by {}
                assert(self.namespaces@[i as int] == self.namespaces@[i as int]);
                lemma_covers_slot(before.namespaces@, only, list, i as int, j as int);
            }
            i = i + 1;
        }
        proof {
            assert(visited(Self::committing_each(), list, outcomes, states, traces));
            assert forall|a: int, b: int|
                #![trigger self.at(a, b)]
                fleet::has_channel(self.namespaces@, a, b) && Self::meant(only, a) implies self.at(
                a,
                b,
            ).block.count == 0 by {
                assert(losses::before_address(a, b, i as int, 0));
            }
            if first is None {
                assert forall|a: int, b: int|
                    #![trigger self.at(a, b)]
                    fleet::has_channel(self.namespaces@, a, b) && Self::meant(only, a) implies self.at(
                    a,
                    b,
                ).block.count == 0 && self.at(a, b).is_synced(io@) by {
                    assert(losses::before_address(a, b, i as int, 0));
                    assert(fleet::channel_at(self.namespaces@, a, b).ready());
                    fleet::lemma_honest_at(self.namespaces@, io@, a, b);
                }
            }
        }
        match first {
            Some(e) => Err(e),
            None => Ok(()),
        }
    }

    /// The blocks of the channels meant are empty.
    pub open spec fn all_tried(&self, only: Option<NsId>) -> bool {
        forall|i: int, j: int|
            #![trigger self.at(i, j)]
            fleet::has_channel(self.namespaces@, i, j) && Self::meant(only, i) ==> self.at(
                i,
                j,
            ).block.count == 0
    }

    spec fn tried_before(&self, only: Option<NsId>, i: int, j: int) -> bool {
        forall|a: int, b: int|
            #![trigger self.at(a, b)]
            fleet::has_channel(self.namespaces@, a, b) && Self::meant(only, a)
                && losses::before_address(a, b, i, j) ==> self.at(a, b).block.count == 0
    }

    proof fn lemma_tried_on(
        before: &WriterLoop,
        after: &WriterLoop,
        only: Option<NsId>,
        i: int,
        j: int,
    )
        requires
            before.tried_before(only, i, j),
            fleet::one_channel_changed(before.namespaces@, after.namespaces@, i, j),
            after.at(i, j).block.count == 0,
        ensures
            after.tried_before(only, i, j + 1),
    {
        fleet::lemma_one_channel(before.namespaces@, after.namespaces@, i, j);
        assert forall|a: int, b: int|
            #![trigger after.at(a, b)]
            fleet::has_channel(after.namespaces@, a, b) && Self::meant(only, a)
                && losses::before_address(a, b, i, j + 1) implies after.at(a, b).block.count
            == 0 by {
            if a != i || b != j {
                let _ = before.at(a, b);
                assert(fleet::has_channel(before.namespaces@, a, b));
                assert(fleet::channel_at(after.namespaces@, a, b) == fleet::channel_at(
                    before.namespaces@,
                    a,
                    b,
                ));
            }
        }
    }

    spec fn synced_before(&self, only: Option<NsId>, i: int, j: int) -> bool {
        forall|a: int, b: int|
            #![trigger self.at(a, b)]
            fleet::has_channel(self.namespaces@, a, b) && Self::meant(only, a)
                && losses::before_address(a, b, i, j) ==> self.at(a, b).block.count == 0
                && !self.at(a, b).dirty_since_sync
    }

    /// Seals every segment.
    fn seal_all<M: Medium>(&mut self, io: &mut Io<M>)
        requires
            old(self).wf(),
            old(self).balanced(old(io)@),
        ensures
            final(self).wf(),
            final(self).balanced(final(io)@),
            final(self).same_setup(old(self)),
            final(self).same_round(old(self)),
            fleet::same_fleet(old(self).namespaces@, final(self).namespaces@),
            medium::no_input(old(io)@, final(io)@),
            fleet::all_flushed(final(self).namespaces@),
            fleet::all_closed(final(self).namespaces@) || medium::troubled(old(io)@, final(io)@),
            Self::sealed_each(old(self), final(self), old(io)@, final(io)@),
    {
        let ghost before = *self;
        let ghost t0 = io@;
        let ghost mut list: Seq<(int, int)> = Seq::empty();
        let ghost mut outcomes: Seq<Result<(), Error>> = Seq::empty();
        let ghost mut states: Seq<WriterLoop> = seq![*self];
        let ghost mut traces: Seq<Seq<Op>> = seq![io@];
        proof {
            fleet::lemma_same_fleet_refl(self.namespaces@);
            lemma_visited_none(Self::sealing_each(), *self, io@);
        }
        let mut i: usize = 0;
        while i < self.namespaces.len()
            invariant
                i <= self.namespaces@.len(),
                self.wf(),
                self.balanced(io@),
                self.same_setup(&before),
                self.same_round(&before),
                fleet::same_fleet(before.namespaces@, self.namespaces@),
                medium::no_input(t0, io@),
                visited(Self::sealing_each(), list, outcomes, states, traces),
                states.len() > 0,
                traces.len() > 0,
                states[0] == before,
                states.last() == *self,
                traces[0] == t0,
                traces.last() == io@,
                covers(before.namespaces@, None, list, i as int, 0),
                self.sealed_before(i as int, 0, t0, io@),
            decreases self.namespaces@.len() - i,
        {
            let n: usize = self.channels_in(i);
            let mut j: usize = 0;
            while j < n
                invariant
                    i < self.namespaces@.len(),
                    n == match self.namespaces@[i as int] {
                        Some(ns) => ns.channels@.len(),
                        None => 0,
                    },
                    j <= n,
                    self.wf(),
                    self.balanced(io@),
                    self.same_setup(&before),
                    self.same_round(&before),
                    fleet::same_fleet(before.namespaces@, self.namespaces@),
                    medium::no_input(t0, io@),
                    visited(Self::sealing_each(), list, outcomes, states, traces),
                    states.len() > 0,
                    traces.len() > 0,
                    states[0] == before,
                    states.last() == *self,
                    traces[0] == t0,
                    traces.last() == io@,
                    covers(before.namespaces@, None, list, i as int, j as int),
                    self.sealed_before(i as int, j as int, t0, io@),
                decreases n - j,
            {
                let ghost mid = *self;
                let ghost t1 = io@;
                let done = self.seal_at(i, j, io);
                let ghost tried = *self;
                if done.is_err() {
                    Counters::bump(&mut self.counters.io_errors);
                }
                proof {
                    let at = (i as int, j as int);
                    assert(self.namespaces@[i as int] == self.namespaces@[i as int]);
                    assert(fleet::has_channel(before.namespaces@, i as int, j as int));
                    lemma_covers_on(before.namespaces@, None, list, i as int, j as int);
                    assert(Self::sealing_each()(mid, tried, at, t1, io@, done));
                    assert(Self::counted(&tried, self, done));
                    lemma_visited_on(
                        Self::sealing_each(),
                        list,
                        outcomes,
                        states,
                        traces,
                        at,
                        done,
                        *self,
                        io@,
                    );
                    list = list.push(at);
                    outcomes = outcomes.push(done);
                    states = states.push(*self);
                    traces = traces.push(io@);
                    fleet::lemma_same_fleet_trans(
                        before.namespaces@,
                        mid.namespaces@,
                        self.namespaces@,
                    );
                    fleet::lemma_one_channel(
                        mid.namespaces@,
                        self.namespaces@,
                        i as int,
                        j as int,
                    );
                    assert forall|a: int, b: int|
                        #![trigger self.at(a, b)]
                        fleet::has_channel(self.namespaces@, a, b) && losses::before_address(
                            a,
                            b,
                            i as int,
                            j + 1,
                        ) implies self.at(a, b).block.count == 0 && (self.at(a, b).segment is None
                        || medium::troubled(t0, io@)) by {
                        if a != i || b != j {
                            let _ = mid.at(a, b);
                            assert(fleet::has_channel(mid.namespaces@, a, b));
                            assert(fleet::channel_at(self.namespaces@, a, b) == fleet::channel_at(
                                mid.namespaces@,
                                a,
                                b,
                            ));
                        }
                    }
                }
                j = j + 1;
            }
            proof {
                assert forall|a: int, b: int| fleet::has_channel(
                    self.namespaces@,
                    a,
                    b,
                ) implies losses::before_address(a, b, i as int, j as int)
                    == #[trigger] losses::before_address(a, b, i + 1, 0) by {}
                assert(self.namespaces@[i as int] == self.namespaces@[i as int]);
                lemma_covers_slot(before.namespaces@, None, list, i as int, j as int);
            }
            i = i + 1;
        }
        proof {
            assert(visited(Self::sealing_each(), list, outcomes, states, traces));
            assert forall|a: int, b: int| fleet::has_channel(self.namespaces@, a, b) implies (
            #[trigger] fleet::channel_at(self.namespaces@, a, b)).block.count == 0 by {
                let _ = self.at(a, b);
                assert(losses::before_address(a, b, i as int, 0));
            }
            if !medium::troubled(t0, io@) {
                assert forall|a: int, b: int| fleet::has_channel(self.namespaces@, a, b) implies (
                #[trigger] fleet::channel_at(self.namespaces@, a, b)).segment is None by {
                    let _ = self.at(a, b);
                    assert(losses::before_address(a, b, i as int, 0));
                }
            }
        }
    }

    spec fn sealed_before(&self, i: int, j: int, t0: Seq<Op>, t1: Seq<Op>) -> bool {
        forall|a: int, b: int|
            #![trigger self.at(a, b)]
            fleet::has_channel(self.namespaces@, a, b) && losses::before_address(a, b, i, j)
                ==> self.at(a, b).block.count == 0 && (self.at(a, b).segment is None
                || medium::troubled(t0, t1))
    }

    /// What the final close comes to: the losses were announced, then every block flushed
    /// and every segment sealed, then the budgets kept.
    pub open spec fn finished_up(
        before: &WriterLoop,
        after: &WriterLoop,
        t0: Seq<Op>,
        t1: Seq<Op>,
    ) -> bool {
        exists|told: WriterLoop, closed: WriterLoop, now: u64, ta: Seq<Op>, tb: Seq<Op>|
            {
                &&& #[trigger] Self::noticed(before, &told, t0, ta)
                &&& #[trigger] Self::sealed_each(&told, &closed, ta, tb)
                &&& fleet::all_flushed(closed.namespaces@)
                &&& #[trigger] Self::slimmed_down(
                    &closed,
                    after,
                    now,
                    tb.push(Op::Now { nanos: now }),
                    t1,
                )
            }
    }

    /// The final close: the notices, then every block and every segment, then the
    /// budgets. Occupancy is final only now: a group left over its budget here
    /// would stay over until the next start.
    pub fn finish<M: Medium>(&mut self, io: &mut Io<M>) -> (overruns: usize)
        requires
            old(self).wf(),
            old(self).balanced(old(io)@),
        ensures
            final(self).wf(),
            final(self).balanced(final(io)@),
            final(self).same_setup(old(self)),
            final(self).batch@ == old(self).batch@,
            fleet::same_fleet(old(self).namespaces@, final(self).namespaces@),
            medium::refusals(final(io)@) >= medium::refusals(old(io)@),
            // Nothing is left pending: what was taken is on the medium or counted
            // as dropped.
            fleet::pending(final(self).namespaces@) == 0,
            fleet::all_closed(final(self).namespaces@) || medium::troubled(old(io)@, final(io)@),
            final(self).counters.dropped == stats::plus(
                final(self).outside,
                final(self).taken@ - medium::landed(final(io)@),
            ),
            overruns == crate::upkeep::over_count(
                old(self).groups@,
                final(self).namespaces@,
                old(self).groups@.len() as int,
            ),
            Self::finished_up(old(self), final(self), old(io)@, final(io)@),
    {
        let ghost before = *self;
        self.emit_drop_notices(io);
        let ghost a = *self;
        let ghost t1 = io@;
        self.seal_all(io);
        let ghost b = *self;
        let ghost t = io@;
        proof {
            assert(Self::noticed(&before, &a, old(io)@, t1));
            assert(Self::sealed_each(&a, &b, t1, t));
        }
        let now: u64 = io.now();
        let overruns: usize = self.enforce_groups(now, io);
        proof {
            assert(Self::slimmed_down(&b, self, now, t.push(Op::Now { nanos: now }), io@));
            fleet::lemma_same_fleet_trans(before.namespaces@, a.namespaces@, b.namespaces@);
            fleet::lemma_same_fleet_trans(before.namespaces@, b.namespaces@, self.namespaces@);
            fleet::lemma_nothing_pending(self.namespaces@);
        }
        overruns
    }
}

/// The addresses that do not lie in a slot.
pub open spec fn outside_slot(active: Seq<(usize, usize)>, slot: usize) -> Seq<(usize, usize)> {
    active.filter(not_in(slot))
}

pub open spec fn not_in(slot: usize) -> spec_fn((usize, usize)) -> bool {
    |a: (usize, usize)| a.0 != slot
}

impl WriterLoop {
    /// Frees a slot whose blocks are empty, and takes its channels out of the list
    /// of those serviced.
    #[verifier::rlimit(40)]
    fn free(&mut self, slot: usize, Ghost(trace): Ghost<Seq<Op>>)
        requires
            old(self).wf(),
            old(self).balanced(trace),
            (slot as int) < old(self).namespaces@.len(),
            forall|j: int|
                fleet::has_channel(old(self).namespaces@, slot as int, j) ==> (
                #[trigger] fleet::channel_at(old(self).namespaces@, slot as int, j)).block.count
                    == 0,
        ensures
            final(self).wf(),
            final(self).balanced(trace),
            *final(self) == (WriterLoop {
                namespaces: final(self).namespaces,
                active: final(self).active,
                ..*old(self)
            }),
            final(self).namespaces@ == old(self).namespaces@.update(slot as int, None),
            final(self).active@ == outside_slot(old(self).active@, slot),
    {
        let ghost before = *self;
        self.namespaces.set(slot, None);
        let mut kept: Vec<(usize, usize)> = Vec::new();
        let ghost outside = not_in(slot);
        let mut k: usize = 0;
        proof {
            reveal(Seq::filter);
            assert(before.active@.take(0) =~= Seq::<(usize, usize)>::empty());
        }
        while k < self.active.len()
            invariant
                k <= self.active@.len(),
                self.active@ == before.active@,
                outside == not_in(slot),
                kept@ == before.active@.take(k as int).filter(outside),
            decreases self.active@.len() - k,
        {
            let address = self.active[k];
            proof {
                reveal(Seq::filter);
                assert(before.active@.take(k + 1).drop_last() =~= before.active@.take(k as int));
                assert(before.active@.take(k + 1).last() == address);
            }
            if address.0 != slot {
                kept.push(address);
            }
            k = k + 1;
        }
        assert(before.active@.take(k as int) =~= before.active@);
        self.active = kept;
        proof {
            let n0 = before.namespaces@;
            let n1 = self.namespaces@;
            assert(n1 =~= n0.update(slot as int, None));
            if n0[slot as int] is Some {
                let chans = n0[slot as int]->0.channels@;
                assert forall|j: int| 0 <= j < chans.len() implies (
                #[trigger] chans[j]).block.count == 0 by {
                    assert(fleet::has_channel(n0, slot as int, j));
                    assert(fleet::channel_at(n0, slot as int, j) == chans[j]);
                }
            }
            fleet::lemma_slot_flushed(n0[slot as int]);
            fleet::lemma_fleet_sum_update(n0, n1, slot as int, fleet::in_block());
            reveal(fleet::all_honest);
            assert forall|a: int, b: int| fleet::has_channel(n1, a, b) implies (
            #[trigger] fleet::channel_at(n1, a, b)).ready() && fleet::channel_at(
                n1,
                a,
                b,
            ).honest(trace) && fleet::channel_at(n1, a, b).place == (Place {
                ns: NsId(a as u32),
                channel: ChannelIdx(b as u16),
                staging: false,
            }) by {
                assert(n1[a] == n0[a]);
                assert(fleet::has_channel(n0, a, b));
                assert(fleet::channel_at(n1, a, b) == fleet::channel_at(n0, a, b));
            }
            assert forall|p: Place|
                !p.staging && !fleet::has_channel(n1, p.ns.0 as int, p.channel.0 as int) implies (
            #[trigger] medium::assembled(trace, p)).len() == 0 by {
                let (a, b) = (p.ns.0 as int, p.channel.0 as int);
                if fleet::has_channel(n0, a, b) {
                    if a != slot {
                        assert(n1[a] == n0[a]);
                    } else {
                        let c = fleet::channel_at(n0, a, b);
                        assert(c.honest(trace) && c.block.count == 0);
                        assert(c.place == p);
                    }
                }
            }
            assert forall|a: int, b: int|
                #![trigger fleet::channel_at(n1, a, b)]
                fleet::has_channel(n1, a, b) && fleet::channel_at(
                    n1,
                    a,
                    b,
                ).is_in_active_list implies self.active@.contains((a as usize, b as usize)) by {
                assert(n1[a] == n0[a]);
                assert(fleet::has_channel(n0, a, b));
                assert(fleet::channel_at(n1, a, b) == fleet::channel_at(n0, a, b));
                let address = (a as usize, b as usize);
                assert(before.active@.contains(address));
                before.active@.lemma_filter_contains(outside, before.active@.index_of(address));
            }
            assert forall|a: int| 0 <= a < n1.len() && (#[trigger] n1[a]) is Some implies n1[a]->0.channels@.len()
                <= u16::MAX by {
                assert(n1[a] == n0[a]);
            }
        }
    }

    /// Bringing the released segment of the channel at an address back, and sealing it.
    pub open spec fn retiring_each() -> Visit {
        |before: WriterLoop, after: WriterLoop, at: (int, int), t0: Seq<Op>, t1: Seq<Op>, r: Result<
            (),
            Error,
        >| Self::retired_at(&before, &after, at.0, at.1, t0, t1, r)
    }

    /// A channel was closed for good: its released segment was brought back into work, and
    /// the segment sealed.
    pub open spec fn retired_at(
        before: &WriterLoop,
        after: &WriterLoop,
        i: int,
        j: int,
        t0: Seq<Op>,
        t1: Seq<Op>,
        r: Result<(), Error>,
    ) -> bool {
        exists|back: WriterLoop, t: Seq<Op>|
            {
                &&& #[trigger] Self::unparked_at(before, &back, i, j, t0, t)
                &&& #[trigger] Self::sealed_at(&back, after, i, j, t, t1, r)
            }
    }

    /// What releasing a namespace comes to: the notices; then every channel of it was
    /// closed for good, in order; then the slot is free, and the rest is as it was.
    pub open spec fn let_go(
        before: &WriterLoop,
        after: &WriterLoop,
        ns: NsId,
        t0: Seq<Op>,
        t1: Seq<Op>,
    ) -> bool {
        let slot = ns.0 as int;
        if slot >= before.namespaces@.len() {
            Self::noticed(before, after, t0, t1)
        } else {
            exists|
                list: Seq<(int, int)>,
                outcomes: Seq<Result<(), Error>>,
                states: Seq<WriterLoop>,
                traces: Seq<Seq<Op>>,
            |
                {
                    &&& #[trigger] visited(Self::retiring_each(), list, outcomes, states, traces)
                    &&& Self::noticed(before, &states[0], t0, traces[0])
                    &&& fleet::same_fleet(before.namespaces@, states[0].namespaces@)
                    &&& covers(states[0].namespaces@, Some(ns), list, slot + 1, 0)
                    &&& traces.last() == t1
                    &&& after.namespaces@ == states[0].namespaces@.update(slot, None)
                    &&& after.active@ == outside_slot(states[0].active@, ns.0 as usize)
                    &&& *after == (WriterLoop {
                        namespaces: after.namespaces,
                        active: after.active,
                        ..states.last()
                    })
                }
        }
    }

    /// Releases a namespace: the notices, then every block and every segment of
    /// it, then the slot.
    ///
    /// A namespace brought up again before that would have two states over one
    /// directory, and one's rotation would delete the segment the other writes to.
    #[verifier::rlimit(40)]
    pub fn release<M: Medium>(&mut self, ns: NsId, io: &mut Io<M>)
        requires
            old(self).wf(),
            old(self).balanced(old(io)@),
        ensures
            final(self).wf(),
            final(self).balanced(final(io)@),
            final(self).same_setup(old(self)),
            final(self).batch@ == old(self).batch@,
            final(self).namespaces@.len() == old(self).namespaces@.len(),
            (ns.0 as int) < old(self).namespaces@.len() ==> final(self).namespaces@[ns.0 as int] is None,
            medium::refusals(final(io)@) >= medium::refusals(old(io)@),
            Self::let_go(old(self), final(self), ns, old(io)@, final(io)@),
    {
        let ghost before = *self;
        let ghost t0 = io@;
        self.emit_drop_notices(io);
        let i: usize = ns.0 as usize;
        if i >= self.namespaces.len() {
            return ;
        }
        let ghost told = *self;
        let ghost t1 = io@;
        let ghost mut list: Seq<(int, int)> = Seq::empty();
        let ghost mut outcomes: Seq<Result<(), Error>> = Seq::empty();
        let ghost mut states: Seq<WriterLoop> = seq![*self];
        let ghost mut traces: Seq<Seq<Op>> = seq![io@];
        proof {
            fleet::lemma_same_fleet_refl(self.namespaces@);
            lemma_visited_none(Self::retiring_each(), *self, io@);
        }
        let n: usize = self.channels_in(i);
        let mut j: usize = 0;
        while j < n
            invariant
                i < self.namespaces@.len(),
                i == ns.0,
                n == match self.namespaces@[i as int] {
                    Some(state) => state.channels@.len(),
                    None => 0,
                },
                j <= n,
                self.wf(),
                self.balanced(io@),
                self.same_setup(&told),
                self.same_round(&told),
                fleet::same_fleet(told.namespaces@, self.namespaces@),
                medium::no_input(t1, io@),
                visited(Self::retiring_each(), list, outcomes, states, traces),
                states.len() > 0,
                traces.len() > 0,
                states[0] == told,
                states.last() == *self,
                traces[0] == t1,
                traces.last() == io@,
                covers(told.namespaces@, Some(ns), list, i as int, j as int),
                forall|k: int|
                    #![trigger self.namespaces@[k]]
                    0 <= k < told.namespaces@.len() && k != i ==> self.namespaces@[k]
                        == told.namespaces@[k],
                forall|b: int|
                    #![trigger fleet::channel_at(self.namespaces@, i as int, b)]
                    0 <= b < j ==> fleet::channel_at(
                        self.namespaces@,
                        i as int,
                        b,
                    ).block.count == 0,
            decreases n - j,
        {
            let ghost mid = *self;
            let ghost t2 = io@;
            let _ = self.unpark_at(i, j, io);
            let ghost half = *self;
            let ghost t3 = io@;
            let done = self.seal_at(i, j, io);
            let ghost tried = *self;
            if done.is_err() {
                Counters::bump(&mut self.counters.io_errors);
            }
            proof {
                fleet::lemma_same_fleet_trans(
                    told.namespaces@,
                    mid.namespaces@,
                    half.namespaces@,
                );
                fleet::lemma_same_fleet_trans(
                    told.namespaces@,
                    half.namespaces@,
                    self.namespaces@,
                );
                fleet::lemma_one_channel(mid.namespaces@, self.namespaces@, i as int, j as int);
                let at = (i as int, j as int);
                assert(mid.namespaces@[i as int] == mid.namespaces@[i as int]);
                assert(fleet::has_channel(told.namespaces@, i as int, j as int));
                lemma_covers_on(told.namespaces@, Some(ns), list, i as int, j as int);
                assert(Self::unparked_at(&mid, &half, i as int, j as int, t2, t3));
                assert(Self::sealed_at(&half, &tried, i as int, j as int, t3, io@, done));
                assert(Self::retiring_each()(mid, tried, at, t2, io@, done));
                assert(Self::counted(&tried, self, done));
                lemma_visited_on(
                    Self::retiring_each(),
                    list,
                    outcomes,
                    states,
                    traces,
                    at,
                    done,
                    *self,
                    io@,
                );
                list = list.push(at);
                outcomes = outcomes.push(done);
                states = states.push(*self);
                traces = traces.push(io@);
                assert forall|k: int|
                    #![trigger self.namespaces@[k]]
                    0 <= k < told.namespaces@.len() && k != i implies self.namespaces@[k]
                    == told.namespaces@[k] by {
                    assert(mid.namespaces@[k] == told.namespaces@[k]);
                }
                assert forall|b: int|
                    #![trigger fleet::channel_at(self.namespaces@, i as int, b)]
                    0 <= b < j + 1 implies fleet::channel_at(
                    self.namespaces@,
                    i as int,
                    b,
                ).block.count == 0 by {
                    if b != j {
                        assert(fleet::has_channel(mid.namespaces@, i as int, b));
                        assert(fleet::channel_at(self.namespaces@, i as int, b)
                            == fleet::channel_at(mid.namespaces@, i as int, b));
                    } else {
                        assert(self.at(i as int, j as int).block.count == 0);
                    }
                }
            }
            j = j + 1;
        }
        let ghost sealed = *self;
        proof {
            assert(sealed.namespaces@[i as int] == sealed.namespaces@[i as int]);
            lemma_covers_slot(told.namespaces@, Some(ns), list, i as int, j as int);
        }
        self.free(i, Ghost(io@));
        proof {
            assert(visited(Self::retiring_each(), list, outcomes, states, traces));
            assert(self.namespaces@ =~= told.namespaces@.update(i as int, None));
        }
    }

    /// The count of everything that changes the shape of channels: segments
    /// created, taken into work, sealed and evicted.
    pub open spec fn shape(c: Counters) -> u64 {
        stats::plus(
            stats::plus(
                stats::plus(c.segments_created, c.segments_opened as int),
                c.segments_sealed as int,
            ),
            c.segments_rotated as int,
        )
    }

    /// Announces to the readers what happened since the last time. The answer says
    /// whether there is anybody to wake.
    pub fn publish_pulse(&mut self, pulse: &mut Pulse) -> (wake: bool)
        requires
            old(self).wf(),
        ensures
            final(self).wf(),
            *final(self) == (WriterLoop {
                pulsed_blocks: old(self).counters.blocks_written,
                pulsed_shape: Self::shape(old(self).counters),
                roster_changed: false,
                ..*old(self)
            }),
            ({
                let data = old(self).counters.blocks_written != old(self).pulsed_blocks;
                let shape = Self::shape(old(self).counters) != old(self).pulsed_shape;
                let was = old(pulse).state();
                &&& final(pulse).state() == (Beat {
                    data: if data {
                        stats::plus(was.data, 1)
                    } else {
                        was.data
                    },
                    shape: if shape {
                        stats::plus(was.shape, 1)
                    } else {
                        was.shape
                    },
                    roster: if old(self).roster_changed {
                        stats::plus(was.roster, 1)
                    } else {
                        was.roster
                    },
                    closed: was.closed,
                })
                &&& final(pulse).waiting() == old(pulse).waiting()
                &&& wake == ((data || shape || old(self).roster_changed) && old(pulse).waiting()
                    > 0)
            }),
    {
        let mut wake: bool = false;
        if self.counters.blocks_written != self.pulsed_blocks {
            self.pulsed_blocks = self.counters.blocks_written;
            wake = pulse.data_written();
        }
        let mut shape: u64 = self.counters.segments_created;
        Counters::add(&mut shape, self.counters.segments_opened);
        Counters::add(&mut shape, self.counters.segments_sealed);
        Counters::add(&mut shape, self.counters.segments_rotated);
        if shape != self.pulsed_shape {
            self.pulsed_shape = shape;
            wake = pulse.shape_changed();
        }
        if self.roster_changed {
            self.roster_changed = false;
            wake = pulse.roster_changed();
        }
        wake
    }
}

/// Both queues were found empty, or a full count of passes each found records.
pub open spec fn drained(
    n0: Seq<Answer>,
    n1: Seq<Answer>,
    c0: Seq<Answer>,
    c1: Seq<Answer>,
) -> bool {
    ||| queue::ran_dry(n1) && queue::ran_dry(c1)
    ||| queue::received(n1) - queue::received(n0) + queue::received(c1) - queue::received(c0)
        >= DRAIN_ROUNDS
}

/// A command to the writer.
#[derive(Debug)]
pub enum Command {
    /// Bring up a namespace.
    Register(NsSetup),
    /// Release a namespace: seal its segments and free its slot.
    Release(NsId),
    /// Flush and sync what a namespace has accumulated; `None` means all of them.
    Sync(Option<NsId>),
    /// Swap a segment for the result of a migration, or delete an emptied one.
    CommitMigration { ns: NsId, channel: ChannelIdx, name: SegmentName, commit: MigrationCommit },
    /// Seal everything and stop.
    Shutdown,
}

/// The answer to a command.
#[derive(Debug)]
pub enum Reply {
    Registered(Result<NsId, Error>),
    Released,
    Synced(Result<(), Error>),
    Committed(Result<bool, Error>),
    Stopped,
}

impl WriterLoop {
    /// The answer to a sync: an error of the medium first; and where the queues
    /// filled faster than they drained the promise was not kept, though nothing is
    /// lost.
    pub fn sync_outcome(synced: Result<(), Error>, drained: bool) -> (r: Result<(), Error>)
        ensures
            match synced {
                Err(e) => r == Err::<(), Error>(e),
                Ok(_) => if drained {
                    r is Ok
                } else {
                    r == Err::<(), Error>(Error::SyncIncomplete)
                },
            },
    {
        match synced {
            Err(e) => Err(e),
            Ok(()) => if drained {
                Ok(())
            } else {
                Err(Error::SyncIncomplete)
            },
        }
    }

    /// Carries out a command. Where it needs what was enqueued before it, the
    /// queues are drained first.
    #[verifier::rlimit(60)]
    pub fn handle<M: Medium>(
        &mut self,
        command: Command,
        normal: &mut Inbox,
        critical: &mut Inbox,
        io: &mut Io<M>,
    ) -> (reply: Reply)
        requires
            old(self).wf(),
            old(self).balanced(old(io)@),
            old(self).batch@.len() == 0,
            command matches Command::Register(setup) ==> old(self).namespaces@.len() < u32::MAX
                && setup.channels@.len() <= u16::MAX,
        ensures
            final(self).wf(),
            final(self).balanced(final(io)@),
            final(self).batch@.len() == 0,
            final(self).groups@ == old(self).groups@,
            medium::refusals(final(io)@) >= medium::refusals(old(io)@),
            match command {
                Command::Register(setup) => {
                    &&& reply is Registered
                    &&& Self::registered(
                        old(self),
                        final(self),
                        &setup,
                        reply->Registered_0,
                        old(io)@,
                        final(io)@,
                    )
                    &&& final(normal)@ == old(normal)@ && final(critical)@ == old(critical)@
                },
                Command::Release(ns) => {
                    &&& reply is Released
                    &&& exists|mid: Moment, d: Drained|
                        {
                            &&& #[trigger] Self::drained_in_rounds(
                                (Moment {
                                    state: *old(self),
                                    trace: old(io)@,
                                    normal: old(normal)@,
                                    critical: old(critical)@,
                                }),
                                mid,
                                Leftovers::Keep,
                                DRAIN_ROUNDS,
                                d,
                            )
                            &&& mid.normal == final(normal)@ && mid.critical == final(critical)@
                            &&& Self::let_go(&mid.state, final(self), ns, mid.trace, final(io)@)
                        }
                    &&& final(self).namespaces@.len() == old(self).namespaces@.len()
                    &&& (ns.0 as int) < final(self).namespaces@.len()
                        ==> final(self).namespaces@[ns.0 as int] is None
                    &&& drained(old(normal)@, final(normal)@, old(critical)@, final(critical)@)
                },
                // A sync succeeds where the medium refused nothing and the queues
                // were found empty.
                Command::Sync(only) => {
                    &&& reply is Synced
                    &&& exists|mid: Moment, d: Drained, s: Result<(), Error>|
                        {
                            &&& #[trigger] Self::drained_in_rounds(
                                (Moment {
                                    state: *old(self),
                                    trace: old(io)@,
                                    normal: old(normal)@,
                                    critical: old(critical)@,
                                }),
                                mid,
                                Leftovers::Keep,
                                DRAIN_ROUNDS,
                                d,
                            )
                            &&& mid.normal == final(normal)@ && mid.critical == final(critical)@
                            &&& #[trigger] Self::synced_each(
                                &mid.state,
                                final(self),
                                only,
                                mid.trace,
                                final(io)@,
                                s,
                            )
                            &&& match s {
                                Err(e) => reply->Synced_0 == Err::<(), Error>(e),
                                Ok(_) => if d.dry {
                                    reply->Synced_0 is Ok
                                } else {
                                    reply->Synced_0 == Err::<(), Error>(Error::SyncIncomplete)
                                },
                            }
                        }
                    &&& drained(old(normal)@, final(normal)@, old(critical)@, final(critical)@)
                    &&& final(self).taken@ - old(self).taken@ == queue::received(final(normal)@)
                        - queue::received(old(normal)@) + queue::received(final(critical)@)
                        - queue::received(old(critical)@)
                    &&& reply->Synced_0 is Ok ==> {
                        &&& final(self).all_synced(only, final(io)@)
                        &&& queue::ran_dry(final(normal)@)
                        &&& queue::ran_dry(final(critical)@)
                    }
                    &&& reply->Synced_0 matches Err(e) ==> {
                        ||| medium::troubled(old(io)@, final(io)@) && blamed(
                            old(io)@,
                            final(io)@,
                            e,
                        )
                        ||| reply->Synced_0 == Err::<(), Error>(Error::SyncIncomplete)
                            && final(self).taken@ >= old(self).taken@ + DRAIN_ROUNDS
                    }
                },
                Command::CommitMigration { ns, channel, name, commit } => {
                    &&& reply is Committed
                    &&& Self::swapped(
                        old(self),
                        final(self),
                        ns,
                        channel,
                        name,
                        commit,
                        reply->Committed_0,
                        old(io)@,
                        final(io)@,
                    )
                    &&& final(normal)@ == old(normal)@ && final(critical)@ == old(critical)@
                },
                Command::Shutdown => {
                    &&& reply is Stopped
                    &&& exists|mid: Moment, d: Drained|
                        {
                            &&& #[trigger] Self::drained_in_rounds(
                                (Moment {
                                    state: *old(self),
                                    trace: old(io)@,
                                    normal: old(normal)@,
                                    critical: old(critical)@,
                                }),
                                mid,
                                Leftovers::Discard,
                                DRAIN_ROUNDS,
                                d,
                            )
                            &&& mid.normal == final(normal)@ && mid.critical == final(critical)@
                            &&& Self::finished_up(
                                &mid.state,
                                final(self),
                                mid.trace,
                                final(io)@,
                            )
                        }
                    &&& drained(old(normal)@, final(normal)@, old(critical)@, final(critical)@)
                    &&& fleet::pending(final(self).namespaces@) == 0
                    &&& fleet::all_closed(final(self).namespaces@) || medium::troubled(old(io)@, final(io)@)
                },
            },
    {
        match command {
            Command::Register(setup) => Reply::Registered(self.register(setup, io)),
            Command::Release(ns) => {
                let ghost start = Moment {
                    state: *self,
                    trace: io@,
                    normal: normal@,
                    critical: critical@,
                };
                let d: Drained = self.drain_pending_rounds(
                    normal,
                    critical,
                    Leftovers::Keep,
                    DRAIN_ROUNDS,
                    io,
                );
                let ghost mid = Moment {
                    state: *self,
                    trace: io@,
                    normal: normal@,
                    critical: critical@,
                };
                assert(Self::drained_in_rounds(start, mid, Leftovers::Keep, DRAIN_ROUNDS, d));
                self.release(ns, io);
                Reply::Released
            },
            Command::Sync(only) => {
                let ghost start = Moment {
                    state: *self,
                    trace: io@,
                    normal: normal@,
                    critical: critical@,
                };
                let drained: Drained = self.drain_pending_rounds(
                    normal,
                    critical,
                    Leftovers::Keep,
                    DRAIN_ROUNDS,
                    io,
                );
                let ghost mid = Moment {
                    state: *self,
                    trace: io@,
                    normal: normal@,
                    critical: critical@,
                };
                let synced = self.sync_all(only, io);
                proof {
                    assert(Self::drained_in_rounds(
                        start,
                        mid,
                        Leftovers::Keep,
                        DRAIN_ROUNDS,
                        drained,
                    ));
                    assert(Self::synced_each(&mid.state, self, only, mid.trace, io@, synced));
                }
                Reply::Synced(Self::sync_outcome(synced, drained.dry))
            },
            Command::CommitMigration { ns, channel, name, commit } => Reply::Committed(
                self.commit_migration(ns, channel, name, commit, io),
            ),
            Command::Shutdown => {
                let ghost start = Moment {
                    state: *self,
                    trace: io@,
                    normal: normal@,
                    critical: critical@,
                };
                let d: Drained = self.drain_pending_rounds(
                    normal,
                    critical,
                    Leftovers::Discard,
                    DRAIN_ROUNDS,
                    io,
                );
                let ghost mid = Moment {
                    state: *self,
                    trace: io@,
                    normal: normal@,
                    critical: critical@,
                };
                assert(Self::drained_in_rounds(
                    start,
                    mid,
                    Leftovers::Discard,
                    DRAIN_ROUNDS,
                    d,
                ));
                let _ = self.finish(io);
                Reply::Stopped
            },
        }
    }

    /// Takes what is waiting and lays it out: critical records first and in full,
    /// for the ordinary stream has no right to hold them up. The answer is how
    /// many there were.
    pub fn take_turn<M: Medium>(
        &mut self,
        normal: &mut Inbox,
        critical: &mut Inbox,
        io: &mut Io<M>,
    ) -> (got: usize)
        requires
            old(self).wf(),
            old(self).balanced(old(io)@),
            old(self).batch@.len() == 0,
        ensures
            final(self).wf(),
            final(self).balanced(final(io)@),
            final(self).batch@.len() == 0,
            final(self).same_setup(old(self)),
            final(self).taken@ == old(self).taken@ + got,
            fleet::same_fleet(old(self).namespaces@, final(self).namespaces@),
            got == queue::received(final(normal)@) - queue::received(old(normal)@)
                + queue::received(final(critical)@) - queue::received(old(critical)@),
            got < DRAIN_LIMIT ==> queue::ran_dry(final(normal)@) && queue::ran_dry(
                final(critical)@,
            ),
            // What came out, the critical records first, is laid out as a batch.
            exists|first: Seq<Staged>, second: Seq<Staged>|
                {
                    &&& #[trigger] handed_over(old(critical)@, final(critical)@, first)
                    &&& #[trigger] handed_over(old(normal)@, final(normal)@, second)
                    &&& first.len() + second.len() == got
                    &&& got > 0 ==> Self::applied(
                        old(self),
                        final(self),
                        first + second,
                        old(io)@,
                        final(io)@,
                    )
                    &&& !medium::troubled(old(io)@, final(io)@) && addressed(
                        old(self).namespaces@,
                        first + second,
                    ) ==> exists|out: Seq<medium::Accepted>|
                        {
                            &&& #[trigger] laid_out(
                                old(self).namespaces@,
                                batch::stable_sorted(first + second),
                                out,
                            )
                            &&& medium::accepted(final(io)@) == medium::accepted(old(io)@) + out
                        }
                },
            got == 0 ==> *final(self) == (WriterLoop { batch: final(self).batch, ..*old(self) })
                && final(io)@ == old(io)@,
    {
        proof {
            fleet::lemma_same_fleet_refl(self.namespaces@);
        }
        let first: usize = self.drain(critical);
        let ghost a = self.batch@;
        let second: usize = self.drain(normal);
        let ghost b = self.batch@.skip(a.len() as int);
        let got: usize = self.batch.len();
        proof {
            assert(a.skip(0) =~= a);
            assert(a + b =~= self.batch@);
            assert(handed_over(old(critical)@, critical@, a)) by {
                assert(old(critical)@ + queue::handing_over(a) + Seq::empty() =~= old(critical)@
                    + queue::handing_over(a));
                assert(old(critical)@ + queue::handing_over(a) + seq![Answer::Empty] =~= (old(
                    critical,
                )@ + queue::handing_over(a)).push(Answer::Empty));
            }
            assert(handed_over(old(normal)@, normal@, b)) by {
                assert(old(normal)@ + queue::handing_over(b) + Seq::empty() =~= old(normal)@
                    + queue::handing_over(b));
                assert(old(normal)@ + queue::handing_over(b) + seq![Answer::Empty] =~= (old(
                    normal,
                )@ + queue::handing_over(b)).push(Answer::Empty));
                if a.len() >= DRAIN_LIMIT {
                    assert(b =~= Seq::empty());
                }
            }
        }
        if first > 0 || second > 0 {
            let ghost loaded = *self;
            let _ = self.apply_batch(io);
            proof {
                Self::lemma_applied_alike(old(self), &loaded, self, a + b, old(io)@, io@);
            }
        } else {
            proof {
                let none = Seq::<medium::Accepted>::empty();
                batch::law_a_batch_is_only_reordered(a + b);
                assert(laid_out(self.namespaces@, batch::stable_sorted(a + b), none));
                assert(medium::accepted(io@) + none =~= medium::accepted(io@));
            }
        }
        got
    }

    /// Lays out one record that was waited for.
    pub fn take_one<M: Medium>(&mut self, item: Staged, io: &mut Io<M>)
        requires
            old(self).wf(),
            old(self).balanced(old(io)@),
            old(self).batch@.len() == 0,
        ensures
            final(self).wf(),
            final(self).balanced(final(io)@),
            final(self).batch@.len() == 0,
            final(self).same_setup(old(self)),
            final(self).taken@ == old(self).taken@ + 1,
            fleet::same_fleet(old(self).namespaces@, final(self).namespaces@),
            Self::applied(old(self), final(self), seq![item], old(io)@, final(io)@),
            !medium::troubled(old(io)@, final(io)@) && addressed(
                old(self).namespaces@,
                seq![item],
            ) ==> exists|out: Seq<medium::Accepted>|
                {
                    &&& #[trigger] laid_out(
                        old(self).namespaces@,
                        batch::stable_sorted(seq![item]),
                        out,
                    )
                    &&& medium::accepted(final(io)@) == medium::accepted(old(io)@) + out
                },
    {
        let ghost one = item;
        self.batch.push(item);
        assert(self.batch@ =~= seq![one]);
        let ghost loaded = *self;
        let _ = self.apply_batch(io);
        proof {
            Self::lemma_applied_alike(old(self), &loaded, self, seq![one], old(io)@, io@);
        }
    }
}

/// How many records were lost in between: those that were taken or in a block, and are
/// neither in a block nor on the medium.
pub open spec fn lost_between(
    before: &WriterLoop,
    after: &WriterLoop,
    t0: Seq<Op>,
    t1: Seq<Op>,
) -> int {
    after.taken@ - before.taken@ + fleet::pending(before.namespaces@) + medium::landed(t0)
        - fleet::pending(after.namespaces@) - medium::landed(t1)
}

/// A block of some channel was too long for any segment of it.
pub open spec fn any_oversized(
    namespaces: Seq<Option<NsState>>,
    t0: Seq<Op>,
    t1: Seq<Op>,
) -> bool {
    exists|i: int, j: int|
        fleet::has_channel(namespaces, i, j) && (#[trigger] fleet::channel_at(
            namespaces,
            i,
            j,
        )).oversized(t0, t1)
}

/// Records were lost only for a reason: the medium refused something, or a block fits no
/// segment.
pub open spec fn careful(
    before: &WriterLoop,
    after: &WriterLoop,
    t0: Seq<Op>,
    t1: Seq<Op>,
) -> bool {
    &&& fleet::same_fleet(before.namespaces@, after.namespaces@)
    &&& medium::grown(t0, t1)
    &&& medium::refusals(t1) >= medium::refusals(t0)
    &&& fleet::all_housed(before.namespaces@) ==> {
        let lost = lost_between(before, after, t0, t1);
        &&& fleet::all_housed(after.namespaces@)
        &&& lost >= 0
        &&& lost > 0 ==> medium::troubled(t0, t1) || any_oversized(before.namespaces@, t0, t1)
    }
}

proof fn lemma_careful_on(
    a: &WriterLoop,
    b: &WriterLoop,
    c: &WriterLoop,
    t0: Seq<Op>,
    t1: Seq<Op>,
    t2: Seq<Op>,
)
    requires
        careful(a, b, t0, t1),
        careful(b, c, t1, t2),
    ensures
        careful(a, c, t0, t2),
{
    fleet::lemma_same_fleet_trans(a.namespaces@, b.namespaces@, c.namespaces@);
    if any_oversized(a.namespaces@, t0, t1) {
        let (i, j) = choose|i: int, j: int|
            fleet::has_channel(a.namespaces@, i, j) && (#[trigger] fleet::channel_at(
                a.namespaces@,
                i,
                j,
            )).oversized(t0, t1);
        let x = fleet::channel_at(a.namespaces@, i, j);
        ChannelState::lemma_oversized(&x, &x, t0, t0, t1, t2);
        assert(any_oversized(a.namespaces@, t0, t2));
    }
    if any_oversized(b.namespaces@, t1, t2) {
        let (i, j) = choose|i: int, j: int|
            fleet::has_channel(b.namespaces@, i, j) && (#[trigger] fleet::channel_at(
                b.namespaces@,
                i,
                j,
            )).oversized(t1, t2);
        assert(b.namespaces@[i] == b.namespaces@[i]);
        assert(fleet::has_channel(a.namespaces@, i, j));
        let x = fleet::channel_at(a.namespaces@, i, j);
        let y = fleet::channel_at(b.namespaces@, i, j);
        ChannelState::lemma_oversized(&x, &y, t0, t1, t2, t2);
        assert(any_oversized(a.namespaces@, t0, t2));
    }
}

proof fn lemma_careful_at(
    before: &WriterLoop,
    after: &WriterLoop,
    i: int,
    j: int,
    t0: Seq<Op>,
    t1: Seq<Op>,
)
    requires
        fleet::one_channel_changed(before.namespaces@, after.namespaces@, i, j),
        after.at(i, j).same_channel(&before.at(i, j)),
        after.taken@ == before.taken@,
        medium::grown(t0, t1),
        medium::refusals(t1) >= medium::refusals(t0),
        before.at(i, j).housed() ==> {
            let gone = before.at(i, j).block.count + medium::landed(t0) - after.at(
                i,
                j,
            ).block.count - medium::landed(t1);
            &&& after.at(i, j).housed()
            &&& gone >= 0
            &&& gone > 0 ==> medium::troubled(t0, t1) || before.at(i, j).oversized(t0, t1)
        },
    ensures
        careful(before, after, t0, t1),
{
    let n0 = before.namespaces@;
    let n1 = after.namespaces@;
    fleet::lemma_one_channel(n0, n1, i, j);
    fleet::lemma_sum_step(n0, n1, i, j, fleet::in_block());
    let b = fleet::channel_at(n0, i, j);
    if fleet::all_housed(n0) {
        assert(b.housed());
        assert forall|x: int, y: int| fleet::has_channel(n1, x, y) implies (
        #[trigger] fleet::channel_at(n1, x, y)).housed() by {
            assert(fleet::has_channel(n0, x, y));
            if x != i || y != j {
                assert(fleet::channel_at(n1, x, y) == fleet::channel_at(n0, x, y));
            }
            assert(fleet::channel_at(n0, x, y).housed());
        }
        if b.oversized(t0, t1) {
            assert(any_oversized(n0, t0, t1));
        }
    }
}

proof fn lemma_careful_flush(
    before: &WriterLoop,
    after: &WriterLoop,
    i: int,
    j: int,
    t0: Seq<Op>,
    t1: Seq<Op>,
    r: Result<(), Error>,
)
    requires
        WriterLoop::flushed_at(before, after, i, j, t0, t1, r),
    ensures
        careful(before, after, t0, t1),
{
    lemma_careful_at(before, after, i, j, t0, t1);
}

proof fn lemma_careful_commit(
    before: &WriterLoop,
    after: &WriterLoop,
    i: int,
    j: int,
    t0: Seq<Op>,
    t1: Seq<Op>,
    r: Result<(), Error>,
)
    requires
        WriterLoop::committed_at(before, after, i, j, t0, t1, r),
    ensures
        careful(before, after, t0, t1),
{
    if r is Err && WriterLoop::flushed_at(before, after, i, j, t0, t1, r) {
        lemma_careful_flush(before, after, i, j, t0, t1, r);
    } else {
        let (mid, t) = choose|mid: WriterLoop, t: Seq<Op>|
            {
                &&& #[trigger] WriterLoop::flushed_at(before, &mid, i, j, t0, t, Ok(()))
                &&& #[trigger] WriterLoop::synced_at(&mid, after, i, j, t, t1, r)
            };
        lemma_careful_flush(before, &mid, i, j, t0, t, Ok(()));
        lemma_careful_at(&mid, after, i, j, t, t1);
        lemma_careful_on(before, &mid, after, t0, t, t1);
    }
}

proof fn lemma_careful_seal(
    before: &WriterLoop,
    after: &WriterLoop,
    i: int,
    j: int,
    t0: Seq<Op>,
    t1: Seq<Op>,
    r: Result<(), Error>,
)
    requires
        WriterLoop::sealed_at(before, after, i, j, t0, t1, r),
    ensures
        careful(before, after, t0, t1),
{
    let b = before.at(i, j);
    let a = after.at(i, j);
    if r is Err && ChannelState::flushed(&b, &a, before.counters, after.counters, t0, t1, r) {
        lemma_careful_at(before, after, i, j, t0, t1);
    } else {
        let (mid, c, t) = choose|mid: ChannelState, c: Counters, t: Seq<Op>|
            {
                &&& #[trigger] ChannelState::flushed(
                    &b,
                    &mid,
                    before.counters,
                    c,
                    t0,
                    t,
                    Ok(()),
                )
                &&& #[trigger] ChannelState::shut(&mid, &a, c, after.counters, t, t1, r)
            };
        lemma_careful_at(before, after, i, j, t0, t1);
    }
}

/// Visits of which each is careful are careful together.
proof fn lemma_careful_visits(
    what: Visit,
    list: Seq<(int, int)>,
    outcomes: Seq<Result<(), Error>>,
    states: Seq<WriterLoop>,
    traces: Seq<Seq<Op>>,
    n: int,
)
    requires
        visited(what, list, outcomes, states, traces),
        0 <= n <= list.len(),
        forall|a: WriterLoop, b: WriterLoop, at: (int, int), x: Seq<Op>, y: Seq<Op>, r: Result<
            (),
            Error,
        >| #[trigger] what(a, b, at, x, y, r) ==> careful(&a, &b, x, y),
    ensures
        careful(&states[0], &states[n], traces[0], traces[n]),
    decreases n,
{
    reveal(visited);
    if n == 0 {
        fleet::lemma_same_fleet_refl(states[0].namespaces@);
    } else {
        let k = n - 1;
        lemma_careful_visits(what, list, outcomes, states, traces, k);
        assert(visited_one(
            what,
            states[k],
            states[k + 1],
            list[k],
            outcomes[k],
            traces[k],
            traces[k + 1],
        ));
        let mid = choose|mid: WriterLoop|
            {
                &&& what(states[k], mid, list[k], traces[k], traces[k + 1], outcomes[k])
                &&& #[trigger] WriterLoop::counted(&mid, &states[k + 1], outcomes[k])
            };
        assert(careful(&states[k], &mid, traces[k], traces[k + 1]));
        assert(careful(&states[k], &states[k + 1], traces[k], traces[k + 1]));
        lemma_careful_on(
            &states[0],
            &states[k],
            &states[n],
            traces[0],
            traces[k],
            traces[n],
        );
    }
}

/// A sync keeps what was written: of the records in the blocks none is lost, unless the
/// medium refused something or a block fits no segment of its channel.
pub proof fn law_a_sync_loses_records_only_for_a_reason(
    before: &WriterLoop,
    after: &WriterLoop,
    only: Option<NsId>,
    t0: Seq<Op>,
    t1: Seq<Op>,
    r: Result<(), Error>,
)
    requires
        WriterLoop::synced_each(before, after, only, t0, t1, r),
    ensures
        careful(before, after, t0, t1),
{
    let (list, outcomes, states, traces) = choose|
        list: Seq<(int, int)>,
        outcomes: Seq<Result<(), Error>>,
        states: Seq<WriterLoop>,
        traces: Seq<Seq<Op>>,
    |
        {
            &&& #[trigger] visited(
                WriterLoop::committing_each(),
                list,
                outcomes,
                states,
                traces,
            )
            &&& covers(before.namespaces@, only, list, before.namespaces@.len() as int, 0)
            &&& states[0] == *before
            &&& states.last() == *after
            &&& traces[0] == t0
            &&& traces.last() == t1
            &&& match first_error(outcomes) {
                Some(e) => r == Err::<(), Error>(e),
                None => r is Ok,
            }
        };
    assert forall|a: WriterLoop, b: WriterLoop, at: (int, int), x: Seq<Op>, y: Seq<Op>, o: Result<
        (),
        Error,
    >| #[trigger] WriterLoop::committing_each()(a, b, at, x, y, o) implies careful(
        &a,
        &b,
        x,
        y,
    ) by {
        lemma_careful_commit(&a, &b, at.0, at.1, x, y, o);
    }
    assert(states.len() == list.len() + 1 && traces.len() == list.len() + 1) by {
        reveal(visited);
    }
    lemma_careful_visits(
        WriterLoop::committing_each(),
        list,
        outcomes,
        states,
        traces,
        list.len() as int,
    );
}

/// So does the final close of every segment.
pub proof fn law_a_close_loses_records_only_for_a_reason(
    before: &WriterLoop,
    after: &WriterLoop,
    t0: Seq<Op>,
    t1: Seq<Op>,
)
    requires
        WriterLoop::sealed_each(before, after, t0, t1),
    ensures
        careful(before, after, t0, t1),
{
    let (list, outcomes, states, traces) = choose|
        list: Seq<(int, int)>,
        outcomes: Seq<Result<(), Error>>,
        states: Seq<WriterLoop>,
        traces: Seq<Seq<Op>>,
    |
        {
            &&& #[trigger] visited(WriterLoop::sealing_each(), list, outcomes, states, traces)
            &&& covers(before.namespaces@, None, list, before.namespaces@.len() as int, 0)
            &&& states[0] == *before
            &&& states.last() == *after
            &&& traces[0] == t0
            &&& traces.last() == t1
        };
    assert forall|a: WriterLoop, b: WriterLoop, at: (int, int), x: Seq<Op>, y: Seq<Op>, o: Result<
        (),
        Error,
    >| #[trigger] WriterLoop::sealing_each()(a, b, at, x, y, o) implies careful(
        &a,
        &b,
        x,
        y,
    ) by {
        lemma_careful_seal(&a, &b, at.0, at.1, x, y, o);
    }
    assert(states.len() == list.len() + 1 && traces.len() == list.len() + 1) by {
        reveal(visited);
    }
    lemma_careful_visits(
        WriterLoop::sealing_each(),
        list,
        outcomes,
        states,
        traces,
        list.len() as int,
    );
}

/// Nothing vanishes: every record the callers gave up or the loop took is in a
/// block being assembled, on the medium, or counted as dropped, and nothing else is
/// counted. Counters wrap, so the count has to be within their range.
pub proof fn law_no_record_vanishes(w: &WriterLoop, trace: Seq<Op>)
    requires
        w.balanced(trace),
        0 <= w.outside + w.taken@ - fleet::pending(w.namespaces@) - medium::landed(trace)
            <= u64::MAX,
    ensures
        w.outside + w.taken@ == fleet::pending(w.namespaces@) + medium::landed(trace)
            + w.counters.dropped,
{
    stats::lemma_plus_in_range(
        w.outside,
        w.taken@ - fleet::pending(w.namespaces@) - medium::landed(trace),
    );
}

/// A sync leaves nothing behind: every channel of the namespace it was asked for, or of every
/// namespace, has written its block, and no block of its open segment is unsynced.
pub proof fn law_a_sync_leaves_nothing_behind(
    w: &WriterLoop,
    only: Option<NsId>,
    trace: Seq<Op>,
    i: int,
    j: int,
)
    requires
        w.all_synced(only, trace),
        fleet::has_channel(w.namespaces@, i, j),
        only is None || only == Some(NsId(i as u32)) && i <= u32::MAX,
    ensures
        w.at(i, j).block.count == 0,
        !w.at(i, j).dirty_since_sync,
        w.at(i, j).segment matches Some(s) ==> !medium::unsynced(trace, s.file),
{
}

/// The answer of an operation on many channels is the first error among them: there is none if and
/// only if all of them went well.
pub proof fn law_the_first_error_is_the_answer(outcomes: Seq<Result<(), Error>>, k: int)
    ensures
        first_error(outcomes) is None <==> forall|m: int|
            0 <= m < outcomes.len() ==> (#[trigger] outcomes[m]) is Ok,
        0 <= k < outcomes.len() && outcomes[k] is Err && (forall|m: int|
            0 <= m < k ==> (#[trigger] outcomes[m]) is Ok) ==> first_error(outcomes) == Some(
            outcomes[k]->Err_0,
        ),
    decreases outcomes.len(),
{
    if outcomes.len() > 0 {
        let rest = outcomes.drop_last();
        let last = outcomes.len() - 1;
        law_the_first_error_is_the_answer(rest, k);
        assert(forall|m: int| 0 <= m < rest.len() ==> rest[m] == #[trigger] outcomes[m]);
        if first_error(outcomes) is None {
            assert forall|m: int| 0 <= m < outcomes.len() implies (#[trigger] outcomes[m]) is Ok by {
                if m < last {
                    assert(rest[m] is Ok);
                }
            }
        }
        if k == last && (forall|m: int| 0 <= m < k ==> (#[trigger] outcomes[m]) is Ok) {
            assert forall|m: int| 0 <= m < rest.len() implies (#[trigger] rest[m]) is Ok by {
                assert(outcomes[m] is Ok);
            }
        }
    }
}

/// A namespace that comes up takes a slot nobody has, and leaves all others as they are; its channels
/// are those it was set up with, under its own number, each with its own settings and quota, and with
/// nothing in them.
pub proof fn law_a_namespace_comes_up_beside_the_others(
    before: &WriterLoop,
    after: &WriterLoop,
    setup: &NsSetup,
    id: NsId,
    t0: Seq<Op>,
    t1: Seq<Op>,
    k: int,
    j: int,
)
    requires
        WriterLoop::registered(before, after, setup, Ok(id), t0, t1),
    ensures
        (id.0 as int) < after.namespaces@.len(),
        (id.0 as int) < before.namespaces@.len() ==> before.namespaces@[id.0 as int] is None,
        0 <= k < before.namespaces@.len() && k != id.0 ==> after.namespaces@[k]
            == before.namespaces@[k],
        after.namespaces@[id.0 as int] matches Some(ns) && {
            &&& ns.name == setup.name
            &&& ns.channels@.len() == setup.channels@.len()
            &&& 0 <= j < setup.channels@.len() ==> {
                let ch = ns.channels@[j];
                &&& ch.config == setup.channels@[j].config
                &&& ch.quota_bytes == setup.channels@[j].quota_bytes
                &&& ch.group == setup.channels@[j].group
                &&& ch.place.ns == id && ch.place.channel.0 == j as u16 && !ch.place.staging
                &&& ch.identity.store_id == setup.store_id && ch.identity.boot == setup.boot
                &&& ch.block.count == 0 && ch.segment is None && ch.lost == 0
            }
        },
        after.counters.dropped == before.counters.dropped,
{
    if 0 <= j < setup.channels@.len() {
        let _ = after.namespaces@[id.0 as int]->0.channels@[j];
    }
}

/// One more, counted in any of the four, is one more in the sum.
proof fn lemma_sum_moves(a: u64, b: u64, c: u64, d: u64)
    ensures
        ({
            let sum = stats::plus(stats::plus(stats::plus(a, b as int), c as int), d as int);
            let (a1, b1, c1, d1) = (
                stats::plus(a, 1),
                stats::plus(b, 1),
                stats::plus(c, 1),
                stats::plus(d, 1),
            );
            &&& stats::plus(stats::plus(stats::plus(a1, b as int), c as int), d as int)
                == stats::plus(sum, 1)
            &&& stats::plus(stats::plus(stats::plus(a, b1 as int), c as int), d as int)
                == stats::plus(sum, 1)
            &&& stats::plus(stats::plus(stats::plus(a, b as int), c1 as int), d as int)
                == stats::plus(sum, 1)
            &&& stats::plus(stats::plus(stats::plus(a, b as int), c as int), d1 as int)
                == stats::plus(sum, 1)
        }),
{
    let all = b + c + d;
    stats::law_counters_add_up(a, b as int, c as int);
    stats::law_counters_add_up(a, b + c, d as int);
    stats::law_counters_add_up(a, all, 1);
    let (a1, b1, c1, d1) = (
        stats::plus(a, 1),
        stats::plus(b, 1),
        stats::plus(c, 1),
        stats::plus(d, 1),
    );
    stats::law_counters_add_up(a1, b as int, c as int);
    stats::law_counters_add_up(a1, b + c, d as int);
    stats::law_counters_add_up(a, 1, all);
    stats::law_counters_add_up(a, b1 as int, c as int);
    stats::law_counters_add_up(a, b1 + c, d as int);
    lemma_one_more_within(a, b, c + d);
    stats::law_counters_add_up(a, b as int, c1 as int);
    stats::law_counters_add_up(a, b + c1, d as int);
    lemma_one_more_within(a, c, b + d);
    stats::law_counters_add_up(a, b + c, d1 as int);
    lemma_one_more_within(a, d, b + c);
}

/// A counter that wrapped around adds what it would have added unwrapped.
proof fn lemma_one_more_within(a: u64, b: u64, rest: int)
    ensures
        stats::plus(a, stats::plus(b, 1) + rest) == stats::plus(a, b + rest + 1),
{
    stats::law_a_counter_counts_by_one(b);
    if b == u64::MAX {
        reveal(stats::plus);
    }
}

/// The mark for readers moves whenever a segment is created, taken into work, sealed or evicted.
pub proof fn law_every_change_of_shape_is_marked(c: Counters)
    ensures
        WriterLoop::shape(
            Counters { segments_created: stats::plus(c.segments_created, 1), ..c },
        ) != WriterLoop::shape(c),
        WriterLoop::shape(
            Counters { segments_opened: stats::plus(c.segments_opened, 1), ..c },
        ) != WriterLoop::shape(c),
        WriterLoop::shape(
            Counters { segments_sealed: stats::plus(c.segments_sealed, 1), ..c },
        ) != WriterLoop::shape(c),
        WriterLoop::shape(
            Counters { segments_rotated: stats::plus(c.segments_rotated, 1), ..c },
        ) != WriterLoop::shape(c),
{
    lemma_sum_moves(c.segments_created, c.segments_opened, c.segments_sealed, c.segments_rotated);
    stats::law_a_counter_counts_by_one(WriterLoop::shape(c));
}

/// Once a namespace is released its slot is free, no channel of it is in the list of those serviced,
/// and every other channel that was still is.
pub proof fn law_a_released_slot_is_left_alone(active: Seq<(usize, usize)>, slot: usize, a: (usize, usize))
    ensures
        outside_slot(active, slot).contains(a) <==> active.contains(a) && a.0 != slot,
{
    let p = not_in(slot);
    if active.contains(a) && a.0 != slot {
        active.lemma_filter_contains(p, active.index_of(a));
    }
    if active.filter(p).contains(a) {
        active.lemma_filter_contains_rev(p, a);
        active.lemma_filter_pred(p, active.filter(p).index_of(a));
    }
}

/// Queues are drained until both are found empty, or sixty-four records came out of them: fewer came
/// out only if nothing was left.
pub proof fn law_queues_are_drained_to_the_end(
    n0: Seq<Answer>,
    n1: Seq<Answer>,
    c0: Seq<Answer>,
    c1: Seq<Answer>,
)
    requires
        drained(n0, n1, c0, c1),
        queue::received(n1) - queue::received(n0) + queue::received(c1) - queue::received(c0) < 64,
    ensures
        n1.len() > 0 && n1.last() is Empty,
        c1.len() > 0 && c1.last() is Empty,
{
}

/// A finished store has nothing open and nothing pending.
pub proof fn law_a_finished_store_is_closed(namespaces: Seq<Option<NsState>>, i: int, j: int)
    requires
        fleet::all_closed(namespaces),
        fleet::all_flushed(namespaces),
        fleet::has_channel(namespaces, i, j),
    ensures
        fleet::channel_at(namespaces, i, j).segment is None,
        fleet::channel_at(namespaces, i, j).block.count == 0,
{
}

/// The result of a migration takes the place of the segment it was made of, and of nothing else: it is
/// swapped in and the directory synced before the answer, its size is corrected, and all other
/// segments stay. One that nothing survived of is removed. Where rotation got there first nothing
/// happens at all.
pub proof fn law_a_migrated_segment_takes_its_own_place(
    before: &WriterLoop,
    after: &WriterLoop,
    ns: NsId,
    channel: ChannelIdx,
    name: SegmentName,
    commit: MigrationCommit,
    r: Result<bool, Error>,
    t0: Seq<Op>,
    t1: Seq<Op>,
    i: int,
    j: int,
)
    requires
        WriterLoop::swapped(before, after, ns, channel, name, commit, r, t0, t1),
        fleet::has_channel(before.namespaces@, i, j),
    ensures
        r == Ok::<bool, Error>(false) ==> *after == *before && t1 == t0,
        r is Err ==> after.at(i, j) == before.at(i, j) && medium::refusals(t1) > medium::refusals(
            t0,
        ),
        !(i == ns.0 && j == channel.0) ==> after.at(i, j) == before.at(i, j),
        after.at(i, j).block == before.at(i, j).block,
        after.at(i, j).segment == before.at(i, j).segment,
        after.at(i, j).lost == before.at(i, j).lost,
        r == Ok::<bool, Error>(true) ==> {
            let b = before.at(ns.0 as int, channel.0 as int);
            let a = after.at(ns.0 as int, channel.0 as int);
            let file = SegmentFile { place: b.place, name };
            &&& rotation::lists(b.inventory@, name)
            &&& commit matches MigrationCommit::Replace { size } ==> {
                &&& t1.len() == t0.len() + 2
                &&& t1[t0.len() as int] == (Op::SwapIn { file, refused: None })
                &&& t1[t0.len() as int + 1] == (Op::SyncDir { place: b.place, refused: None })
                &&& a.inventory@ == rotation::resized(b.inventory@, name, size)
            }
            &&& commit is Remove ==> {
                &&& t1.len() == t0.len() + 1
                &&& t1.last() == (Op::Remove { file, refused: None })
                &&& a.inventory@ == rotation::forgotten(b.inventory@, name)
            }
        },
{
    let _ = after.at(i, j);
    let _ = after.at(ns.0 as int, channel.0 as int);
}

/// A namespace takes the first free slot: there is only one that it can take, and those before it are
/// all taken.
pub proof fn law_the_first_free_slot_is_taken(
    namespaces: Seq<Option<NsState>>,
    slot: int,
    other: int,
    k: int,
)
    requires
        is_free_slot(namespaces, slot),
    ensures
        0 <= k < slot ==> namespaces[k] is Some,
        0 <= slot < namespaces.len() ==> namespaces[slot] is None,
        is_free_slot(namespaces, other) ==> other == slot,
        (forall|m: int| 0 <= m < namespaces.len() ==> (#[trigger] namespaces[m]) is Some) ==> slot
            == namespaces.len(),
{
}

} // verus!
