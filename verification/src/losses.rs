//! Losses: noting them where the hole is, and announcing them in the stream.

use crate::channel_state::ChannelState;
use crate::diag;
use crate::error::Error;
use crate::fleet;
use crate::fleet::NsState;
use crate::format::{Level, Micros};
use crate::medium;
use crate::medium::{Accepted, Io, Medium};
use crate::staged::{ChannelIdx, NsId, RecordView, Staged, StagedRecord};
use crate::stats;
use crate::stats::Counters;
use crate::text;
use crate::writer_loop::WriterLoop;
use vstd::prelude::*;

verus! {

broadcast use {
    crate::medium::group_trace,
    crate::medium::group_synced,
    crate::fleet::lemma_honest_on,
};

/// A loss to be announced.
#[derive(Debug, Clone, Copy, PartialEq, Eq, Structural)]
pub struct Notice {
    pub ns: NsId,
    pub channel: ChannelIdx,
    /// How many records were lost.
    pub count: u64,
    /// The time reached in the channel.
    pub at: Micros,
}

/// One address before another.
pub open spec fn before_address(a: int, b: int, i: int, j: int) -> bool {
    a < i || (a == i && b < j)
}

/// A notice tells the losses of a channel.
pub open spec fn tells(namespaces: Seq<Option<NsState>>, n: Notice) -> bool {
    &&& fleet::has_channel(namespaces, n.ns.0 as int, n.channel.0 as int)
    &&& n.count > 0
    &&& n.count == fleet::channel_at(namespaces, n.ns.0 as int, n.channel.0 as int).lost
    &&& n.at == fleet::channel_at(namespaces, n.ns.0 as int, n.channel.0 as int).last_time
}

/// A channel is told of.
pub open spec fn told(notices: Seq<Notice>, i: int, j: int) -> bool {
    exists|k: int|
        0 <= k < notices.len() && (#[trigger] notices[k]).ns.0 == i && notices[k].channel.0 == j
}

/// The notices tell the losses of every channel that has any, each once.
pub open spec fn announces(namespaces: Seq<Option<NsState>>, notices: Seq<Notice>) -> bool {
    &&& forall|k: int| 0 <= k < notices.len() ==> tells(namespaces, #[trigger] notices[k])
    &&& forall|i: int, j: int|
        #![trigger fleet::channel_at(namespaces, i, j)]
        fleet::has_channel(namespaces, i, j) && fleet::channel_at(namespaces, i, j).lost > 0
            ==> told(notices, i, j)
    &&& forall|k: int, m: int|
        0 <= k < m < notices.len() ==> before_address(
            (#[trigger] notices[k]).ns.0 as int,
            notices[k].channel.0 as int,
            (#[trigger] notices[m]).ns.0 as int,
            notices[m].channel.0 as int,
        )
}

/// A sum of losses.
pub open spec fn in_all(gone: Seq<int>) -> int
    decreases gone.len(),
{
    if gone.len() == 0 {
        0
    } else {
        in_all(gone.drop_last()) + gone.last()
    }
}

/// What was announced is taken off the channels: what a channel has yet to announce is
/// what the writing of its own notice lost, and nothing where it had none.
pub open spec fn taken_off(
    namespaces: Seq<Option<NsState>>,
    notices: Seq<Notice>,
    gone: Seq<int>,
) -> bool {
    &&& gone.len() == notices.len()
    &&& forall|k: int|
        0 <= k < notices.len() ==> {
            let n = #[trigger] notices[k];
            &&& gone[k] >= 0
            &&& fleet::channel_at(namespaces, n.ns.0 as int, n.channel.0 as int).lost
                == stats::plus(0, gone[k])
        }
    &&& forall|i: int, j: int|
        #![trigger fleet::channel_at(namespaces, i, j)]
        fleet::has_channel(namespaces, i, j) && !told(notices, i, j) ==> fleet::channel_at(
            namespaces,
            i,
            j,
        ).lost == 0
}

/// The record a loss is announced by.
pub open spec fn notice_record(count: u64) -> RecordView {
    RecordView::Text {
        level: Level::Error,
        span: None,
        target: diag::TARGET@,
        text: diag::notice_text(count),
    }
}

/// The notices as they went into the blocks of their channels.
pub open spec fn announced(
    namespaces: Seq<Option<NsState>>,
    notices: Seq<Notice>,
    out: Seq<Accepted>,
) -> bool {
    &&& out.len() == notices.len()
    &&& forall|k: int|
        0 <= k < notices.len() ==> {
            let n = #[trigger] notices[k];
            &&& out[k].record == notice_record(n.count)
            &&& out[k].place == fleet::channel_at(
                namespaces,
                n.ns.0 as int,
                n.channel.0 as int,
            ).place
            &&& out[k].at.0 >= n.at.0
        }
}

fn notice_item(n: Notice) -> (item: Staged)
    ensures
        item.ns == n.ns,
        item.channel == n.channel,
        item.at == n.at,
        item.record@ == notice_record(n.count),
{
    let record = StagedRecord::Text {
        level: Level::Error,
        span: None,
        target: text::shared(diag::TARGET),
        text: text::boxed(diag::drop_notice(n.count)),
    };
    assert(record@ == notice_record(n.count));
    Staged { ns: n.ns, channel: n.channel, at: n.at, record }
}

impl WriterLoop {
    /// Sets the losses of a channel that are yet to be announced.
    pub(crate) fn set_losses_at(&mut self, i: usize, j: usize, lost: u64, Ghost(trace): Ghost<Seq<medium::Op>>)
        requires
            old(self).wf(),
            old(self).balanced(trace),
            fleet::has_channel(old(self).namespaces@, i as int, j as int),
        ensures
            final(self).wf(),
            final(self).balanced(trace),
            Self::stepped(old(self), final(self), i as int, j as int),
            fleet::same_fleet(old(self).namespaces@, final(self).namespaces@),
            final(self).counters == old(self).counters,
            final(self).at(i as int, j as int) == (ChannelState {
                lost,
                ..old(self).at(i as int, j as int)
            }),
    {
        let ghost before = *self;
        assert(fleet::channel_at(self.namespaces@, i as int, j as int).ready());
        match &mut self.namespaces[i] {
            Some(ns) => {
                let ch = &mut ns.channels[j];
                ch.lost = lost;
            },
            None => {},
        }
        proof {
            stats::lemma_plus_nothing(before.counters.dropped);
            Self::lemma_step(&before, self, i as int, j as int, trace, trace, 0);
        }
    }

    /// The losses of a channel that are yet to be announced, and the time it has
    /// reached.
    pub(crate) fn losses_at(&self, i: usize, j: usize) -> (r: (u64, Micros))
        requires
            fleet::has_channel(self.namespaces@, i as int, j as int),
        ensures
            r.0 == self.at(i as int, j as int).lost,
            r.1 == self.at(i as int, j as int).last_time,
    {
        match &self.namespaces[i] {
            Some(ns) => (ns.channels[j].lost, ns.channels[j].last_time),
            None => (0, Micros(0)),
        }
    }

    /// How many channels a slot has.
    pub(crate) fn channels_in(&self, i: usize) -> (n: usize)
        requires
            (i as int) < self.namespaces@.len(),
        ensures
            n == match self.namespaces@[i as int] {
                Some(ns) => ns.channels@.len(),
                None => 0,
            },
    {
        match &self.namespaces[i] {
            Some(ns) => ns.channels.len(),
            None => 0,
        }
    }

    /// Takes the losses of all channels, zeroing them.
    #[verifier::rlimit(40)]
    fn take_losses(&mut self, Ghost(trace): Ghost<Seq<medium::Op>>) -> (notices: Vec<Notice>)
        requires
            old(self).wf(),
            old(self).balanced(trace),
        ensures
            final(self).wf(),
            final(self).balanced(trace),
            final(self).same_setup(old(self)),
            final(self).same_round(old(self)),
            final(self).counters == old(self).counters,
            fleet::same_fleet(old(self).namespaces@, final(self).namespaces@),
            announces(old(self).namespaces@, notices@),
            forall|i: int, j: int|
                #![trigger final(self).at(i, j)]
                fleet::has_channel(old(self).namespaces@, i, j) ==> final(self).at(i, j) == (
                ChannelState { lost: 0, ..old(self).at(i, j) }),
    {
        let ghost before = *self;
        proof {
            fleet::lemma_same_fleet_refl(self.namespaces@);
        }
        let mut notices: Vec<Notice> = Vec::new();
        let mut i: usize = 0;
        while i < self.namespaces.len()
            invariant
                i <= self.namespaces@.len(),
                self.wf(),
                self.balanced(trace),
                self.same_setup(&before),
                self.same_round(&before),
                self.counters == before.counters,
                fleet::same_fleet(before.namespaces@, self.namespaces@),
                Self::collected(&before, self, notices@, i as int, 0),
            decreases self.namespaces@.len() - i,
        {
            let n: usize = self.channels_in(i);
            let mut j: usize = 0;
            while j < n
                invariant
                    i < self.namespaces@.len(),
                    n == match self.namespaces@[i as int] {
                        Some(ns) => ns.channels@.len(),
                        None => 0,
                    },
                    j <= n,
                    self.wf(),
                    self.balanced(trace),
                    self.same_setup(&before),
                    self.same_round(&before),
                    self.counters == before.counters,
                    fleet::same_fleet(before.namespaces@, self.namespaces@),
                    Self::collected(&before, self, notices@, i as int, j as int),
                decreases n - j,
            {
                let ghost mid = *self;
                let ghost had = notices@;
                assert(fleet::has_channel(self.namespaces@, i as int, j as int));
                assert(before.namespaces@[i as int] is Some);
                assert(fleet::has_channel(before.namespaces@, i as int, j as int));
                let (lost, at) = self.losses_at(i, j);
                assert(self.at(i as int, j as int) == before.at(i as int, j as int));
                if lost > 0 {
                    self.set_losses_at(i, j, 0, Ghost(trace));
                    notices.push(
                        Notice {
                            ns: NsId(i as u32),
                            channel: ChannelIdx(j as u16),
                            count: lost,
                            at,
                        },
                    );
                }
                proof {
                    fleet::lemma_same_fleet_refl(mid.namespaces@);
                    fleet::lemma_same_fleet_trans(
                        before.namespaces@,
                        mid.namespaces@,
                        self.namespaces@,
                    );
                    if lost > 0 {
                        fleet::lemma_one_channel(
                            mid.namespaces@,
                            self.namespaces@,
                            i as int,
                            j as int,
                        );
                    }
                    assert forall|a: int, b: int|
                        #![trigger self.at(a, b)]
                        fleet::has_channel(before.namespaces@, a, b) implies self.at(a, b) == (
                    ChannelState {
                        lost: if before_address(a, b, i as int, j + 1) {
                            0
                        } else {
                            before.at(a, b).lost
                        },
                        ..before.at(a, b)
                    }) by {
                        assert(before.namespaces@[a] is Some);
                        assert(mid.namespaces@[a] == mid.namespaces@[a]);
                        assert(fleet::has_channel(mid.namespaces@, a, b));
                        let _ = mid.at(a, b);
                        if lost > 0 && (a != i || b != j) {
                            assert(fleet::channel_at(self.namespaces@, a, b)
                                == fleet::channel_at(mid.namespaces@, a, b));
                        }
                    }
                    assert forall|a: int, b: int|
                        #![trigger fleet::channel_at(before.namespaces@, a, b)]
                        fleet::has_channel(before.namespaces@, a, b) && before_address(
                            a,
                            b,
                            i as int,
                            j + 1,
                        ) && fleet::channel_at(before.namespaces@, a, b).lost > 0 implies told(
                        notices@,
                        a,
                        b,
                    ) by {
                        if before_address(a, b, i as int, j as int) {
                            assert(told(had, a, b));
                            let k = choose|k: int|
                                0 <= k < had.len() && (#[trigger] had[k]).ns.0 == a
                                    && had[k].channel.0 == b;
                            assert(notices@[k] == had[k]);
                        } else {
                            assert(notices@[had.len() as int].ns.0 == a);
                        }
                    }
                    assert forall|k: int| 0 <= k < notices@.len() implies {
                        &&& tells(before.namespaces@, #[trigger] notices@[k])
                        &&& before_address(
                            notices@[k].ns.0 as int,
                            notices@[k].channel.0 as int,
                            i as int,
                            j + 1,
                        )
                    } by {
                        if k < had.len() {
                            assert(notices@[k] == had[k]);
                        }
                    }
                    assert forall|k: int, m: int| 0 <= k < m < notices@.len() implies before_address(
                        (#[trigger] notices@[k]).ns.0 as int,
                        notices@[k].channel.0 as int,
                        (#[trigger] notices@[m]).ns.0 as int,
                        notices@[m].channel.0 as int,
                    ) by {
                        assert(notices@[k] == had[k]);
                        if m < had.len() {
                            assert(notices@[m] == had[m]);
                        }
                    }
                }
                j = j + 1;
            }
            proof {
                assert(before.namespaces@[i as int] is Some ==> self.namespaces@[i as int] is Some);
                assert forall|a: int, b: int| #[trigger] fleet::has_channel(
                    before.namespaces@,
                    a,
                    b,
                ) implies before_address(a, b, i as int, j as int) == before_address(
                    a,
                    b,
                    i + 1,
                    0,
                ) by {
                    assert(self.namespaces@[a] == self.namespaces@[a]);
                }
                assert(Self::collected(&before, self, notices@, i + 1, 0));
            }
            i = i + 1;
        }
        proof {
            assert forall|a: int, b: int| #[trigger] fleet::has_channel(
                before.namespaces@,
                a,
                b,
            ) implies before_address(a, b, i as int, 0) by {}
        }
        notices
    }

    /// The losses of the channels before an address have been taken.
    spec fn collected(
        before: &WriterLoop,
        now: &WriterLoop,
        notices: Seq<Notice>,
        i: int,
        j: int,
    ) -> bool {
        &&& forall|a: int, b: int|
            #![trigger now.at(a, b)]
            fleet::has_channel(before.namespaces@, a, b) ==> now.at(a, b) == (ChannelState {
                lost: if before_address(a, b, i, j) {
                    0
                } else {
                    before.at(a, b).lost
                },
                ..before.at(a, b)
            })
        &&& forall|a: int, b: int|
            #![trigger fleet::channel_at(before.namespaces@, a, b)]
            fleet::has_channel(before.namespaces@, a, b) && before_address(a, b, i, j)
                && fleet::channel_at(before.namespaces@, a, b).lost > 0 ==> told(notices, a, b)
        &&& forall|k: int|
            0 <= k < notices.len() ==> {
                &&& tells(before.namespaces@, #[trigger] notices[k])
                &&& before_address(notices[k].ns.0 as int, notices[k].channel.0 as int, i, j)
            }
        &&& forall|k: int, m: int|
            0 <= k < m < notices.len() ==> before_address(
                (#[trigger] notices[k]).ns.0 as int,
                notices[k].channel.0 as int,
                (#[trigger] notices[m]).ns.0 as int,
                notices[m].channel.0 as int,
            )
    }

    /// A loss was announced by a record in its channel, and an error of the medium counted.
    #[verifier::opaque]
    pub open spec fn told_one(
        before: &WriterLoop,
        after: &WriterLoop,
        n: Notice,
        t0: Seq<medium::Op>,
        t1: Seq<medium::Op>,
    ) -> bool {
        exists|item: Staged, mid: WriterLoop, r: Result<(), Error>|
            {
                &&& item.ns == n.ns
                &&& item.channel == n.channel
                &&& item.at == n.at
                &&& item.record@ == notice_record(n.count)
                &&& #[trigger] Self::wrote(before, &mid, &item, t0, t1, r)
                &&& Self::counted(&mid, after, r)
            }
    }

    /// Losses were announced one after another.
    #[verifier::opaque]
    pub open spec fn told_all(
        notices: Seq<Notice>,
        states: Seq<WriterLoop>,
        traces: Seq<Seq<medium::Op>>,
    ) -> bool {
        &&& states.len() == notices.len() + 1
        &&& traces.len() == notices.len() + 1
        &&& forall|k: int|
            #![trigger states[k]]
            0 <= k < notices.len() ==> Self::told_one(
                &states[k],
                &states[k + 1],
                notices[k],
                traces[k],
                traces[k + 1],
            )
    }

    proof fn lemma_told_on(
        notices: Seq<Notice>,
        states: Seq<WriterLoop>,
        traces: Seq<Seq<medium::Op>>,
        n: Notice,
        next: WriterLoop,
        trace: Seq<medium::Op>,
    )
        requires
            Self::told_all(notices, states, traces),
            Self::told_one(&states.last(), &next, n, traces.last(), trace),
        ensures
            Self::told_all(notices.push(n), states.push(next), traces.push(trace)),
            states.push(next)[0] == states[0],
            traces.push(trace)[0] == traces[0],
    {
        reveal(WriterLoop::told_all);
        let l = notices.push(n);
        let s = states.push(next);
        let t = traces.push(trace);
        assert forall|k: int| #![trigger s[k]] 0 <= k < l.len() implies Self::told_one(
            &s[k],
            &s[k + 1],
            l[k],
            t[k],
            t[k + 1],
        ) by {
            assert(s[k] == states[k] && t[k] == traces[k]);
            if k < notices.len() {
                assert(l[k] == notices[k]);
                assert(s[k + 1] == states[k + 1] && t[k + 1] == traces[k + 1]);
            }
        }
    }

    /// The losses of every channel were taken to be announced; nothing else changed.
    pub open spec fn losses_taken(before: &WriterLoop, after: &WriterLoop) -> bool {
        &&& after.same_setup(before)
        &&& after.active@ == before.active@
        &&& after.batch@ == before.batch@
        &&& after.occupancy_seen == before.occupancy_seen
        &&& after.pressured_roots == before.pressured_roots
        &&& after.taken@ == before.taken@
        &&& after.drops_seen == before.counters.dropped
        &&& after.counters == before.counters
        &&& fleet::same_fleet(before.namespaces@, after.namespaces@)
        &&& forall|i: int, j: int|
            #![trigger after.at(i, j)]
            fleet::has_channel(before.namespaces@, i, j) ==> after.at(i, j) == (ChannelState {
                lost: 0,
                ..before.at(i, j)
            })
    }

    /// Losses that were not announced yet are announced, each in its channel; where
    /// the total has not moved there are none.
    pub open spec fn noticed(
        before: &WriterLoop,
        after: &WriterLoop,
        t0: Seq<medium::Op>,
        t1: Seq<medium::Op>,
    ) -> bool {
        if before.counters.dropped == before.drops_seen {
            *after == *before && t1 == t0
        } else {
            &&& after.drops_seen == before.counters.dropped
            &&& exists|
                notices: Seq<Notice>,
                out: Seq<Accepted>,
                gone: Seq<int>,
                states: Seq<WriterLoop>,
                traces: Seq<Seq<medium::Op>>,
            |
                #![trigger announced(before.namespaces@, notices, out), in_all(gone), Self::told_all(notices, states, traces)]
                {
                    &&& Self::told_all(notices, states, traces)
                    &&& Self::losses_taken(before, &states[0])
                    &&& states.last() == *after
                    &&& traces[0] == t0
                    &&& traces.last() == t1
                    &&& taken_off(after.namespaces@, notices, gone)
                    &&& after.counters.dropped == stats::plus(
                        before.counters.dropped,
                        in_all(gone),
                    )
                    &&& announces(before.namespaces@, notices)
                    &&& after.taken@ == before.taken@ + notices.len()
                    &&& !medium::troubled(t0, t1) ==> announced(before.namespaces@, notices, out)
                        && medium::accepted(t1) == medium::accepted(t0) + out
                }
        }
    }

    /// Announces the losses in the streams they happened in. Where the total did
    /// not move since the last time there is nothing to announce.
    #[verifier::rlimit(40)]
    pub fn emit_drop_notices<M: Medium>(&mut self, io: &mut Io<M>)
        requires
            old(self).wf(),
            old(self).balanced(old(io)@),
        ensures
            final(self).wf(),
            final(self).balanced(final(io)@),
            final(self).same_setup(old(self)),
            final(self).batch@ == old(self).batch@,
            final(self).occupancy_seen == old(self).occupancy_seen,
            fleet::same_fleet(old(self).namespaces@, final(self).namespaces@),
            medium::refusals(final(io)@) >= medium::refusals(old(io)@),
            medium::grown(old(io)@, final(io)@),
            Self::noticed(old(self), final(self), old(io)@, final(io)@),
    {
        let ghost before = *self;
        let ghost t0 = io@;
        proof {
            fleet::lemma_same_fleet_refl(self.namespaces@);
        }
        if self.counters.dropped == self.drops_seen {
            return ;
        }
        self.drops_seen = self.counters.dropped;
        let notices: Vec<Notice> = self.take_losses(Ghost(io@));
        let ghost mut out: Seq<Accepted> = Seq::empty();
        let ghost mut gone: Seq<int> = Seq::empty();
        let ghost mut states: Seq<WriterLoop> = seq![*self];
        let ghost mut traces: Seq<Seq<medium::Op>> = seq![io@];
        let ghost bare = *self;
        proof {
            assert(Self::losses_taken(&before, &bare));
            assert(notices@.take(0) =~= Seq::<Notice>::empty());
            reveal(WriterLoop::told_all);
            stats::lemma_plus_nothing(before.counters.dropped);
            assert forall|i: int, j: int|
                #![trigger fleet::channel_at(self.namespaces@, i, j)]
                fleet::has_channel(self.namespaces@, i, j) implies fleet::channel_at(
                self.namespaces@,
                i,
                j,
            ).lost == 0 by {
                assert(self.namespaces@[i] == self.namespaces@[i]);
                assert(fleet::has_channel(before.namespaces@, i, j));
                let _ = self.at(i, j);
            }
            assert(taken_off(self.namespaces@, notices@.take(0), gone));
        }
        assert(medium::accepted(t0) + out =~= medium::accepted(t0));
        let mut k: usize = 0;
        while k < notices.len()
            invariant
                k <= notices@.len(),
                Self::told_all(notices@.take(k as int), states, traces),
                states[0] == bare,
                states.last() == *self,
                traces[0] == t0,
                traces.last() == io@,
                self.wf(),
                self.balanced(io@),
                self.same_setup(&before),
                self.batch@ == before.batch@,
                self.occupancy_seen == before.occupancy_seen,
                self.drops_seen == before.counters.dropped,
                fleet::same_fleet(before.namespaces@, self.namespaces@),
                announces(before.namespaces@, notices@),
                self.taken@ == before.taken@ + k,
                taken_off(self.namespaces@, notices@.take(k as int), gone),
                self.counters.dropped == stats::plus(before.counters.dropped, in_all(gone)),
                medium::grown(t0, io@),
                medium::refusals(io@) >= medium::refusals(t0),
                !medium::troubled(t0, io@) ==> announced(
                    before.namespaces@,
                    notices@.take(k as int),
                    out,
                ) && medium::accepted(io@) == medium::accepted(t0) + out,
            decreases notices@.len() - k,
        {
            let ghost mid = *self;
            let n: Notice = notices[k];
            let item: Staged = notice_item(n);
            let ghost t1 = io@;
            let outcome = self.push(&item, io);
            let ghost wrote = *self;
            let failed: bool = outcome.is_err();
            proof {
                let x = n.ns.0 as int;
                let y = n.channel.0 as int;
                let had = notices@.take(k as int);
                let now = notices@.take(k + 1);
                assert(tells(before.namespaces@, notices@[k as int]));
                assert(mid.namespaces@[x] == mid.namespaces@[x]);
                assert(fleet::has_channel(mid.namespaces@, x, y));
                fleet::lemma_one_channel(mid.namespaces@, self.namespaces@, x, y);
                assert forall|m: int| 0 <= m < k implies before_address(
                    (#[trigger] had[m]).ns.0 as int,
                    had[m].channel.0 as int,
                    x,
                    y,
                ) by {
                    assert(had[m] == notices@[m]);
                    assert(notices@[k as int] == n);
                }
                assert(!told(had, x, y));
                assert(fleet::channel_at(mid.namespaces@, x, y).lost == 0);
                let lost = ChannelState::lost_by_push(
                    &mid.at(x, y),
                    &self.at(x, y),
                    medium::landed(t1),
                    medium::landed(io@),
                );
                let g = gone;
                gone = gone.push(lost);
                assert(gone.drop_last() =~= g);
                stats::law_counters_add_up(before.counters.dropped, in_all(g), lost);
                assert forall|m: int| 0 <= m < now.len() implies {
                    let it = #[trigger] now[m];
                    &&& gone[m] >= 0
                    &&& fleet::channel_at(
                        self.namespaces@,
                        it.ns.0 as int,
                        it.channel.0 as int,
                    ).lost == stats::plus(0, gone[m])
                } by {
                    if m < k {
                        assert(now[m] == had[m]);
                        let it = had[m];
                        assert(tells(before.namespaces@, notices@[m]));
                        assert(mid.namespaces@[it.ns.0 as int] == mid.namespaces@[it.ns.0 as int]);
                        assert(fleet::has_channel(
                            mid.namespaces@,
                            it.ns.0 as int,
                            it.channel.0 as int,
                        ));
                        assert(fleet::channel_at(
                            self.namespaces@,
                            it.ns.0 as int,
                            it.channel.0 as int,
                        ) == fleet::channel_at(
                            mid.namespaces@,
                            it.ns.0 as int,
                            it.channel.0 as int,
                        ));
                    } else {
                        assert(fleet::channel_at(self.namespaces@, x, y) == self.at(x, y));
                    }
                }
                assert forall|i: int, j: int|
                    #![trigger fleet::channel_at(self.namespaces@, i, j)]
                    fleet::has_channel(self.namespaces@, i, j) && !told(now, i, j) implies fleet::channel_at(
                    self.namespaces@,
                    i,
                    j,
                ).lost == 0 by {
                    assert(now[k as int] == n);
                    assert(i != x || j != y);
                    assert(fleet::has_channel(mid.namespaces@, i, j));
                    if told(had, i, j) {
                        let m = choose|m: int|
                            0 <= m < had.len() && (#[trigger] had[m]).ns.0 == i
                                && had[m].channel.0 == j;
                        assert(now[m] == had[m]);
                    }
                    assert(fleet::channel_at(self.namespaces@, i, j) == fleet::channel_at(
                        mid.namespaces@,
                        i,
                        j,
                    ));
                }
                fleet::lemma_same_fleet_trans(
                    before.namespaces@,
                    mid.namespaces@,
                    self.namespaces@,
                );
                let i = n.ns.0 as int;
                let j = n.channel.0 as int;
                assert(tells(before.namespaces@, notices@[k as int]));
                if !medium::troubled(t0, io@) {
                    assert(mid.namespaces@[i] == mid.namespaces@[i]);
                    assert(fleet::has_channel(mid.namespaces@, i, j));
                    let b = fleet::channel_at(mid.namespaces@, i, j);
                    assert(b.same_channel(&fleet::channel_at(before.namespaces@, i, j)));
                    let prev = out;
                    out = out.push(b.accepts(&item));
                    assert(medium::accepted(t0) + out =~= (medium::accepted(t0) + prev).push(
                        b.accepts(&item),
                    ));
                    assert forall|m: int| 0 <= m < k + 1 implies {
                        let it = #[trigger] notices@.take(k + 1)[m];
                        &&& out[m].record == notice_record(it.count)
                        &&& out[m].place == fleet::channel_at(
                            before.namespaces@,
                            it.ns.0 as int,
                            it.channel.0 as int,
                        ).place
                        &&& out[m].at.0 >= it.at.0
                    } by {
                        if m < k {
                            assert(notices@.take(k as int)[m] == notices@.take(k + 1)[m]);
                            assert(out[m] == prev[m]);
                        }
                    }
                }
            }
            if failed {
                Counters::bump(&mut self.counters.io_errors);
            }
            proof {
                assert(Self::told_one(&mid, self, n, t1, io@)) by {
                    reveal(WriterLoop::told_one);
                    assert(Self::wrote(&mid, &wrote, &item, t1, io@, outcome));
                    assert(Self::counted(&wrote, self, outcome));
                }
                Self::lemma_told_on(notices@.take(k as int), states, traces, n, *self, io@);
                assert(notices@.take(k + 1) =~= notices@.take(k as int).push(n));
                states = states.push(*self);
                traces = traces.push(io@);
            }
            k = k + 1;
        }
        proof {
            assert(notices@.take(k as int) =~= notices@);
            assert(announces(before.namespaces@, notices@));
            let _ = announced(before.namespaces@, notices@, out);
            let _ = in_all(gone);
            assert(Self::told_all(notices@, states, traces));
        }
    }
}

/// Every loss is announced, once and in its own stream: a channel that lost records has exactly one
/// notice, which tells how many; a channel that lost none has none.
pub proof fn law_every_loss_is_announced_once(
    namespaces: Seq<Option<NsState>>,
    notices: Seq<Notice>,
    i: int,
    j: int,
    k: int,
    m: int,
)
    requires
        announces(namespaces, notices),
        fleet::has_channel(namespaces, i, j),
    ensures
        ({
            let lost = fleet::channel_at(namespaces, i, j).lost;
            &&& lost > 0 ==> exists|n: int|
                0 <= n < notices.len() && (#[trigger] notices[n]).ns.0 == i && notices[n].channel.0
                    == j && notices[n].count == lost
            &&& lost == 0 ==> !(0 <= k < notices.len() && notices[k].ns.0 == i
                && notices[k].channel.0 == j)
        }),
        0 <= k < m < notices.len() ==> !(notices[k].ns == notices[m].ns && notices[k].channel
            == notices[m].channel),
{
    let ch = fleet::channel_at(namespaces, i, j);
    if ch.lost > 0 {
        assert(told(notices, i, j));
        let n = choose|n: int|
            0 <= n < notices.len() && (#[trigger] notices[n]).ns.0 == i && notices[n].channel.0 == j;
        assert(tells(namespaces, notices[n]));
    }
    if 0 <= k < notices.len() {
        assert(tells(namespaces, notices[k]));
    }
}

/// A notice is an error, and it reads back as the number of records that were lost.
pub proof fn law_a_notice_tells_how_many_were_lost(count: u64)
    ensures
        notice_record(count) matches RecordView::Text { level, span, target, text: t } && {
            &&& level is Error
            &&& span is None
            &&& diag::notice_count(target, t) == Some(count)
        },
{
    diag::law_a_notice_reads_back(count, diag::TARGET@);
}

} // verus!
