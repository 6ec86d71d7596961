//! Taking records from the queues.

use crate::batch;
use crate::budget::chained;
use crate::channel_state::ChannelState;
use crate::fleet;
use crate::medium;
use crate::medium::{Io, Medium, Op};
use crate::queue;
use crate::queue::{Answer, Inbox};
use crate::staged::{ChannelIdx, NsId, Staged};
use crate::stats;
use crate::stats::Counters;
use crate::writer_loop::{addressed, laid_out, Leftovers, WriterLoop};
use vstd::prelude::*;

verus! {

broadcast use {
    crate::medium::group_trace,
    crate::medium::group_synced,
    crate::fleet::lemma_honest_on,
};

/// How many records are taken in one go before turning to the deadlines: a stream
/// of records must not freeze the servicing of flushes and syncs.
pub const DRAIN_LIMIT: usize = 4096;

/// How many passes are made to drain the queues before a sync or a stop: a thread
/// that writes faster than the writer must not keep either from finishing.
pub const DRAIN_ROUNDS: usize = 64;

/// How a drain before a sync or a stop went.
#[derive(Debug, Clone, Copy, PartialEq, Eq, Structural)]
pub struct Drained {
    /// The queues were found empty.
    pub dry: bool,
    /// Records counted as lost for want of anyone to write them.
    pub discarded: u64,
}

/// A queue was asked how many records were waiting, and so many were taken from
/// it, or as many as there were.
pub open spec fn emptied(pre: Seq<Answer>, post: Seq<Answer>, n: int) -> bool {
    &&& pre.is_prefix_of(post)
    &&& post.len() > pre.len()
    &&& post[pre.len() as int] matches Answer::Waiting(total) && {
        &&& 0 <= n <= total
        &&& n == total || queue::ran_dry(post)
    }
    &&& queue::received(post) == queue::received(pre) + n
}

/// A queue was asked how many records were waiting, then handed over records, and may
/// have been found empty at the end.
pub open spec fn emptied_of(pre: Seq<Answer>, post: Seq<Answer>, items: Seq<Staged>) -> bool {
    exists|total: usize| #[trigger]
        handed_over(pre.push(Answer::Waiting(total)), post, items)
}

/// A queue handed over records and nothing else, except that it may have been
/// found empty at the end.
pub open spec fn handed_over(pre: Seq<Answer>, post: Seq<Answer>, items: Seq<Staged>) -> bool {
    ||| post == pre + queue::handing_over(items)
    ||| post == (pre + queue::handing_over(items)).push(Answer::Empty)
}

/// The loop at a moment, with what was asked of the medium and of the queues so far.
pub struct Moment {
    pub state: WriterLoop,
    pub trace: Seq<Op>,
    pub normal: Seq<Answer>,
    pub critical: Seq<Answer>,
}

/// One round: what the queues handed over, the critical records first, was laid out as a
/// batch.
#[verifier::opaque]
pub open spec fn took_round(a: Moment, b: Moment) -> bool {
    exists|first: Seq<Staged>, second: Seq<Staged>|
        {
            &&& #[trigger] handed_over(a.critical, b.critical, first)
            &&& #[trigger] handed_over(a.normal, b.normal, second)
            &&& first.len() + second.len() > 0
            &&& WriterLoop::applied(&a.state, &b.state, first + second, a.trace, b.trace)
            &&& WriterLoop::all_laid_out(&a.state, first + second, a.trace, b.trace)
        }
}

/// Rounds one after another.
#[verifier::opaque]
pub open spec fn took_rounds(moments: Seq<Moment>) -> bool {
    &&& moments.len() > 0
    &&& forall|k: int|
        #![trigger moments[k]]
        0 <= k < moments.len() - 1 ==> took_round(moments[k], moments[k + 1])
}

proof fn lemma_rounds_on(moments: Seq<Moment>, next: Moment)
    requires
        took_rounds(moments),
        took_round(moments.last(), next),
    ensures
        took_rounds(moments.push(next)),
        moments.push(next)[0] == moments[0],
{
    reveal(took_rounds);
    let m = moments.push(next);
    assert forall|k: int| #![trigger m[k]] 0 <= k < m.len() - 1 implies took_round(
        m[k],
        m[k + 1],
    ) by {
        assert(m[k] == moments[k]);
        if k < moments.len() - 1 {
            assert(m[k + 1] == moments[k + 1]);
        }
    }
}

proof fn lemma_longer(a: Seq<Answer>, b: Seq<Answer>, c: Seq<Answer>)
    requires
        a.is_prefix_of(b),
        c.len() == b.len() + 1,
        c.drop_last() == b,
    ensures
        a.is_prefix_of(c),
{
    assert(c.subrange(0, a.len() as int) =~= b.subrange(0, a.len() as int));
}

proof fn lemma_drained(pre: Seq<Answer>, post: Seq<Answer>, items: Seq<Staged>, full: bool)
    requires
        post == pre + queue::handing_over(items) + if full {
            Seq::empty()
        } else {
            seq![Answer::Empty]
        },
    ensures
        handed_over(pre, post, items),
        !full ==> post == (pre + queue::handing_over(items)).push(Answer::Empty),
{
    let handed = pre + queue::handing_over(items);
    assert(handed + Seq::empty() =~= handed);
    assert(handed + seq![Answer::Empty] =~= handed.push(Answer::Empty));
}

impl WriterLoop {
    /// Notes losses in a channel, if there is one at the address.
    fn mark_losses(&mut self, i: usize, j: usize, n: u64, Ghost(trace): Ghost<Seq<Op>>)
        requires
            old(self).wf(),
            old(self).balanced(trace),
        ensures
            final(self).wf(),
            final(self).balanced(trace),
            final(self).same_setup(old(self)),
            final(self).same_round(old(self)),
            final(self).counters == old(self).counters,
            fleet::same_fleet(old(self).namespaces@, final(self).namespaces@),
            fleet::has_channel(old(self).namespaces@, i as int, j as int) ==> Self::stepped(
                old(self),
                final(self),
                i as int,
                j as int,
            ) && final(self).at(i as int, j as int) == (ChannelState {
                lost: stats::plus(old(self).at(i as int, j as int).lost, n as int),
                ..old(self).at(i as int, j as int)
            }),
            !fleet::has_channel(old(self).namespaces@, i as int, j as int) ==> *final(self)
                == *old(self),
    {
        proof {
            fleet::lemma_same_fleet_refl(self.namespaces@);
        }
        if self.has(i, j) {
            let (lost, _) = self.losses_at(i, j);
            let mut lost: u64 = lost;
            Counters::add(&mut lost, n);
            self.set_losses_at(i, j, lost, Ghost(trace));
        }
    }

    /// Takes into account losses that callers met before a record reached the
    /// loop: in their channel, and in the total.
    pub fn report_losses(&mut self, ns: NsId, channel: ChannelIdx, n: u64)
        requires
            old(self).wf(),
        ensures
            final(self).wf(),
            forall|trace: Seq<Op>| old(self).balanced(trace) ==> #[trigger] final(self).balanced(trace),
            *final(self) == (WriterLoop {
                namespaces: final(self).namespaces,
                outside: stats::plus(old(self).outside, n as int),
                counters: Counters {
                    dropped: stats::plus(old(self).counters.dropped, n as int),
                    ..old(self).counters
                },
                ..*old(self)
            }),
            fleet::same_fleet(old(self).namespaces@, final(self).namespaces@),
            fleet::has_channel(old(self).namespaces@, ns.0 as int, channel.0 as int)
                ==> fleet::one_channel_changed(
                old(self).namespaces@,
                final(self).namespaces@,
                ns.0 as int,
                channel.0 as int,
            ) && final(self).at(ns.0 as int, channel.0 as int) == (ChannelState {
                lost: stats::plus(old(self).at(ns.0 as int, channel.0 as int).lost, n as int),
                ..old(self).at(ns.0 as int, channel.0 as int)
            }),
            !fleet::has_channel(old(self).namespaces@, ns.0 as int, channel.0 as int)
                ==> final(self).namespaces@ == old(self).namespaces@,
    {
        let ghost before = *self;
        let i: usize = ns.0 as usize;
        let j: usize = channel.0 as usize;
        proof {
            fleet::lemma_same_fleet_refl(self.namespaces@);
        }
        if self.has(i, j) {
            assert(fleet::channel_at(self.namespaces@, i as int, j as int).ready());
            match &mut self.namespaces[i] {
                Some(state) => {
                    let ch = &mut state.channels[j];
                    Counters::add(&mut ch.lost, n);
                },
                None => {},
            }
            proof {
                fleet::lemma_one_channel(
                    before.namespaces@,
                    self.namespaces@,
                    i as int,
                    j as int,
                );
                assert forall|a: int, b: int|
                    #![trigger fleet::channel_at(self.namespaces@, a, b)]
                    fleet::has_channel(self.namespaces@, a, b) && fleet::channel_at(
                        self.namespaces@,
                        a,
                        b,
                    ).is_in_active_list implies self.active@.contains((a as usize, b as usize)) by {
                    assert(fleet::has_channel(before.namespaces@, a, b));
                    if a != i || b != j {
                        assert(fleet::channel_at(self.namespaces@, a, b) == fleet::channel_at(
                            before.namespaces@,
                            a,
                            b,
                        ));
                    }
                    assert(fleet::channel_at(before.namespaces@, a, b).is_in_active_list);
                }
            }
        }
        Counters::add(&mut self.outside, n);
        Counters::add(&mut self.counters.dropped, n);
        proof {
            assert forall|trace: Seq<Op>| before.balanced(trace) implies #[trigger] self.balanced(
                trace,
            ) by {
                reveal(fleet::all_honest);
                assert forall|a: int, b: int| fleet::has_channel(
                    self.namespaces@,
                    a,
                    b,
                ) implies (#[trigger] fleet::channel_at(self.namespaces@, a, b)).honest(trace) by {
                    assert(fleet::has_channel(before.namespaces@, a, b));
                    let c = fleet::channel_at(before.namespaces@, a, b);
                    assert(c.honest(trace));
                    assert(fleet::channel_at(self.namespaces@, a, b).segment == c.segment);
                }
                assert forall|p: medium::Place|
                    !p.staging && !fleet::has_channel(
                        self.namespaces@,
                        p.ns.0 as int,
                        p.channel.0 as int,
                    ) implies (#[trigger] medium::assembled(trace, p)).len() == 0 by {
                    assert(!fleet::has_channel(
                        before.namespaces@,
                        p.ns.0 as int,
                        p.channel.0 as int,
                    ));
                }
                let k = before.taken@ - fleet::pending(before.namespaces@) - medium::landed(trace);
                assert(fleet::pending(self.namespaces@) == fleet::pending(before.namespaces@));
                stats::law_counters_add_up(before.outside, k, n as int);
                stats::law_counters_add_up(before.outside, n as int, k);
            }
        }
    }

    /// Takes what can be taken from a queue without exceeding the limit.
    pub fn drain(&mut self, queue: &mut Inbox) -> (n: usize)
        ensures
            *final(self) == (WriterLoop { batch: final(self).batch, ..*old(self) }),
            final(queue).queue == old(queue).queue,
            old(self).batch@.len() >= DRAIN_LIMIT ==> n == 0 && final(self).batch@ == old(
                self,
            ).batch@ && final(queue)@ == old(queue)@,
            // Everything that came out is in the batch, in the order it came.
            old(self).batch@.len() < DRAIN_LIMIT ==> {
                let items = final(self).batch@.skip(old(self).batch@.len() as int);
                let full = final(self).batch@.len() == DRAIN_LIMIT;
                &&& old(self).batch@.is_prefix_of(final(self).batch@)
                &&& items.len() == n
                &&& final(self).batch@.len() <= DRAIN_LIMIT
                &&& final(queue)@ == old(queue)@ + queue::handing_over(items) + if full {
                    Seq::empty()
                } else {
                    seq![Answer::Empty]
                }
            },
            queue::received(final(queue)@) == queue::received(old(queue)@) + n,
            n == 0 && old(self).batch@.len() < DRAIN_LIMIT ==> queue::ran_dry(final(queue)@),
    {
        broadcast use queue::lemma_received_push;

        let ghost before = *self;
        let ghost q0 = queue@;
        let mut n: usize = 0;
        let mut more: bool = true;
        proof {
            assert(self.batch@.skip(before.batch@.len() as int) =~= Seq::empty());
            assert(q0 + queue::handing_over(Seq::empty()) =~= q0);
        }
        while more && self.batch.len() < DRAIN_LIMIT
            invariant
                self.batch@.len() == before.batch@.len() + n,
                before.batch@.is_prefix_of(self.batch@),
                more && n == 0 || self.batch@.len() <= DRAIN_LIMIT,
                !more ==> self.batch@.len() < DRAIN_LIMIT,
                *self == (WriterLoop { batch: self.batch, ..before }),
                queue.queue == old(queue).queue,
                queue@ == q0 + queue::handing_over(self.batch@.skip(before.batch@.len() as int))
                    + if more {
                    Seq::empty()
                } else {
                    seq![Answer::Empty]
                },
                queue::received(queue@) == queue::received(q0) + n,
            decreases (if more {
                1int
            } else {
                0
            }) + DRAIN_LIMIT - self.batch@.len(),
        {
            broadcast use queue::lemma_received_push;

            let ghost had = self.batch@.skip(before.batch@.len() as int);
            let ghost q1 = queue@;
            match queue.take() {
                Some(item) => {
                    self.batch.push(item);
                    n = n + 1;
                    proof {
                        let has = self.batch@.skip(before.batch@.len() as int);
                        assert(has =~= had.push(item));
                        assert(queue::handing_over(has) =~= queue::handing_over(had).push(
                            Answer::Item(item),
                        ));
                        assert(queue@ =~= q0 + queue::handing_over(has) + Seq::empty());
                    }
                },
                None => {
                    more = false;
                    assert(queue@ =~= q0 + queue::handing_over(had) + seq![Answer::Empty]);
                },
            }
        }
        n
    }

    /// Where the medium refuses nothing, every record of a batch goes into its channel's
    /// block, in the order of channels and times.
    pub open spec fn all_laid_out(
        before: &WriterLoop,
        items: Seq<Staged>,
        t0: Seq<Op>,
        t1: Seq<Op>,
    ) -> bool {
        !medium::troubled(t0, t1) && addressed(before.namespaces@, items) ==> exists|
            out: Seq<medium::Accepted>,
        |
            {
                &&& #[trigger] laid_out(before.namespaces@, batch::stable_sorted(items), out)
                &&& medium::accepted(t1) == medium::accepted(t0) + out
            }
    }

    /// A record is counted as lost, in the total and in its channel; nothing else changes.
    pub open spec fn threw_away(before: &WriterLoop, after: &WriterLoop, item: &Staged) -> bool {
        let (i, j) = (item.ns.0 as int, item.channel.0 as int);
        &&& after.same_setup(before)
        &&& after.active@ == before.active@
        &&& after.batch@ == before.batch@
        &&& after.drops_seen == before.drops_seen
        &&& after.occupancy_seen == before.occupancy_seen
        &&& after.pressured_roots == before.pressured_roots
        &&& after.taken@ == before.taken@ + 1
        &&& after.counters == (Counters {
            dropped: stats::plus(before.counters.dropped, 1),
            ..before.counters
        })
        &&& if fleet::has_channel(before.namespaces@, i, j) {
            &&& fleet::one_channel_changed(before.namespaces@, after.namespaces@, i, j)
            &&& after.at(i, j) == (ChannelState {
                lost: stats::plus(before.at(i, j).lost, 1),
                ..before.at(i, j)
            })
        } else {
            after.namespaces@ == before.namespaces@
        }
    }

    /// Records were counted as lost one after another.
    #[verifier::opaque]
    pub open spec fn threw_all_away(items: Seq<Staged>, states: Seq<WriterLoop>) -> bool {
        &&& states.len() == items.len() + 1
        &&& forall|k: int|
            #![trigger states[k]]
            0 <= k < items.len() ==> Self::threw_away(&states[k], &states[k + 1], &items[k])
    }

    proof fn lemma_threw_on(
        items: Seq<Staged>,
        states: Seq<WriterLoop>,
        item: Staged,
        next: WriterLoop,
    )
        requires
            Self::threw_all_away(items, states),
            Self::threw_away(&states.last(), &next, &item),
        ensures
            Self::threw_all_away(items.push(item), states.push(next)),
            states.push(next)[0] == states[0],
    {
        reveal(WriterLoop::threw_all_away);
        let l = items.push(item);
        let s = states.push(next);
        assert forall|k: int| #![trigger s[k]] 0 <= k < l.len() implies Self::threw_away(
            &s[k],
            &s[k + 1],
            &l[k],
        ) by {
            assert(s[k] == states[k]);
            if k < items.len() {
                assert(l[k] == items[k]);
                assert(s[k + 1] == states[k + 1]);
            }
        }
    }

    /// What was waiting in a queue was counted as lost.
    pub open spec fn threw_queue_away(
        before: &WriterLoop,
        after: &WriterLoop,
        pre: Seq<Answer>,
        post: Seq<Answer>,
        n: int,
    ) -> bool {
        &&& emptied(pre, post, n)
        &&& exists|items: Seq<Staged>, states: Seq<WriterLoop>|
            {
                &&& #[trigger] Self::threw_all_away(items, states)
                &&& emptied_of(pre, post, items)
                &&& items.len() == n
                &&& states[0] == *before
                &&& states.last() == *after
            }
    }

    /// What draining the queues comes to: rounds, each laying out what it found, until the
    /// queues are found empty or the rounds are used up. What is left then stays where it
    /// is or is counted as lost.
    pub open spec fn drained_in_rounds(
        a: Moment,
        b: Moment,
        leftovers: Leftovers,
        rounds: usize,
        r: Drained,
    ) -> bool {
        exists|moments: Seq<Moment>|
            {
                &&& #[trigger] took_rounds(moments)
                &&& moments[0] == a
                &&& Self::left_over(moments.last(), b, leftovers, r)
                &&& if r.dry {
                    moments.len() <= rounds
                } else {
                    moments.len() == rounds + 1
                }
            }
    }

    /// How a drain ends.
    pub open spec fn left_over(
        last: Moment,
        end: Moment,
        leftovers: Leftovers,
        r: Drained,
    ) -> bool {
        &&& end.trace == last.trace
        &&& if r.dry {
            &&& end.state == (WriterLoop { batch: end.state.batch, ..last.state })
            &&& end.normal == last.normal.push(Answer::Empty)
            &&& end.critical == last.critical.push(Answer::Empty)
            &&& r.discarded == 0
        } else if leftovers == Leftovers::Keep {
            end == last && r.discarded == 0
        } else {
            exists|half: WriterLoop, c: int, n: int|
                {
                    &&& #[trigger] Self::threw_queue_away(
                        &last.state,
                        &half,
                        last.critical,
                        end.critical,
                        c,
                    )
                    &&& #[trigger] Self::threw_queue_away(
                        &half,
                        &end.state,
                        last.normal,
                        end.normal,
                        n,
                    )
                    &&& r.discarded == if n + c <= u64::MAX {
                        n + c
                    } else {
                        u64::MAX as int
                    }
                }
        }
    }

    /// What the batch buffer held before plays no part in laying a batch out.
    pub(crate) proof fn lemma_applied_alike(
        before: &WriterLoop,
        loaded: &WriterLoop,
        after: &WriterLoop,
        items: Seq<Staged>,
        t0: Seq<Op>,
        t1: Seq<Op>,
    )
        requires
            *loaded == (WriterLoop { batch: loaded.batch, ..*before }),
            Self::applied(loaded, after, items, t0, t1),
        ensures
            Self::applied(before, after, items, t0, t1),
    {
        let (s0, x0, s1, x1) = choose|
            s0: Seq<WriterLoop>,
            x0: Seq<Seq<Op>>,
            s1: Seq<WriterLoop>,
            x1: Seq<Seq<Op>>,
        |
            {
                &&& #[trigger] Self::wrote_all(batch::stable_sorted(items), s0, x0)
                &&& #[trigger] chained(Self::committing(), s1, x1)
                &&& s0[0] == (WriterLoop { batch: s0[0].batch, ..*loaded })
                &&& x0[0] == t0
                &&& s1[0] == (WriterLoop { batch: s1[0].batch, ..s0.last() })
                &&& x1[0] == x0.last()
                &&& s1.last() == *after
                &&& x1.last() == t1
                &&& forall|i: int, j: int|
                    #![trigger after.at(i, j)]
                    s1[0].is_due_at_once(i, j) ==> after.at(i, j).block.count == 0
            };
        assert(Self::wrote_all(batch::stable_sorted(items), s0, x0));
        assert(chained(Self::committing(), s1, x1));
    }

    /// Counts a record that nobody will write as lost.
    fn discard(&mut self, item: &Staged, Ghost(trace): Ghost<Seq<Op>>)
        requires
            old(self).wf(),
            old(self).balanced(trace),
        ensures
            final(self).wf(),
            final(self).balanced(trace),
            final(self).same_setup(old(self)),
            final(self).batch@ == old(self).batch@,
            final(self).drops_seen == old(self).drops_seen,
            final(self).occupancy_seen == old(self).occupancy_seen,
            final(self).taken@ == old(self).taken@ + 1,
            fleet::same_fleet(old(self).namespaces@, final(self).namespaces@),
            final(self).counters == (Counters {
                dropped: stats::plus(old(self).counters.dropped, 1),
                ..old(self).counters
            }),
            fleet::has_channel(old(self).namespaces@, item.ns.0 as int, item.channel.0 as int)
                ==> final(self).at(item.ns.0 as int, item.channel.0 as int).lost == stats::plus(
                old(self).at(item.ns.0 as int, item.channel.0 as int).lost,
                1,
            ),
            Self::threw_away(old(self), final(self), item),
    {
        let ghost before = *self;
        self.mark_losses(item.ns.0 as usize, item.channel.0 as usize, 1, Ghost(trace));
        let ghost mid = *self;
        Counters::bump(&mut self.counters.dropped);
        self.taken = Ghost(self.taken@ + 1);
        proof {
            fleet::lemma_ledger_step(
                mid.counters.dropped,
                self.counters.dropped,
                self.outside,
                mid.taken@,
                1,
                mid.namespaces@,
                self.namespaces@,
                trace,
                trace,
                1,
            );
        }
    }

    /// Counts what is waiting in a queue as lost. The number of records is bounded
    /// by what was there at the start: a producer that writes faster must not hold
    /// up the stop.
    fn discard_queue(&mut self, queue: &mut Inbox, Ghost(trace): Ghost<Seq<Op>>) -> (n: u64)
        requires
            old(self).wf(),
            old(self).balanced(trace),
        ensures
            final(self).wf(),
            final(self).balanced(trace),
            final(self).same_setup(old(self)),
            final(self).batch@ == old(self).batch@,
            final(self).drops_seen == old(self).drops_seen,
            final(self).occupancy_seen == old(self).occupancy_seen,
            final(self).taken@ == old(self).taken@ + n,
            fleet::same_fleet(old(self).namespaces@, final(self).namespaces@),
            final(self).counters.dropped == stats::plus(old(self).counters.dropped, n as int),
            Self::threw_queue_away(
                old(self),
                final(self),
                old(queue)@,
                final(queue)@,
                n as int,
            ),
    {
        broadcast use queue::lemma_received_push;

        let ghost before = *self;
        let ghost q0 = queue@;
        let total: usize = queue.waiting();
        let ghost asked = queue@;
        let mut left: usize = total;
        let mut n: u64 = 0;
        let ghost mut items: Seq<Staged> = Seq::empty();
        let ghost mut states: Seq<WriterLoop> = seq![*self];
        let ghost mut dry: bool = false;
        proof {
            reveal(WriterLoop::threw_all_away);
            assert(queue@ =~= asked + queue::handing_over(items));
            fleet::lemma_same_fleet_refl(self.namespaces@);
            stats::lemma_plus_nothing(self.counters.dropped);
        }
        while left > 0
            invariant
                self.wf(),
                self.balanced(trace),
                self.same_setup(&before),
                self.batch@ == before.batch@,
                self.drops_seen == before.drops_seen,
                self.occupancy_seen == before.occupancy_seen,
                self.taken@ == before.taken@ + n,
                fleet::same_fleet(before.namespaces@, self.namespaces@),
                self.counters.dropped == stats::plus(before.counters.dropped, n as int),
                asked == q0.push(Answer::Waiting(total)),
                asked.is_prefix_of(queue@),
                queue::received(queue@) == queue::received(q0) + n,
                n + left <= total,
                left > 0 ==> n + left == total,
                n == total || left > 0 || queue::ran_dry(queue@),
                Self::threw_all_away(items, states),
                items.len() == n,
                states[0] == before,
                states.last() == *self,
                dry ==> left == 0,
                queue@ == if dry {
                    (asked + queue::handing_over(items)).push(Answer::Empty)
                } else {
                    asked + queue::handing_over(items)
                },
            decreases left,
        {
            broadcast use queue::lemma_received_push;

            let ghost q1 = queue@;
            match queue.take() {
                Some(item) => {
                    let ghost mid = *self;
                    self.discard(&item, Ghost(trace));
                    proof {
                        fleet::lemma_same_fleet_trans(
                            before.namespaces@,
                            mid.namespaces@,
                            self.namespaces@,
                        );
                        stats::law_counters_add_up(before.counters.dropped, n as int, 1);
                        Self::lemma_threw_on(items, states, item, *self);
                        states = states.push(*self);
                        let had = items;
                        items = items.push(item);
                        assert(queue::handing_over(items) =~= queue::handing_over(had).push(
                            Answer::Item(item),
                        ));
                        assert(queue@ =~= asked + queue::handing_over(items));
                    }
                    n = n + 1;
                    left = left - 1;
                },
                None => {
                    left = 0;
                    proof {
                        dry = true;
                    }
                },
            }
            proof {
                assert(queue@.drop_last() =~= q1);
                lemma_longer(asked, q1, queue@);
            }
        }
        proof {
            assert(queue@[q0.len() as int] == asked[q0.len() as int]);
            assert(q0.is_prefix_of(queue@)) by {
                assert(queue@.subrange(0, q0.len() as int) =~= q0) by {
                    assert forall|k: int| 0 <= k < q0.len() implies queue@[k] == q0[k] by {
                        assert(queue@.subrange(0, asked.len() as int)[k] == asked[k]);
                    }
                }
            }
            assert(handed_over(q0.push(Answer::Waiting(total)), queue@, items));
            assert(Self::threw_all_away(items, states));
        }
        n
    }

    /// Drains both queues: the critical one first. Called before a sync and a
    /// stop, whose commands would otherwise overtake the records.
    ///
    /// After the allotted rounds what is left either stays, to be written in the
    /// ordinary course, or is counted as lost.
    pub fn drain_pending_rounds<M: Medium>(
        &mut self,
        normal: &mut Inbox,
        critical: &mut Inbox,
        leftovers: Leftovers,
        rounds: usize,
        io: &mut Io<M>,
    ) -> (r: Drained)
        requires
            old(self).wf(),
            old(self).balanced(old(io)@),
            old(self).batch@.len() == 0,
        ensures
            final(self).wf(),
            final(self).balanced(final(io)@),
            final(self).same_setup(old(self)),
            final(self).batch@.len() == 0,
            final(self).drops_seen == old(self).drops_seen,
            final(self).occupancy_seen == old(self).occupancy_seen,
            fleet::same_fleet(old(self).namespaces@, final(self).namespaces@),
            medium::refusals(final(io)@) >= medium::refusals(old(io)@),
            medium::grown(old(io)@, final(io)@),
            // Everything that came out of the queues was laid out or counted.
            final(self).taken@ - old(self).taken@ == queue::received(final(normal)@)
                - queue::received(old(normal)@) + queue::received(final(critical)@)
                - queue::received(old(critical)@),
            // Both queues were found empty; or every round found something.
            r.dry ==> queue::ran_dry(final(normal)@) && queue::ran_dry(final(critical)@),
            !r.dry ==> final(self).taken@ >= old(self).taken@ + rounds,
            // What is accepted is thrown away only at a stop, and only where the
            // queues could not be drained.
            leftovers == Leftovers::Keep || r.dry ==> r.discarded == 0,
            rounds == 0 ==> !r.dry,
            Self::drained_in_rounds(
                (Moment {
                    state: *old(self),
                    trace: old(io)@,
                    normal: old(normal)@,
                    critical: old(critical)@,
                }),
                (Moment {
                    state: *final(self),
                    trace: final(io)@,
                    normal: final(normal)@,
                    critical: final(critical)@,
                }),
                leftovers,
                rounds,
                r,
            ),
    {
        let ghost before = *self;
        let ghost t0 = io@;
        proof {
            fleet::lemma_same_fleet_refl(self.namespaces@);
        }
        let ghost start = Moment {
            state: *self,
            trace: io@,
            normal: normal@,
            critical: critical@,
        };
        let ghost mut moments: Seq<Moment> = seq![start];
        proof {
            reveal(took_rounds);
        }
        let mut round: usize = 0;
        while round < rounds
            invariant
                round <= rounds,
                took_rounds(moments),
                moments.len() == round + 1,
                moments[0] == start,
                start == (Moment {
                    state: *old(self),
                    trace: old(io)@,
                    normal: old(normal)@,
                    critical: old(critical)@,
                }),
                moments.last() == (Moment {
                    state: *self,
                    trace: io@,
                    normal: normal@,
                    critical: critical@,
                }),
                before == *old(self),
                t0 == old(io)@,
                self.wf(),
                self.balanced(io@),
                self.same_setup(&before),
                self.batch@.len() == 0,
                self.drops_seen == before.drops_seen,
                self.occupancy_seen == before.occupancy_seen,
                self.taken@ >= before.taken@ + round,
                self.taken@ - before.taken@ == queue::received(normal@) - queue::received(
                    old(normal)@,
                ) + queue::received(critical@) - queue::received(old(critical)@),
                fleet::same_fleet(before.namespaces@, self.namespaces@),
                medium::refusals(io@) >= medium::refusals(t0),
                medium::grown(t0, io@),
            decreases rounds - round,
        {
            let ghost mid = *self;
            let ghost t1 = io@;
            let ghost c1 = critical@;
            let ghost n1 = normal@;
            let first: usize = self.drain(critical);
            let ghost a = self.batch@;
            let second: usize = self.drain(normal);
            let ghost b = self.batch@.skip(a.len() as int);
            proof {
                assert(a.skip(0) =~= a);
                assert(a + b =~= self.batch@);
                lemma_drained(c1, critical@, a, a.len() == DRAIN_LIMIT);
                if a.len() < DRAIN_LIMIT {
                    lemma_drained(n1, normal@, b, self.batch@.len() == DRAIN_LIMIT);
                } else {
                    assert(b =~= Seq::empty());
                    assert(n1 + queue::handing_over(b) =~= n1);
                }
            }
            if first == 0 && second == 0 {
                proof {
                    assert(c1 + queue::handing_over(a) =~= c1);
                    assert(n1 + queue::handing_over(b) =~= n1);
                    assert(Self::left_over(
                        moments.last(),
                        Moment {
                            state: *self,
                            trace: io@,
                            normal: normal@,
                            critical: critical@,
                        },
                        leftovers,
                        Drained { dry: true, discarded: 0 },
                    ));
                }
                return Drained { dry: true, discarded: 0 };
            }
            let ghost loaded = *self;
            let _ = self.apply_batch(io);
            proof {
                assert(Self::applied(&mid, self, a + b, t1, io@)) by {
                    Self::lemma_applied_alike(&mid, &loaded, self, a + b, t1, io@);
                }
                assert(Self::all_laid_out(&mid, a + b, t1, io@));
                let next = Moment {
                    state: *self,
                    trace: io@,
                    normal: normal@,
                    critical: critical@,
                };
                assert(took_round(moments.last(), next)) by {
                    reveal(took_round);
                    let last = moments.last();
                    assert(last.state == mid && last.trace == t1);
                    assert(handed_over(last.critical, next.critical, a));
                    assert(handed_over(last.normal, next.normal, b));
                    assert(a.len() + b.len() > 0);
                    assert(WriterLoop::applied(&last.state, &next.state, a + b, last.trace, next.trace));
                    assert(WriterLoop::all_laid_out(&last.state, a + b, last.trace, next.trace));
                }
                lemma_rounds_on(moments, next);
                moments = moments.push(next);
                fleet::lemma_same_fleet_trans(
                    before.namespaces@,
                    mid.namespaces@,
                    self.namespaces@,
                );
            }
            round = round + 1;
        }
        if leftovers == Leftovers::Keep {
            return Drained { dry: false, discarded: 0 };
        }
        let ghost mid = *self;
        let ghost n0 = normal@;
        let ghost c0 = critical@;
        let first: u64 = self.discard_queue(critical, Ghost(io@));
        let ghost half = *self;
        let second: u64 = self.discard_queue(normal, Ghost(io@));
        proof {
            fleet::lemma_same_fleet_trans(mid.namespaces@, half.namespaces@, self.namespaces@);
            fleet::lemma_same_fleet_trans(before.namespaces@, mid.namespaces@, self.namespaces@);
            let last = moments.last();
            let end = Moment { state: *self, trace: io@, normal: normal@, critical: critical@ };
            assert(Self::threw_queue_away(
                &last.state,
                &half,
                last.critical,
                end.critical,
                first as int,
            ));
            assert(Self::threw_queue_away(
                &half,
                &end.state,
                last.normal,
                end.normal,
                second as int,
            ));
            assert(Self::left_over(
                last,
                end,
                leftovers,
                Drained {
                    dry: false,
                    discarded: if first + second <= u64::MAX {
                        (first + second) as u64
                    } else {
                        u64::MAX
                    },
                },
            ));
        }
        Drained { dry: false, discarded: first.saturating_add(second) }
    }
}

/// A record that is thrown away is counted, once in all and once in its own channel, and changes
/// nothing else.
pub proof fn law_what_is_thrown_away_is_counted(
    before: &WriterLoop,
    after: &WriterLoop,
    item: &Staged,
    i: int,
    j: int,
)
    requires
        WriterLoop::threw_away(before, after, item),
        fleet::has_channel(before.namespaces@, i, j),
    ensures
        after.counters.dropped == stats::plus(before.counters.dropped, 1),
        after.counters.records_written == before.counters.records_written,
        i == item.ns.0 && j == item.channel.0 ==> after.at(i, j).lost == stats::plus(
            before.at(i, j).lost,
            1,
        ) && after.at(i, j).block == before.at(i, j).block,
        !(i == item.ns.0 && j == item.channel.0) ==> after.at(i, j) == before.at(i, j),
{
    let _ = after.at(i, j);
}

/// What is left in the queues when the passes are up is lost only if it was to be: kept, it stays
/// where it is, and a store that found its queues empty has nothing to lose.
pub proof fn law_leftovers_are_lost_only_on_purpose(
    last: Moment,
    end: Moment,
    leftovers: Leftovers,
    r: Drained,
)
    requires
        WriterLoop::left_over(last, end, leftovers, r),
    ensures
        end.trace == last.trace,
        r.dry || leftovers is Keep ==> {
            &&& r.discarded == 0
            &&& end.state.counters == last.state.counters
            &&& end.state.namespaces == last.state.namespaces
            &&& queue::received(end.normal) == queue::received(last.normal)
            &&& queue::received(end.critical) == queue::received(last.critical)
        },
        r.dry ==> end.normal.last() is Empty && end.critical.last() is Empty,
        !r.dry && leftovers is Discard && queue::received(end.normal) - queue::received(last.normal)
            + queue::received(end.critical) - queue::received(last.critical) <= u64::MAX
            ==> r.discarded == queue::received(end.normal) - queue::received(last.normal)
            + queue::received(end.critical) - queue::received(last.critical),
{
    queue::lemma_received_push(last.normal, Answer::Empty);
    queue::lemma_received_push(last.critical, Answer::Empty);
}

/// A pass takes from the critical queue first: what came out of it stands before what came out of the
/// ordinary one, and every record that came out is laid out.
pub proof fn law_a_pass_takes_what_came_out(a: Moment, b: Moment)
    requires
        took_round(a, b),
    ensures
        queue::received(b.critical) + queue::received(b.normal) > queue::received(a.critical)
            + queue::received(a.normal),
        exists|first: Seq<Staged>, second: Seq<Staged>|
            {
                &&& #[trigger] handed_over(a.critical, b.critical, first)
                &&& #[trigger] handed_over(a.normal, b.normal, second)
                &&& queue::received(b.critical) == queue::received(a.critical) + first.len()
                &&& queue::received(b.normal) == queue::received(a.normal) + second.len()
                &&& WriterLoop::applied(&a.state, &b.state, first + second, a.trace, b.trace)
            },
{
    reveal(took_round);
    let (first, second) = choose|first: Seq<Staged>, second: Seq<Staged>|
        {
            &&& #[trigger] handed_over(a.critical, b.critical, first)
            &&& #[trigger] handed_over(a.normal, b.normal, second)
            &&& first.len() + second.len() > 0
            &&& WriterLoop::applied(&a.state, &b.state, first + second, a.trace, b.trace)
            &&& WriterLoop::all_laid_out(&a.state, first + second, a.trace, b.trace)
        };
    lemma_handed_over_is_received(a.critical, b.critical, first);
    lemma_handed_over_is_received(a.normal, b.normal, second);
}

proof fn lemma_handing_over_is_received(pre: Seq<Answer>, items: Seq<Staged>)
    ensures
        queue::received(pre + queue::handing_over(items)) == queue::received(pre) + items.len(),
    decreases items.len(),
{
    let all = queue::handing_over(items);
    if items.len() == 0 {
        assert(pre + all =~= pre);
    } else {
        let rest = items.drop_last();
        lemma_handing_over_is_received(pre, rest);
        assert(pre + all =~= (pre + queue::handing_over(rest)).push(Answer::Item(items.last())));
        queue::lemma_received_push(
            pre + queue::handing_over(rest),
            Answer::Item(items.last()),
        );
    }
}

proof fn lemma_handed_over_is_received(pre: Seq<Answer>, post: Seq<Answer>, items: Seq<Staged>)
    requires
        handed_over(pre, post, items),
    ensures
        queue::received(post) == queue::received(pre) + items.len(),
{
    lemma_handing_over_is_received(pre, items);
    queue::lemma_received_push(pre + queue::handing_over(items), Answer::Empty);
}

} // verus!
