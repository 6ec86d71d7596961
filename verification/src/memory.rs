//! The ceiling on the memory that blocks are assembled in.
//!
//! It is honoured between turns of the loop rather than on every record: one
//! record can inflate a buffer past any ceiling, and discarding it would mean
//! losing data where memory is merely inconvenient. A ceiling that cannot be met
//! is counted.

use crate::channel_state::ChannelState;
use crate::error::Error;
use crate::fleet;
use crate::medium;
use crate::medium::{Io, Medium, Op, Place};
use crate::stats;
use crate::stats::Counters;
use crate::writer_loop::WriterLoop;
use vstd::prelude::*;

verus! {

broadcast use {
    crate::medium::group_trace,
    crate::medium::group_synced,
    crate::fleet::lemma_honest_on,
};

/// What a channel holds for its blocks.
#[derive(Debug, Clone, Copy, PartialEq, Eq, Structural)]
pub struct Holding {
    pub ns: usize,
    pub channel: usize,
    pub bytes: u64,
}

/// The largest first.
pub open spec fn largest_first(s: Seq<Holding>) -> bool {
    forall|i: int, j: int|
        0 <= i <= j < s.len() ==> (#[trigger] s[i]).bytes >= (#[trigger] s[j]).bytes
}

/// Puts the largest first.
pub fn sort_holdings(v: &mut Vec<Holding>)
    ensures
        largest_first(final(v)@),
        final(v)@.to_multiset() == old(v)@.to_multiset(),
{
    let n: usize = v.len();
    let ghost start = v@;
    let mut i: usize = 0;
    while i < n
        invariant
            i <= n,
            n == v@.len(),
            v@.to_multiset() == start.to_multiset(),
            forall|a: int, b: int|
                0 <= a <= b < i ==> (#[trigger] v@[a]).bytes >= (#[trigger] v@[b]).bytes,
        decreases n - i,
    {
        let ghost before = v@;
        let mut k: usize = i;
        while k > 0 && v[k - 1].bytes < v[i].bytes
            invariant
                i < n,
                k <= i,
                n == v@.len(),
                v@ == before,
                forall|a: int| k <= a < i ==> (#[trigger] v@[a]).bytes < v@[i as int].bytes,
            decreases k,
        {
            k = k - 1;
        }
        let item: Holding = v.remove(i);
        let ghost without = v@;
        v.insert(k, item);
        proof {
            let after = v@;
            assert(without == before.remove(i as int));
            assert(after == without.insert(k as int, item));
            before.to_multiset_ensures();
            without.to_multiset_ensures();
            after.to_multiset_ensures();
            assert(before.to_multiset() =~= without.to_multiset().insert(item));
            assert(after.remove(k as int) =~= without);
            assert(after[k as int] == item);
            assert(after.to_multiset().remove(item) =~= without.to_multiset());
            assert(after.contains(item));
            assert(after.to_multiset() =~= without.to_multiset().insert(item));
            assert forall|a: int, b: int| 0 <= a <= b < i + 1 implies (#[trigger] after[a]).bytes
                >= (#[trigger] after[b]).bytes by {
                let x = if a < k {
                    a
                } else if a == k {
                    i as int
                } else {
                    a - 1
                };
                let y = if b < k {
                    b
                } else if b == k {
                    i as int
                } else {
                    b - 1
                };
                assert(after[a] == before[x]);
                assert(after[b] == before[y]);
                if a < k && k > 0 {
                    assert(before[a].bytes >= before[k - 1].bytes);
                }
            }
        }
        i = i + 1;
    }
}

impl WriterLoop {
    /// Where the channel at an address lies, whether it has a segment, and how
    /// many records are in its block.
    fn load_at(&self, i: usize, j: usize) -> (r: (Place, bool, u32))
        requires
            fleet::has_channel(self.namespaces@, i as int, j as int),
        ensures
            r.0 == self.at(i as int, j as int).place,
            r.1 == self.at(i as int, j as int).segment is Some,
            r.2 == self.at(i as int, j as int).block.count,
    {
        match &self.namespaces[i] {
            Some(ns) => {
                let ch = &ns.channels[j];
                (ch.place, ch.segment.is_some(), ch.block.count)
            },
            None => (
                Place {
                    ns: crate::staged::NsId(0),
                    channel: crate::staged::ChannelIdx(0),
                    staging: false,
                },
                false,
                0,
            ),
        }
    }

    /// What the channels in the list hold, and in all.
    fn holdings<M: Medium>(&self, io: &mut Io<M>) -> (r: (Vec<Holding>, u64))
        ensures
            self.lists_holdings(r.0@, self.active@.len() as int),
            r.1 == in_all(r.0@),
            final(io)@ == self.asked(old(io)@, r.0@),
            medium::quiet(old(io)@, final(io)@),
    {
        let ghost t0 = io@;
        let mut out: Vec<Holding> = Vec::new();
        let mut total: u64 = 0;
        let mut k: usize = 0;
        assert(self.asked(t0, out@) =~= t0);
        assert(addresses(out@) =~= self.active@.take(0).filter(self.present()));
        while k < self.active.len()
            invariant
                k <= self.active@.len(),
                self.lists_holdings(out@, k as int),
                total == in_all(out@),
                io@ == self.asked(t0, out@),
                medium::quiet(t0, io@),
            decreases self.active@.len() - k,
        {
            let (i, j) = self.active[k];
            let ghost had = out@;
            proof {
                assert(self.active@.take(k + 1).drop_last() =~= self.active@.take(k as int));
                assert(self.active@.take(k + 1).last() == (i, j));
                reveal(Seq::filter);
            }
            if self.has(i, j) {
                let (place, _, _) = self.load_at(i, j);
                let bytes: u64 = io.held_bytes(place);
                total = total.saturating_add(bytes);
                out.push(Holding { ns: i, channel: j, bytes });
                proof {
                    assert(out@.drop_last() =~= had);
                    assert(addresses(out@) =~= addresses(had).push((i, j)));
                    assert(self.asked(t0, out@) =~= self.asked(t0, had).push(
                        Op::Held { place, bytes },
                    ));
                }
            }
            k = k + 1;
        }
        assert(self.active@.take(k as int) =~= self.active@);
        (out, total)
    }

    /// There is a channel at an address.
    pub open spec fn present(&self) -> spec_fn((usize, usize)) -> bool {
        |a: (usize, usize)| fleet::has_channel(self.namespaces@, a.0 as int, a.1 as int)
    }

    /// The holdings are those of the first `n` listed channels, in the order of
    /// the list.
    pub open spec fn lists_holdings(&self, sizes: Seq<Holding>, n: int) -> bool {
        addresses(sizes) == self.active@.take(n).filter(self.present())
    }

    /// The medium was asked what each of them holds.
    pub open spec fn asked(&self, trace: Seq<Op>, sizes: Seq<Holding>) -> Seq<Op> {
        trace + Seq::new(
            sizes.len(),
            |k: int|
                Op::Held {
                    place: self.at(sizes[k].ns as int, sizes[k].channel as int).place,
                    bytes: sizes[k].bytes,
                },
        )
    }

    /// A loaded channel without a segment, which has nowhere to flush to.
    pub open spec fn stuck(&self, i: int, j: int) -> bool {
        self.at(i, j).segment is None && self.at(i, j).block.count > 0
    }

    /// Memory is not paid for with records: a channel that has nowhere to flush to
    /// is left alone, and the others are left alone or flushed.
    pub open spec fn only_flushed(before: &WriterLoop, after: &WriterLoop) -> bool {
        forall|i: int, j: int|
            #![trigger after.at(i, j)]
            fleet::has_channel(before.namespaces@, i, j) ==> {
                let b = before.at(i, j);
                let a = after.at(i, j);
                &&& before.stuck(i, j) ==> a == b
                &&& a == b || a.block.count == 0 && a.buffers_released
            }
    }

    /// The largest holders were gone through as long as the ceiling was exceeded:
    /// those that can be flushed were, gave their buffers back, and the medium
    /// said what they still hold.
    pub open spec fn gone_through(
        before: &WriterLoop,
        after: &WriterLoop,
        order: Seq<Holding>,
        left: Seq<Option<u64>>,
        ceiling: u64,
    ) -> bool {
        &&& left.len() <= order.len()
        &&& forall|k: int| 0 <= k < left.len() ==> held_after(order, left, k) > ceiling
        &&& forall|k: int|
            0 <= k < left.len() ==> {
                let i = (#[trigger] order[k]).ns as int;
                let j = order[k].channel as int;
                &&& left[k] is None == before.stuck(i, j)
                &&& left[k] is Some ==> after.at(i, j).block.count == 0 && after.at(
                    i,
                    j,
                ).buffers_released
            }
    }

    /// A channel was flushed and gave its buffers back, and the medium said what it still
    /// holds.
    #[verifier::opaque]
    pub open spec fn gave_back(
        before: &WriterLoop,
        after: &WriterLoop,
        i: int,
        j: int,
        holds: u64,
        t0: Seq<Op>,
        t1: Seq<Op>,
    ) -> bool {
        let place = before.at(i, j).place;
        exists|mid: WriterLoop, told: WriterLoop, t: Seq<Op>, r: Result<(), Error>|
            {
                &&& #[trigger] Self::flushed_at(before, &mid, i, j, t0, t, r)
                &&& #[trigger] Self::noted(&mid, &told, i, j, r)
                &&& Self::stepped(&told, after, i, j)
                &&& after.counters == told.counters
                &&& after.at(i, j) == (ChannelState { buffers_released: true, ..told.at(i, j) })
                &&& t1 == t.push(Op::ReleaseBuffers { place }).push(
                    Op::Held { place, bytes: holds },
                )
            }
    }

    /// Holders were gone through one after another: one that has nowhere to flush to was
    /// left alone, the others gave back what they could.
    #[verifier::opaque]
    pub open spec fn gave_back_in_turn(
        order: Seq<Holding>,
        left: Seq<Option<u64>>,
        states: Seq<WriterLoop>,
        traces: Seq<Seq<Op>>,
    ) -> bool {
        &&& left.len() <= order.len()
        &&& states.len() == left.len() + 1
        &&& traces.len() == left.len() + 1
        &&& forall|k: int|
            #![trigger states[k]]
            0 <= k < left.len() ==> Self::gave_back_or_not(
                &states[k],
                &states[k + 1],
                order[k],
                left[k],
                traces[k],
                traces[k + 1],
            )
    }

    /// One holder was gone through.
    pub open spec fn gave_back_or_not(
        before: &WriterLoop,
        after: &WriterLoop,
        holder: Holding,
        holds: Option<u64>,
        t0: Seq<Op>,
        t1: Seq<Op>,
    ) -> bool {
        let (i, j) = (holder.ns as int, holder.channel as int);
        match holds {
            None => before.stuck(i, j) && *after == *before && t1 == t0,
            Some(bytes) => !before.stuck(i, j) && Self::gave_back(
                before,
                after,
                i,
                j,
                bytes,
                t0,
                t1,
            ),
        }
    }

    proof fn lemma_gave_back_on(
        order: Seq<Holding>,
        left: Seq<Option<u64>>,
        states: Seq<WriterLoop>,
        traces: Seq<Seq<Op>>,
        holds: Option<u64>,
        next: WriterLoop,
        trace: Seq<Op>,
    )
        requires
            Self::gave_back_in_turn(order, left, states, traces),
            left.len() < order.len(),
            Self::gave_back_or_not(
                &states.last(),
                &next,
                order[left.len() as int],
                holds,
                traces.last(),
                trace,
            ),
        ensures
            Self::gave_back_in_turn(
                order,
                left.push(holds),
                states.push(next),
                traces.push(trace),
            ),
            states.push(next)[0] == states[0],
            traces.push(trace)[0] == traces[0],
    {
        reveal(WriterLoop::gave_back_in_turn);
        let l = left.push(holds);
        let s = states.push(next);
        let t = traces.push(trace);
        assert forall|k: int| #![trigger s[k]] 0 <= k < l.len() implies Self::gave_back_or_not(
            &s[k],
            &s[k + 1],
            order[k],
            l[k],
            t[k],
            t[k + 1],
        ) by {
            assert(s[k] == states[k] && t[k] == traces[k]);
            if k < left.len() {
                assert(l[k] == left[k]);
                assert(s[k + 1] == states[k + 1] && t[k + 1] == traces[k + 1]);
            }
        }
    }

    /// Without a ceiling, or under it, nothing is touched; over it the largest
    /// holders give way, and a ceiling that is still exceeded is counted.
    pub open spec fn relieved(
        before: &WriterLoop,
        after: &WriterLoop,
        over: bool,
        t0: Seq<Op>,
        t1: Seq<Op>,
    ) -> bool {
        &&& Self::only_flushed(before, after)
        &&& after.counters.buffer_overruns == stats::plus(
            before.counters.buffer_overruns,
            if over {
                1
            } else {
                0
            },
        )
        &&& match before.buffer_ceiling {
            None => !over && *after == *before && t1 == t0,
            Some(ceiling) => exists|sizes: Seq<Holding>|
                {
                    &&& #[trigger] before.lists_holdings(sizes, before.active@.len() as int)
                    &&& if in_all(sizes) <= ceiling {
                        !over && *after == *before && t1 == before.asked(t0, sizes)
                    } else {
                        exists|
                            order: Seq<Holding>,
                            left: Seq<Option<u64>>,
                            states: Seq<WriterLoop>,
                            traces: Seq<Seq<Op>>,
                        |
                            {
                                &&& #[trigger] Self::gave_back_in_turn(
                                    order,
                                    left,
                                    states,
                                    traces,
                                )
                                &&& states[0] == *before
                                &&& traces[0] == before.asked(t0, sizes)
                                &&& traces.last() == t1
                                &&& *after == (WriterLoop {
                                    counters: Counters {
                                        buffer_overruns: after.counters.buffer_overruns,
                                        ..states.last().counters
                                    },
                                    ..states.last()
                                })
                                &&& #[trigger] Self::gone_through(
                                    before,
                                    after,
                                    order,
                                    left,
                                    ceiling,
                                )
                                &&& largest_first(order)
                                &&& order.to_multiset() == sizes.to_multiset()
                                &&& in_all(order) == in_all(sizes)
                                &&& over == (held_after(order, left, left.len() as int) > ceiling)
                                &&& over ==> left.len() == order.len()
                            }
                    }
                },
        }
    }

    /// Flushes a channel and gives its buffers back. The answer is what it still holds.
    fn give_back_at<M: Medium>(&mut self, i: usize, j: usize, place: Place, io: &mut Io<M>) -> (
    holds: u64)
        requires
            old(self).wf(),
            old(self).balanced(old(io)@),
            fleet::has_channel(old(self).namespaces@, i as int, j as int),
            place == old(self).at(i as int, j as int).place,
        ensures
            final(self).wf(),
            final(self).balanced(final(io)@),
            final(self).same_setup(old(self)),
            final(self).active@ == old(self).active@,
            final(self).batch@ == old(self).batch@,
            final(self).drops_seen == old(self).drops_seen,
            final(self).occupancy_seen == old(self).occupancy_seen,
            final(self).taken@ == old(self).taken@,
            final(self).counters.buffer_overruns == old(self).counters.buffer_overruns,
            fleet::one_channel_changed(
                old(self).namespaces@,
                final(self).namespaces@,
                i as int,
                j as int,
            ),
            fleet::same_fleet(old(self).namespaces@, final(self).namespaces@),
            medium::no_input(old(io)@, final(io)@),
            final(self).at(i as int, j as int).block.count == 0,
            final(self).at(i as int, j as int).buffers_released,
            Self::gave_back(
                old(self),
                final(self),
                i as int,
                j as int,
                holds,
                old(io)@,
                final(io)@,
            ),
    {
        let ghost before = *self;
        let ghost t0 = io@;
        let done = self.flush_at(i, j, io);
        let ghost mid = *self;
        let ghost outcome = done;
        let ghost t = io@;
        match done {
            Ok(()) => {},
            Err(e) => {
                self.note_error(i, j, &e);
            },
        }
        let ghost told = *self;
        self.release_at(i, j, io);
        let holds: u64 = io.held_bytes(place);
        proof {
            reveal(WriterLoop::gave_back);
            assert(Self::flushed_at(&before, &mid, i as int, j as int, t0, t, outcome));
            assert(Self::noted(&mid, &told, i as int, j as int, outcome));
            fleet::lemma_same_fleet_trans(
                before.namespaces@,
                told.namespaces@,
                self.namespaces@,
            );
        }
        holds
    }

    /// Brings the block buffers back under the ceiling, the largest first: the
    /// block is flushed, then the buffers are given back. The answer says whether
    /// the ceiling could not be met.
    pub fn enforce_memory<M: Medium>(&mut self, io: &mut Io<M>) -> (over: bool)
        requires
            old(self).wf(),
            old(self).balanced(old(io)@),
        ensures
            final(self).wf(),
            final(self).balanced(final(io)@),
            final(self).same_setup(old(self)),
            final(self).active@ == old(self).active@,
            final(self).batch@ == old(self).batch@,
            final(self).drops_seen == old(self).drops_seen,
            final(self).occupancy_seen == old(self).occupancy_seen,
            final(self).taken@ == old(self).taken@,
            fleet::same_fleet(old(self).namespaces@, final(self).namespaces@),
            medium::no_input(old(io)@, final(io)@),
            Self::relieved(old(self), final(self), over, old(io)@, final(io)@),
    {
        let ghost before = *self;
        let ghost t0 = io@;
        proof {
            fleet::lemma_same_fleet_refl(self.namespaces@);
            stats::lemma_plus_nothing(self.counters.buffer_overruns);
        }
        let ceiling: u64 = match self.buffer_ceiling {
            None => {
                return false;
            },
            Some(c) => c,
        };
        let (mut sizes, held) = self.holdings(io);
        let mut held: u64 = held;
        let ghost found = sizes@;
        if held <= ceiling {
            return false;
        }
        sort_holdings(&mut sizes);
        let ghost order = sizes@;
        let ghost mut left: Seq<Option<u64>> = Seq::empty();
        let ghost mut states: Seq<WriterLoop> = seq![*self];
        let ghost mut traces: Seq<Seq<Op>> = seq![io@];
        let ghost asked = io@;
        proof {
            reveal(WriterLoop::gave_back_in_turn);
            lemma_in_all(found, order);
            assert forall|m: int| 0 <= m < order.len() implies fleet::has_channel(
                before.namespaces@,
                (#[trigger] order[m]).ns as int,
                order[m].channel as int,
            ) by {
                lemma_listed(&before, found, order, m);
            }
        }
        let mut k: usize = 0;
        while k < sizes.len() && held > ceiling
            invariant
                k <= sizes@.len(),
                sizes@ == order,
                left.len() == k,
                Self::gave_back_in_turn(order, left, states, traces),
                states[0] == before,
                states.last() == *self,
                traces[0] == asked,
                traces.last() == io@,
                held == held_after(order, left, k as int),
                forall|m: int|
                    0 <= m < order.len() ==> fleet::has_channel(
                        before.namespaces@,
                        (#[trigger] order[m]).ns as int,
                        order[m].channel as int,
                    ),
                self.wf(),
                self.balanced(io@),
                self.same_setup(&before),
                self.active@ == before.active@,
                self.batch@ == before.batch@,
                self.drops_seen == before.drops_seen,
                self.occupancy_seen == before.occupancy_seen,
                self.taken@ == before.taken@,
                self.counters.buffer_overruns == before.counters.buffer_overruns,
                fleet::same_fleet(before.namespaces@, self.namespaces@),
                medium::no_input(t0, io@),
                Self::only_flushed(&before, self),
                Self::gone_through(&before, self, order, left, ceiling),
            decreases sizes@.len() - k,
        {
            let Holding { ns: i, channel: j, bytes: was } = sizes[k];
            let ghost had = left;
            let ghost mid = *self;
            let ghost t1 = io@;
            assert(order[k as int].ns == i && order[k as int].channel == j);
            assert(before.namespaces@[i as int] is Some);
            assert(fleet::has_channel(self.namespaces@, i as int, j as int));
            let (place, has_segment, count) = self.load_at(i, j);
            if has_segment || count == 0 {
                let now_held: u64 = self.give_back_at(i, j, place, io);
                held = held.saturating_sub(was.saturating_sub(now_held));
                proof {
                    Self::lemma_gave_back_on(
                        order,
                        left,
                        states,
                        traces,
                        Some(now_held),
                        *self,
                        io@,
                    );
                    states = states.push(*self);
                    traces = traces.push(io@);
                    left = left.push(Some(now_held));
                    fleet::lemma_same_fleet_trans(
                        before.namespaces@,
                        mid.namespaces@,
                        self.namespaces@,
                    );
                    fleet::lemma_one_channel(mid.namespaces@, self.namespaces@, i as int, j as int);
                }
            } else {
                proof {
                    Self::lemma_gave_back_on(order, left, states, traces, None, *self, io@);
                    states = states.push(*self);
                    traces = traces.push(io@);
                    left = left.push(None);
                }
            }
            proof {
                assert forall|a: int, b: int|
                    #![trigger self.at(a, b)]
                    fleet::has_channel(before.namespaces@, a, b) implies {
                    let x = before.at(a, b);
                    let y = self.at(a, b);
                    &&& before.stuck(a, b) ==> y == x
                    &&& y == x || y.block.count == 0 && y.buffers_released
                } by {
                    let _ = mid.at(a, b);
                    assert(mid.namespaces@[a] == mid.namespaces@[a]);
                    assert(fleet::has_channel(mid.namespaces@, a, b));
                    if a != i || b != j {
                        assert(fleet::channel_at(self.namespaces@, a, b) == fleet::channel_at(
                            mid.namespaces@,
                            a,
                            b,
                        ));
                    }
                }
                assert(had =~= left.take(had.len() as int));
                lemma_held_after(order, had, left, k as int);
                assert forall|m: int| 0 <= m < left.len() implies held_after(order, left, m)
                    > ceiling by {
                    lemma_held_after(order, had, left, m);
                }
                assert forall|m: int| 0 <= m < left.len() implies {
                    let a = (#[trigger] order[m]).ns as int;
                    let b = order[m].channel as int;
                    &&& left[m] is None == before.stuck(a, b)
                    &&& left[m] is Some ==> self.at(a, b).block.count == 0 && self.at(
                        a,
                        b,
                    ).buffers_released
                } by {
                    let a = order[m].ns as int;
                    let b = order[m].channel as int;
                    if m < had.len() {
                        assert(left[m] == had[m]);
                    }
                    let _ = mid.at(a, b);
                    let _ = self.at(a, b);
                    assert(before.namespaces@[a] is Some);
                    assert(fleet::has_channel(mid.namespaces@, a, b));
                    if a != i || b != j {
                        assert(fleet::channel_at(self.namespaces@, a, b) == fleet::channel_at(
                            mid.namespaces@,
                            a,
                            b,
                        ));
                    }
                }
            }
            k = k + 1;
        }
        let over: bool = held > ceiling;
        let ghost last = *self;
        if over {
            Counters::bump(&mut self.counters.buffer_overruns);
        }
        proof {
            assert forall|a: int, b: int| #[trigger] self.at(a, b) == last.at(a, b) by {}
            assert(before.lists_holdings(found, before.active@.len() as int));
            assert(Self::gone_through(&before, self, order, left, ceiling));
            assert(Self::gave_back_in_turn(order, left, states, traces));
        }
        over
    }
}

/// The addresses of holdings.
pub open spec fn addresses(sizes: Seq<Holding>) -> Seq<(usize, usize)> {
    Seq::new(sizes.len(), |k: int| (sizes[k].ns, sizes[k].channel))
}

/// Holdings in all.
pub open spec fn in_all(sizes: Seq<Holding>) -> u64
    decreases sizes.len(),
{
    if sizes.len() == 0 {
        0
    } else {
        let sum = in_all(sizes.drop_last()) + sizes.last().bytes;
        if sum <= u64::MAX {
            sum as u64
        } else {
            u64::MAX
        }
    }
}

/// What is still held after the first `k` holders, by what was measured of each
/// before and after.
pub open spec fn held_after(order: Seq<Holding>, left: Seq<Option<u64>>, k: int) -> u64
    decreases k,
{
    if k <= 0 {
        in_all(order)
    } else {
        let before = held_after(order, left, k - 1);
        match left[k - 1] {
            None => before,
            Some(now) => {
                let freed = if order[k - 1].bytes >= now {
                    order[k - 1].bytes - now
                } else {
                    0
                };
                if before >= freed {
                    (before - freed) as u64
                } else {
                    0
                }
            },
        }
    }
}

proof fn lemma_held_after(order: Seq<Holding>, a: Seq<Option<u64>>, b: Seq<Option<u64>>, k: int)
    requires
        0 <= k <= a.len(),
        a.len() <= b.len(),
        a == b.take(a.len() as int),
    ensures
        held_after(order, a, k) == held_after(order, b, k),
    decreases k,
{
    if k > 0 {
        lemma_held_after(order, a, b, k - 1);
        assert(a[k - 1] == b[k - 1]);
    }
}

/// The sum of holdings, without a limit.
spec fn sum_of(sizes: Seq<Holding>) -> int
    decreases sizes.len(),
{
    if sizes.len() == 0 {
        0
    } else {
        sum_of(sizes.drop_last()) + sizes.last().bytes
    }
}

proof fn lemma_in_all_is_the_sum(sizes: Seq<Holding>)
    ensures
        sum_of(sizes) >= 0,
        in_all(sizes) == if sum_of(sizes) <= u64::MAX {
            sum_of(sizes)
        } else {
            u64::MAX as int
        },
    decreases sizes.len(),
{
    if sizes.len() > 0 {
        lemma_in_all_is_the_sum(sizes.drop_last());
    }
}

proof fn lemma_sum_without(sizes: Seq<Holding>, i: int)
    requires
        0 <= i < sizes.len(),
    ensures
        sum_of(sizes.remove(i)) == sum_of(sizes) - sizes[i].bytes,
    decreases sizes.len(),
{
    if i == sizes.len() - 1 {
        assert(sizes.remove(i) =~= sizes.drop_last());
    } else {
        assert(sizes.remove(i).drop_last() =~= sizes.drop_last().remove(i));
        assert(sizes.remove(i).last() == sizes.last());
        lemma_sum_without(sizes.drop_last(), i);
    }
}

proof fn lemma_same_sum(a: Seq<Holding>, b: Seq<Holding>)
    requires
        a.to_multiset() == b.to_multiset(),
    ensures
        sum_of(a) == sum_of(b),
    decreases a.len(),
{
    a.to_multiset_ensures();
    b.to_multiset_ensures();
    assert(a.len() == b.len());
    if a.len() > 0 {
        let x = a.last();
        assert(a.contains(x));
        assert(b.to_multiset().count(x) > 0);
        assert(b.contains(x));
        let i = b.index_of(x);
        lemma_sum_without(b, i);
        lemma_sum_without(a, a.len() - 1);
        assert(a.remove(a.len() - 1) =~= a.drop_last());
        b.remove(i).to_multiset_ensures();
        a.drop_last().to_multiset_ensures();
        assert(b.remove(i).to_multiset() =~= b.to_multiset().remove(x));
        assert(a.drop_last().to_multiset() =~= a.to_multiset().remove(x));
        lemma_same_sum(a.drop_last(), b.remove(i));
    }
}

proof fn lemma_in_all(a: Seq<Holding>, b: Seq<Holding>)
    requires
        a.to_multiset() == b.to_multiset(),
    ensures
        in_all(a) == in_all(b),
{
    lemma_same_sum(a, b);
    lemma_in_all_is_the_sum(a);
    lemma_in_all_is_the_sum(b);
}

proof fn lemma_listed(w: &WriterLoop, found: Seq<Holding>, order: Seq<Holding>, m: int)
    requires
        w.lists_holdings(found, w.active@.len() as int),
        order.to_multiset() == found.to_multiset(),
        0 <= m < order.len(),
    ensures
        fleet::has_channel(w.namespaces@, order[m].ns as int, order[m].channel as int),
{
    order.to_multiset_ensures();
    found.to_multiset_ensures();
    assert(order.contains(order[m]));
    assert(found.to_multiset().count(order[m]) > 0);
    assert(found.contains(order[m]));
    let i = found.index_of(order[m]);
    let kept = w.active@.take(w.active@.len() as int);
    assert(addresses(found)[i] == kept.filter(w.present())[i]);
    kept.lemma_filter_pred(w.present(), i);
}

/// What is held in all is the sum of the holdings, as far as the number can say; and of a holder that
/// gave some of it back, just that much less is held.
pub proof fn law_what_is_held_is_added_up(
    order: Seq<Holding>,
    more: Holding,
    left: Seq<Option<u64>>,
    k: int,
)
    ensures
        in_all(Seq::empty()) == 0,
        in_all(order) + more.bytes <= u64::MAX ==> in_all(order.push(more)) == in_all(order)
            + more.bytes,
        held_after(order, left, 0) == in_all(order),
        0 <= k < left.len() ==> match left[k] {
            None => held_after(order, left, k + 1) == held_after(order, left, k),
            Some(now) => now <= order[k].bytes <= held_after(order, left, k) ==> held_after(
                order,
                left,
                k + 1,
            ) + order[k].bytes == held_after(order, left, k) + now,
        },
{
    assert(order.push(more).drop_last() =~= order);
}

/// Memory is taken from the largest holders first, and from no more of them than it takes: whoever
/// was gone through held at least as much as whoever was not, and the ceiling was exceeded until then.
/// No record is paid for it: a loaded channel that has nowhere to flush to keeps its block.
pub proof fn law_memory_is_taken_from_the_largest_first(
    before: &WriterLoop,
    after: &WriterLoop,
    order: Seq<Holding>,
    left: Seq<Option<u64>>,
    ceiling: u64,
    k: int,
    m: int,
)
    requires
        largest_first(order),
        WriterLoop::gone_through(before, after, order, left, ceiling),
        WriterLoop::only_flushed(before, after),
        0 <= k < left.len() <= m < order.len(),
        fleet::has_channel(before.namespaces@, order[k].ns as int, order[k].channel as int),
    ensures
        order[k].bytes >= order[m].bytes,
        held_after(order, left, k) > ceiling,
        ({
            let b = before.at(order[k].ns as int, order[k].channel as int);
            let a = after.at(order[k].ns as int, order[k].channel as int);
            if b.segment is None && b.block.count > 0 {
                left[k] is None && a == b
            } else {
                left[k] is Some && a.block.count == 0 && a.buffers_released
            }
        }),
{
    let _ = after.at(order[k].ns as int, order[k].channel as int);
    assert(order[k].bytes >= order[m].bytes);
}

} // verus!
