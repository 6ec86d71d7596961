//! The writer's handle: what application threads put records in with.
//!
//! Critical and ordinary records travel on separate queues. On overflow of the
//! ordinary one a record is lost and counted; on overflow of the critical one the
//! caller waits for room.

use crate::error::Error;
use crate::queue::{Handed, Outbox, Returned};
use crate::staged;
use crate::staged::{ChannelIdx, DropCounters, Staged};
use crate::stats;
use crate::stats::Counters;
use crossbeam_channel::Sender;
use vstd::prelude::*;

verus! {

/// The longest wait for room in the critical queue, in milliseconds: waiting
/// forever on a failed medium would hang the application.
pub const BACKPRESSURE_TIMEOUT: u64 = 5_000;

/// The queue capacities.
#[derive(Debug, Clone, Copy, PartialEq, Eq, Structural)]
pub struct QueueSizes {
    /// The ordinary queue: on overflow a record is lost.
    pub normal: usize,
    /// The critical one: on overflow the caller waits for room.
    pub critical: usize,
}

impl Default for QueueSizes {
    fn default() -> (q: QueueSizes)
        ensures
            q == (QueueSizes { normal: 8192, critical: 1024 }),
    {
        QueueSizes { normal: 8192, critical: 1024 }
    }
}

impl QueueSizes {
    /// The capacities with room for at least one record each: without it every
    /// record would be a rendezvous with the writer.
    pub fn sanitized(self) -> (q: QueueSizes)
        ensures
            q.normal == if self.normal == 0 {
                1
            } else {
                self.normal
            },
            q.critical == if self.critical == 0 {
                1
            } else {
                self.critical
            },
    {
        QueueSizes {
            normal: if self.normal == 0 {
                1
            } else {
                self.normal
            },
            critical: if self.critical == 0 {
                1
            } else {
                self.critical
            },
        }
    }
}

/// Why a record was not put in a queue.
#[derive(Debug, Clone, Copy, PartialEq, Eq, Structural)]
pub enum Refusal {
    /// The stop has begun: the queue still accepts, but there is nobody left to
    /// drain it.
    Stopping,
    /// There was no room.
    Full,
    /// The writer is dead.
    Dead,
}

impl Refusal {
    /// The error the caller is told.
    pub open spec fn told(self) -> Error {
        match self {
            Refusal::Stopping => Error::ShuttingDown,
            Refusal::Full => Error::QueueFull,
            Refusal::Dead => Error::WriterDead,
        }
    }

    /// Accounts for the record: in the total always, and in its channel where the
    /// writer is alive to announce it. The channel comes first: the writer looks
    /// for losses to announce when the total moves.
    pub fn account(self, channel: ChannelIdx, drops: &mut DropCounters, counters: &mut Counters) -> (e:
        Error)
        ensures
            e == self.told(),
            *final(counters) == (Counters {
                dropped: stats::plus(old(counters).dropped, 1),
                ..*old(counters)
            }),
            final(drops)@ == if self == Refusal::Dead {
                old(drops)@
            } else {
                staged::with_losses(old(drops)@, channel, 1)
            },
    {
        match self {
            Refusal::Dead => {
                Counters::bump(&mut counters.dropped);
                Error::WriterDead
            },
            Refusal::Stopping => {
                drops.record(channel);
                Counters::publish(&mut counters.dropped);
                Error::ShuttingDown
            },
            Refusal::Full => {
                drops.record(channel);
                Counters::publish(&mut counters.dropped);
                Error::QueueFull
            },
        }
    }
}

/// The outcome of putting a record in, for every answer of the queue.
pub open spec fn outcome_of(back: Result<(), Returned>) -> Result<(), Refusal> {
    match back {
        Ok(u) => Ok(u),
        Err(Returned::Full(_)) => Err(Refusal::Full),
        Err(Returned::Disconnected(_)) => Err(Refusal::Dead),
    }
}

/// The outcome of putting a record in, for every answer of the queue.
pub fn judge(back: Result<(), Returned>) -> (r: Result<(), Refusal>)
    ensures
        r == outcome_of(back),
{
    match back {
        Ok(()) => Ok(()),
        Err(Returned::Full(_)) => Err(Refusal::Full),
        Err(Returned::Disconnected(_)) => Err(Refusal::Dead),
    }
}

/// The sending side of the writer.
pub struct Writer {
    pub normal: Outbox,
    pub critical: Outbox,
}

/// A record was handed to a queue, once and without waiting.
pub open spec fn offered(pre: Seq<Handed>, post: Seq<Handed>, item: Staged) -> bool {
    post == pre.push(Handed::AtOnce { item, back: post.last().back() })
}

/// A record was handed to a queue; and where there was no room at once, handed to
/// it again with the time allotted for waiting.
pub open spec fn offered_patiently(pre: Seq<Handed>, post: Seq<Handed>, item: Staged) -> bool {
    let first = Handed::AtOnce { item, back: post[pre.len() as int].back() };
    if outcome_of(first.back()) == Err::<(), Refusal>(Refusal::Full) {
        post == pre.push(first).push(
            Handed::Within { item, millis: BACKPRESSURE_TIMEOUT, back: post.last().back() },
        )
    } else {
        post == pre.push(first)
    }
}

/// The outcome the last answer of a queue amounts to.
pub open spec fn verdict(post: Seq<Handed>) -> Result<(), Refusal> {
    outcome_of(post.last().back())
}

impl Writer {
    pub fn new(normal: Sender<Staged>, critical: Sender<Staged>) -> (w: Writer)
        ensures
            w.normal.queue == normal,
            w.critical.queue == critical,
            w.normal@ == Seq::<Handed>::empty(),
            w.critical@ == Seq::<Handed>::empty(),
    {
        Writer { normal: Outbox::new(normal), critical: Outbox::new(critical) }
    }

    /// The queues are the same.
    pub open spec fn same_queues(&self, other: &Writer) -> bool {
        self.normal.queue == other.normal.queue && self.critical.queue == other.critical.queue
    }

    /// Puts a record in a queue without waiting.
    pub fn offer(&mut self, item: Staged, critical: bool, stopping: bool) -> (r: Result<
        (),
        Refusal,
    >)
        ensures
            final(self).same_queues(old(self)),
            if stopping {
                r == Err::<(), Refusal>(Refusal::Stopping) && *final(self) == *old(self)
            } else if critical {
                &&& offered(old(self).critical@, final(self).critical@, item)
                &&& final(self).normal == old(self).normal
                &&& r == verdict(final(self).critical@)
            } else {
                &&& offered(old(self).normal@, final(self).normal@, item)
                &&& final(self).critical == old(self).critical
                &&& r == verdict(final(self).normal@)
            },
    {
        if stopping {
            return Err(Refusal::Stopping);
        }
        let back = if critical {
            self.critical.put(item)
        } else {
            self.normal.put(item)
        };
        judge(back)
    }

    /// Puts a critical record in, waiting for room where there is none at once.
    /// The second answer says whether it came to waiting.
    pub fn offer_critical(&mut self, item: Staged, stopping: bool) -> (r: (
        Result<(), Refusal>,
        bool,
    ))
        ensures
            final(self).same_queues(old(self)),
            final(self).normal == old(self).normal,
            if stopping {
                &&& r.0 == Err::<(), Refusal>(Refusal::Stopping)
                &&& !r.1
                &&& *final(self) == *old(self)
            } else {
                &&& offered_patiently(old(self).critical@, final(self).critical@, item)
                &&& r.0 == verdict(final(self).critical@)
                &&& r.1 == (final(self).critical@.len() > old(self).critical@.len() + 1)
            },
    {
        if stopping {
            return (Err(Refusal::Stopping), false);
        }
        match self.critical.put(item) {
            Ok(()) => (Ok(()), false),
            Err(Returned::Disconnected(_)) => (Err(Refusal::Dead), false),
            Err(Returned::Full(item)) => {
                (judge(self.critical.put_within(item, BACKPRESSURE_TIMEOUT)), true)
            },
        }
    }

    /// What is put in, and what the caller is told and the accounts show of it.
    /// On overflow an ordinary record is lost, a critical one waits.
    pub open spec fn wrote(
        pre: Writer,
        post: Writer,
        item: Staged,
        critical: bool,
        stopping: bool,
        r: Result<(), Error>,
        d0: Seq<u64>,
        d1: Seq<u64>,
        c0: Counters,
        c1: Counters,
    ) -> bool {
        &&& post.same_queues(&pre)
        &&& if stopping {
            post == pre && Self::accounted(
                Err(Refusal::Stopping),
                false,
                item.channel,
                r,
                d0,
                d1,
                c0,
                c1,
            )
        } else if critical {
            &&& offered_patiently(pre.critical@, post.critical@, item)
            &&& post.normal == pre.normal
            &&& Self::accounted(
                verdict(post.critical@),
                post.critical@.len() > pre.critical@.len() + 1,
                item.channel,
                r,
                d0,
                d1,
                c0,
                c1,
            )
        } else {
            &&& offered(pre.normal@, post.normal@, item)
            &&& post.critical == pre.critical
            &&& Self::accounted(verdict(post.normal@), false, item.channel, r, d0, d1, c0, c1)
        }
    }

    /// What the caller is told and the accounts show of an outcome.
    pub open spec fn accounted(
        outcome: Result<(), Refusal>,
        waited: bool,
        channel: ChannelIdx,
        r: Result<(), Error>,
        d0: Seq<u64>,
        d1: Seq<u64>,
        c0: Counters,
        c1: Counters,
    ) -> bool {
        let waits = if waited {
            stats::plus(c0.backpressure_waits, 1)
        } else {
            c0.backpressure_waits
        };
        match outcome {
            Ok(_) => r is Ok && d1 == d0 && c1 == (Counters { backpressure_waits: waits, ..c0 }),
            Err(refusal) => {
                &&& r == Err::<(), Error>(refusal.told())
                &&& c1 == (Counters {
                    backpressure_waits: waits,
                    dropped: stats::plus(c0.dropped, 1),
                    ..c0
                })
                &&& d1 == if refusal == Refusal::Dead {
                    d0
                } else {
                    staged::with_losses(d0, channel, 1)
                }
            },
        }
    }

    /// Puts a record in a queue, blocking the caller under no circumstances. A
    /// record that is not taken is counted as lost.
    pub fn write_no_wait(
        &mut self,
        item: Staged,
        critical: bool,
        stopping: bool,
        drops: &mut DropCounters,
        counters: &mut Counters,
    ) -> (r: Result<(), Error>)
        ensures
            final(self).same_queues(old(self)),
            if stopping {
                *final(self) == *old(self)
            } else if critical {
                offered(old(self).critical@, final(self).critical@, item) && final(self).normal
                    == old(self).normal
            } else {
                offered(old(self).normal@, final(self).normal@, item) && final(self).critical
                    == old(self).critical
            },
            Self::accounted(
                if stopping {
                    Err(Refusal::Stopping)
                } else if critical {
                    verdict(final(self).critical@)
                } else {
                    verdict(final(self).normal@)
                },
                false,
                item.channel,
                r,
                old(drops)@,
                final(drops)@,
                *old(counters),
                *final(counters),
            ),
    {
        let channel: ChannelIdx = item.channel;
        match self.offer(item, critical, stopping) {
            Ok(()) => Ok(()),
            Err(refusal) => Err(refusal.account(channel, drops, counters)),
        }
    }

    /// Puts a critical record in its queue, waiting for room. A record that is not
    /// taken in time is counted as lost.
    pub fn write_critical(
        &mut self,
        item: Staged,
        stopping: bool,
        drops: &mut DropCounters,
        counters: &mut Counters,
    ) -> (r: Result<(), Error>)
        ensures
            Self::wrote(
                *old(self),
                *final(self),
                item,
                true,
                stopping,
                r,
                old(drops)@,
                final(drops)@,
                *old(counters),
                *final(counters),
            ),
    {
        let channel: ChannelIdx = item.channel;
        let (put, waited) = self.offer_critical(item, stopping);
        if waited {
            Counters::bump(&mut counters.backpressure_waits);
        }
        match put {
            Ok(()) => Ok(()),
            Err(refusal) => Err(refusal.account(channel, drops, counters)),
        }
    }

    /// Puts a record in the queue of its kind: on overflow an ordinary one is
    /// lost, a critical one waits.
    pub fn write(
        &mut self,
        item: Staged,
        critical: bool,
        stopping: bool,
        drops: &mut DropCounters,
        counters: &mut Counters,
    ) -> (r: Result<(), Error>)
        ensures
            Self::wrote(
                *old(self),
                *final(self),
                item,
                critical,
                stopping,
                r,
                old(drops)@,
                final(drops)@,
                *old(counters),
                *final(counters),
            ),
    {
        if critical {
            self.write_critical(item, stopping, drops, counters)
        } else {
            self.write_no_wait(item, false, stopping, drops, counters)
        }
    }
}

/// A record is lost exactly where the caller is told so, and each loss is counted
/// once: the total moves by one on an error and stands still otherwise.
pub proof fn law_a_refusal_is_a_counted_loss(
    pre: Writer,
    post: Writer,
    item: Staged,
    critical: bool,
    stopping: bool,
    r: Result<(), Error>,
    d0: Seq<u64>,
    d1: Seq<u64>,
    c0: Counters,
    c1: Counters,
)
    requires
        Writer::wrote(pre, post, item, critical, stopping, r, d0, d1, c0, c1),
    ensures
        r matches Err(e) ==> e.is_loss() && c1.dropped == stats::plus(c0.dropped, 1),
        r is Ok ==> c1.dropped == c0.dropped && d1 == d0,
        stopping ==> r == Err::<(), Error>(Error::ShuttingDown),
        !critical ==> c1.backpressure_waits == c0.backpressure_waits,
{
}

/// A record that its queue takes is never lost, and one is lost only where its queue did not take
/// it. An ordinary record is offered once and never waits; a critical one that finds no room is
/// offered again, with time to wait, and the answer to that is what counts. Neither touches the
/// other's queue.
pub proof fn law_a_record_is_lost_only_where_its_queue_refused(
    pre: Writer,
    post: Writer,
    item: Staged,
    critical: bool,
    r: Result<(), Error>,
    d0: Seq<u64>,
    d1: Seq<u64>,
    c0: Counters,
    c1: Counters,
)
    requires
        Writer::wrote(pre, post, item, critical, false, r, d0, d1, c0, c1),
    ensures
        ({
            let a = if critical {
                pre.critical@
            } else {
                pre.normal@
            };
            let b = if critical {
                post.critical@
            } else {
                post.normal@
            };
            &&& a.len() < b.len() && b.take(a.len() as int) == a
            &&& b[a.len() as int] matches Handed::AtOnce { item: offered, .. } && offered == item
            &&& r is Ok <==> b.last().back() is Ok
            &&& r == Err::<(), Error>(Error::QueueFull) <==> (b.last().back() matches Err(
                Returned::Full(_),
            ))
            &&& r == Err::<(), Error>(Error::WriterDead) <==> (b.last().back() matches Err(
                Returned::Disconnected(_),
            ))
            &&& !critical ==> b.len() == a.len() + 1 && post.critical == pre.critical
            &&& critical ==> {
                &&& post.normal == pre.normal
                &&& b.len() == a.len() + 2 <==> (b[a.len() as int].back() matches Err(
                    Returned::Full(_),
                ))
                &&& b.len() == a.len() + 2 || b.len() == a.len() + 1
                &&& b.len() == a.len() + 2 ==> (b.last() matches Handed::Within {
                    item: again,
                    millis,
                    ..
                } && again == item && millis == 5_000)
            }
            &&& c1.backpressure_waits == stats::plus(c0.backpressure_waits, b.len() - a.len() - 1)
        }),
        r is Err && r != Err::<(), Error>(Error::WriterDead) && (item.channel.0 as int) < d0.len()
            ==> d1 == d0.update(
            item.channel.0 as int,
            stats::plus(d0[item.channel.0 as int], 1),
        ),
{
    let a = if critical {
        pre.critical@
    } else {
        pre.normal@
    };
    let b = if critical {
        post.critical@
    } else {
        post.normal@
    };
    stats::lemma_plus_nothing(c0.backpressure_waits);
    assert(b.take(a.len() as int) =~= a);
}

} // verus!
