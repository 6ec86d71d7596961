//! What a write goes through: the queues, the sign of a stop, and the accounts.

use crate::error::Error;
use crate::queue::Handed;
use crate::staged::{DropCounters, Staged};
use crate::stats::Counters;
use crate::writer::{offered, verdict, Refusal, Writer};
use vstd::prelude::*;

verus! {

/// The desk records are handed in at.
pub struct Desk {
    pub writer: Writer,
    /// The stop has begun: nothing is accepted any more.
    pub stopping: bool,
    /// Losses by channel, to be announced.
    pub drops: DropCounters,
    pub counters: Counters,
}

impl Desk {
    pub fn new(writer: Writer, channels: usize) -> (d: Desk)
        ensures
            d.writer == writer,
            !d.stopping,
            d.drops@ == Seq::new(channels as nat, |k: int| 0u64),
            d.counters == Counters::zero(),
    {
        Desk {
            writer,
            stopping: false,
            drops: DropCounters::new(channels),
            counters: Counters::default(),
        }
    }

    /// A record was handed in, and the accounts show how it ended.
    pub open spec fn wrote(
        before: Desk,
        after: Desk,
        item: Staged,
        critical: bool,
        r: Result<(), Error>,
    ) -> bool {
        &&& after.stopping == before.stopping
        &&& Writer::wrote(
            before.writer,
            after.writer,
            item,
            critical,
            before.stopping,
            r,
            before.drops@,
            after.drops@,
            before.counters,
            after.counters,
        )
    }

    /// A record was handed in without waiting for room, whatever its kind.
    pub open spec fn wrote_at_once(
        before: Desk,
        after: Desk,
        item: Staged,
        critical: bool,
        r: Result<(), Error>,
    ) -> bool {
        &&& after.stopping == before.stopping
        &&& after.writer.same_queues(&before.writer)
        &&& if before.stopping {
            after.writer == before.writer
        } else if critical {
            offered(before.writer.critical@, after.writer.critical@, item)
                && after.writer.normal == before.writer.normal
        } else {
            offered(before.writer.normal@, after.writer.normal@, item)
                && after.writer.critical == before.writer.critical
        }
        &&& Writer::accounted(
            if before.stopping {
                Err(Refusal::Stopping)
            } else if critical {
                verdict(after.writer.critical@)
            } else {
                verdict(after.writer.normal@)
            },
            false,
            item.channel,
            r,
            before.drops@,
            after.drops@,
            before.counters,
            after.counters,
        )
    }

    /// Hands a record in: on overflow an ordinary one is lost, a critical one
    /// waits.
    pub fn put(&mut self, item: Staged, critical: bool) -> (r: Result<(), Error>)
        ensures
            Self::wrote(*old(self), *final(self), item, critical, r),
    {
        self.writer.write(item, critical, self.stopping, &mut self.drops, &mut self.counters)
    }

    /// Hands a record in without waiting for room.
    pub fn put_no_wait(&mut self, item: Staged, critical: bool) -> (r: Result<(), Error>)
        ensures
            Self::wrote_at_once(*old(self), *final(self), item, critical, r),
    {
        self.writer.write_no_wait(item, critical, self.stopping, &mut self.drops, &mut self.counters)
    }
}

/// A record that is not to wait is offered to its own queue once, and never waits: the caller is told
/// the truth about it, and it counts as lost if and only if it was not taken. Once the stop has begun
/// nothing is offered at all.
pub proof fn law_what_must_not_wait_is_offered_once(
    before: Desk,
    after: Desk,
    item: Staged,
    critical: bool,
    r: Result<(), Error>,
)
    requires
        Desk::wrote_at_once(before, after, item, critical, r),
    ensures
        after.counters.backpressure_waits == before.counters.backpressure_waits,
        after.stopping == before.stopping,
        before.stopping ==> after.writer == before.writer && r == Err::<(), Error>(
            Error::ShuttingDown,
        ),
        !before.stopping && critical ==> {
            &&& after.writer.normal == before.writer.normal
            &&& after.writer.critical@.len() == before.writer.critical@.len() + 1
            &&& after.writer.critical@.last() matches Handed::AtOnce { item: x, back } && x == item
                && (r is Ok == back is Ok)
        },
        !before.stopping && !critical ==> {
            &&& after.writer.critical == before.writer.critical
            &&& after.writer.normal@.len() == before.writer.normal@.len() + 1
            &&& after.writer.normal@.last() matches Handed::AtOnce { item: x, back } && x == item
                && (r is Ok == back is Ok)
        },
        r is Ok ==> after.drops@ == before.drops@ && after.counters.dropped
            == before.counters.dropped,
        r is Err ==> after.counters.dropped == crate::stats::plus(before.counters.dropped, 1),
{
}

} // verus!
