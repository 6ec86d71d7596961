//! The store's mark that there is a point in looking again.
//!
//! A reader of a live store sees records by polling. The mark lets it sleep while
//! nothing is written and wake on the first block. There are three marks, which
//! differ in the cost of the answer: **data** (a block landed: read on), the
//! **shape** of a channel (a segment came or went: list one directory) and the
//! **roster** of the store (a namespace came up: walk the root).

use crate::channel::Interval;
use vstd::prelude::*;

verus! {

/// What a wait longer than the clock can count is cut down to, in nanoseconds: an
/// hour.
pub const LONGEST_WAIT: u64 = 3_600_000_000_000;

/// What a reader has already seen. It is compared as a whole: if anything
/// changed, there is a point in looking again.
#[derive(Debug, Clone, Copy, PartialEq, Eq, Structural)]
#[non_exhaustive]
pub struct Beat {
    /// Grows with every block that lands in a file.
    pub data: u64,
    /// Grows when a segment is created, taken into work, sealed or evicted.
    pub shape: u64,
    /// Grows when a namespace comes up.
    pub roster: u64,
    /// The store has stopped: there will be nothing new.
    pub closed: bool,
}

impl Default for Beat {
    fn default() -> (b: Beat)
        ensures
            b == (Beat { data: 0, shape: 0, roster: 0, closed: false }),
    {
        Beat { data: 0, shape: 0, roster: 0, closed: false }
    }
}

/// What a waiter does next.
#[derive(Debug, Clone, Copy, PartialEq, Eq, Structural)]
pub enum Wait {
    /// The wait is over: this is the state now. Equal to what was seen means
    /// nothing happened in the time allotted.
    Over(Beat),
    /// Nothing yet: sleep until woken, but not past this moment.
    Sleep { deadline: u64 },
}

/// The marks of a live store.
#[derive(Debug)]
pub struct Pulse {
    beat: Beat,
    /// How many readers are waiting. Nobody is woken where there is nobody.
    waiters: u64,
}

impl Pulse {
    pub closed spec fn state(&self) -> Beat {
        self.beat
    }

    pub closed spec fn waiting(&self) -> u64 {
        self.waiters
    }

    pub fn new() -> (p: Pulse)
        ensures
            p.state() == (Beat { data: 0, shape: 0, roster: 0, closed: false }),
            p.waiting() == 0,
    {
        Pulse { beat: Beat::default(), waiters: 0 }
    }

    /// What there is right now.
    pub fn beat(&self) -> (b: Beat)
        ensures
            b == self.state(),
    {
        self.beat
    }

    /// A block landed in a file. The answer is whether there is anybody to wake.
    pub fn data_written(&mut self) -> (wake: bool)
        ensures
            final(self).state() == (Beat {
                data: crate::stats::plus(old(self).state().data, 1),
                ..old(self).state()
            }),
            final(self).waiting() == old(self).waiting(),
            wake == (old(self).waiting() > 0),
    {
        crate::stats::Counters::bump(&mut self.beat.data);
        self.wake_waiters()
    }

    /// A segment changed: the channel's directory has to be listed again.
    pub fn shape_changed(&mut self) -> (wake: bool)
        ensures
            final(self).state() == (Beat {
                shape: crate::stats::plus(old(self).state().shape, 1),
                ..old(self).state()
            }),
            final(self).waiting() == old(self).waiting(),
            wake == (old(self).waiting() > 0),
    {
        crate::stats::Counters::bump(&mut self.beat.shape);
        self.wake_waiters()
    }

    /// A namespace came up: directories the reader does not know have appeared.
    pub fn roster_changed(&mut self) -> (wake: bool)
        ensures
            final(self).state() == (Beat {
                roster: crate::stats::plus(old(self).state().roster, 1),
                ..old(self).state()
            }),
            final(self).waiting() == old(self).waiting(),
            wake == (old(self).waiting() > 0),
    {
        crate::stats::Counters::bump(&mut self.beat.roster);
        self.wake_waiters()
    }

    /// The store has stopped: whoever waits has nothing left to wait for, and is
    /// woken unconditionally.
    pub fn close(&mut self) -> (wake: bool)
        ensures
            final(self).state() == (Beat { closed: true, ..old(self).state() }),
            final(self).waiting() == old(self).waiting(),
            wake,
    {
        self.beat.closed = true;
        true
    }

    /// When a wait that begins now ends: a deadline the clock cannot count is cut
    /// down to [`LONGEST_WAIT`].
    pub open spec fn deadline(now: u64, timeout: Interval) -> int {
        if now + timeout.nanos <= u64::MAX {
            now + timeout.nanos
        } else if now + LONGEST_WAIT <= u64::MAX {
            now + LONGEST_WAIT
        } else {
            u64::MAX as int
        }
    }

    /// Begins to wait for a difference from `seen`. A mark set before the wait is
    /// not slept through; where the answer is to sleep, the waiter is counted
    /// until [`Pulse::resume`] says that the wait is over.
    pub fn wait(&mut self, seen: Beat, timeout: Interval, now: u64) -> (w: Wait)
        ensures
            final(self).state() == old(self).state(),
            old(self).state() != seen || timeout.nanos == 0 ==> w == Wait::Over(old(self).state())
                && final(self).waiting() == old(self).waiting(),
            old(self).state() == seen && timeout.nanos != 0 ==> w == (Wait::Sleep {
                deadline: Self::deadline(now, timeout) as u64,
            }) && final(self).waiting() == if old(self).waiting() < u64::MAX {
                old(self).waiting() + 1
            } else {
                u64::MAX as int
            },
    {
        if self.beat != seen || timeout.is_zero() {
            return Wait::Over(self.beat);
        }
        self.waiters = self.waiters.saturating_add(1);
        let deadline: u64 = match now.checked_add(timeout.nanos) {
            Some(d) => d,
            None => now.saturating_add(LONGEST_WAIT),
        };
        Wait::Sleep { deadline }
    }

    /// Continues a wait after a wake-up or a timeout.
    pub fn resume(&mut self, seen: Beat, deadline: u64, now: u64) -> (w: Wait)
        ensures
            final(self).state() == old(self).state(),
            old(self).state() != seen || now > deadline ==> w == Wait::Over(old(self).state())
                && final(self).waiting() == if old(self).waiting() > 0 {
                old(self).waiting() - 1
            } else {
                0
            },
            old(self).state() == seen && now <= deadline ==> w == (Wait::Sleep { deadline })
                && final(self).waiting() == old(self).waiting(),
    {
        if self.beat != seen || now > deadline {
            self.waiters = self.waiters.saturating_sub(1);
            Wait::Over(self.beat)
        } else {
            Wait::Sleep { deadline }
        }
    }

    /// Whether there is anybody to wake.
    fn wake_waiters(&self) -> (wake: bool)
        ensures
            wake == (self.waiting() > 0),
    {
        self.waiters > 0
    }
}

/// The three marks are told apart: raising one leaves the others as they were,
/// and a raised mark is never taken for the state before it.
pub proof fn law_kinds_of_change_are_told_apart(b: Beat)
    ensures
        crate::stats::plus(b.data, 1) != b.data,
        crate::stats::plus(b.shape, 1) != b.shape,
        crate::stats::plus(b.roster, 1) != b.roster,
{
    reveal(crate::stats::plus);
}

/// A wait ends when its time is up: as long after it began as it was allotted, where the clock can
/// count that far, and never before it began.
pub proof fn law_a_wait_lasts_as_long_as_allotted(now: u64, timeout: Interval)
    ensures
        now + timeout.nanos <= u64::MAX ==> Pulse::deadline(now, timeout) - now == timeout.nanos,
        now <= Pulse::deadline(now, timeout) <= u64::MAX,
        now + timeout.nanos > u64::MAX ==> Pulse::deadline(now, timeout) - now <= timeout.nanos && (
        Pulse::deadline(now, timeout) - now == 3_600_000_000_000 || Pulse::deadline(now, timeout)
            == u64::MAX),
{
}

} // verus!
