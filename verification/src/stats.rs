//! The engine's counters.
//!
//! The only way to learn what goes on inside: the writer cannot log its own work,
//! because only it can free the queue it would have to log through. Counters wrap
//! around at the end of their range.

use vstd::prelude::*;

verus! {

/// A counter `n` further on, wrapping around at the end of the range.
#[verifier::opaque]
pub open spec fn plus(counter: u64, n: int) -> u64 {
    ((counter + n) % 0x1_0000_0000_0000_0000) as u64
}

/// Advancing a counter twice is advancing it once by the sum.
pub proof fn law_counters_add_up(counter: u64, n: int, m: int)
    ensures
        plus(plus(counter, n), m) == plus(counter, n + m),
{
    reveal(plus);
}

/// A counter that did not move.
pub proof fn lemma_plus_nothing(counter: u64)
    ensures
        plus(counter, 0) == counter,
{
    reveal(plus);
}

/// Within the range of a counter, adding is adding.
pub proof fn lemma_plus_in_range(counter: u64, n: int)
    requires
        0 <= counter + n <= u64::MAX,
    ensures
        plus(counter, n) == counter + n,
{
    reveal(plus);
}

/// The counters.
#[derive(Debug, Clone, Copy, PartialEq, Eq, Structural)]
pub struct Counters {
    pub records_written: u64,
    pub blocks_written: u64,
    pub bytes_written: u64,
    pub syncs: u64,
    pub segments_created: u64,
    pub segments_sealed: u64,
    pub segments_rotated: u64,
    /// Records lost: the queue overflowed, or the medium refused them.
    pub dropped: u64,
    /// Records refused as breaking the schema contract: a build defect rather
    /// than a consequence of load.
    pub rejected: u64,
    /// How many times a write to the critical channel waited for room.
    pub backpressure_waits: u64,
    /// I/O errors in the writer.
    pub io_errors: u64,
    /// Damaged tails discarded during recovery.
    pub truncated_tails: u64,
    /// How many times a channel took a segment into work.
    pub segments_opened: u64,
    /// How many times occupancy of the medium grew. Not handed out: it decides
    /// whether the budgets have to be recomputed.
    pub occupancy_raised: u64,
    /// How many times a class could not be brought back under its budget.
    pub budget_overruns: u64,
    /// How many times the block buffers could not be brought back under the
    /// memory ceiling.
    pub buffer_overruns: u64,
}

impl Default for Counters {
    fn default() -> (c: Counters)
        ensures
            c == Counters::zero(),
    {
        Counters {
            records_written: 0,
            blocks_written: 0,
            bytes_written: 0,
            syncs: 0,
            segments_created: 0,
            segments_sealed: 0,
            segments_rotated: 0,
            dropped: 0,
            rejected: 0,
            backpressure_waits: 0,
            io_errors: 0,
            truncated_tails: 0,
            segments_opened: 0,
            occupancy_raised: 0,
            budget_overruns: 0,
            buffer_overruns: 0,
        }
    }
}

impl Counters {
    pub open spec fn zero() -> Counters {
        Counters {
            records_written: 0,
            blocks_written: 0,
            bytes_written: 0,
            syncs: 0,
            segments_created: 0,
            segments_sealed: 0,
            segments_rotated: 0,
            dropped: 0,
            rejected: 0,
            backpressure_waits: 0,
            io_errors: 0,
            truncated_tails: 0,
            segments_opened: 0,
            occupancy_raised: 0,
            budget_overruns: 0,
            buffer_overruns: 0,
        }
    }

    /// One more.
    pub fn bump(counter: &mut u64)
        ensures
            *final(counter) == plus(*old(counter), 1),
    {
        reveal(plus);
        *counter = counter.wrapping_add(1);
    }

    /// `n` more.
    pub fn add(counter: &mut u64, n: u64)
        ensures
            *final(counter) == plus(*old(counter), n as int),
    {
        reveal(plus);
        *counter = counter.wrapping_add(n);
    }

    /// One more, on a counter that others decide by. What it announces has to be
    /// recorded before the call.
    pub fn publish(counter: &mut u64)
        ensures
            *final(counter) == plus(*old(counter), 1),
    {
        reveal(plus);
        *counter = counter.wrapping_add(1);
    }

    /// The counters that no step on a channel moves.
    pub open spec fn same_upkeep(self, other: Counters) -> bool {
        &&& self.rejected == other.rejected
        &&& self.backpressure_waits == other.backpressure_waits
        &&& self.truncated_tails == other.truncated_tails
        &&& self.budget_overruns == other.budget_overruns
        &&& self.buffer_overruns == other.buffer_overruns
    }

    pub open spec fn handed_out(self) -> Stats {
        Stats {
            records_written: self.records_written,
            blocks_written: self.blocks_written,
            bytes_written: self.bytes_written,
            syncs: self.syncs,
            segments_created: self.segments_created,
            segments_sealed: self.segments_sealed,
            segments_rotated: self.segments_rotated,
            dropped: self.dropped,
            rejected: self.rejected,
            backpressure_waits: self.backpressure_waits,
            io_errors: self.io_errors,
            truncated_tails: self.truncated_tails,
            budget_overruns: self.budget_overruns,
            buffer_overruns: self.buffer_overruns,
        }
    }

    /// The counters as handed out.
    pub fn snapshot(&self) -> (s: Stats)
        ensures
            s == self.handed_out(),
    {
        Stats {
            records_written: self.records_written,
            blocks_written: self.blocks_written,
            bytes_written: self.bytes_written,
            syncs: self.syncs,
            segments_created: self.segments_created,
            segments_sealed: self.segments_sealed,
            segments_rotated: self.segments_rotated,
            dropped: self.dropped,
            rejected: self.rejected,
            backpressure_waits: self.backpressure_waits,
            io_errors: self.io_errors,
            truncated_tails: self.truncated_tails,
            budget_overruns: self.budget_overruns,
            buffer_overruns: self.buffer_overruns,
        }
    }
}

/// A snapshot of the counters.
#[derive(Debug, Clone, Copy, PartialEq, Eq, Structural)]
#[non_exhaustive]
pub struct Stats {
    pub records_written: u64,
    pub blocks_written: u64,
    pub bytes_written: u64,
    pub syncs: u64,
    pub segments_created: u64,
    pub segments_sealed: u64,
    pub segments_rotated: u64,
    pub dropped: u64,
    pub rejected: u64,
    pub backpressure_waits: u64,
    pub io_errors: u64,
    pub truncated_tails: u64,
    pub budget_overruns: u64,
    pub buffer_overruns: u64,
}

impl Default for Stats {
    fn default() -> (s: Stats)
        ensures
            s == Counters::zero().handed_out(),
    {
        let zero = Counters::default();
        zero.snapshot()
    }
}

impl Stats {
    pub open spec fn clean(self) -> bool {
        self.dropped == 0 && self.rejected == 0 && self.io_errors == 0
    }

    /// Whether all is well: nothing lost, nothing refused, nothing broken.
    pub fn is_clean(&self) -> (yes: bool)
        ensures
            yes == self.clean(),
    {
        self.dropped == 0 && self.rejected == 0 && self.io_errors == 0
    }
}

/// A counter that is moved by one is one further, until it has counted to its end; from there it
/// begins again with nothing.
pub proof fn law_a_counter_counts_by_one(counter: u64)
    ensures
        counter < u64::MAX ==> plus(counter, 1) == counter + 1,
        counter == u64::MAX ==> plus(counter, 1) == 0,
{
    reveal(plus);
}

/// All is well if and only if nothing was lost, nothing refused and nothing broken; a snapshot shows
/// each counter under its own name.
pub proof fn law_a_snapshot_shows_what_was_counted(c: Counters)
    ensures
        c.handed_out().clean() <==> c.dropped == 0 && c.rejected == 0 && c.io_errors == 0,
        c.handed_out().records_written == c.records_written,
        c.handed_out().blocks_written == c.blocks_written,
        c.handed_out().bytes_written == c.bytes_written,
        c.handed_out().syncs == c.syncs,
        c.handed_out().segments_created == c.segments_created,
        c.handed_out().segments_sealed == c.segments_sealed,
        c.handed_out().segments_rotated == c.segments_rotated,
        c.handed_out().dropped == c.dropped,
        c.handed_out().rejected == c.rejected,
        c.handed_out().backpressure_waits == c.backpressure_waits,
        c.handed_out().io_errors == c.io_errors,
        c.handed_out().truncated_tails == c.truncated_tails,
        c.handed_out().budget_overruns == c.budget_overruns,
        c.handed_out().buffer_overruns == c.buffer_overruns,
{
}

} // verus!
