//! The source of time.
//!
//! A device without a clock of its own does not know absolute time, so an event's
//! stamp is the run and the microseconds since it started. The source is the boot
//! clock, which keeps running across suspend: it measures an event's real age.

use crate::format::{BootCounter, BootTime, Micros};
use vstd::prelude::*;

verus! {

/// `rustix::time::clock_gettime` of the boot clock: its seconds and nanoseconds at
/// the moment of the call.
#[verifier::external_body]
fn clock_boottime() -> (t: (i64, i64)) {
    let ts = rustix::time::clock_gettime(rustix::time::ClockId::Boottime);
    (ts.tv_sec, ts.tv_nsec)
}

/// A reading of the clock in microseconds, as far as the number can say.
pub fn micros_of(sec: i64, nsec: i64) -> (us: u64)
    ensures
        0 <= sec && 0 <= nsec && sec * 1_000_000 + nsec / 1_000 <= u64::MAX ==> us == sec
            * 1_000_000 + nsec / 1_000,
        0 <= sec && 0 <= nsec && sec * 1_000_000 + nsec / 1_000 > u64::MAX ==> us == u64::MAX,
        sec < 0 || nsec < 0 ==> us == 0,
{
    if sec < 0 || nsec < 0 {
        return 0;
    }
    let us: u128 = sec as u128 * 1_000_000 + nsec as u128 / 1_000;
    if us <= u64::MAX as u128 {
        us as u64
    } else {
        u64::MAX
    }
}

/// The boot clock in microseconds.
pub fn boottime_us() -> (us: u64) {
    let (sec, nsec) = clock_boottime();
    micros_of(sec, nsec)
}

/// The clock of one run: it turns the boot clock into microseconds since the
/// start. The values it hands out never decrease: a step backwards, by a driver's
/// or a hypervisor's fault, would collapse the deltas of a block.
#[derive(Debug)]
pub struct Clock {
    boot: BootCounter,
    base_us: u64,
    last: u64,
}

impl Clock {
    /// The run the stamps belong to.
    pub closed spec fn run(&self) -> BootCounter {
        self.boot
    }

    /// The boot clock at the start of the run.
    pub closed spec fn base(&self) -> u64 {
        self.base_us
    }

    /// The greatest time handed out.
    pub closed spec fn reached(&self) -> u64 {
        self.last
    }

    /// A clock counting from this moment.
    pub fn start(boot: BootCounter) -> (c: Clock)
        ensures
            c.run() == boot,
            c.reached() == 0,
    {
        Clock::with_base(boot, boottime_us())
    }

    /// A clock with an explicit base: the value the run is registered with, so
    /// that both mean the same moment.
    pub fn with_base(boot: BootCounter, base_us: u64) -> (c: Clock)
        ensures
            c.run() == boot,
            c.base() == base_us,
            c.reached() == 0,
    {
        Clock { boot, base_us, last: 0 }
    }

    pub fn base_us(&self) -> (us: u64)
        ensures
            us == self.base(),
    {
        self.base_us
    }

    pub fn boot(&self) -> (b: BootCounter)
        ensures
            b == self.run(),
    {
        self.boot
    }

    /// The time since the run started for a reading of the boot clock: nothing
    /// before the base, and never less than was handed out before.
    pub open spec fn time_at(&self, boottime: u64) -> u64 {
        let raw = if boottime >= self.base() {
            (boottime - self.base()) as u64
        } else {
            0
        };
        if raw >= self.reached() {
            raw
        } else {
            self.reached()
        }
    }

    /// The time since the run started, for a reading of the boot clock.
    pub fn at(&mut self, boottime: u64) -> (t: Micros)
        ensures
            t.0 == old(self).time_at(boottime),
            final(self).reached() == t.0,
            final(self).run() == old(self).run(),
            final(self).base() == old(self).base(),
    {
        let raw: u64 = boottime.saturating_sub(self.base_us);
        if raw > self.last {
            self.last = raw;
        }
        Micros(self.last)
    }

    /// The time since the run started.
    pub fn now(&mut self) -> (t: Micros)
        ensures
            exists|reading: u64| t.0 == #[trigger] old(self).time_at(reading),
            t.0 >= old(self).reached(),
            final(self).reached() == t.0,
            final(self).run() == old(self).run(),
            final(self).base() == old(self).base(),
    {
        self.at(boottime_us())
    }

    /// The full current moment.
    pub fn now_at(&mut self) -> (t: BootTime)
        ensures
            t.boot == old(self).run(),
            exists|reading: u64| t.at.0 == #[trigger] old(self).time_at(reading),
            t.at.0 >= old(self).reached(),
            final(self).reached() == t.at.0,
            final(self).run() == old(self).run(),
            final(self).base() == old(self).base(),
    {
        let at: Micros = self.now();
        BootTime::new(self.boot, at)
    }
}

/// The clock counts from the start of the run and never goes back: a reading gives the time since
/// the base, unless a greater one was handed out before, which then stands; later readings never
/// give less.
pub proof fn law_time_counts_from_the_start_and_never_goes_back(c: &Clock, earlier: u64, later: u64)
    ensures
        c.time_at(earlier) >= c.reached(),
        earlier <= later ==> c.time_at(earlier) <= c.time_at(later),
        c.base() + c.reached() <= earlier ==> c.base() + c.time_at(earlier) == earlier,
        c.base() + c.reached() > earlier ==> c.time_at(earlier) == c.reached(),
{
}

} // verus!
