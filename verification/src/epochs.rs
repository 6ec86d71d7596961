//! Epochs: what ties relative time to absolute time.
//!
//! There are two levels of identity: a **run** is one execution of the process, a
//! **hardware boot** one boot of the machine, told apart by the kernel's
//! identifier. The anchor is kept per hardware boot: the absolute time at which
//! the boot clock stood at zero. One synchronization gives absolute time to every
//! event of that boot, those recorded before it as well.
//!
//! The anchor can be refined by a source no less trustworthy than its own:
//! `User < Ntp < Gps`.

use crate::format::{BootCounter, BootTime, Micros};
use crate::search;
use crate::wire;
use crate::wire::{WireBoot, WireRun};
use vstd::prelude::*;

verus! {

/// The name of the epochs file in the store root.
pub const EPOCHS_FILE: &'static str = "epochs.bin";

// ---------------------------------------------------------------------------
// Absolute time
// ---------------------------------------------------------------------------

/// The first and the last second that `chrono` can represent: the turns of the
/// years -262143 and 262143.
pub const FIRST_SECOND: i64 = -8_334_601_228_800;

pub const LAST_SECOND: i64 = 8_210_266_876_799;

/// A moment in absolute time: microseconds since the beginning of 1970.
#[derive(Debug, Clone, Copy, PartialEq, Eq, Structural, PartialOrd, Ord)]
pub struct Utc {
    pub micros: i64,
}

impl Utc {
    /// A moment from whole milliseconds.
    pub open spec fn of_millis(ms: int) -> Utc {
        Utc { micros: (ms * 1_000) as i64 }
    }

    /// Whole milliseconds since the beginning of 1970.
    pub open spec fn millis(self) -> int {
        self.micros as int / 1_000
    }

    /// Whole milliseconds since the beginning of 1970.
    pub fn timestamp_millis(self) -> (ms: i64)
        ensures
            ms == self.millis(),
    {
        let n: i128 = self.micros as i128;
        if n >= 0 {
            (n / 1_000) as i64
        } else {
            let up: i128 = (999 - n) / 1_000;
            proof {
                assert(-up == n / 1_000) by (nonlinear_arith)
                    requires
                        up == (999 - n) / 1_000,
                        n < 0,
                ;
            }
            (-up) as i64
        }
    }
}

/// `DateTime::from_timestamp_micros` of `chrono`: a moment, if it lies within the
/// years that can be represented. The moment reads back as the same microseconds.
#[verifier::external_body]
fn moment_of_micros(micros: i64) -> (r: Option<i64>)
    ensures
        r == if FIRST_SECOND <= micros as int / 1_000_000 <= LAST_SECOND {
            Some(micros)
        } else {
            None
        },
{
    chrono::DateTime::from_timestamp_micros(micros).map(|t| t.timestamp_micros())
}

/// `DateTime::from_timestamp_millis` of `chrono`: a moment, if it lies within the
/// years that can be represented. The moment reads back as the same milliseconds.
#[verifier::external_body]
fn moment_of_millis(ms: i64) -> (r: Option<i64>)
    ensures
        r == if FIRST_SECOND <= ms as int / 1_000 <= LAST_SECOND {
            Some(ms)
        } else {
            None
        },
{
    chrono::DateTime::from_timestamp_millis(ms).map(|t| t.timestamp_millis())
}

// ---------------------------------------------------------------------------
// Runs and boots
// ---------------------------------------------------------------------------

/// The source of a synchronization, by how far it is trusted.
#[derive(Debug, Clone, Copy, PartialEq, Eq, Structural, PartialOrd, Ord)]
pub enum SyncSource {
    /// Entered by an operator.
    User,
    Ntp,
    Gps,
}

impl SyncSource {
    /// How far the source is trusted; also its number in the file.
    pub open spec fn rank(self) -> u32 {
        match self {
            SyncSource::User => 0,
            SyncSource::Ntp => 1,
            SyncSource::Gps => 2,
        }
    }

    pub fn number(self) -> (n: u32)
        ensures
            n == self.rank(),
    {
        match self {
            SyncSource::User => 0,
            SyncSource::Ntp => 1,
            SyncSource::Gps => 2,
        }
    }

    /// The source of a number.
    pub fn of_number(n: u32) -> (s: Option<SyncSource>)
        ensures
            match s {
                Some(x) => x.rank() == n,
                None => n > 2,
            },
    {
        match n {
            0 => Some(SyncSource::User),
            1 => Some(SyncSource::Ntp),
            2 => Some(SyncSource::Gps),
            _ => None,
        }
    }

    pub open spec fn name(self) -> Seq<char> {
        match self {
            SyncSource::User => "user"@,
            SyncSource::Ntp => "ntp"@,
            SyncSource::Gps => "gps"@,
        }
    }

    pub fn as_str(self) -> (s: &'static str)
        ensures
            s@ == self.name(),
    {
        match self {
            SyncSource::User => "user",
            SyncSource::Ntp => "ntp",
            SyncSource::Gps => "gps",
        }
    }
}

/// One execution of the process.
#[derive(Debug, Clone, Copy, PartialEq, Eq, Structural)]
pub struct Run {
    pub boot_counter: u32,
    pub hw_boot_id: u32,
    /// The boot clock when the run was registered; also the base of the run's
    /// clock.
    pub boottime_at_init_us: u64,
}

/// One boot of the hardware.
#[derive(Debug, Clone, Copy, PartialEq, Eq)]
pub struct HwBoot {
    pub hw_boot_id: u32,
    /// The kernel's identifier of the boot.
    pub kernel_boot_id: [u8; 16],
    /// The absolute time, in milliseconds, at which the boot clock stood at zero;
    /// `None` means there was no synchronization.
    pub utc_anchor_ms: Option<i64>,
    pub anchor_source: Option<SyncSource>,
    /// The boot clock when the anchor was recorded.
    pub anchor_captured_us: Option<u64>,
}

impl HwBoot {
    /// The anchor as a moment. `None` means there was no synchronization, or the
    /// anchor is no moment that can be represented.
    pub fn utc_anchor(&self) -> (t: Option<Utc>)
        ensures
            t == match self.utc_anchor_ms {
                Some(ms) => if FIRST_SECOND <= ms as int / 1_000 <= LAST_SECOND {
                    Some(Utc::of_millis(ms as int))
                } else {
                    None
                },
                None => None,
            },
    {
        match self.utc_anchor_ms {
            None => None,
            Some(ms) => match moment_of_millis(ms) {
                None => None,
                Some(m) => {
                    proof {
                        assert(m as int <= LAST_SECOND * 1_000 + 999 && m as int >= FIRST_SECOND
                            * 1_000) by (nonlinear_arith)
                            requires
                                FIRST_SECOND <= m as int / 1_000 <= LAST_SECOND,
                        ;
                    }
                    Some(Utc { micros: m * 1_000 })
                },
            },
        }
    }
}

/// Where a moment of absolute time falls in a run's scale. "Earlier than the
/// start" and "there is no anchor" are different things: in the first the whole run
/// lies after the moment, in the second there is nothing to compare with.
#[derive(Debug, Clone, Copy, PartialEq, Eq, Structural)]
pub enum RunOffset {
    /// Earlier than the run started.
    BeforeStart,
    /// Microseconds since the run started.
    At(Micros),
    /// The run is unknown, or its boot was never synchronized.
    Unanchored,
}

/// The contents of the epochs file.
#[derive(Debug, Clone)]
pub struct Epochs {
    pub runs: Vec<Run>,
    pub hw_boots: Vec<HwBoot>,
}

impl Default for Epochs {
    fn default() -> (e: Epochs)
        ensures
            e.runs@ == Seq::<Run>::empty(),
            e.hw_boots@ == Seq::<HwBoot>::empty(),
    {
        Epochs { runs: Vec::new(), hw_boots: Vec::new() }
    }
}

/// The run with a number, among these.
pub open spec fn is_run(runs: Seq<Run>, boot: u32, r: Run) -> bool {
    runs.contains(r) && r.boot_counter == boot
}

/// The boot with a number, among these.
pub open spec fn is_boot(boots: Seq<HwBoot>, id: u32, b: HwBoot) -> bool {
    boots.contains(b) && b.hw_boot_id == id
}

pub open spec fn knows_run(runs: Seq<Run>, boot: u32) -> bool {
    exists|r: Run| #[trigger] is_run(runs, boot, r)
}

pub open spec fn knows_boot(boots: Seq<HwBoot>, id: u32) -> bool {
    exists|b: HwBoot| #[trigger] is_boot(boots, id, b)
}

/// The absolute time, in microseconds, of a moment of a run: the anchor of its
/// boot, the boot clock at its start, and the time since.
pub open spec fn absolute(run: Run, anchor_ms: i64, at: Micros) -> int {
    anchor_ms * 1_000 + run.boottime_at_init_us + at.0
}

/// The absolute time of a moment of a run, if it can be represented.
pub open spec fn utc_of(run: Run, hw: HwBoot, at: Micros) -> Option<Utc> {
    match hw.utc_anchor_ms {
        None => None,
        Some(anchor) => {
            let us = absolute(run, anchor, at);
            if run.boottime_at_init_us + at.0 <= u64::MAX && i64::MIN <= us <= i64::MAX
                && FIRST_SECOND <= us / 1_000_000 <= LAST_SECOND {
                Some(Utc { micros: us as i64 })
            } else {
                None
            }
        },
    }
}

/// Where an absolute time falls in the scale of a run with this anchor.
pub open spec fn offset_of(run: Run, hw: HwBoot, utc: Utc) -> RunOffset {
    match hw.utc_anchor_ms {
        None => RunOffset::Unanchored,
        Some(anchor) => {
            let from_start = utc.micros - anchor * 1_000 - run.boottime_at_init_us;
            if from_start < 0 {
                RunOffset::BeforeStart
            } else if from_start <= u64::MAX {
                RunOffset::At(Micros(from_start as u64))
            } else {
                RunOffset::At(Micros(u64::MAX))
            }
        },
    }
}

/// The run a number stands for.
pub open spec fn found_run(runs: Seq<Run>, boot: u32) -> Option<Run> {
    match search::looked_up(run_numbers(runs, None), boot) {
        Some(k) => Some(runs[k]),
        None => None,
    }
}

/// The boot a number stands for.
pub open spec fn found_boot(boots: Seq<HwBoot>, id: u32) -> Option<HwBoot> {
    match search::looked_up(boot_numbers(boots), id) {
        Some(k) => Some(boots[k]),
        None => None,
    }
}

/// A run is found by its number if and only if there is one of that number.
proof fn lemma_found_run(runs: Seq<Run>, boot: u32)
    ensures
        match found_run(runs, boot) {
            Some(r) => is_run(runs, boot, r),
            None => !knows_run(runs, boot),
        },
{
    let numbers = run_numbers(runs, None);
    search::lemma_looked_up(numbers, boot);
    if found_run(runs, boot) is None {
        assert forall|r: Run| !#[trigger] is_run(runs, boot, r) by {
            if runs.contains(r) && r.boot_counter == boot {
                let k = runs.index_of(r);
                assert(numbers[k] == boot);
            }
        }
    }
}

/// A boot is found by its number if and only if there is one of that number.
proof fn lemma_found_boot(boots: Seq<HwBoot>, id: u32)
    ensures
        match found_boot(boots, id) {
            Some(b) => is_boot(boots, id, b),
            None => !knows_boot(boots, id),
        },
{
    let numbers = boot_numbers(boots);
    search::lemma_looked_up(numbers, id);
    if found_boot(boots, id) is None {
        assert forall|b: HwBoot| !#[trigger] is_boot(boots, id, b) by {
            if boots.contains(b) && b.hw_boot_id == id {
                let k = boots.index_of(b);
                assert(numbers[k] == id);
            }
        }
    }
}

impl Epochs {
    /// No number stands twice.
    pub open spec fn numbers_apart(&self) -> bool {
        &&& forall|i: int, j: int|
            0 <= i < j < self.runs@.len() ==> (#[trigger] self.runs@[i]).boot_counter != (
            #[trigger] self.runs@[j]).boot_counter
        &&& forall|i: int, j: int|
            0 <= i < j < self.hw_boots@.len() ==> (#[trigger] self.hw_boots@[i]).hw_boot_id != (
            #[trigger] self.hw_boots@[j]).hw_boot_id
    }

    /// The numbers are in ascending order, as they are handed out.
    pub open spec fn in_order(&self) -> bool {
        &&& forall|i: int, j: int|
            0 <= i < j < self.runs@.len() ==> (#[trigger] self.runs@[i]).boot_counter < (
            #[trigger] self.runs@[j]).boot_counter
        &&& forall|i: int, j: int|
            0 <= i < j < self.hw_boots@.len() ==> (#[trigger] self.hw_boots@[i]).hw_boot_id < (
            #[trigger] self.hw_boots@[j]).hw_boot_id
    }

    /// A run by its number. Numbers are handed out in ascending order, so the
    /// search is binary; in a file that was edited by hand it falls back to a walk.
    pub fn run(&self, boot_counter: u32) -> (r: Option<&Run>)
        ensures
            match r {
                Some(x) => found_run(self.runs@, boot_counter) == Some(*x) && is_run(
                    self.runs@,
                    boot_counter,
                    *x,
                ),
                None => found_run(self.runs@, boot_counter) is None && !knows_run(
                    self.runs@,
                    boot_counter,
                ),
            },
    {
        proof {
            lemma_found_run(self.runs@, boot_counter);
        }
        let ghost numbers = run_numbers(self.runs@, None);
        let mut lo: usize = 0;
        let mut hi: usize = self.runs.len();
        while lo < hi
            invariant
                lo <= hi <= self.runs@.len(),
                numbers == run_numbers(self.runs@, None),
                numbers.len() == self.runs@.len(),
                search::halved(numbers, boot_counter, lo as int, hi as int) == search::halved(
                    numbers,
                    boot_counter,
                    0,
                    numbers.len() as int,
                ),
                match found_run(self.runs@, boot_counter) {
                    Some(x) => is_run(self.runs@, boot_counter, x),
                    None => !knows_run(self.runs@, boot_counter),
                },
            decreases hi - lo,
        {
            let mid: usize = lo + (hi - lo) / 2;
            let key: u32 = self.runs[mid].boot_counter;
            assert(numbers[mid as int] == key);
            if key == boot_counter {
                assert(search::looked_up(numbers, boot_counter) == Some(mid as int));
                return Some(&self.runs[mid]);
            }
            if key < boot_counter {
                lo = mid + 1;
            } else {
                hi = mid;
            }
        }
        let mut i: usize = 0;
        while i < self.runs.len()
            invariant
                i <= self.runs@.len(),
                numbers == run_numbers(self.runs@, None),
                numbers.len() == self.runs@.len(),
                search::halved(numbers, boot_counter, 0, numbers.len() as int) is None,
                forall|k: int| 0 <= k < i ==> #[trigger] numbers[k] != boot_counter,
                match found_run(self.runs@, boot_counter) {
                    Some(x) => is_run(self.runs@, boot_counter, x),
                    None => !knows_run(self.runs@, boot_counter),
                },
            decreases self.runs@.len() - i,
        {
            assert(numbers[i as int] == self.runs@[i as int].boot_counter);
            if self.runs[i].boot_counter == boot_counter {
                proof {
                    let p = search::is_key(numbers, boot_counter);
                    assert forall|j: int| 0 <= j < i implies !#[trigger] p(j) by {
                        assert(numbers[j] != boot_counter);
                    }
                    search::lemma_first_is(p, 0, numbers.len() as int, i as int);
                }
                return Some(&self.runs[i]);
            }
            i = i + 1;
        }
        proof {
            search::lemma_looked_up(numbers, boot_counter);
        }
        None
    }

    /// A hardware boot by its number.
    pub fn hw_boot(&self, id: u32) -> (b: Option<&HwBoot>)
        ensures
            match b {
                Some(x) => found_boot(self.hw_boots@, id) == Some(*x) && is_boot(
                    self.hw_boots@,
                    id,
                    *x,
                ),
                None => found_boot(self.hw_boots@, id) is None && !knows_boot(self.hw_boots@, id),
            },
    {
        proof {
            lemma_found_boot(self.hw_boots@, id);
        }
        let ghost numbers = boot_numbers(self.hw_boots@);
        let mut lo: usize = 0;
        let mut hi: usize = self.hw_boots.len();
        while lo < hi
            invariant
                lo <= hi <= self.hw_boots@.len(),
                numbers == boot_numbers(self.hw_boots@),
                search::halved(numbers, id, lo as int, hi as int) == search::halved(
                    numbers,
                    id,
                    0,
                    numbers.len() as int,
                ),
                match found_boot(self.hw_boots@, id) {
                    Some(x) => is_boot(self.hw_boots@, id, x),
                    None => !knows_boot(self.hw_boots@, id),
                },
            decreases hi - lo,
        {
            let mid: usize = lo + (hi - lo) / 2;
            let key: u32 = self.hw_boots[mid].hw_boot_id;
            assert(numbers[mid as int] == key);
            if key == id {
                assert(search::looked_up(numbers, id) == Some(mid as int));
                return Some(&self.hw_boots[mid]);
            }
            if key < id {
                lo = mid + 1;
            } else {
                hi = mid;
            }
        }
        let mut i: usize = 0;
        while i < self.hw_boots.len()
            invariant
                i <= self.hw_boots@.len(),
                numbers == boot_numbers(self.hw_boots@),
                search::halved(numbers, id, 0, numbers.len() as int) is None,
                forall|k: int| 0 <= k < i ==> #[trigger] numbers[k] != id,
                match found_boot(self.hw_boots@, id) {
                    Some(x) => is_boot(self.hw_boots@, id, x),
                    None => !knows_boot(self.hw_boots@, id),
                },
            decreases self.hw_boots@.len() - i,
        {
            assert(numbers[i as int] == self.hw_boots@[i as int].hw_boot_id);
            if self.hw_boots[i].hw_boot_id == id {
                proof {
                    let p = search::is_key(numbers, id);
                    assert forall|j: int| 0 <= j < i implies !#[trigger] p(j) by {
                        assert(numbers[j] != id);
                    }
                    search::lemma_first_is(p, 0, numbers.len() as int, i as int);
                }
                return Some(&self.hw_boots[i]);
            }
            i = i + 1;
        }
        proof {
            search::lemma_looked_up(numbers, id);
        }
        None
    }

    /// A run by its number, with its boot; nothing where the file knows no such run, or
    /// not its boot.
    pub open spec fn found(&self, boot: u32) -> Option<(Run, HwBoot)> {
        match found_run(self.runs@, boot) {
            Some(run) => match found_boot(self.hw_boots@, run.hw_boot_id) {
                Some(hw) => Some((run, hw)),
                None => None,
            },
            None => None,
        }
    }

    /// The absolute time of a record.
    pub open spec fn utc_at(&self, at: BootTime) -> Option<Utc> {
        match self.found(at.boot.0) {
            Some((run, hw)) => utc_of(run, hw, at.at),
            None => None,
        }
    }

    /// Where an absolute time falls in the scale of a run.
    pub open spec fn offset_at(&self, boot: u32, utc: Utc) -> RunOffset {
        match self.found(boot) {
            Some((run, hw)) => offset_of(run, hw, utc),
            None => RunOffset::Unanchored,
        }
    }

    /// A run has an anchor.
    pub open spec fn anchored(&self, boot: u32) -> bool {
        match self.found(boot) {
            Some((_, hw)) => hw.utc_anchor_ms is Some,
            None => false,
        }
    }

    /// A run with its boot.
    fn find(&self, boot: u32) -> (found: Option<(Run, HwBoot)>)
        ensures
            found == self.found(boot),
    {
        match self.run(boot) {
            None => None,
            Some(run) => match self.hw_boot(run.hw_boot_id) {
                None => None,
                Some(hw) => Some((*run, *hw)),
            },
        }
    }

    /// Converts relative time into absolute time. `None` means the record has no
    /// absolute time: its run is unknown, its boot was never synchronized, or the
    /// time is no moment that can be represented.
    pub fn to_utc(&self, at: BootTime) -> (t: Option<Utc>)
        ensures
            t == self.utc_at(at),
    {
        let found = self.find(at.boot.0);
        let (run, hw) = match found {
            Some(f) => f,
            None => {
                return None;
            },
        };
        let anchor: i64 = match hw.utc_anchor_ms {
            Some(a) => a,
            None => {
                return None;
            },
        };
        let boottime: u64 = match run.boottime_at_init_us.checked_add(at.at.0) {
            Some(b) => b,
            None => {
                return None;
            },
        };
        let total: i128 = anchor as i128 * 1_000 + boottime as i128;
        if total < i64::MIN as i128 || total > i64::MAX as i128 {
            return None;
        }
        match moment_of_micros(total as i64) {
            Some(us) => Some(Utc { micros: us }),
            None => None,
        }
    }

    /// The other way round: where a moment of absolute time lies in a run's scale.
    pub fn from_utc(&self, boot_counter: u32, utc: Utc) -> (o: RunOffset)
        ensures
            o == self.offset_at(boot_counter, utc),
    {
        let found = self.find(boot_counter);
        let (run, hw) = match found {
            Some(f) => f,
            None => {
                return RunOffset::Unanchored;
            },
        };
        let anchor: i64 = match hw.utc_anchor_ms {
            Some(a) => a,
            None => {
                return RunOffset::Unanchored;
            },
        };
        let from_start: i128 = utc.micros as i128 - anchor as i128 * 1_000
            - run.boottime_at_init_us as i128;
        if from_start < 0 {
            return RunOffset::BeforeStart;
        }
        if from_start > u64::MAX as i128 {
            return RunOffset::At(Micros(u64::MAX));
        }
        RunOffset::At(Micros(from_start as u64))
    }

    /// Whether a run has an anchor: whether its records can be matched against a
    /// wall clock at all.
    pub fn is_anchored(&self, boot_counter: u32) -> (yes: bool)
        ensures
            yes == self.anchored(boot_counter),
    {
        match self.find(boot_counter) {
            Some((_, hw)) => hw.utc_anchor_ms.is_some(),
            None => false,
        }
    }

    /// The runs in the order they were registered.
    pub fn runs(&self) -> (r: &Vec<Run>)
        ensures
            *r == self.runs,
    {
        &self.runs
    }
}

/// Where no number stands twice there is one run of a number.
proof fn lemma_one_run(e: &Epochs, boot: u32, a: Run, b: Run)
    requires
        e.numbers_apart(),
        is_run(e.runs@, boot, a),
        is_run(e.runs@, boot, b),
    ensures
        a == b,
{
    let i = e.runs@.index_of(a);
    let j = e.runs@.index_of(b);
    if i < j {
        assert(e.runs@[i].boot_counter != e.runs@[j].boot_counter);
    } else if j < i {
        assert(e.runs@[j].boot_counter != e.runs@[i].boot_counter);
    }
}

/// Where no number stands twice there is one boot of a number.
proof fn lemma_one_boot(e: &Epochs, id: u32, a: HwBoot, b: HwBoot)
    requires
        e.numbers_apart(),
        is_boot(e.hw_boots@, id, a),
        is_boot(e.hw_boots@, id, b),
    ensures
        a == b,
{
    let i = e.hw_boots@.index_of(a);
    let j = e.hw_boots@.index_of(b);
    if i < j {
        assert(e.hw_boots@[i].hw_boot_id != e.hw_boots@[j].hw_boot_id);
    } else if j < i {
        assert(e.hw_boots@[j].hw_boot_id != e.hw_boots@[i].hw_boot_id);
    }
}

/// Numbers that are handed out in order stand once each.
pub proof fn law_an_orderly_file_numbers_apart(e: &Epochs)
    requires
        e.in_order(),
    ensures
        e.numbers_apart(),
{
}

/// Where no number stands twice, a run and its boot are found by their numbers.
pub proof fn law_a_run_is_found_by_its_number(e: &Epochs, run: Run, hw: HwBoot)
    requires
        e.numbers_apart(),
        e.runs@.contains(run),
        e.hw_boots@.contains(hw),
        hw.hw_boot_id == run.hw_boot_id,
    ensures
        e.found(run.boot_counter) == Some((run, hw)),
{
    lemma_found_run(e.runs@, run.boot_counter);
    lemma_found_boot(e.hw_boots@, run.hw_boot_id);
    assert(is_run(e.runs@, run.boot_counter, run));
    assert(is_boot(e.hw_boots@, run.hw_boot_id, hw));
    lemma_one_run(e, run.boot_counter, found_run(e.runs@, run.boot_counter)->0, run);
    lemma_one_boot(e, run.hw_boot_id, found_boot(e.hw_boots@, run.hw_boot_id)->0, hw);
}

/// A run has an anchor if and only if absolute time falls somewhere in its scale. One
/// without an anchor gives no record an absolute time, and a run the file does not know
/// has none.
pub proof fn law_only_anchored_runs_have_absolute_time(e: &Epochs, boot: u32, utc: Utc, at: Micros)
    ensures
        e.anchored(boot) == (e.offset_at(boot, utc) != RunOffset::Unanchored),
        !e.anchored(boot) ==> e.utc_at(BootTime { boot: BootCounter(boot), at }) is None,
        !knows_run(e.runs@, boot) ==> !e.anchored(boot),
{
    lemma_found_run(e.runs@, boot);
}

/// The two conversions undo each other: a record's absolute time falls, in the scale of
/// its run, where the record lies.
pub proof fn law_absolute_time_reads_back(e: &Epochs, at: BootTime)
    requires
        e.utc_at(at) is Some,
    ensures
        e.offset_at(at.boot.0, e.utc_at(at)->0) == RunOffset::At(at.at),
{
}

/// Absolute time keeps the order of relative time within a run.
pub proof fn law_absolute_time_keeps_the_order(run: Run, hw: HwBoot, a: Micros, b: Micros)
    requires
        utc_of(run, hw, a) is Some,
        utc_of(run, hw, b) is Some,
    ensures
        (a.0 <= b.0) == (utc_of(run, hw, a)->0.micros <= utc_of(run, hw, b)->0.micros),
{
}

// ---------------------------------------------------------------------------
// The anchor
// ---------------------------------------------------------------------------

/// The first boot with a number.
pub open spec fn first_boot(boots: Seq<HwBoot>, id: u32, i: int) -> bool {
    &&& 0 <= i < boots.len()
    &&& boots[i].hw_boot_id == id
    &&& forall|k: int| 0 <= k < i ==> (#[trigger] boots[k]).hw_boot_id != id
}

/// A source may set the anchor of a boot: there is none, or it is no more
/// trustworthy.
pub open spec fn may_anchor(hw: HwBoot, source: SyncSource) -> bool {
    hw.anchor_source matches Some(current) ==> source.rank() >= current.rank()
}

/// The anchor of a synchronization: the absolute time at which the boot clock
/// stood at zero, to the millisecond.
pub open spec fn anchor_of(utc: Utc, now_boottime_us: u64) -> i64 {
    let ms = utc.millis() - now_boottime_us as int / 1_000;
    if ms < i64::MIN {
        i64::MIN
    } else {
        ms as i64
    }
}

impl Epochs {
    /// A synchronization was offered. One that was accepted sets the anchor of the first boot with
    /// the number; one that was not changes nothing.
    pub open spec fn synchronized(
        before: &Epochs,
        after: &Epochs,
        hw_boot_id: u32,
        utc: Utc,
        source: SyncSource,
        now_boottime_us: u64,
        accepted: bool,
    ) -> bool {
        &&& after.runs@ == before.runs@
        &&& accepted == exists|i: int|
            #[trigger] first_boot(before.hw_boots@, hw_boot_id, i) && may_anchor(
                before.hw_boots@[i],
                source,
            )
        &&& !accepted ==> after.hw_boots@ == before.hw_boots@
        &&& forall|i: int|
            accepted && #[trigger] first_boot(before.hw_boots@, hw_boot_id, i) ==> after.hw_boots@
                == before.hw_boots@.update(
                i,
                HwBoot {
                    utc_anchor_ms: Some(anchor_of(utc, now_boottime_us)),
                    anchor_source: Some(source),
                    anchor_captured_us: Some(now_boottime_us),
                    ..before.hw_boots@[i]
                },
            )
    }

    /// Sets the anchor of a boot; the answer says whether it was accepted. Equal
    /// trust is enough: a fresh fix refines an old one.
    pub fn set_anchor(
        &mut self,
        hw_boot_id: u32,
        utc: Utc,
        source: SyncSource,
        now_boottime_us: u64,
    ) -> (accepted: bool)
        ensures
            final(self).runs@ == old(self).runs@,
            accepted == exists|i: int|
                #[trigger] first_boot(old(self).hw_boots@, hw_boot_id, i) && may_anchor(
                    old(self).hw_boots@[i],
                    source,
                ),
            Self::synchronized(
                old(self),
                final(self),
                hw_boot_id,
                utc,
                source,
                now_boottime_us,
                accepted,
            ),
            !accepted ==> final(self).hw_boots@ == old(self).hw_boots@,
            forall|i: int|
                accepted && #[trigger] first_boot(old(self).hw_boots@, hw_boot_id, i)
                    ==> final(self).hw_boots@ == old(self).hw_boots@.update(
                    i,
                    HwBoot {
                        utc_anchor_ms: Some(anchor_of(utc, now_boottime_us)),
                        anchor_source: Some(source),
                        anchor_captured_us: Some(now_boottime_us),
                        ..old(self).hw_boots@[i]
                    },
                ),
    {
        let mut i: usize = 0;
        while i < self.hw_boots.len()
            invariant
                i <= self.hw_boots@.len(),
                self.hw_boots@ == old(self).hw_boots@,
                self.runs@ == old(self).runs@,
                forall|k: int|
                    0 <= k < i ==> (#[trigger] self.hw_boots@[k]).hw_boot_id != hw_boot_id,
            decreases self.hw_boots@.len() - i,
        {
            if self.hw_boots[i].hw_boot_id == hw_boot_id {
                assert(first_boot(self.hw_boots@, hw_boot_id, i as int));
                assert forall|k: int| #[trigger]
                    first_boot(old(self).hw_boots@, hw_boot_id, k) implies k == i by {}
                let mut hw: HwBoot = self.hw_boots[i];
                if let Some(current) = hw.anchor_source {
                    if source.number() < current.number() {
                        return false;
                    }
                }
                let ms: i128 = utc.timestamp_millis() as i128 - (now_boottime_us / 1_000) as i128;
                hw.utc_anchor_ms = Some(
                    if ms < i64::MIN as i128 {
                        i64::MIN
                    } else {
                        ms as i64
                    },
                );
                hw.anchor_source = Some(source);
                hw.anchor_captured_us = Some(now_boottime_us);
                self.hw_boots.set(i, hw);
                return true;
            }
            i = i + 1;
        }
        false
    }

    /// The runs that stay.
    pub open spec fn live_runs(runs: Seq<Run>, alive: Seq<u32>) -> Seq<Run> {
        runs.filter(is_alive(alive))
    }

    /// The boots that some run belongs to.
    pub open spec fn used_boots(boots: Seq<HwBoot>, runs: Seq<Run>) -> Seq<HwBoot> {
        boots.filter(is_used(runs))
    }

    /// Forgets the runs that are not among `alive`, and the boots left orphaned.
    pub fn retain_runs(&mut self, alive: &Vec<u32>)
        ensures
            final(self).runs@ == Self::live_runs(old(self).runs@, alive@),
            final(self).hw_boots@ == Self::used_boots(old(self).hw_boots@, final(self).runs@),
    {
        let ghost runs = self.runs@;
        let mut kept: Vec<Run> = Vec::new();
        let mut i: usize = 0;
        proof {
            reveal(Seq::filter);
            assert(runs.take(0) =~= Seq::<Run>::empty());
        }
        while i < self.runs.len()
            invariant
                i <= self.runs@.len(),
                self.runs@ == runs,
                self.hw_boots@ == old(self).hw_boots@,
                kept@ == runs.take(i as int).filter(is_alive(alive@)),
            decreases self.runs@.len() - i,
        {
            let run: Run = self.runs[i];
            proof {
                reveal(Seq::filter);
                assert(runs.take(i + 1).drop_last() =~= runs.take(i as int));
                assert(runs.take(i + 1).last() == run);
            }
            if holds_number(alive, run.boot_counter) {
                kept.push(run);
            }
            i = i + 1;
        }
        assert(runs.take(i as int) =~= runs);
        self.runs = kept;
        let ghost boots = self.hw_boots@;
        let mut used: Vec<HwBoot> = Vec::new();
        let mut j: usize = 0;
        proof {
            reveal(Seq::filter);
            assert(boots.take(0) =~= Seq::<HwBoot>::empty());
        }
        while j < self.hw_boots.len()
            invariant
                j <= self.hw_boots@.len(),
                self.hw_boots@ == boots,
                self.runs@ == kept@,
                used@ == boots.take(j as int).filter(is_used(kept@)),
            decreases self.hw_boots@.len() - j,
        {
            let hw: HwBoot = self.hw_boots[j];
            proof {
                reveal(Seq::filter);
                assert(boots.take(j + 1).drop_last() =~= boots.take(j as int));
                assert(boots.take(j + 1).last() == hw);
            }
            if runs_on(&self.runs, hw.hw_boot_id) {
                used.push(hw);
            }
            j = j + 1;
        }
        assert(boots.take(j as int) =~= boots);
        self.hw_boots = used;
    }
}

/// After a cleanup the records of the runs that stay have the absolute time they had,
/// and those of the others have none.
pub proof fn law_a_cleanup_leaves_the_living_alone(
    before: &Epochs,
    after: &Epochs,
    alive: Seq<u32>,
    at: BootTime,
)
    requires
        before.numbers_apart(),
        after.runs@ == Epochs::live_runs(before.runs@, alive),
        after.hw_boots@ == Epochs::used_boots(before.hw_boots@, after.runs@),
    ensures
        alive.contains(at.boot.0) ==> after.utc_at(at) == before.utc_at(at),
        !alive.contains(at.boot.0) ==> after.utc_at(at) is None,
{
    let boot = at.boot.0;
    let p = is_alive(alive);
    let q = is_used(after.runs@);
    lemma_found_run(before.runs@, boot);
    lemma_found_run(after.runs@, boot);
    if let Some(x) = found_run(after.runs@, boot) {
        let k = after.runs@.index_of(x);
        before.runs@.lemma_filter_pred(p, k);
        before.runs@.lemma_filter_contains_rev(p, x);
        assert(is_run(before.runs@, boot, x));
        lemma_one_run(before, boot, x, found_run(before.runs@, boot)->0);
        let id = x.hw_boot_id;
        lemma_found_boot(before.hw_boots@, id);
        lemma_found_boot(after.hw_boots@, id);
        if let Some(h) = found_boot(after.hw_boots@, id) {
            before.hw_boots@.lemma_filter_contains_rev(q, h);
            assert(is_boot(before.hw_boots@, id, h));
            lemma_one_boot(before, id, h, found_boot(before.hw_boots@, id)->0);
        } else if let Some(h) = found_boot(before.hw_boots@, id) {
            assert(after.runs@[k].hw_boot_id == id);
            assert(q(h));
            before.hw_boots@.lemma_filter_contains(q, before.hw_boots@.index_of(h));
            assert(is_boot(after.hw_boots@, id, h));
        }
    } else if let Some(y) = found_run(before.runs@, boot) {
        if alive.contains(boot) {
            assert(p(y));
            before.runs@.lemma_filter_contains(p, before.runs@.index_of(y));
            assert(is_run(after.runs@, boot, y));
        }
    }
}

/// What is kept of a list of which everything is kept is the list.
proof fn lemma_all_kept<A>(s: Seq<A>, p: spec_fn(A) -> bool)
    requires
        forall|i: int| 0 <= i < s.len() ==> p(#[trigger] s[i]),
    ensures
        s.filter(p) == s,
    decreases s.len(),
{
    reveal(Seq::filter);
    if s.len() > 0 {
        let rest = s.drop_last();
        assert forall|i: int| 0 <= i < rest.len() implies p(#[trigger] rest[i]) by {
            assert(rest[i] == s[i]);
        }
        lemma_all_kept(rest, p);
        assert(p(s[s.len() - 1]));
        assert(rest.push(s.last()) =~= s);
    }
}

/// A second cleanup with the same list changes nothing.
pub proof fn law_a_cleanup_is_done_once(before: &Epochs, after: &Epochs, alive: Seq<u32>)
    requires
        after.runs@ == Epochs::live_runs(before.runs@, alive),
        after.hw_boots@ == Epochs::used_boots(before.hw_boots@, after.runs@),
    ensures
        Epochs::live_runs(after.runs@, alive) == after.runs@,
        Epochs::used_boots(after.hw_boots@, after.runs@) == after.hw_boots@,
{
    let p = is_alive(alive);
    let q = is_used(after.runs@);
    assert forall|i: int| 0 <= i < after.runs@.len() implies p(#[trigger] after.runs@[i]) by {
        before.runs@.lemma_filter_pred(p, i);
    }
    lemma_all_kept(after.runs@, p);
    assert forall|i: int| 0 <= i < after.hw_boots@.len() implies q(
        #[trigger] after.hw_boots@[i],
    ) by {
        before.hw_boots@.lemma_filter_pred(q, i);
    }
    lemma_all_kept(after.hw_boots@, q);
}

pub open spec fn is_alive(alive: Seq<u32>) -> spec_fn(Run) -> bool {
    |r: Run| alive.contains(r.boot_counter)
}

pub open spec fn is_used(runs: Seq<Run>) -> spec_fn(HwBoot) -> bool {
    |b: HwBoot| runs_on_boot(runs, b.hw_boot_id)
}

/// Some run belongs to a boot.
pub open spec fn runs_on_boot(runs: Seq<Run>, id: u32) -> bool {
    exists|k: int| 0 <= k < runs.len() && (#[trigger] runs[k]).hw_boot_id == id
}

fn holds_number(numbers: &Vec<u32>, n: u32) -> (yes: bool)
    ensures
        yes == numbers@.contains(n),
{
    let mut i: usize = 0;
    while i < numbers.len()
        invariant
            i <= numbers@.len(),
            forall|k: int| 0 <= k < i ==> numbers@[k] != n,
        decreases numbers@.len() - i,
    {
        if numbers[i] == n {
            assert(numbers@[i as int] == n);
            return true;
        }
        i = i + 1;
    }
    false
}

fn runs_on(runs: &Vec<Run>, id: u32) -> (yes: bool)
    ensures
        yes == runs_on_boot(runs@, id),
{
    let mut i: usize = 0;
    while i < runs.len()
        invariant
            i <= runs@.len(),
            forall|k: int| 0 <= k < i ==> (#[trigger] runs@[k]).hw_boot_id != id,
        decreases runs@.len() - i,
    {
        if runs[i].hw_boot_id == id {
            assert(runs@[i as int].hw_boot_id == id);
            return true;
        }
        i = i + 1;
    }
    false
}

// ---------------------------------------------------------------------------
// The file
// ---------------------------------------------------------------------------

pub open spec fn wire_run(r: Run) -> WireRun {
    (r.boot_counter, r.hw_boot_id, r.boottime_at_init_us)
}

pub open spec fn wire_boot(b: HwBoot) -> WireBoot {
    (
        b.hw_boot_id,
        b.kernel_boot_id,
        b.utc_anchor_ms,
        match b.anchor_source {
            Some(s) => Some(s.rank()),
            None => None,
        },
        b.anchor_captured_us,
    )
}

pub open spec fn wire_runs(runs: Seq<Run>) -> Seq<WireRun> {
    Seq::new(runs.len(), |i: int| wire_run(runs[i]))
}

pub open spec fn wire_boots(boots: Seq<HwBoot>) -> Seq<WireBoot> {
    Seq::new(boots.len(), |i: int| wire_boot(boots[i]))
}

/// What is read of the epochs file.
#[derive(Debug)]
pub enum Loaded {
    Missing,
    Corrupt,
    Found(Epochs),
}

/// What the bytes of the epochs file say: runs and boots, each with a source that
/// exists.
pub open spec fn file_says(bytes: Seq<u8>, e: Epochs) -> bool {
    wire::epochs_of(bytes) == Some((wire_runs(e.runs@), wire_boots(e.hw_boots@)))
}

/// The bytes are no epochs file.
pub open spec fn no_epochs(bytes: Seq<u8>) -> bool {
    match wire::epochs_of(bytes) {
        None => true,
        Some((_, boots)) => has_stray_source(boots),
    }
}

/// Some boot names a source that does not exist.
pub open spec fn has_stray_source(boots: Seq<WireBoot>) -> bool {
    exists|i: int| 0 <= i < boots.len() && names_no_source(#[trigger] boots[i])
}

pub open spec fn names_no_source(b: WireBoot) -> bool {
    b.3 matches Some(n) && n > 2
}

impl Epochs {
    /// The bytes of the epochs file.
    pub fn encode(&self) -> (r: Option<Vec<u8>>)
        ensures
            r is Some,
            r->0@ == wire::epochs_bytes(wire_runs(self.runs@), wire_boots(self.hw_boots@)),
            file_says(r->0@, *self),
    {
        let mut runs: Vec<WireRun> = Vec::new();
        let mut i: usize = 0;
        while i < self.runs.len()
            invariant
                i <= self.runs@.len(),
                runs@ == wire_runs(self.runs@.take(i as int)),
            decreases self.runs@.len() - i,
        {
            let r: Run = self.runs[i];
            runs.push((r.boot_counter, r.hw_boot_id, r.boottime_at_init_us));
            i = i + 1;
            assert(runs@ =~= wire_runs(self.runs@.take(i as int)));
        }
        assert(self.runs@.take(i as int) =~= self.runs@);
        let mut boots: Vec<WireBoot> = Vec::new();
        let mut j: usize = 0;
        while j < self.hw_boots.len()
            invariant
                j <= self.hw_boots@.len(),
                boots@ == wire_boots(self.hw_boots@.take(j as int)),
            decreases self.hw_boots@.len() - j,
        {
            let b: HwBoot = self.hw_boots[j];
            let source: Option<u32> = match b.anchor_source {
                Some(s) => Some(s.number()),
                None => None,
            };
            boots.push(
                (b.hw_boot_id, b.kernel_boot_id, b.utc_anchor_ms, source, b.anchor_captured_us),
            );
            j = j + 1;
            assert(boots@ =~= wire_boots(self.hw_boots@.take(j as int)));
        }
        assert(self.hw_boots@.take(j as int) =~= self.hw_boots@);
        wire::encode_epochs(&runs, &boots)
    }

    /// Reads the bytes of the epochs file; `None` where they are none.
    pub fn decode(bytes: &[u8]) -> (r: Option<Epochs>)
        ensures
            match r {
                Some(e) => file_says(bytes@, e),
                None => no_epochs(bytes@),
            },
    {
        let (runs, boots) = match wire::decode_epochs(bytes) {
            None => {
                return None;
            },
            Some(w) => w,
        };
        let mut e = Epochs { runs: Vec::new(), hw_boots: Vec::new() };
        let mut i: usize = 0;
        while i < runs.len()
            invariant
                i <= runs@.len(),
                wire::epochs_of(bytes@) == Some((runs@, boots@)),
                wire_runs(e.runs@) == runs@.take(i as int),
                e.hw_boots@.len() == 0,
            decreases runs@.len() - i,
        {
            let ghost had = e.runs@;
            e.runs.push(
                Run {
                    boot_counter: runs[i].0,
                    hw_boot_id: runs[i].1,
                    boottime_at_init_us: runs[i].2,
                },
            );
            proof {
                assert(wire_runs(had).len() == had.len());
                assert forall|k: int| 0 <= k < had.len() implies wire_run(had[k]) == runs@[k] by {
                    assert(wire_runs(had)[k] == runs@.take(i as int)[k]);
                }
            }
            i = i + 1;
            assert(wire_runs(e.runs@) =~= runs@.take(i as int));
        }
        assert(runs@.take(i as int) =~= runs@);
        let mut j: usize = 0;
        while j < boots.len()
            invariant
                j <= boots@.len(),
                wire::epochs_of(bytes@) == Some((runs@, boots@)),
                wire_runs(e.runs@) == runs@,
                wire_boots(e.hw_boots@) == boots@.take(j as int),
            decreases boots@.len() - j,
        {
            let ghost had = e.hw_boots@;
            let boot: WireBoot = boots[j];
            let source: Option<SyncSource> = match boot.3 {
                None => None,
                Some(n) => match SyncSource::of_number(n) {
                    Some(s) => Some(s),
                    None => {
                        proof {
                            assert(names_no_source(boots@[j as int]));
                            assert(has_stray_source(boots@));
                        }
                        return None;
                    },
                },
            };
            e.hw_boots.push(
                HwBoot {
                    hw_boot_id: boot.0,
                    kernel_boot_id: boot.1,
                    utc_anchor_ms: boot.2,
                    anchor_source: source,
                    anchor_captured_us: boot.4,
                },
            );
            proof {
                assert(wire_boots(had).len() == had.len());
                assert forall|k: int| 0 <= k < had.len() implies wire_boot(had[k]) == boots@[k] by {
                    assert(wire_boots(had)[k] == boots@.take(j as int)[k]);
                }
            }
            j = j + 1;
            assert(wire_boots(e.hw_boots@) =~= boots@.take(j as int));
        }
        assert(boots@.take(j as int) =~= boots@);
        Some(e)
    }
}

/// What is written reads back: two files that say the same hold the same runs and
/// the same boots.
pub proof fn law_epochs_survive_a_restart(bytes: Seq<u8>, a: Epochs, b: Epochs)
    requires
        file_says(bytes, a),
        file_says(bytes, b),
    ensures
        a.runs@ == b.runs@,
        a.hw_boots@ == b.hw_boots@,
        !no_epochs(bytes),
{
    let ra = wire_runs(a.runs@);
    let rb = wire_runs(b.runs@);
    assert(ra.len() == rb.len());
    assert forall|i: int| 0 <= i < a.runs@.len() implies a.runs@[i] == b.runs@[i] by {
        assert(ra[i] == rb[i]);
    }
    assert(a.runs@ =~= b.runs@);
    let ba = wire_boots(a.hw_boots@);
    let bb = wire_boots(b.hw_boots@);
    assert(ba.len() == bb.len());
    assert forall|i: int| 0 <= i < a.hw_boots@.len() implies a.hw_boots@[i] == b.hw_boots@[i] by {
        assert(ba[i] == bb[i]);
    }
    assert(a.hw_boots@ =~= b.hw_boots@);
    assert forall|i: int| 0 <= i < ba.len() implies !names_no_source(#[trigger] ba[i]) by {}
}

/// The first boot with the kernel's identifier.
pub open spec fn same_machine_boot(boots: Seq<HwBoot>, kernel_boot_id: Seq<u8>, i: int) -> bool {
    &&& 0 <= i < boots.len()
    &&& boots[i].kernel_boot_id@ == kernel_boot_id
    &&& forall|k: int| 0 <= k < i ==> (#[trigger] boots[k]).kernel_boot_id@ != kernel_boot_id
}

/// The number after the greatest of these; the first number is zero, and past the
/// last there is none.
pub open spec fn is_next_number(numbers: Seq<u32>, n: u32) -> bool {
    if numbers.len() == 0 {
        n == 0
    } else {
        &&& forall|k: int| 0 <= k < numbers.len() ==> (#[trigger] numbers[k]) < n || n == u32::MAX
        &&& exists|k: int| 0 <= k < numbers.len() && n <= (#[trigger] numbers[k]) + 1
    }
}

/// The numbers of boots.
pub open spec fn boot_numbers(boots: Seq<HwBoot>) -> Seq<u32> {
    Seq::new(boots.len(), |i: int| boots[i].hw_boot_id)
}

/// The numbers of runs, and the floor where there is one.
pub open spec fn run_numbers(runs: Seq<Run>, floor: Option<u32>) -> Seq<u32> {
    let numbers = Seq::new(runs.len(), |i: int| runs[i].boot_counter);
    match floor {
        Some(f) => numbers.push(f),
        None => numbers,
    }
}

fn next_number(numbers: &Vec<u32>) -> (n: u32)
    ensures
        is_next_number(numbers@, n),
{
    if numbers.len() == 0 {
        return 0;
    }
    let mut most: u32 = numbers[0];
    let mut i: usize = 1;
    while i < numbers.len()
        invariant
            1 <= i <= numbers@.len(),
            forall|k: int| 0 <= k < i ==> (#[trigger] numbers@[k]) <= most,
            exists|k: int| 0 <= k < i && (#[trigger] numbers@[k]) == most,
        decreases numbers@.len() - i,
    {
        if numbers[i] > most {
            most = numbers[i];
            assert(numbers@[i as int] == most);
        }
        i = i + 1;
    }
    most.saturating_add(1)
}

fn same_id(a: &[u8; 16], b: &[u8; 16]) -> (yes: bool)
    ensures
        yes == (a@ == b@),
{
    let mut i: usize = 0;
    while i < 16
        invariant
            i <= 16,
            forall|k: int| 0 <= k < i ==> a@[k] == b@[k],
        decreases 16 - i,
    {
        if a[i] != b[i] {
            return false;
        }
        i = i + 1;
    }
    assert(a@ =~= b@);
    true
}

/// The epochs of a writing store: what the file says, and the run that is going on.
#[derive(Debug)]
pub struct EpochStore {
    pub epochs: Epochs,
    pub current: Run,
}

/// What is made of the epochs file by a store that writes.
#[derive(Debug)]
pub struct Opening {
    pub epochs: Epochs,
    /// No previous state survived: the numbering of runs has to be picked up from
    /// the names of segments.
    pub lost: bool,
    /// The file is damaged and has to be moved aside: overwriting it silently is
    /// no option, it is what one examines afterwards.
    pub quarantine: bool,
}

/// What a store that writes makes of the epochs file: a damaged one is moved aside, and
/// like a missing one it counts as lost.
pub open spec fn loaded_for_write(bytes: Option<Seq<u8>>, o: Opening) -> bool {
    &&& match bytes {
        None => o.lost && !o.quarantine,
        Some(b) => o.lost == o.quarantine && if o.lost {
            no_epochs(b)
        } else {
            file_says(b, o.epochs)
        },
    }
    &&& o.lost ==> o.epochs.runs@.len() == 0 && o.epochs.hw_boots@.len() == 0
}

impl EpochStore {
    /// The run that is going on is listed, and its boot.
    pub open spec fn lists_current(&self) -> bool {
        &&& self.epochs.runs@.contains(self.current)
        &&& knows_boot(self.epochs.hw_boots@, self.current.hw_boot_id)
    }

    /// Reads the epochs file without touching it.
    pub fn read(bytes: Option<&Vec<u8>>) -> (l: Loaded)
        ensures
            match bytes {
                None => l is Missing,
                Some(b) => match l {
                    Loaded::Found(e) => file_says(b@, e),
                    Loaded::Corrupt => no_epochs(b@),
                    Loaded::Missing => false,
                },
            },
    {
        match bytes {
            None => Loaded::Missing,
            Some(b) => match Epochs::decode(b.as_slice()) {
                Some(e) => Loaded::Found(e),
                None => Loaded::Corrupt,
            },
        }
    }

    /// Reads the epochs file for a store that only reads: nothing is written, not
    /// even to move a damaged file aside. Without epochs only the conversion to
    /// absolute time is lost.
    pub fn open_read_only(bytes: Option<&Vec<u8>>) -> (e: Epochs)
        ensures
            match bytes {
                Some(b) => file_says(b@, e) || (no_epochs(b@) && e.runs@.len() == 0
                    && e.hw_boots@.len() == 0),
                None => e.runs@.len() == 0 && e.hw_boots@.len() == 0,
            },
    {
        match Self::read(bytes) {
            Loaded::Found(e) => e,
            Loaded::Missing => Epochs::default(),
            Loaded::Corrupt => Epochs::default(),
        }
    }

    /// Reads the epochs file for a store that writes.
    pub fn load_for_write(bytes: Option<&Vec<u8>>) -> (o: Opening)
        ensures
            loaded_for_write(
                match bytes {
                    Some(b) => Some(b@),
                    None => None,
                },
                o,
            ),
    {
        match Self::read(bytes) {
            Loaded::Found(epochs) => Opening { epochs, lost: false, quarantine: false },
            Loaded::Missing => Opening {
                epochs: Epochs::default(),
                lost: true,
                quarantine: false,
            },
            Loaded::Corrupt => Opening { epochs: Epochs::default(), lost: true, quarantine: true },
        }
    }

    /// A run was registered: under the next number, and under the boot of the
    /// machine with the same kernel identifier, or under a new one.
    pub open spec fn registered(
        epochs: Epochs,
        kernel_boot_id: [u8; 16],
        boottime_at_init_us: u64,
        floor_boot: Option<u32>,
        s: EpochStore,
    ) -> bool {
        &&& is_next_number(run_numbers(epochs.runs@, floor_boot), s.current.boot_counter)
        &&& s.current.boottime_at_init_us == boottime_at_init_us
        &&& s.epochs.runs@ == epochs.runs@.push(s.current)
        &&& forall|i: int| #[trigger]
            same_machine_boot(epochs.hw_boots@, kernel_boot_id@, i) ==> s.current.hw_boot_id
                == epochs.hw_boots@[i].hw_boot_id && s.epochs.hw_boots@ == epochs.hw_boots@
        &&& (forall|i: int| !#[trigger] same_machine_boot(epochs.hw_boots@, kernel_boot_id@, i))
            ==> {
            &&& is_next_number(boot_numbers(epochs.hw_boots@), s.current.hw_boot_id)
            &&& s.epochs.hw_boots@ == epochs.hw_boots@.push(
                HwBoot {
                    hw_boot_id: s.current.hw_boot_id,
                    kernel_boot_id,
                    utc_anchor_ms: None,
                    anchor_source: None,
                    anchor_captured_us: None,
                },
            )
        }
    }

    /// Registers a new run with what was loaded. The floor counts only where no
    /// previous state survived: an intact file already covers everything on the
    /// medium.
    pub fn open_and_register(
        opening: Opening,
        kernel_boot_id: [u8; 16],
        boottime_at_init_us: u64,
        floor_boot: Option<u32>,
    ) -> (s: EpochStore)
        ensures
            Self::registered(
                opening.epochs,
                kernel_boot_id,
                boottime_at_init_us,
                if opening.lost {
                    floor_boot
                } else {
                    None
                },
                s,
            ),
            s.lists_current(),
    {
        let floor: Option<u32> = if opening.lost {
            floor_boot
        } else {
            None
        };
        Self::register(opening.epochs, kernel_boot_id, boottime_at_init_us, floor)
    }

    /// Registers a new run.
    ///
    /// The floor is the greatest run number on the names of segments, given where
    /// the epochs file did not survive: a number handed out twice would place new
    /// segments before old ones in the history.
    pub fn register(
        epochs: Epochs,
        kernel_boot_id: [u8; 16],
        boottime_at_init_us: u64,
        floor_boot: Option<u32>,
    ) -> (s: EpochStore)
        ensures
            Self::registered(epochs, kernel_boot_id, boottime_at_init_us, floor_boot, s),
            s.lists_current(),
    {
        let ghost runs0 = epochs.runs@;
        let ghost boots0 = epochs.hw_boots@;
        let mut epochs: Epochs = epochs;
        let mut known: Option<u32> = None;
        let mut numbers: Vec<u32> = Vec::new();
        let mut i: usize = 0;
        while i < epochs.hw_boots.len()
            invariant
                i <= epochs.hw_boots@.len(),
                epochs.hw_boots@ == boots0,
                epochs.runs@ == runs0,
                numbers@ == boot_numbers(boots0.take(i as int)),
                match known {
                    None => forall|k: int|
                        0 <= k < i ==> (#[trigger] boots0[k]).kernel_boot_id@ != kernel_boot_id@,
                    Some(id) => exists|k: int|
                        0 <= k < i && #[trigger] same_machine_boot(boots0, kernel_boot_id@, k)
                            && boots0[k].hw_boot_id == id,
                },
            decreases epochs.hw_boots@.len() - i,
        {
            let id: u32 = epochs.hw_boots[i].hw_boot_id;
            if known.is_none() && same_id(&epochs.hw_boots[i].kernel_boot_id, &kernel_boot_id) {
                known = Some(id);
                assert(same_machine_boot(boots0, kernel_boot_id@, i as int));
            }
            numbers.push(id);
            i = i + 1;
            assert(numbers@ =~= boot_numbers(boots0.take(i as int)));
        }
        assert(boots0.take(i as int) =~= boots0);
        let hw_boot_id: u32 = match known {
            Some(id) => {
                proof {
                    let k = choose|k: int|
                        0 <= k < i && #[trigger] same_machine_boot(boots0, kernel_boot_id@, k)
                            && boots0[k].hw_boot_id == id;
                    assert forall|j: int| #[trigger]
                        same_machine_boot(boots0, kernel_boot_id@, j) implies j == k by {
                        if j < k {
                            assert(boots0[j].kernel_boot_id@ == kernel_boot_id@);
                        } else if k < j {
                            assert(boots0[k].kernel_boot_id@ == kernel_boot_id@);
                        }
                    }
                }
                id
            },
            None => {
                let id: u32 = next_number(&numbers);
                epochs.hw_boots.push(
                    HwBoot {
                        hw_boot_id: id,
                        kernel_boot_id,
                        utc_anchor_ms: None,
                        anchor_source: None,
                        anchor_captured_us: None,
                    },
                );
                proof {
                    assert forall|j: int| !#[trigger] same_machine_boot(
                        boots0,
                        kernel_boot_id@,
                        j,
                    ) by {}
                    assert(epochs.hw_boots@[boots0.len() as int].hw_boot_id == id);
                }
                id
            },
        };
        let mut used: Vec<u32> = Vec::new();
        let mut j: usize = 0;
        while j < epochs.runs.len()
            invariant
                j <= epochs.runs@.len(),
                epochs.runs@ == runs0,
                used@ == Seq::new(j as nat, |k: int| runs0[k].boot_counter),
            decreases epochs.runs@.len() - j,
        {
            used.push(epochs.runs[j].boot_counter);
            j = j + 1;
            assert(used@ =~= Seq::new(j as nat, |k: int| runs0[k].boot_counter));
        }
        if let Some(floor) = floor_boot {
            used.push(floor);
        }
        assert(used@ =~= run_numbers(runs0, floor_boot));
        let current = Run {
            boot_counter: next_number(&used),
            hw_boot_id,
            boottime_at_init_us,
        };
        epochs.runs.push(current);
        proof {
            assert(epochs.runs@[runs0.len() as int] == current);
            let boots = epochs.hw_boots@;
            let k = choose|k: int| 0 <= k < boots.len() && (#[trigger] boots[k]).hw_boot_id
                == hw_boot_id;
            assert(is_boot(boots, hw_boot_id, boots[k]));
        }
        EpochStore { epochs, current }
    }

    pub fn current_run(&self) -> (r: Run)
        ensures
            r == self.current,
    {
        self.current
    }

    pub fn epochs(&self) -> (e: &Epochs)
        ensures
            *e == self.epochs,
    {
        &self.epochs
    }

    /// Records a synchronization for the current hardware boot, at a reading of
    /// the boot clock. The answer says whether it was accepted, and so has to be
    /// written.
    pub fn record_sync(&mut self, utc: Utc, source: SyncSource, now_boottime_us: u64) -> (accepted:
        bool)
        ensures
            final(self).current == old(self).current,
            final(self).epochs.runs@ == old(self).epochs.runs@,
            old(self).lists_current() ==> final(self).lists_current(),
            accepted == exists|i: int|
                #[trigger] first_boot(
                    old(self).epochs.hw_boots@,
                    old(self).current.hw_boot_id,
                    i,
                ) && may_anchor(old(self).epochs.hw_boots@[i], source),
            !accepted ==> final(self).epochs.hw_boots@ == old(self).epochs.hw_boots@,
            forall|i: int|
                accepted && #[trigger] first_boot(
                    old(self).epochs.hw_boots@,
                    old(self).current.hw_boot_id,
                    i,
                ) ==> final(self).epochs.hw_boots@ == old(self).epochs.hw_boots@.update(
                    i,
                    HwBoot {
                        utc_anchor_ms: Some(anchor_of(utc, now_boottime_us)),
                        anchor_source: Some(source),
                        anchor_captured_us: Some(now_boottime_us),
                        ..old(self).epochs.hw_boots@[i]
                    },
                ),
    {
        let id: u32 = self.current.hw_boot_id;
        let ghost boots = self.epochs.hw_boots@;
        let accepted: bool = self.epochs.set_anchor(id, utc, source, now_boottime_us);
        proof {
            if accepted && knows_boot(boots, id) {
                let i = choose|i: int| #[trigger] first_boot(boots, id, i);
                assert(is_boot(self.epochs.hw_boots@, id, self.epochs.hw_boots@[i]));
            }
        }
        accepted
    }

    /// Removes the runs of which no segments are left; the current one stays, for
    /// it is still writing. The answer says whether anything went, and so has to be
    /// written.
    pub fn retain_runs(&mut self, alive: &Vec<u32>) -> (changed: bool)
        ensures
            final(self).current == old(self).current,
            final(self).epochs.runs@ == Epochs::live_runs(
                old(self).epochs.runs@,
                alive@.push(old(self).current.boot_counter),
            ),
            final(self).epochs.hw_boots@ == Epochs::used_boots(
                old(self).epochs.hw_boots@,
                final(self).epochs.runs@,
            ),
            changed == (final(self).epochs.runs@.len() != old(self).epochs.runs@.len()),
            old(self).lists_current() ==> final(self).lists_current(),
    {
        let ghost epochs = self.epochs;
        let mut list: Vec<u32> = alive.clone();
        list.push(self.current.boot_counter);
        let before: usize = self.epochs.runs.len();
        self.epochs.retain_runs(&list);
        proof {
            let current = self.current;
            if epochs.runs@.contains(current) && knows_boot(epochs.hw_boots@, current.hw_boot_id) {
                law_the_current_run_is_never_forgotten(epochs.runs@, alive@, current);
                let id = current.hw_boot_id;
                let b = choose|b: HwBoot| #[trigger] is_boot(epochs.hw_boots@, id, b);
                let q = is_used(self.epochs.runs@);
                let k = self.epochs.runs@.index_of(current);
                assert(self.epochs.runs@[k].hw_boot_id == id);
                assert(q(b));
                epochs.hw_boots@.lemma_filter_contains(q, epochs.hw_boots@.index_of(b));
                assert(is_boot(self.epochs.hw_boots@, id, b));
            }
        }
        self.epochs.runs.len() != before
    }
}

/// A run number is never handed out twice while numbers last: a new run comes
/// after every run the file knows and after the floor.
pub proof fn law_run_numbers_only_grow(runs: Seq<Run>, floor: Option<u32>, n: u32, k: int)
    requires
        is_next_number(run_numbers(runs, floor), n),
        n < u32::MAX,
    ensures
        0 <= k < runs.len() ==> runs[k].boot_counter < n,
        floor matches Some(f) ==> f < n,
{
    let numbers = run_numbers(runs, floor);
    if 0 <= k < runs.len() {
        assert(numbers[k] == runs[k].boot_counter);
    }
    if let Some(f) = floor {
        assert(numbers[runs.len() as int] == f);
    }
}

/// The current run survives every cleanup.
pub proof fn law_the_current_run_is_never_forgotten(runs: Seq<Run>, alive: Seq<u32>, current: Run)
    requires
        runs.contains(current),
    ensures
        Epochs::live_runs(runs, alive.push(current.boot_counter)).contains(current),
{
    let list = alive.push(current.boot_counter);
    assert(list[alive.len() as int] == current.boot_counter);
    assert(is_alive(list)(current));
    runs.lemma_filter_contains(is_alive(list), runs.index_of(current));
}

// ---------------------------------------------------------------------------
// The kernel's identifier
// ---------------------------------------------------------------------------

/// The value of a hexadecimal digit.
pub open spec fn hex_value(b: u8) -> Option<u8> {
    if 0x30 <= b <= 0x39 {
        Some((b - 0x30) as u8)
    } else if 0x61 <= b <= 0x66 {
        Some((b - 0x61 + 10) as u8)
    } else if 0x41 <= b <= 0x46 {
        Some((b - 0x41 + 10) as u8)
    } else {
        None
    }
}

fn hex_digit(b: u8) -> (v: Option<u8>)
    ensures
        v == hex_value(b),
        v matches Some(x) ==> x < 16,
{
    if 0x30 <= b && b <= 0x39 {
        Some(b - 0x30)
    } else if 0x61 <= b && b <= 0x66 {
        Some(b - 0x61 + 10)
    } else if 0x41 <= b && b <= 0x46 {
        Some(b - 0x41 + 10)
    } else {
        None
    }
}

/// Bytes without the dashes.
pub open spec fn without_dashes(bytes: Seq<u8>) -> Seq<u8> {
    bytes.filter(not_dash())
}

pub open spec fn not_dash() -> spec_fn(u8) -> bool {
    |b: u8| b != 0x2d
}

/// The bytes are 32 hexadecimal digits.
pub open spec fn is_hex(digits: Seq<u8>) -> bool {
    digits.len() == 32 && forall|i: int|
        0 <= i < 32 ==> hex_value(#[trigger] digits[i]) is Some
}

/// Parses an identifier of the form `xxxxxxxx-xxxx-xxxx-xxxx-xxxxxxxxxxxx`: the
/// digits in pairs, wherever the dashes stand.
pub fn parse_uuid(s: &str) -> (id: Option<[u8; 16]>)
    ensures
        ({
            let digits = without_dashes(vstd::utf8::encode_utf8(s@));
            match id {
                Some(bytes) => is_hex(digits) && forall|i: int|
                    0 <= i < 16 ==> #[trigger] bytes@[i] == hex_value(digits[2 * i])->0 * 16
                        + hex_value(digits[2 * i + 1])->0,
                None => !is_hex(digits),
            }
        }),
{
    let bytes: &[u8] = s.as_bytes();
    let ghost all = vstd::utf8::encode_utf8(s@);
    let mut digits: Vec<u8> = Vec::new();
    let mut i: usize = 0;
    proof {
        reveal(Seq::filter);
        assert(all.take(0) =~= Seq::<u8>::empty());
    }
    while i < bytes.len()
        invariant
            i <= bytes@.len(),
            bytes@ == all,
            digits@ == all.take(i as int).filter(not_dash()),
        decreases bytes@.len() - i,
    {
        let b: u8 = bytes[i];
        proof {
            reveal(Seq::filter);
            assert(all.take(i + 1).drop_last() =~= all.take(i as int));
            assert(all.take(i + 1).last() == b);
        }
        if b != 0x2d {
            digits.push(b);
        }
        i = i + 1;
    }
    assert(all.take(i as int) =~= all);
    if digits.len() != 32 {
        return None;
    }
    let mut out: [u8; 16] = [0; 16];
    let mut k: usize = 0;
    while k < 16
        invariant
            k <= 16,
            digits@.len() == 32,
            digits@ == without_dashes(all),
            all == vstd::utf8::encode_utf8(s@),
            forall|j: int| 0 <= j < 2 * k ==> hex_value(#[trigger] digits@[j]) is Some,
            forall|j: int|
                0 <= j < k ==> #[trigger] out@[j] == hex_value(digits@[2 * j])->0 * 16 + hex_value(
                    digits@[2 * j + 1],
                )->0,
        decreases 16 - k,
    {
        let hi: u8 = match hex_digit(digits[2 * k]) {
            Some(v) => v,
            None => {
                return None;
            },
        };
        let lo: u8 = match hex_digit(digits[2 * k + 1]) {
            Some(v) => v,
            None => {
                return None;
            },
        };
        let ghost before = out@;
        out[k] = hi * 16 + lo;
        k = k + 1;
    }
    Some(out)
}

// ---------------------------------------------------------------------------
// What a synchronization does
// ---------------------------------------------------------------------------

/// Operators are trusted least, then NTP, then GPS. A known boot takes a synchronization if and only
/// if it has none yet or the new source is trusted as far as the one it has: GPS replaces
/// everything, NTP an operator's entry and itself, an operator only what an operator entered. A
/// boot that is not known takes none.
pub proof fn law_a_source_gives_way_only_to_one_trusted_as_far(
    before: &Epochs,
    after: &Epochs,
    hw: HwBoot,
    utc: Utc,
    source: SyncSource,
    now_boottime_us: u64,
    accepted: bool,
)
    requires
        Epochs::synchronized(
            before,
            after,
            hw.hw_boot_id,
            utc,
            source,
            now_boottime_us,
            accepted,
        ),
        before.numbers_apart(),
    ensures
        before.hw_boots@.contains(hw) ==> accepted == match (hw.anchor_source, source) {
            (None, _) => true,
            (Some(SyncSource::User), _) => true,
            (Some(SyncSource::Ntp), SyncSource::User) => false,
            (Some(SyncSource::Ntp), _) => true,
            (Some(SyncSource::Gps), SyncSource::Gps) => true,
            (Some(SyncSource::Gps), _) => false,
        },
        !knows_boot(before.hw_boots@, hw.hw_boot_id) ==> !accepted,
        !accepted ==> after.hw_boots@ == before.hw_boots@,
        accepted ==> exists|b: HwBoot|
            {
                &&& #[trigger] after.hw_boots@.contains(b)
                &&& b.hw_boot_id == hw.hw_boot_id
                &&& b.anchor_source == Some(source)
                &&& b.anchor_captured_us == Some(now_boottime_us)
                &&& b.utc_anchor_ms is Some
            },
{
    let id = hw.hw_boot_id;
    let boots = before.hw_boots@;
    if boots.contains(hw) {
        let k = boots.index_of(hw);
        assert forall|m: int| 0 <= m < k implies (#[trigger] boots[m]).hw_boot_id != id by {
            assert(boots[m].hw_boot_id != boots[k].hw_boot_id);
        }
        assert(first_boot(boots, id, k));
        assert forall|i: int| #[trigger] first_boot(boots, id, i) implies i == k by {}
    }
    if accepted {
        let i = choose|i: int| #[trigger] first_boot(boots, id, i) && may_anchor(boots[i], source);
        assert(is_boot(boots, id, boots[i]));
        let b = after.hw_boots@[i];
        assert(after.hw_boots@.contains(b));
    }
}

/// A synchronization dates every record of its boot, in whatever run, before and after it: the
/// record lies as far from the synchronization in absolute time as on the boot clock, to within a
/// millisecond. The record of the very moment of the synchronization gets the time that was set.
pub proof fn law_a_synchronization_dates_the_whole_boot(
    before: &Epochs,
    after: &Epochs,
    run: Run,
    utc: Utc,
    source: SyncSource,
    now_boottime_us: u64,
    at: Micros,
)
    requires
        before.numbers_apart(),
        Epochs::synchronized(
            before,
            after,
            run.hw_boot_id,
            utc,
            source,
            now_boottime_us,
            true,
        ),
        before.runs@.contains(run),
        run.boottime_at_init_us + at.0 <= u64::MAX,
        FIRST_SECOND * 1_000_000 + 1_000 <= utc.micros + run.boottime_at_init_us + at.0
            - now_boottime_us <= LAST_SECOND * 1_000_000 - 1_000,
    ensures
        ({
            let dated = after.utc_at(BootTime { boot: BootCounter(run.boot_counter), at });
            let moved = run.boottime_at_init_us + at.0 - now_boottime_us;
            dated matches Some(t) && utc.micros + moved - 1_000 < t.micros < utc.micros + moved
                + 1_000
        }),
{
    let id = run.hw_boot_id;
    let i = choose|i: int|
        #[trigger] first_boot(before.hw_boots@, id, i) && may_anchor(before.hw_boots@[i], source);
    let hw = after.hw_boots@[i];
    assert(after.hw_boots@.contains(hw));
    assert(after.numbers_apart()) by {
        assert forall|a: int, b: int| 0 <= a < b < after.hw_boots@.len() implies (
        #[trigger] after.hw_boots@[a]).hw_boot_id != (#[trigger] after.hw_boots@[b]).hw_boot_id by {
            assert(before.hw_boots@[a].hw_boot_id != before.hw_boots@[b].hw_boot_id);
        }
        assert forall|a: int, b: int| 0 <= a < b < after.runs@.len() implies (
        #[trigger] after.runs@[a]).boot_counter != (#[trigger] after.runs@[b]).boot_counter by {
            assert(before.runs@[a].boot_counter != before.runs@[b].boot_counter);
        }
    }
    law_a_run_is_found_by_its_number(after, run, hw);
    let us = absolute(run, anchor_of(utc, now_boottime_us), at);
    assert(utc.micros - 1_000 < utc.millis() * 1_000 <= utc.micros);
    assert(FIRST_SECOND * 1_000_000 <= us <= LAST_SECOND * 1_000_000);
}

/// Within a run absolute time runs like the boot clock: two records lie as far apart in it as they
/// do in the run, to the microsecond.
pub proof fn law_absolute_time_runs_like_the_clock(e: &Epochs, a: BootTime, b: BootTime)
    requires
        a.boot == b.boot,
        e.utc_at(a) is Some,
        e.utc_at(b) is Some,
    ensures
        e.utc_at(b)->0.micros - e.utc_at(a)->0.micros == b.at.0 - a.at.0,
{
}

/// A moment lies before a run if and only if it is earlier than the run's first microsecond;
/// otherwise it falls as far into the run as it is later than that.
pub proof fn law_a_moment_falls_as_far_as_it_is_later(e: &Epochs, boot: u32, utc: Utc)
    requires
        e.utc_at(BootTime { boot: BootCounter(boot), at: Micros(0) }) is Some,
    ensures
        ({
            let start = e.utc_at(BootTime { boot: BootCounter(boot), at: Micros(0) })->0.micros;
            &&& e.offset_at(boot, utc) is BeforeStart <==> utc.micros < start
            &&& utc.micros >= start ==> (e.offset_at(boot, utc) matches RunOffset::At(m) && m.0
                == utc.micros - start)
        }),
{
}

/// A run belongs to the boot of the machine it runs on: a run under a kernel identifier that is
/// known goes on under the known boot, with the anchor it has; any other begins a boot of its own
/// that was never synchronized, under a number that no boot had.
pub proof fn law_runs_of_one_boot_share_its_anchor(
    epochs: Epochs,
    kernel_boot_id: [u8; 16],
    boottime_at_init_us: u64,
    floor: Option<u32>,
    s: EpochStore,
    i: int,
)
    requires
        EpochStore::registered(epochs, kernel_boot_id, boottime_at_init_us, floor, s),
    ensures
        s.epochs.runs@ == epochs.runs@.push(s.current),
        s.current.boottime_at_init_us == boottime_at_init_us,
        0 <= i < epochs.hw_boots@.len() && epochs.hw_boots@[i].kernel_boot_id@ == kernel_boot_id@
            && (forall|k: int|
            0 <= k < i ==> (#[trigger] epochs.hw_boots@[k]).kernel_boot_id@ != kernel_boot_id@) ==> {
            &&& s.current.hw_boot_id == epochs.hw_boots@[i].hw_boot_id
            &&& s.epochs.hw_boots@ == epochs.hw_boots@
        },
        (forall|k: int|
            0 <= k < epochs.hw_boots@.len() ==> (#[trigger] epochs.hw_boots@[k]).kernel_boot_id@
                != kernel_boot_id@) ==> {
            let last = s.epochs.hw_boots@.last();
            &&& s.epochs.hw_boots@.drop_last() == epochs.hw_boots@
            &&& last.hw_boot_id == s.current.hw_boot_id
            &&& last.kernel_boot_id == kernel_boot_id
            &&& last.utc_anchor_ms is None && last.anchor_source is None
            &&& s.current.hw_boot_id < u32::MAX ==> forall|k: int|
                0 <= k < epochs.hw_boots@.len() ==> (#[trigger] epochs.hw_boots@[k]).hw_boot_id
                    < s.current.hw_boot_id
        },
{
    let boots = epochs.hw_boots@;
    if 0 <= i < boots.len() && boots[i].kernel_boot_id@ == kernel_boot_id@ && (forall|k: int|
        0 <= k < i ==> (#[trigger] boots[k]).kernel_boot_id@ != kernel_boot_id@) {
        assert(same_machine_boot(boots, kernel_boot_id@, i));
    }
    if forall|k: int|
        0 <= k < boots.len() ==> (#[trigger] boots[k]).kernel_boot_id@ != kernel_boot_id@ {
        assert forall|k: int| !#[trigger] same_machine_boot(boots, kernel_boot_id@, k) by {}
        assert(s.epochs.hw_boots@.drop_last() =~= boots);
        assert forall|k: int| 0 <= k < boots.len() && s.current.hw_boot_id < u32::MAX implies (
        #[trigger] boots[k]).hw_boot_id < s.current.hw_boot_id by {
            assert(boot_numbers(boots)[k] == boots[k].hw_boot_id);
        }
    }
}

/// A number that is handed out is the one after the greatest: no number is skipped, and the very
/// first is zero.
pub proof fn law_no_run_number_is_skipped(runs: Seq<Run>, floor: Option<u32>, n: u32)
    requires
        is_next_number(run_numbers(runs, floor), n),
    ensures
        runs.len() == 0 && floor is None ==> n == 0,
        runs.len() == 0 ==> (floor matches Some(f) ==> n == if f < u32::MAX {
            f + 1
        } else {
            u32::MAX as int
        }),
        floor is None && runs.len() > 0 && n < u32::MAX ==> exists|k: int|
            0 <= k < runs.len() && (#[trigger] runs[k]).boot_counter + 1 == n,
{
    let numbers = run_numbers(runs, floor);
    if numbers.len() > 0 {
        let k = choose|k: int| 0 <= k < numbers.len() && n <= (#[trigger] numbers[k]) + 1;
        if k < runs.len() {
            assert(numbers[k] == runs[k].boot_counter);
        }
        if runs.len() == 0 && floor is Some {
            assert(numbers[0] == floor->0);
        }
    }
}

/// A cleanup keeps a run if and only if it is among the living, and a boot if and only if a run of
/// it is kept.
pub proof fn law_a_cleanup_keeps_exactly_the_living(
    runs: Seq<Run>,
    boots: Seq<HwBoot>,
    alive: Seq<u32>,
    run: Run,
    hw: HwBoot,
)
    ensures
        Epochs::live_runs(runs, alive).contains(run) <==> runs.contains(run) && alive.contains(
            run.boot_counter,
        ),
        Epochs::used_boots(boots, Epochs::live_runs(runs, alive)).contains(hw) <==> boots.contains(
            hw,
        ) && exists|r: Run| #[trigger]
            runs.contains(r) && alive.contains(r.boot_counter) && r.hw_boot_id == hw.hw_boot_id,
{
    let kept = Epochs::live_runs(runs, alive);
    assert forall|r: Run| #[trigger] kept.contains(r) <==> runs.contains(r) && alive.contains(
        r.boot_counter,
    ) by {
        if runs.contains(r) && alive.contains(r.boot_counter) {
            runs.lemma_filter_contains(is_alive(alive), runs.index_of(r));
        }
        if kept.contains(r) {
            runs.lemma_filter_contains_rev(is_alive(alive), r);
            runs.lemma_filter_pred(is_alive(alive), kept.index_of(r));
        }
    }
    let q = is_used(kept);
    if boots.contains(hw) && q(hw) {
        boots.lemma_filter_contains(q, boots.index_of(hw));
    }
    if boots.filter(q).contains(hw) {
        boots.lemma_filter_contains_rev(q, hw);
        boots.lemma_filter_pred(q, boots.filter(q).index_of(hw));
    }
    assert(q(hw) <==> exists|r: Run| #[trigger]
        runs.contains(r) && alive.contains(r.boot_counter) && r.hw_boot_id == hw.hw_boot_id) by {
        if q(hw) {
            let k = choose|k: int| 0 <= k < kept.len() && (#[trigger] kept[k]).hw_boot_id == hw.hw_boot_id;
            assert(kept.contains(kept[k]));
        }
        if exists|r: Run| #[trigger]
            runs.contains(r) && alive.contains(r.boot_counter) && r.hw_boot_id == hw.hw_boot_id {
            let r = choose|r: Run| #[trigger]
                runs.contains(r) && alive.contains(r.boot_counter) && r.hw_boot_id == hw.hw_boot_id;
            assert(kept.contains(r));
            assert(kept[kept.index_of(r)] == r);
        }
    }
}

/// Sixteen digits stand for zero to fifteen, the letters in either case alike, and nothing else is
/// a digit.
pub proof fn law_hexadecimal_digits_count_to_fifteen(b: u8, d: u8)
    ensures
        d < 10 ==> hex_value((0x30 + d) as u8) == Some(d),
        d < 6 ==> hex_value((0x61 + d) as u8) == Some((10 + d) as u8) && hex_value(
            (0x41 + d) as u8,
        ) == Some((10 + d) as u8),
        hex_value(b) is Some <==> (0x30 <= b < 0x3a || 0x61 <= b < 0x67 || 0x41 <= b < 0x47),
{
}

/// An anchor is told in milliseconds and kept to the microsecond: the moment reads back as the
/// milliseconds it was made of.
pub proof fn law_a_moment_reads_back_in_milliseconds(ms: i64)
    requires
        FIRST_SECOND <= ms as int / 1_000 <= LAST_SECOND,
    ensures
        Utc::of_millis(ms as int).micros == ms * 1_000,
        Utc::of_millis(ms as int).millis() == ms,
{
}

/// An identifier is its digits: dashes count for nothing, wherever they stand, and every other
/// character counts.
pub proof fn law_dashes_count_for_nothing(a: Seq<u8>, b: Seq<u8>, c: u8)
    ensures
        without_dashes(a + seq![0x2du8] + b) == without_dashes(a + b),
        without_dashes(a).contains(c) <==> a.contains(c) && c != 0x2d,
        c != 0x2d ==> without_dashes(a.push(c)) == without_dashes(a).push(c),
        without_dashes(a).len() <= a.len(),
{
    let p = not_dash();
    Seq::filter_distributes_over_add(a, seq![0x2du8], p);
    Seq::filter_distributes_over_add(a + seq![0x2du8], b, p);
    Seq::filter_distributes_over_add(a, b, p);
    assert(seq![0x2du8].filter(p) =~= Seq::<u8>::empty()) by {
        reveal(Seq::filter);
        assert(seq![0x2du8].drop_last().len() == 0);
        assert(seq![0x2du8].last() == 0x2d);
        reveal_with_fuel(Seq::filter, 2);
    }
    assert(a.filter(p) + Seq::<u8>::empty() =~= a.filter(p));
    if a.contains(c) && c != 0x2d {
        a.lemma_filter_contains(p, a.index_of(c));
    }
    if a.filter(p).contains(c) {
        a.lemma_filter_contains_rev(p, c);
        a.lemma_filter_pred(p, a.filter(p).index_of(c));
    }
    assert(a.push(c).drop_last() =~= a);
    reveal(Seq::filter);
    a.lemma_filter_len(p);
}

} // verus!
