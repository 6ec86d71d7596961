//! Runs, boots, anchors and the epochs file.

use dduroc_engine::clock::boottime_us;
use dduroc_engine::epochs::{
    parse_uuid, EpochStore, Epochs, HwBoot, Loaded, Run, RunOffset, SyncSource, Utc,
};
use dduroc_engine::format::{BootTime, Micros};

const KERNEL: [u8; 16] = [3; 16];

/// The epochs file of a device: what is written there, and what is moved aside.
struct Disk {
    file: Option<Vec<u8>>,
    quarantined: Option<Vec<u8>>,
    asked_for_floor: bool,
}

impl Disk {
    fn new() -> Disk {
        Disk { file: None, quarantined: None, asked_for_floor: false }
    }

    fn start(&mut self, base_us: u64, floor: Option<u32>) -> EpochStore {
        let opening = EpochStore::load_for_write(self.file.as_ref());
        if opening.quarantine {
            self.quarantined = self.file.take();
        }
        self.asked_for_floor |= opening.lost;
        let store = EpochStore::open_and_register(opening, KERNEL, base_us, floor);
        self.file = store.epochs().encode();
        store
    }

    fn store(&mut self, base_us: u64) -> EpochStore {
        self.start(base_us, None)
    }

    fn save(&mut self, store: &EpochStore) {
        self.file = store.epochs().encode();
    }
}

fn utc(ms: i64) -> Utc {
    Utc { micros: ms * 1_000 }
}

#[test]
fn a_lost_epochs_file_does_not_restart_run_numbering() {
    let mut disk = Disk::new();
    assert_eq!(disk.store(1_000).current_run().boot_counter, 0);
    assert_eq!(disk.store(2_000).current_run().boot_counter, 1);

    disk.file = None;
    assert_eq!(disk.store(3_000).current_run().boot_counter, 0);
    disk.file = None;
    assert_eq!(
        disk.start(4_000, Some(1)).current_run().boot_counter,
        2,
        "the numbering continues past the last run whose segments are alive"
    );
}

#[test]
fn an_intact_epochs_file_is_never_second_guessed_by_the_disk() {
    let mut disk = Disk::new();
    disk.store(1_000);
    disk.asked_for_floor = false;
    let next = disk.start(2_000, Some(1_000_000));
    assert!(!disk.asked_for_floor, "an intact epochs file needs no walk of the disk");
    assert_eq!(next.current_run().boot_counter, 1);
}

#[test]
fn registers_runs_incrementally_within_one_hw_boot() {
    let mut disk = Disk::new();
    let a = disk.store(1_000);
    assert_eq!(a.current_run().boot_counter, 0);
    drop(a);

    let b = disk.store(2_000);
    assert_eq!(b.current_run().boot_counter, 1);
    assert_eq!(b.current_run().hw_boot_id, 0);
    assert_eq!(b.epochs().hw_boots.len(), 1, "no new boot was invented");
}

#[test]
fn another_kernel_boot_is_another_hardware_boot() {
    let first = EpochStore::register(Epochs::default(), [1; 16], 5, None);
    let second = EpochStore::register(first.epochs, [2; 16], 6, None);
    assert_eq!(second.current_run().hw_boot_id, 1);
    assert_eq!(second.epochs().hw_boots.len(), 2);
    let third = EpochStore::register(second.epochs, [1; 16], 7, None);
    assert_eq!(third.current_run().hw_boot_id, 0, "the boot is recognised again");
    assert_eq!(third.current_run().boot_counter, 2);
}

#[test]
fn anchor_is_retroactive_for_events_before_sync() {
    let mut disk = Disk::new();
    let mut s = disk.store(5_000_000);
    let at = BootTime::from_raw(0, 1_000_000);

    assert_eq!(s.epochs().to_utc(at), None, "there is no anchor yet");

    let now_boottime = boottime_us();
    assert!(s.epochs.set_anchor(0, utc(1_700_000_000_000), SyncSource::Ntp, now_boottime));

    let got = s.epochs().to_utc(at).expect("there is an anchor");
    let expected = 1_700_000_000_000 - (now_boottime / 1_000) as i64 + 6_000;
    assert_eq!(
        got.timestamp_millis(),
        expected,
        "an event from before the synchronization got an absolute time"
    );

    assert_eq!(s.epochs().from_utc(0, got), RunOffset::At(Micros(1_000_000)));
}

#[test]
fn from_utc_distinguishes_before_start_from_no_anchor() {
    let mut disk = Disk::new();
    let mut s = disk.store(5_000_000);

    assert_eq!(s.epochs().from_utc(0, utc(1_700_000_000_000)), RunOffset::Unanchored);

    s.epochs.set_anchor(0, utc(1_700_000_000_000), SyncSource::Gps, 5_000_000);
    let anchor = s.epochs().hw_boot(0).unwrap().utc_anchor().unwrap();
    assert_eq!(
        s.epochs().from_utc(0, anchor),
        RunOffset::BeforeStart,
        "the moment of zero is earlier than the run started"
    );
    let later = |seconds: i64| Utc { micros: anchor.micros + seconds * 1_000_000 };
    assert_eq!(
        s.epochs().from_utc(0, later(5)),
        RunOffset::At(Micros(0)),
        "exactly the run's start"
    );
    assert_eq!(s.epochs().from_utc(0, later(7)), RunOffset::At(Micros(2_000_000)));
    assert_eq!(s.epochs().from_utc(42, utc(1_700_000_000_000)), RunOffset::Unanchored);
}

#[test]
fn anchored_runs_are_distinguishable() {
    let mut disk = Disk::new();
    let mut s = disk.store(1_000);
    assert!(!s.epochs().is_anchored(0));
    assert!(!s.epochs().is_anchored(7), "an unknown run");
    assert!(s.record_sync(utc(1_700_000_000_000), SyncSource::Gps, boottime_us()));
    assert!(s.epochs().is_anchored(0));
    assert_eq!(s.epochs().runs().len(), 1);
}

#[test]
fn anchor_priority_rules() {
    let mut e = Epochs {
        runs: vec![Run { boot_counter: 0, hw_boot_id: 0, boottime_at_init_us: 0 }],
        hw_boots: vec![HwBoot {
            hw_boot_id: 0,
            kernel_boot_id: [0; 16],
            utc_anchor_ms: None,
            anchor_source: None,
            anchor_captured_us: None,
        }],
    };

    assert!(e.set_anchor(0, utc(1_000_000), SyncSource::User, 0), "the first anchor");
    assert!(e.set_anchor(0, utc(2_000_000), SyncSource::Gps, 0), "GPS over a manual entry");
    assert_eq!(e.hw_boots[0].utc_anchor_ms, Some(2_000_000));

    assert!(
        !e.set_anchor(0, utc(3_000_000), SyncSource::User, 0),
        "a manual entry over GPS: no"
    );
    assert!(!e.set_anchor(0, utc(3_000_000), SyncSource::Ntp, 0), "NTP over GPS: no");
    assert_eq!(e.hw_boots[0].utc_anchor_ms, Some(2_000_000), "the anchor is untouched");

    assert!(
        e.set_anchor(0, utc(4_000_000), SyncSource::Gps, 0),
        "a fresh GPS fix refines an old one"
    );
    assert_eq!(e.hw_boots[0].utc_anchor_ms, Some(4_000_000));
    assert_eq!(e.hw_boots[0].utc_anchor(), Some(utc(4_000_000)));

    assert!(!e.set_anchor(99, utc(1), SyncSource::Gps, 0), "an unknown boot");
}

#[test]
fn persists_across_reopen() {
    let mut disk = Disk::new();
    {
        let mut s = disk.store(1_000);
        assert!(s.record_sync(utc(1_700_000_000_000), SyncSource::Gps, boottime_us()));
        disk.save(&s);
    }
    let s = disk.store(2_000);
    assert_eq!(s.current_run().boot_counter, 1);
    let hw = s.epochs().hw_boot(0).unwrap();
    assert!(hw.utc_anchor_ms.is_some(), "the anchor survived the restart");
    assert_eq!(hw.anchor_source, Some(SyncSource::Gps));
    assert!(s.epochs().to_utc(BootTime::from_raw(1, 0)).is_some());
}

#[test]
fn corrupt_file_is_quarantined_not_lost() {
    let mut disk = Disk::new();
    disk.file = Some(b"\xff\xff\xff not postcard".to_vec());

    let s = disk.store(1_000);
    assert_eq!(s.current_run().boot_counter, 0, "we started from a clean slate");
    assert_eq!(
        disk.quarantined.as_deref(),
        Some(&b"\xff\xff\xff not postcard"[..]),
        "the damaged file is kept for examination"
    );
}

#[test]
fn read_only_open_never_writes() {
    let damaged = b"\xff\xff\xff not postcard".to_vec();
    let epochs = EpochStore::open_read_only(Some(&damaged));
    assert!(
        epochs.runs.is_empty() && epochs.hw_boots.is_empty(),
        "without epochs there is only relative time"
    );
    assert!(matches!(EpochStore::read(Some(&damaged)), Loaded::Corrupt));
    assert!(matches!(EpochStore::read(None), Loaded::Missing));
    assert!(EpochStore::open_read_only(None).runs.is_empty());

    let mut disk = Disk::new();
    let mut s = disk.store(1_000);
    assert!(s.record_sync(utc(1_700_000_000_000), SyncSource::Gps, boottime_us()));
    disk.save(&s);
    let epochs = EpochStore::open_read_only(disk.file.as_ref());
    assert_eq!(epochs.runs.len(), 1);
}

#[test]
fn retain_keeps_current_run_and_drops_orphan_hw_boots() {
    let mut disk = Disk::new();
    let mut s = disk.store(1_000);
    s.epochs.runs.push(Run { boot_counter: 100, hw_boot_id: 7, boottime_at_init_us: 0 });
    s.epochs.hw_boots.push(HwBoot {
        hw_boot_id: 7,
        kernel_boot_id: [9; 16],
        utc_anchor_ms: None,
        anchor_source: None,
        anchor_captured_us: None,
    });

    assert!(s.retain_runs(&Vec::new()), "something went, and has to be written");
    assert_eq!(s.epochs().runs.len(), 1);
    assert_eq!(s.epochs().runs[0].boot_counter, 0);
    assert_eq!(s.epochs().hw_boots.len(), 1, "the orphaned boot was removed");
    assert!(!s.retain_runs(&Vec::new()), "nothing is left to go");
}

#[test]
fn uuid_parsing() {
    let id = parse_uuid("0f8fad5b-d9cb-469f-a165-70867728950e").unwrap();
    assert_eq!(id[0], 0x0f);
    assert_eq!(id[15], 0x0e);
    assert_eq!(parse_uuid("not a uuid"), None);
    assert_eq!(parse_uuid(""), None);
    assert_eq!(parse_uuid("0f8fad5b-d9cb-469f-a165-70867728950"), None);
    assert_eq!(parse_uuid("zf8fad5b-d9cb-469f-a165-70867728950e"), None);
}

#[test]
fn uuid_digits_may_be_capital_and_the_dashes_anywhere() {
    let a = parse_uuid("0F8FAD5BD9CB469FA16570867728950E").unwrap();
    let b = parse_uuid("0f8fad5b-d9cb-469f-a165-70867728950e").unwrap();
    assert_eq!(a, b);
    assert_eq!(
        a,
        [
            0x0f, 0x8f, 0xad, 0x5b, 0xd9, 0xcb, 0x46, 0x9f, 0xa1, 0x65, 0x70, 0x86, 0x77, 0x28,
            0x95, 0x0e
        ]
    );
}

#[test]
fn utc_conversion_handles_missing_data() {
    let e = Epochs::default();
    assert_eq!(e.to_utc(BootTime::from_raw(0, 0)), None, "there is no run");
    assert_eq!(e.from_utc(0, utc(1_700_000_000_000)), RunOffset::Unanchored);
}

#[test]
fn absurd_relative_time_does_not_panic() {
    let mut disk = Disk::new();
    let mut s = disk.store(1_000);
    assert!(s.record_sync(utc(1_700_000_000_000), SyncSource::Gps, boottime_us()));
    assert_eq!(s.epochs().to_utc(BootTime::from_raw(0, u64::MAX)), None);
}

#[test]
fn moments_outside_the_calendar_are_no_moments() {
    let boot = |ms: i64| HwBoot {
        hw_boot_id: 0,
        kernel_boot_id: [0; 16],
        utc_anchor_ms: Some(ms),
        anchor_source: None,
        anchor_captured_us: None,
    };
    let last = 8_210_266_876_799_999;
    let first = -8_334_601_228_800_000;
    assert_eq!(boot(last).utc_anchor(), Some(utc(last)));
    assert_eq!(boot(last + 1).utc_anchor(), None);
    assert_eq!(boot(first).utc_anchor(), Some(utc(first)));
    assert_eq!(boot(first - 1).utc_anchor(), None);

    let e = |ms: i64| Epochs {
        runs: vec![Run { boot_counter: 3, hw_boot_id: 0, boottime_at_init_us: 0 }],
        hw_boots: vec![boot(ms)],
    };
    assert_eq!(
        e(last).to_utc(BootTime::from_raw(3, 999)),
        Some(Utc { micros: 8_210_266_876_799_999_999 })
    );
    assert_eq!(e(last).to_utc(BootTime::from_raw(3, 1_000)), None);
    assert_eq!(
        e(first).to_utc(BootTime::from_raw(3, 0)),
        Some(Utc { micros: -8_334_601_228_800_000_000 })
    );
}

#[test]
fn milliseconds_are_rounded_down() {
    assert_eq!(Utc { micros: 1_999 }.timestamp_millis(), 1);
    assert_eq!(Utc { micros: -1 }.timestamp_millis(), -1);
    assert_eq!(Utc { micros: -1_000 }.timestamp_millis(), -1);
    assert_eq!(Utc { micros: i64::MIN }.timestamp_millis(), -9_223_372_036_854_776);
}

#[test]
fn the_epochs_file_keeps_every_field() {
    let e = Epochs {
        runs: vec![
            Run { boot_counter: 1, hw_boot_id: 2, boottime_at_init_us: 3 },
            Run { boot_counter: u32::MAX, hw_boot_id: 0, boottime_at_init_us: u64::MAX },
        ],
        hw_boots: vec![
            HwBoot {
                hw_boot_id: 2,
                kernel_boot_id: [0xab; 16],
                utc_anchor_ms: Some(-5),
                anchor_source: Some(SyncSource::Ntp),
                anchor_captured_us: Some(9),
            },
            HwBoot {
                hw_boot_id: 4,
                kernel_boot_id: [0; 16],
                utc_anchor_ms: None,
                anchor_source: Some(SyncSource::User),
                anchor_captured_us: None,
            },
        ],
    };
    let bytes = e.encode().unwrap();
    let back = Epochs::decode(&bytes).unwrap();
    assert_eq!(back.runs, e.runs);
    assert_eq!(back.hw_boots, e.hw_boots);

    // One run, no boots: the number of runs, its three numbers, no boots.
    let one = Epochs {
        runs: vec![Run { boot_counter: 5, hw_boot_id: 6, boottime_at_init_us: 300 }],
        hw_boots: Vec::new(),
    };
    assert_eq!(one.encode().unwrap(), vec![1, 5, 6, 0xac, 0x02, 0]);
}

#[test]
fn a_source_that_does_not_exist_makes_the_file_unreadable() {
    let mut bytes = vec![0u8, 1, 0];
    bytes.extend([7u8; 16]);
    bytes.extend([0, 1, 2, 0]);
    let e = Epochs::decode(&bytes).unwrap();
    assert_eq!(e.hw_boots[0].anchor_source, Some(SyncSource::Gps));
    let last = bytes.len() - 2;
    bytes[last] = 3;
    assert!(Epochs::decode(&bytes).is_none());
}

#[test]
fn sources_are_named_and_ranked() {
    assert_eq!(SyncSource::User.as_str(), "user");
    assert_eq!(SyncSource::Ntp.as_str(), "ntp");
    assert_eq!(SyncSource::Gps.as_str(), "gps");
    assert!(SyncSource::User < SyncSource::Ntp && SyncSource::Ntp < SyncSource::Gps);
    assert_eq!(SyncSource::of_number(1), Some(SyncSource::Ntp));
    assert_eq!(SyncSource::of_number(3), None);
}

fn anchored(id: u32, ms: Option<i64>) -> HwBoot {
    HwBoot {
        hw_boot_id: id,
        kernel_boot_id: [id as u8; 16],
        utc_anchor_ms: ms,
        anchor_source: ms.map(|_| SyncSource::Ntp),
        anchor_captured_us: ms.map(|_| 0),
    }
}

fn run_of(boot: u32, hw: u32) -> Run {
    Run { boot_counter: boot, hw_boot_id: hw, boottime_at_init_us: 5_000 }
}

#[test]
fn a_number_that_stands_twice_is_answered_one_way() {
    let e = Epochs {
        runs: vec![run_of(1, 0), run_of(1, 1), run_of(1, 0), run_of(2, 7)],
        hw_boots: vec![anchored(0, Some(1_700_000_000_000)), anchored(1, None)],
    };
    for boot in 0..4 {
        let yes = e.is_anchored(boot);
        let at = BootTime::from_raw(boot, 9);
        assert_eq!(yes, e.from_utc(boot, utc(0)) != RunOffset::Unanchored);
        assert_eq!(yes, e.to_utc(at).is_some());
        if let Some(t) = e.to_utc(at) {
            assert_eq!(e.from_utc(boot, t), RunOffset::At(Micros(9)));
        }
    }
    assert!(!e.is_anchored(0), "an unknown run");
    assert!(!e.is_anchored(2), "a run of an unknown boot");
}

#[test]
fn a_cleanup_leaves_the_living_alone_and_is_done_once() {
    let mut e = Epochs {
        runs: vec![run_of(1, 0), run_of(2, 1), run_of(3, 1)],
        hw_boots: vec![
            anchored(0, Some(1_700_000_000_000)),
            anchored(1, Some(1_800_000_000_000)),
            anchored(2, None),
        ],
    };
    let at = |boot| BootTime::from_raw(boot, 77);
    let before = e.to_utc(at(3));
    assert!(before.is_some());
    e.retain_runs(&vec![3, 9]);
    assert_eq!(e.to_utc(at(3)), before);
    assert_eq!(e.to_utc(at(1)), None);
    assert_eq!(e.to_utc(at(2)), None);
    assert_eq!(e.runs, vec![run_of(3, 1)]);
    let boots = e.hw_boots.clone();
    assert_eq!(boots.len(), 1);
    e.retain_runs(&vec![3, 9]);
    assert_eq!(e.runs, vec![run_of(3, 1)]);
    assert_eq!(e.hw_boots, boots);
}

#[test]
fn the_current_run_stays_listed_with_its_boot() {
    let mut disk = Disk::new();
    let mut s = disk.store(1_000);
    for round in 0..3 {
        assert!(s.record_sync(utc(1_700_000_000_000 + round), SyncSource::Gps, 2_000));
        s.retain_runs(&Vec::new());
        let current = s.current_run();
        assert!(s.epochs().runs.contains(&current));
        assert!(s.epochs().hw_boots.iter().any(|b| b.hw_boot_id == current.hw_boot_id));
        assert!(s.epochs().is_anchored(current.boot_counter));
    }
}
