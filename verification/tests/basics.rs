//! Settings, counters, names, notices, staged records and the clock.

use dduroc_engine::channel::{
    validate_component, ChannelConfig, ChannelOverride, Interval, BLOCK_TOO_LARGE, BLOCK_TOO_SMALL,
    BUDGET_TOO_SMALL, DOT_NAME, EMPTY_NAME, FOREIGN_CHARACTER, LONG_NAME, RESERVED_EXTENSION,
    RESERVED_NAME,
};
use dduroc_engine::clock::{boottime_us, micros_of, Clock};
use dduroc_engine::diag::{drop_notice, parse_drop_notice, TARGET};
use dduroc_engine::error::Error;
use dduroc_engine::format::{
    BootCounter, BootTime, Compression, EventId, MetricId, Micros, SpanId, Value, ValueType,
};
use dduroc_engine::fsutil::{is_temporary, tmp_path, DIR_MODE, FILE_MODE};
use dduroc_engine::metric::{Blob, Double, Metric, MetricValue, Single};
use dduroc_engine::pulse::{Pulse, Wait};
use dduroc_engine::schema::StorageClass;
use dduroc_engine::staged::{
    ChannelIdx, DropCounters, NsId, OwnedValue, Payload, Record, Staged, StagedRecord,
    INLINE_PAYLOAD,
};
use dduroc_engine::stats::{Counters, Stats};
use dduroc_engine::writer::QueueSizes;

// -- channels ----------------------------------------------------------------

#[test]
fn segment_size_does_not_scale_with_the_class_budget() {
    let c = ChannelConfig::new(20 * 1024 * 1024 * 1024);
    assert_eq!(c.segment_bytes, 8 * 1024 * 1024);
    c.validate(StorageClass::Default).unwrap();

    let c = ChannelConfig::new(64 * 1024 * 1024);
    assert_eq!(c.segment_bytes, 8 * 1024 * 1024, "nor with a small one");
    assert_eq!(c.max_segments(), 8);
    c.validate(StorageClass::Default).unwrap();
}

#[test]
fn critical_channel_avoids_buffering() {
    let c = ChannelConfig::critical(256 * 1024 * 1024);
    assert_eq!(
        c.sync_interval,
        Interval::zero(),
        "syncing at once is what makes a channel critical"
    );
    assert_eq!(c.compression, Compression::Plain);
    assert!(c.flush_interval < Interval::from_secs(1));
    c.validate(StorageClass::Default).unwrap();
}

#[test]
fn degenerate_configs_rejected() {
    let mut c = ChannelConfig::new(64 * 1024 * 1024);
    c.budget_bytes = c.segment_bytes;
    assert!(
        c.validate(StorageClass::Default).is_err(),
        "a budget of one segment makes no sense"
    );
    assert_eq!(c.check(), Err(BUDGET_TOO_SMALL));

    let mut c = ChannelConfig::new(64 * 1024 * 1024);
    c.block_max_bytes = 16;
    assert!(c.validate(StorageClass::Default).is_err());
    assert_eq!(c.check(), Err(BLOCK_TOO_SMALL));

    let mut c = ChannelConfig::new(64 * 1024 * 1024);
    c.block_max_bytes = c.segment_bytes as usize;
    assert!(c.validate(StorageClass::Default).is_err());
    assert_eq!(c.check(), Err(BLOCK_TOO_LARGE));
    assert!(matches!(
        c.validate(StorageClass::Telemetry),
        Err(Error::BadChannel { class: StorageClass::Telemetry, namespace: None, .. })
    ));
}

#[test]
fn path_components_are_validated_strictly() {
    for good in ["default", "orc-radio-0", "apt_x", "a.b", "A1"] {
        assert!(validate_component(good).is_ok(), "{good} has to pass");
    }
    for bad in [
        "",
        "..",
        ".",
        ".hidden",
        "a/b",
        "a\\b",
        "../etc",
        "a b",
        "имя",
        "a\0b",
        "x.tmp",
        "x.seg",
        "x.corrupt",
        "\n",
    ] {
        assert!(validate_component(bad).is_err(), "{bad:?} has to be refused");
    }
    assert!(validate_component(&"x".repeat(64)).is_ok());
    assert!(validate_component(&"x".repeat(65)).is_err());
}

#[test]
fn every_objection_to_a_name_has_its_reason() {
    assert_eq!(validate_component(""), Err(EMPTY_NAME));
    assert_eq!(validate_component(&"x".repeat(65)), Err(LONG_NAME));
    assert_eq!(validate_component(".."), Err(RESERVED_NAME));
    assert_eq!(validate_component(".hidden"), Err(DOT_NAME));
    assert_eq!(validate_component("a/b"), Err(FOREIGN_CHARACTER));
    assert_eq!(validate_component("x.seg"), Err(RESERVED_EXTENSION));
    // The length is in bytes: 33 two-byte letters are too long before they are
    // foreign.
    assert_eq!(validate_component(&"я".repeat(33)), Err(LONG_NAME));
}

#[test]
fn an_override_leaves_budget_and_medium_alone() {
    let mut c = ChannelConfig::new(64 << 20);
    c.custom_root = Some("/vault".to_owned());
    let before = c.clone();
    let over = ChannelOverride::new()
        .segment_bytes(1 << 20)
        .block_max_bytes(4096)
        .flush_interval(Interval::from_millis(5))
        .sync_interval(Interval::from_secs(3))
        .compression(Compression::Plain);
    over.apply_to(&mut c);
    assert_eq!(c.budget_bytes, before.budget_bytes);
    assert_eq!(c.custom_root, before.custom_root);
    assert_eq!(c.segment_bytes, 1 << 20);
    assert_eq!(c.block_max_bytes, 4096);
    assert_eq!(c.flush_interval.nanos, 5_000_000);
    assert_eq!(c.sync_interval.nanos, 3_000_000_000);
    assert_eq!(c.compression, Compression::Plain);
    let once = c.clone();
    over.apply_to(&mut c);
    assert_eq!(c, once);
    ChannelOverride::default().apply_to(&mut c);
    assert_eq!(c, once);
}

// -- errors ------------------------------------------------------------------

#[test]
fn lost_records_are_distinguishable_from_caller_bugs() {
    for lost in [Error::QueueFull, Error::WriterDead, Error::ShuttingDown] {
        assert!(lost.loses_record(), "{lost:?}");
        assert!(!lost.breaks_contract(), "{lost:?}");
    }

    let bugs = [
        Error::UnknownEvent { schema: "radio", event: 7 },
        Error::UnknownMetric { metric_id: 7 },
        Error::UnknownSpanKind { schema: "radio", kind: 7 },
        Error::ValueTypeMismatch {
            metric_id: 1,
            declared: ValueType::F32,
            got: ValueType::U64,
        },
        Error::ClassNotDeclared { schema: "radio", class: StorageClass::Critical },
        Error::EncodeFailed { event: "PowerSet" },
    ];
    for bug in bugs {
        assert!(bug.breaks_contract(), "{bug:?}");
        assert!(!bug.loses_record(), "{bug:?}");
    }

    let io = Error::NoSpace("/data".to_owned());
    assert!(!io.loses_record());
    assert!(!io.breaks_contract());
}

#[test]
fn a_full_medium_is_recognised_by_its_code() {
    let full = Error::Io { context: "writing".to_owned(), os_code: Some(28) };
    assert!(full.is_no_space());
    assert!(Error::NoSpace("/data".to_owned()).is_no_space());
    let other = Error::Io { context: "writing".to_owned(), os_code: Some(5) };
    assert!(!other.is_no_space());
    assert!(!Error::QueueFull.is_no_space());
    let taken = Error::Io { context: "creating".to_owned(), os_code: Some(17) };
    assert!(taken.is_already_exists() && !taken.is_not_found());
    let gone = Error::Io { context: "opening".to_owned(), os_code: Some(2) };
    assert!(gone.is_not_found() && !gone.is_already_exists());
    // A sync that did not catch up is neither a loss nor a defect.
    assert!(!Error::SyncIncomplete.loses_record() && !Error::SyncIncomplete.breaks_contract());
}

// -- counters ----------------------------------------------------------------

#[test]
fn counters_accumulate() {
    let mut c = Counters::default();
    Counters::bump(&mut c.records_written);
    Counters::add(&mut c.records_written, 9);
    Counters::bump(&mut c.dropped);

    let s = c.snapshot();
    assert_eq!(s.records_written, 10);
    assert_eq!(s.dropped, 1);
    assert!(!s.is_clean(), "losses must be visible");
    assert!(Stats::default().is_clean());

    let mut c = Counters::default();
    Counters::bump(&mut c.rejected);
    let s = c.snapshot();
    assert_eq!(s.dropped, 0);
    assert_eq!(s.rejected, 1);
    assert!(!s.is_clean(), "a refused record must be visible");
}

#[test]
fn counters_wrap_around_and_add_up() {
    let mut c = Counters::default();
    Counters::add(&mut c.dropped, u64::MAX);
    Counters::bump(&mut c.dropped);
    assert_eq!(c.dropped, 0);
    Counters::add(&mut c.dropped, 3);
    Counters::add(&mut c.dropped, 4);
    Counters::publish(&mut c.dropped);
    assert_eq!(c.dropped, 8);
}

// -- notices -----------------------------------------------------------------

#[test]
fn a_notice_survives_the_round_trip() {
    assert_eq!(parse_drop_notice(TARGET, &drop_notice(42)), Some(42));
    assert_eq!(
        parse_drop_notice("app", &drop_notice(42)),
        None,
        "a foreign target is no notice of the engine"
    );
    assert_eq!(parse_drop_notice(TARGET, "everything lost"), None);
}

#[test]
fn notices_of_every_size_read_back() {
    for n in [0, 1, 9, 10, 4096, u64::MAX - 1, u64::MAX] {
        assert_eq!(parse_drop_notice("dduroc", &drop_notice(n)), Some(n));
    }
    assert_eq!(drop_notice(7), "records lost: 7 (the queue overflowed)");
    assert_eq!(parse_drop_notice(TARGET, "records lost:  12\tof many"), Some(12));
    assert_eq!(parse_drop_notice(TARGET, "records lost: +12"), Some(12));
    assert_eq!(parse_drop_notice(TARGET, "records lost: "), None);
    assert_eq!(parse_drop_notice(TARGET, "records lost: many"), None);
    assert_eq!(
        parse_drop_notice(TARGET, "records lost: 18446744073709551616"),
        None
    );
}

// -- files -------------------------------------------------------------------

#[test]
fn tmp_is_a_sibling_for_same_filesystem_rename() {
    assert_eq!(tmp_path("/data/logs/ns/epochs.bin"), "/data/logs/ns/epochs.bin.tmp");
}

#[test]
fn every_path_has_a_temporary_one() {
    let cases = [
        ("epochs.bin", "epochs.bin.tmp"),
        ("/epochs.bin", "/epochs.bin.tmp"),
        ("a/b/", "a/b.tmp"),
        ("a/b//", "a/b.tmp"),
        ("a//b", "a/b.tmp"),
        ("//b", "/b.tmp"),
        ("a/./b", "a/b.tmp"),
        ("a/b/.", "a/b.tmp"),
        ("./b", "./b.tmp"),
        ("../b", "../b.tmp"),
        ("", ".tmp"),
        ("/", "/.tmp"),
        (".", "./.tmp"),
        ("a/..", "a/../.tmp"),
    ];
    for (path, tmp) in cases {
        assert_eq!(tmp_path(path), tmp, "of {path:?}");
        let p = std::path::Path::new(path);
        let mut name = p.file_name().unwrap_or_default().to_os_string();
        name.push(".tmp");
        assert_eq!(p.with_file_name(name), std::path::Path::new(tmp), "of {path:?}");
    }
}

#[test]
fn only_temporary_names_are_swept() {
    assert!(is_temporary("a.seg.tmp"));
    assert!(is_temporary("meta.tmp"));
    assert!(!is_temporary("a.seg"));
    assert!(!is_temporary(".tmp"), "a hidden file has no ending");
    assert!(is_temporary(&tmp_path("epochs.bin")));
    assert_eq!(FILE_MODE, 0o640);
    assert_eq!(DIR_MODE, 0o750);
}

// -- pulse -------------------------------------------------------------------

#[test]
fn nothing_new_means_waiting_out_the_timeout() {
    let mut pulse = Pulse::new();
    let seen = pulse.beat();
    let timeout = Interval::from_millis(30);
    let deadline = match pulse.wait(seen, timeout, 1_000) {
        Wait::Sleep { deadline } => deadline,
        other => panic!("expected a sleep, got {other:?}"),
    };
    assert_eq!(deadline, 1_000 + 30_000_000);
    assert_eq!(
        pulse.resume(seen, deadline, deadline),
        Wait::Sleep { deadline },
        "not a moment too early"
    );
    assert_eq!(pulse.resume(seen, deadline, deadline + 1), Wait::Over(seen));
}

#[test]
fn a_beat_that_happened_before_the_wait_is_not_slept_through() {
    let mut pulse = Pulse::new();
    let seen = pulse.beat();
    pulse.data_written();
    match pulse.wait(seen, Interval::from_secs(30), 0) {
        Wait::Over(now) => assert_ne!(now, seen),
        other => panic!("it must not sleep: {other:?}"),
    }
}

#[test]
fn a_wait_longer_than_the_clock_can_count_is_shortened_not_fatal() {
    let mut pulse = Pulse::new();
    let seen = pulse.beat();
    let forever = Interval { nanos: u64::MAX };
    match pulse.wait(seen, forever, 5) {
        Wait::Sleep { deadline } => assert!(deadline > 5 && deadline < u64::MAX),
        other => panic!("{other:?}"),
    }
    assert!(pulse.data_written(), "there is a sleeper to wake");
    match pulse.resume(seen, u64::MAX, 6) {
        Wait::Over(now) => assert_ne!(now, seen),
        other => panic!("{other:?}"),
    }
    assert!(!pulse.data_written(), "nobody is waiting any more");
}

#[test]
fn kinds_of_change_are_told_apart() {
    let mut pulse = Pulse::new();
    let start = pulse.beat();
    pulse.data_written();
    let after_data = pulse.beat();
    assert_eq!(after_data.shape, start.shape, "the directories did not change");
    assert_ne!(after_data.data, start.data);

    pulse.shape_changed();
    let after_shape = pulse.beat();
    assert_eq!(after_shape.data, after_data.data, "there were no new blocks");
    assert_ne!(after_shape.shape, after_data.shape);
}

#[test]
fn a_sleeping_reader_is_woken_by_a_block() {
    let mut pulse = Pulse::new();
    let seen = pulse.beat();
    let deadline = match pulse.wait(seen, Interval::from_secs(10), 0) {
        Wait::Sleep { deadline } => deadline,
        other => panic!("expected a sleep, got {other:?}"),
    };
    assert!(pulse.data_written(), "a sleeper must be woken");
    match pulse.resume(seen, deadline, 20_000_000) {
        Wait::Over(now) => assert_ne!(now, seen, "by the writer, not by the timeout"),
        other => panic!("{other:?}"),
    }
}

#[test]
fn closing_wakes_everyone_and_stays_closed() {
    let mut pulse = Pulse::new();
    let seen = pulse.beat();
    assert!(!seen.closed);
    assert!(matches!(pulse.wait(seen, Interval::from_secs(10), 0), Wait::Sleep { .. }));
    assert!(pulse.close(), "a stop wakes unconditionally");
    assert!(pulse.beat().closed);
    pulse.roster_changed();
    let after = pulse.beat();
    assert!(after.closed, "a stop is irreversible");
    assert_eq!((after.data, after.shape, after.roster), (0, 0, 1));
    assert!(matches!(pulse.resume(seen, 10, 1), Wait::Over(b) if b.closed));
}

// -- staged records ----------------------------------------------------------

#[test]
fn typical_payload_stays_inline() {
    let payload = Payload::from_slice(&[0u8; 20]);
    assert!(payload.is_inline(), "a typical payload must stay inline");

    let big = Payload::from_slice(&[0u8; INLINE_PAYLOAD + 1]);
    assert!(!big.is_inline(), "a large payload goes to the heap");
}

#[test]
fn payloads_hold_their_bytes() {
    let short = [1u8, 2, 3];
    let long: Vec<u8> = (0..200u8).collect();
    assert_eq!(Payload::from_slice(&short).as_slice(), &short);
    assert_eq!(Payload::from_slice(&long).as_slice(), &long[..]);
    assert_eq!(Payload::from_vec(long.clone()).as_slice(), &long[..]);
    assert_eq!(Payload::from_vec(Vec::new()).as_slice(), &[] as &[u8]);
}

#[test]
fn owned_value_roundtrips_through_format() {
    for v in [
        OwnedValue::F32(1.5f32.to_bits()),
        OwnedValue::F64((-2.5f64).to_bits()),
        OwnedValue::I64(-7),
        OwnedValue::U64(9),
        OwnedValue::Bool(true),
        OwnedValue::Blob(Payload::from_slice(&[1, 2, 3])),
    ] {
        assert_eq!(v.as_value().value_type(), v.value_type());
    }
}

#[test]
fn sample_needs_nothing_resolved() {
    let rec = StagedRecord::Sample {
        metric: MetricId(7),
        value: OwnedValue::F32(1.0f32.to_bits()),
    };
    match rec.as_record() {
        Record::Sample { metric, value } => {
            assert_eq!(metric, MetricId(7));
            assert!(matches!(value, Value::F32(bits) if bits == 1.0f32.to_bits()));
        }
        other => panic!("expected a sample: {other:?}"),
    }
    assert_eq!(
        Staged { ns: NsId(0), channel: ChannelIdx(0), at: Micros(0), record: rec }.footer_ids(),
        (None, Some(MetricId(7))),
        "the metric must reach the footer set"
    );
}

#[test]
fn message_borrows_payload_without_copy() {
    let rec = StagedRecord::Message {
        event: EventId(1),
        span: None,
        payload: Payload::from_slice(&[9, 8, 7]),
    };
    match rec.as_record() {
        Record::Message { payload, .. } => assert_eq!(payload, &[9, 8, 7]),
        other => panic!("expected a message: {other:?}"),
    }
}

#[test]
fn footer_ids_split_events_from_metrics() {
    let sample = Staged {
        ns: NsId(0),
        channel: ChannelIdx(0),
        at: Micros(0),
        record: StagedRecord::Sample {
            metric: MetricId(4),
            value: OwnedValue::F32(1.0f32.to_bits()),
        },
    };
    assert_eq!(sample.footer_ids(), (None, Some(MetricId(4))));

    let span = Staged {
        record: StagedRecord::SpanEnd { span: SpanId(1) },
        ..sample
    };
    assert_eq!(span.footer_ids(), (None, None), "a span is not a data type");

    let message = Staged {
        record: StagedRecord::Message {
            event: EventId(7),
            span: None,
            payload: Payload::from_slice(&[]),
        },
        ..span
    };
    assert_eq!(message.footer_ids(), (Some(EventId(7)), None));
}

#[test]
fn losses_are_handed_out_once_and_by_channel() {
    let mut drops = DropCounters::new(2);
    drops.record(ChannelIdx(0));
    drops.record_n(ChannelIdx(1), 100);
    drops.record(ChannelIdx(9));
    assert_eq!(drops.take(ChannelIdx(0)), 1);
    assert_eq!(drops.take(ChannelIdx(0)), 0);
    assert_eq!(drops.take(ChannelIdx(1)), 100);
    assert_eq!(drops.take(ChannelIdx(9)), 0);
    assert_eq!(drops.channels(), 2);
}

// -- metrics -----------------------------------------------------------------

#[test]
fn marker_costs_nothing() {
    assert_eq!(
        std::mem::size_of::<Metric<Single>>(),
        std::mem::size_of::<MetricId>(),
        "the type marker must take no space"
    );
    assert_eq!(Metric::<Vec<u8>>::new(MetricId(1)).id(), MetricId(1));
}

#[test]
fn values_convert_to_declared_types() {
    assert_eq!(
        MetricValue::<Single>::into_owned(Single(1.5f32.to_bits())).value_type(),
        ValueType::F32
    );
    assert_eq!(MetricValue::<bool>::into_owned(true).value_type(), ValueType::Bool);
    assert_eq!(
        MetricValue::<Blob>::into_owned(&[1u8, 2][..]).value_type(),
        ValueType::Blob
    );
    assert_eq!(
        MetricValue::<Blob>::into_owned(vec![1u8, 2]).value_type(),
        ValueType::Blob
    );
    assert_eq!(MetricValue::<i64>::into_owned(-3i64), OwnedValue::I64(-3));
    assert_eq!(MetricValue::<u64>::into_owned(3u64), OwnedValue::U64(3));
    assert_eq!(
        MetricValue::<Double>::into_owned(Double(0.5f64.to_bits())),
        OwnedValue::F64(0.5f64.to_bits())
    );
    match MetricValue::<Blob>::into_owned(vec![7u8; 100]) {
        OwnedValue::Blob(p) => assert_eq!(p.as_slice(), &[7u8; 100][..]),
        other => panic!("{other:?}"),
    }
}

// -- clock -------------------------------------------------------------------

#[test]
fn boottime_is_monotonic() {
    let a = boottime_us();
    let b = boottime_us();
    assert!(b >= a, "the boot clock must not run backwards: {a} then {b}");
    assert!(a > 0, "the system has been up for a while");
}

#[test]
fn starts_near_zero_and_advances() {
    let mut clock = Clock::start(BootCounter(7));
    let t0 = clock.now();
    assert!(t0.0 < 1_000_000, "counting starts close to zero: {t0:?}");

    let mut spin = 0u64;
    while clock.now().0 == t0.0 && spin < 50_000_000 {
        spin += 1;
    }
    assert!(clock.now().0 >= t0.0);

    let at = clock.now_at();
    assert_eq!(at.boot, BootCounter(7));
    assert!(at.at.0 >= t0.0);
}

#[test]
fn base_in_future_clamps_to_zero() {
    let mut clock = Clock::with_base(BootCounter(0), boottime_us() + 60_000_000);
    assert_eq!(clock.now(), Micros(0));
}

#[test]
fn a_clock_that_steps_back_repeats_itself() {
    let mut clock = Clock::with_base(BootCounter(1), 1_000);
    assert_eq!(clock.at(1_500), Micros(500));
    assert_eq!(clock.at(1_200), Micros(500));
    assert_eq!(clock.at(0), Micros(500));
    assert_eq!(clock.at(2_000), Micros(1_000));
    assert_eq!(clock.base_us(), 1_000);
    assert_eq!(clock.boot(), BootCounter(1));
    assert_eq!(BootTime::from_raw(1, 2), BootTime::new(BootCounter(1), Micros(2)));
}

#[test]
fn readings_become_microseconds() {
    assert_eq!(micros_of(2, 3_500), 2_000_003);
    assert_eq!(micros_of(0, 999), 0);
    assert_eq!(micros_of(-1, 0), 0);
    assert_eq!(micros_of(i64::MAX, 0), u64::MAX);
}

// -- queues ------------------------------------------------------------------

#[test]
fn queue_sizes_never_degenerate_to_rendezvous() {
    let q = QueueSizes { normal: 0, critical: 0 }.sanitized();
    assert_eq!(q.normal, 1);
    assert_eq!(q.critical, 1);

    let d = QueueSizes::default();
    assert_eq!(d.sanitized(), d, "sensible values are not distorted");
    assert_eq!(d, QueueSizes { normal: 8192, critical: 1024 });
}
