//! Limits: the schema's defaults, overrides and closures.

use dduroc_engine::error::Error;
use dduroc_engine::format::{MetricId, ProtocolVersion, Value, ValueType};
use dduroc_engine::limits::{
    LimitsRegistry, MetricLimits, BOUNDS_ON_AN_ENUM, CLOSURE_ON_A_BLOB, NOT_NESTED,
    STATES_ON_A_NUMBER, UNKNOWN_STATE,
};
use dduroc_engine::scalar::Scalar;
use dduroc_engine::schema::{
    Language, MetricDesc, MetricKind, Range, Reading, Schema, Severity, StateDesc, StorageClass,
    Thresholds,
};

static LANGS: &[Language] = &[Language("en")];

static STATES: &[StateDesc] = &[
    StateDesc { code: 0, name: "Los", severity: Severity::Alarm },
    StateDesc { code: 1, name: "Sync", severity: Severity::Warn },
    StateDesc { code: 2, name: "Lock", severity: Severity::Normal },
];

fn number(v: f64) -> Scalar {
    Scalar::from_bits(v.to_bits())
}

fn range(min: Option<f64>, max: Option<f64>) -> Range {
    Range { min: min.map(number), max: max.map(number) }
}

fn leak(metrics: Vec<MetricDesc>) -> &'static [MetricDesc] {
    Box::leak(metrics.into_boxed_slice())
}

fn metric(id: u16, name: &'static str, value_type: ValueType) -> MetricDesc {
    MetricDesc {
        id: MetricId(id),
        name,
        value_type,
        class: StorageClass::Telemetry,
        unit: "",
        tags: &[],
        kind: MetricKind::Gauge,
        states: &[],
        thresholds: Thresholds::none(),
    }
}

fn with(metrics: Vec<MetricDesc>) -> Schema {
    Schema {
        name: "radio",
        version: ProtocolVersion(1),
        languages: LANGS,
        events: &[],
        metrics: leak(metrics),
        spans: &[],
        migrations: &[],
    }
}

fn schema() -> Schema {
    with(vec![
        MetricDesc {
            unit: "°C",
            tags: &["thermal"],
            thresholds: Thresholds {
                warn: range(Some(0.0), Some(70.0)),
                alarm: range(Some(-10.0), Some(85.0)),
            },
            ..metric(1, "temp", ValueType::F32)
        },
        MetricDesc {
            kind: MetricKind::State,
            states: STATES,
            ..metric(2, "link", ValueType::U64)
        },
    ])
}

fn float(v: f32) -> Reading<'static> {
    Reading {
        value: Value::F32(v.to_bits()),
        number: Some(number(f64::from(v))),
        warn_hit: false,
        alarm_hit: false,
    }
}

fn code(v: u64) -> Reading<'static> {
    Reading {
        value: Value::U64(v),
        number: Some(number(v as f64)),
        warn_hit: false,
        alarm_hit: false,
    }
}

#[test]
fn schema_defaults_classify_numeric_values() {
    let (s, r) = (schema(), LimitsRegistry::new());
    let sev = |v: f32| r.severity_of(&s, MetricId(1), &float(v), None);
    assert_eq!(sev(36.6), Severity::Normal);
    assert_eq!(sev(0.0), Severity::Normal, "the bound is inclusive");
    assert_eq!(sev(70.0), Severity::Normal);
    assert_eq!(sev(71.0), Severity::Warn);
    assert_eq!(sev(-5.0), Severity::Warn, "below normal is a warning too");
    assert_eq!(sev(90.0), Severity::Alarm);
    assert_eq!(sev(-50.0), Severity::Alarm);
    assert_eq!(sev(f32::NAN), Severity::Alarm, "an unknown value cannot count as normal");
}

#[test]
fn state_severity_comes_from_the_state_not_from_ranges() {
    let (s, r) = (schema(), LimitsRegistry::new());
    let sev = |c: u64| r.severity_of(&s, MetricId(2), &code(c), None);
    assert_eq!(sev(0), Severity::Alarm, "Los");
    assert_eq!(sev(1), Severity::Warn, "Sync");
    assert_eq!(sev(2), Severity::Normal, "Lock");
    assert_eq!(sev(99), Severity::Normal, "an unfamiliar code has nothing to warn about");
}

#[test]
fn runtime_override_wins_over_schema() {
    let (s, mut r) = (schema(), LimitsRegistry::new());
    r.set(
        &s,
        MetricId(1),
        Some(MetricLimits::numeric(Thresholds {
            warn: range(None, Some(40.0)),
            alarm: range(None, Some(50.0)),
        })),
    )
    .unwrap();

    let sev = |r: &LimitsRegistry, v: f32| r.severity_of(&s, MetricId(1), &float(v), None);
    assert_eq!(sev(&r, 36.6), Severity::Normal);
    assert_eq!(sev(&r, 45.0), Severity::Warn, "the schema would have said Normal");
    assert_eq!(sev(&r, 60.0), Severity::Alarm);

    let eff = r.effective(&s, MetricId(1)).unwrap();
    assert!(eff.overridden);
    assert_eq!(eff.thresholds.warn.max, Some(number(40.0)));
    assert_eq!(eff.unit, "°C", "the metric's statics are untouched");

    r.set(&s, MetricId(1), None).unwrap();
    assert_eq!(sev(&r, 45.0), Severity::Normal);
    assert!(!r.effective(&s, MetricId(1)).unwrap().overridden);
}

#[test]
fn an_override_that_repeats_the_schema_overrides_nothing() {
    let (s, mut r) = (schema(), LimitsRegistry::new());
    let declared = r.effective(&s, MetricId(1)).unwrap().thresholds;
    r.set(&s, MetricId(1), Some(MetricLimits::numeric(declared))).unwrap();
    assert!(!r.effective(&s, MetricId(1)).unwrap().overridden);
    r.set(&s, MetricId(2), Some(MetricLimits::states(vec![(0, Severity::Alarm)]))).unwrap();
    assert!(!r.effective(&s, MetricId(2)).unwrap().overridden);
    r.set(&s, MetricId(2), Some(MetricLimits::states(vec![(0, Severity::Warn)]))).unwrap();
    assert!(r.effective(&s, MetricId(2)).unwrap().overridden);
}

#[test]
fn state_severity_can_be_reassigned_at_runtime() {
    let (s, mut r) = (schema(), LimitsRegistry::new());
    r.set(&s, MetricId(2), Some(MetricLimits::states(vec![(1, Severity::Normal)]))).unwrap();

    assert_eq!(r.severity_of(&s, MetricId(2), &code(1), None), Severity::Normal);
    assert_eq!(
        r.severity_of(&s, MetricId(2), &code(0), None),
        Severity::Alarm,
        "states that were not overridden stay as the schema has them"
    );

    let eff = r.effective(&s, MetricId(2)).unwrap();
    assert_eq!(eff.states.len(), 3);
    assert_eq!(eff.states[1].name, "Sync");
    assert_eq!(eff.states[1].severity, Severity::Normal);
    assert_eq!(eff.states[0].severity, Severity::Alarm);
    assert_eq!(eff.kind, MetricKind::State);
}

#[test]
fn nonsensical_limits_are_refused_not_ignored() {
    let (s, mut r) = (schema(), LimitsRegistry::new());

    let err = r
        .set(
            &s,
            MetricId(2),
            Some(MetricLimits::numeric(Thresholds {
                warn: range(Some(0.0), Some(1.0)),
                alarm: Range::none(),
            })),
        )
        .unwrap_err();
    assert!(
        matches!(err, Error::BadLimits { metric_name: "link", reason } if reason == BOUNDS_ON_AN_ENUM),
        "got {err:?}"
    );

    let err = r
        .set(&s, MetricId(1), Some(MetricLimits::states(vec![(0, Severity::Warn)])))
        .unwrap_err();
    assert!(
        matches!(err, Error::BadLimits { reason, .. } if reason == STATES_ON_A_NUMBER),
        "got {err:?}"
    );

    let err = r
        .set(&s, MetricId(2), Some(MetricLimits::states(vec![(42, Severity::Warn)])))
        .unwrap_err();
    assert!(
        matches!(err, Error::BadLimits { reason, .. } if reason == UNKNOWN_STATE),
        "a code outside the schema"
    );

    let err = r
        .set(
            &s,
            MetricId(1),
            Some(MetricLimits::numeric(Thresholds {
                warn: range(None, Some(80.0)),
                alarm: range(None, Some(50.0)),
            })),
        )
        .unwrap_err();
    assert!(matches!(err, Error::BadLimits { reason, .. } if reason == NOT_NESTED), "nesting");

    let err = r.set(&s, MetricId(99), None).unwrap_err();
    assert!(matches!(err, Error::UnknownMetric { metric_id: 99 }), "{err:?}");
    assert!(!r.effective(&s, MetricId(1)).unwrap().overridden, "nothing was swallowed");
    assert!(matches!(
        r.effective(&s, MetricId(99)),
        Err(Error::UnknownMetric { metric_id: 99 })
    ));
}

#[test]
fn schema_predicates_join_ranges_by_the_heavier_diagnosis() {
    fn warn_hit(v: f64) -> bool {
        v > 1.5
    }
    fn alarm_hit(v: f64) -> bool {
        !(1.0..=3.0).contains(&v)
    }
    let s = with(vec![metric(1, "vswr", ValueType::F32)]);
    let mut r = LimitsRegistry::new();
    let reading = |v: f32| Reading {
        warn_hit: warn_hit(f64::from(v)),
        alarm_hit: alarm_hit(f64::from(v)),
        ..float(v)
    };
    let sev = |r: &LimitsRegistry, v: f32| r.severity_of(&s, MetricId(1), &reading(v), None);
    assert_eq!(sev(&r, 1.2), Severity::Normal);
    assert_eq!(sev(&r, 2.0), Severity::Warn);
    assert_eq!(sev(&r, 3.5), Severity::Alarm);
    assert_eq!(sev(&r, 0.5), Severity::Alarm, "triggering from below is the whole point");

    r.set(
        &s,
        MetricId(1),
        Some(MetricLimits::numeric(Thresholds {
            warn: range(Some(1.05), None),
            alarm: Range::none(),
        })),
    )
    .unwrap();
    assert_eq!(sev(&r, 1.02), Severity::Warn, "the new range is in force");
    assert_eq!(sev(&r, 0.5), Severity::Alarm, "the schema's predicate is not cancelled");
}

#[test]
fn severity_fn_takes_the_diagnosis_over_entirely() {
    let (s, mut r) = (schema(), LimitsRegistry::new());
    let mut latched = false;
    let hw_max = 42.0;
    let mut check = |v: f64| {
        if v > hw_max {
            latched = true;
        }
        if latched {
            Severity::Alarm
        } else {
            Severity::Normal
        }
    };
    r.set_fn(&s, MetricId(1), true).unwrap();

    let mut sev = |r: &LimitsRegistry, v: f32| {
        let reading = float(v);
        let judged = if r.asks_fn(&s, MetricId(1), &reading) {
            Some(check(f64::from(v)))
        } else {
            None
        };
        r.severity_of(&s, MetricId(1), &reading, judged)
    };
    assert_eq!(sev(&r, 90.0), Severity::Alarm, "the schema's 85 is no longer relevant");
    assert_eq!(
        sev(&r, 20.0),
        Severity::Alarm,
        "the closure remembers the context: the fault is latched"
    );
    assert!(r.effective(&s, MetricId(1)).unwrap().has_severity_fn);

    r.set_fn(&s, MetricId(2), true).unwrap();
    assert!(r.asks_fn(&s, MetricId(2), &code(0)));
    assert_eq!(
        r.severity_of(&s, MetricId(2), &code(0), Some(Severity::Warn)),
        Severity::Warn,
        "the schema treated Los as a fault"
    );

    r.set_fn(&s, MetricId(1), false).unwrap();
    assert_eq!(sev(&r, 90.0), Severity::Alarm, "now by the schema's ranges");
    assert_eq!(sev(&r, 20.0), Severity::Normal);
    assert!(!r.effective(&s, MetricId(1)).unwrap().has_severity_fn);
    assert!(matches!(
        r.set_fn(&s, MetricId(99), true),
        Err(Error::UnknownMetric { metric_id: 99 })
    ));
}

#[test]
fn severity_fn_on_a_blob_metric_is_refused() {
    let s = with(vec![metric(1, "spectrum", ValueType::Blob)]);
    let mut r = LimitsRegistry::new();
    let err = r.set_fn(&s, MetricId(1), true).unwrap_err();
    assert!(
        matches!(err, Error::BadLimits { reason, .. } if reason == CLOSURE_ON_A_BLOB),
        "a blob stands for no number: {err:?}"
    );
}

#[test]
fn metric_without_limits_is_always_normal() {
    let s = with(vec![MetricDesc {
        kind: MetricKind::Counter,
        ..metric(1, "count", ValueType::U64)
    }]);
    let r = LimitsRegistry::new();
    for v in [0u64, 1, u64::MAX] {
        assert_eq!(r.severity_of(&s, MetricId(1), &code(v), None), Severity::Normal);
    }
    assert!(!r.effective(&s, MetricId(1)).unwrap().overridden);
}

#[test]
fn an_override_that_says_nothing_is_none() {
    let (s, mut r) = (schema(), LimitsRegistry::new());
    r.set(&s, MetricId(1), Some(MetricLimits::default())).unwrap();
    assert!(!r.effective(&s, MetricId(1)).unwrap().overridden);
    assert!(MetricLimits::default().is_empty());
}
