//! Schemas: what holds together and what does not.

use dduroc_engine::format::{
    EventId, Level, MetricId, ProtocolVersion, SpanKindId, Value, ValueType,
};
use dduroc_engine::scalar::Scalar;
use dduroc_engine::schema::{
    EventDesc, Language, MetricDesc, MetricKind, Migration, Range, Reading, Schema, SchemaError,
    Severity, SpanDesc, StateDesc, StorageClass, Thresholds,
};

const LANGS: &[Language] = &[Language("en"), Language("ru")];

fn leak<T>(items: Vec<T>) -> &'static [T] {
    Box::leak(items.into_boxed_slice())
}

fn schema(events: &'static [EventDesc], version: u16) -> Schema {
    Schema {
        name: "radio",
        version: ProtocolVersion(version),
        languages: LANGS,
        events,
        metrics: &[],
        spans: &[],
        migrations: &[],
    }
}

const fn event(id: u16, name: &'static str, templates: &'static [&'static str]) -> EventDesc {
    EventDesc {
        id: EventId(id),
        name,
        level: Level::Info,
        class: StorageClass::Default,
        tags: &[],
        templates,
        fields: &[],
    }
}

fn number(v: f64) -> Scalar {
    Scalar::from_bits(v.to_bits())
}

fn plain<'a>(value: Value<'a>) -> Reading<'a> {
    Reading { value, number: None, warn_hit: false, alarm_hit: false }
}

#[test]
fn valid_schema_passes() {
    static EVENTS: &[EventDesc] = &[
        EventDesc {
            id: EventId(1),
            name: "PowerSet",
            level: Level::Info,
            class: StorageClass::Critical,
            tags: &["rf"],
            templates: &["power {dbm}", "мощность {dbm}"],
            fields: &[],
        },
        EventDesc {
            id: EventId(2),
            name: "Failed",
            level: Level::Error,
            class: StorageClass::Default,
            tags: &[],
            templates: &["failed", "сбой"],
            fields: &[],
        },
    ];
    let s = schema(EVENTS, 1);
    s.validate().expect("the schema is sound");
    assert_eq!(s.event(EventId(1)).unwrap().name, "PowerSet");
    assert!(s.event(EventId(99)).is_none());
    assert_eq!(s.language_index("ru"), Some(1));
    assert_eq!(s.language_index("ja"), None);
    assert_eq!(s.classes(), vec![StorageClass::Critical, StorageClass::Default]);
    assert_eq!(s.event(EventId(1)).unwrap().template(1), Some("мощность {dbm}"));
    assert_eq!(s.event(EventId(1)).unwrap().template(2), None);
}

#[test]
fn duplicate_ids_rejected() {
    static EVENTS: &[EventDesc] = &[event(5, "A", &["a", "а"]), event(5, "B", &["b", "б"])];
    let err = schema(EVENTS, 1).validate().unwrap_err();
    assert!(
        matches!(err, SchemaError::DuplicateId { id: 5, first: "A", second: "B", .. }),
        "got {err:?}"
    );
}

#[test]
fn template_count_must_match_languages() {
    static EVENTS: &[EventDesc] = &[event(1, "Only", &["english only"])];
    let err = schema(EVENTS, 1).validate().unwrap_err();
    assert!(matches!(err, SchemaError::TemplateCount { got: 1, want: 2, .. }), "got {err:?}");
}

const fn step(from: u16) -> Migration {
    Migration { from, touches_all: true, events: &[], metrics: &[], spans: &[] }
}

#[test]
fn migration_chain_must_be_continuous() {
    static EVENTS: &[EventDesc] = &[];
    static STEPS: &[Migration] = &[step(1)];
    let s = Schema { migrations: STEPS, ..schema(EVENTS, 3) };
    let err = s.validate().unwrap_err();
    assert!(
        matches!(err, SchemaError::MigrationGap { from: 2, version: 3, .. }),
        "got {err:?}"
    );

    static FULL: &[Migration] = &[step(1), step(2)];
    Schema { migrations: FULL, ..schema(EVENTS, 3) }
        .validate()
        .expect("the chain is continuous");

    static TWICE: &[Migration] = &[step(1), step(1), step(2)];
    assert!(matches!(
        Schema { migrations: TWICE, ..schema(EVENTS, 3) }.validate(),
        Err(SchemaError::DuplicateMigration { from: 1, .. })
    ));
}

fn with_metric(metrics: &'static [MetricDesc]) -> Schema {
    static EVENTS: &[EventDesc] = &[];
    Schema { metrics, ..schema(EVENTS, 1) }
}

fn metric(
    value_type: ValueType,
    kind: MetricKind,
    states: &'static [StateDesc],
    thresholds: Thresholds,
) -> MetricDesc {
    MetricDesc {
        id: MetricId(1),
        name: "m",
        value_type,
        class: StorageClass::Telemetry,
        unit: "",
        tags: &[],
        kind,
        states,
        thresholds,
    }
}

fn range(min: Option<f64>, max: Option<f64>) -> Range {
    Range { min: min.map(number), max: max.map(number) }
}

const fn state(code: u64, name: &'static str, severity: Severity) -> StateDesc {
    StateDesc { code, name, severity }
}

#[test]
fn valid_state_metric_passes() {
    static STATES: &[StateDesc] =
        &[state(0, "Los", Severity::Alarm), state(2, "Lock", Severity::Normal)];
    let m = leak(vec![metric(ValueType::U64, MetricKind::State, STATES, Thresholds::none())]);
    with_metric(m).validate().expect("the enum is sound");

    let s = with_metric(m);
    let desc = s.metric(MetricId(1)).unwrap();
    assert_eq!(desc.state(0).unwrap().name, "Los");
    assert_eq!(desc.state(2).unwrap().severity, Severity::Normal);
    assert!(desc.state(1).is_none(), "a code that is not declared has no label");
    assert_eq!(desc.severity_of(&plain(Value::U64(2))), Severity::Normal);
}

#[test]
fn state_and_kind_must_agree() {
    static STATES: &[StateDesc] = &[state(0, "A", Severity::Normal)];
    let no_states =
        leak(vec![metric(ValueType::U64, MetricKind::State, &[], Thresholds::none())]);
    assert!(matches!(
        with_metric(no_states).validate(),
        Err(SchemaError::BadMetric { .. })
    ));
    let wrong_kind =
        leak(vec![metric(ValueType::U64, MetricKind::Gauge, STATES, Thresholds::none())]);
    assert!(matches!(
        with_metric(wrong_kind).validate(),
        Err(SchemaError::BadMetric { .. })
    ));
}

#[test]
fn states_require_an_integral_value_type() {
    static STATES: &[StateDesc] = &[state(0, "A", Severity::Normal)];
    for vt in [ValueType::F32, ValueType::F64, ValueType::Blob] {
        let m = leak(vec![metric(vt, MetricKind::State, STATES, Thresholds::none())]);
        assert!(
            matches!(with_metric(m).validate(), Err(SchemaError::BadMetric { .. })),
            "{vt:?} cannot carry a state code"
        );
    }
}

#[test]
fn duplicate_and_nameless_states_rejected() {
    static DUP: &[StateDesc] = &[state(5, "A", Severity::Normal), state(5, "B", Severity::Warn)];
    let m = leak(vec![metric(ValueType::U64, MetricKind::State, DUP, Thresholds::none())]);
    assert!(matches!(
        with_metric(m).validate(),
        Err(SchemaError::DuplicateStateCode { code: 5, .. })
    ));

    static NAMELESS: &[StateDesc] = &[state(0, "", Severity::Normal)];
    let n = leak(vec![metric(ValueType::U64, MetricKind::State, NAMELESS, Thresholds::none())]);
    assert!(matches!(with_metric(n).validate(), Err(SchemaError::BadMetric { .. })));
}

#[test]
fn bool_states_are_limited_to_zero_and_one() {
    static BAD: &[StateDesc] = &[state(7, "Weird", Severity::Normal)];
    let m = leak(vec![metric(ValueType::Bool, MetricKind::State, BAD, Thresholds::none())]);
    assert!(matches!(with_metric(m).validate(), Err(SchemaError::BadMetric { .. })));

    static GOOD: &[StateDesc] =
        &[state(0, "Unlocked", Severity::Alarm), state(1, "Locked", Severity::Normal)];
    let g = leak(vec![metric(ValueType::Bool, MetricKind::State, GOOD, Thresholds::none())]);
    with_metric(g).validate().expect("a boolean as two states");
    let s = with_metric(g);
    let d = s.metric(MetricId(1)).unwrap();
    assert_eq!(d.severity_of(&plain(Value::Bool(false))), Severity::Alarm);
    assert_eq!(d.severity_of(&plain(Value::Bool(true))), Severity::Normal);
}

#[test]
fn thresholds_must_be_sane() {
    let gauge = |t: Thresholds| leak(vec![metric(ValueType::F32, MetricKind::Gauge, &[], t)]);

    let inverted = gauge(Thresholds {
        warn: range(Some(10.0), Some(1.0)),
        alarm: Range::none(),
    });
    assert!(matches!(with_metric(inverted).validate(), Err(SchemaError::BadMetric { .. })));

    let not_nested = gauge(Thresholds {
        warn: range(None, Some(80.0)),
        alarm: range(None, Some(50.0)),
    });
    assert!(matches!(with_metric(not_nested).validate(), Err(SchemaError::BadMetric { .. })));

    let nan = gauge(Thresholds { warn: range(None, Some(f64::NAN)), alarm: Range::none() });
    assert!(matches!(with_metric(nan).validate(), Err(SchemaError::BadMetric { .. })));

    static STATES: &[StateDesc] = &[state(0, "A", Severity::Normal)];
    let both = leak(vec![metric(
        ValueType::U64,
        MetricKind::State,
        STATES,
        Thresholds { warn: range(Some(0.0), Some(1.0)), alarm: Range::none() },
    )]);
    assert!(matches!(with_metric(both).validate(), Err(SchemaError::BadMetric { .. })));

    let open = gauge(Thresholds {
        warn: range(None, Some(70.0)),
        alarm: range(Some(-273.15), None),
    });
    with_metric(open).validate().expect("open bounds are in order");
}

#[test]
fn metric_index_is_stable_key_for_runtime_state() {
    let m = leak(vec![
        MetricDesc {
            id: MetricId(1),
            ..metric(ValueType::F32, MetricKind::Gauge, &[], Thresholds::none())
        },
        MetricDesc {
            id: MetricId(9),
            name: "second",
            ..metric(ValueType::U64, MetricKind::Counter, &[], Thresholds::none())
        },
    ]);
    let s = with_metric(m);
    s.validate().unwrap();
    assert_eq!(s.metric_index(MetricId(1)).unwrap().0, 0);
    assert_eq!(s.metric_index(MetricId(9)).unwrap().0, 1);
    assert_eq!(s.metric_index(MetricId(9)).unwrap().1.name, "second");
    assert!(s.metric_index(MetricId(5)).is_none());
}

#[test]
fn degenerate_schemas_rejected() {
    static EVENTS: &[EventDesc] = &[];
    assert!(matches!(
        schema(EVENTS, 0).validate(),
        Err(SchemaError::ZeroVersion { .. })
    ));

    static NO_LANGS: &[Language] = &[];
    let s = Schema { languages: NO_LANGS, ..schema(EVENTS, 1) };
    assert!(matches!(s.validate(), Err(SchemaError::NoLanguages { .. })));

    static DUP_LANGS: &[Language] = &[Language("en"), Language("en")];
    let s = Schema { languages: DUP_LANGS, ..schema(EVENTS, 1) };
    assert!(matches!(s.validate(), Err(SchemaError::DuplicateLanguage { lang: "en", .. })));

    let s = Schema { name: "", ..schema(EVENTS, 1) };
    assert!(matches!(s.validate(), Err(SchemaError::EmptyName { .. })));

    static UNSORTED: &[EventDesc] = &[event(2, "B", &["b", "б"]), event(1, "A", &["a", "а"])];
    assert!(matches!(
        schema(UNSORTED, 1).validate(),
        Err(SchemaError::Unsorted { name: "A", .. })
    ));
}

#[test]
fn a_schema_always_has_the_ordinary_channel() {
    static NOTHING: &[EventDesc] = &[];
    assert_eq!(schema(NOTHING, 1).classes(), vec![StorageClass::Default]);

    static SPANS: &[SpanDesc] =
        &[SpanDesc { id: SpanKindId(1), name: "s", class: StorageClass::Telemetry }];
    let s = Schema { spans: SPANS, ..schema(NOTHING, 1) };
    assert_eq!(s.classes(), vec![StorageClass::Default, StorageClass::Telemetry]);
    assert!(s.uses_class(StorageClass::Telemetry) && !s.uses_class(StorageClass::Critical));
    assert_eq!(s.span(SpanKindId(1)).unwrap().name, "s");
    assert!(s.span(SpanKindId(2)).is_none());
}

#[test]
fn numbers_are_ordered_as_floats_are() {
    let values = [
        f64::NEG_INFINITY,
        -1.5,
        -f64::MIN_POSITIVE,
        -0.0,
        0.0,
        f64::MIN_POSITIVE,
        1.0,
        85.0,
        f64::INFINITY,
    ];
    for a in values {
        for b in values {
            assert_eq!(number(a).is_above(number(b)), a > b, "{a} > {b}");
            assert_eq!(number(a).is_at_least(number(b)), a >= b, "{a} >= {b}");
        }
    }
    assert!(number(f64::NAN).is_nan());
    assert!(!number(f64::NAN).is_above(number(1.0)));
    assert!(!number(1.0).is_at_least(number(f64::NAN)));
}

#[test]
fn an_alarm_is_a_warning_first() {
    let t = Thresholds {
        warn: range(Some(0.0), Some(70.0)),
        alarm: range(Some(-10.0), Some(85.0)),
    };
    assert_eq!(t.severity_of(number(36.6)), Severity::Normal);
    assert_eq!(t.severity_of(number(70.0)), Severity::Normal);
    assert_eq!(t.severity_of(number(71.0)), Severity::Warn);
    assert_eq!(t.severity_of(number(-5.0)), Severity::Warn);
    assert_eq!(t.severity_of(number(86.0)), Severity::Alarm);
    assert_eq!(t.severity_of(number(f64::NAN)), Severity::Alarm);
    assert_eq!(Thresholds::none().severity_of(number(1e300)), Severity::Normal);
    for v in [-11.0, -10.0, -1.0, 0.0, 70.0, 70.5, 85.0, 85.5] {
        if t.severity_of(number(v)) == Severity::Alarm {
            assert!(!t.warn.contains(number(v)));
        }
    }
}
