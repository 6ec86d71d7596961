//! Migration steps on records.

use dduroc_engine::footer::Footer;
use dduroc_engine::format::{
    EventId, Level, MetricId, ProtocolVersion, SpanId, SpanKindId, Value,
};
use dduroc_engine::migrate::{
    apply, chain, chain_between, chain_touches, step_applies, ChainError, ChainErrorKind, Chained,
    MigrationInput, MigrationOutcome, Migrator, OwnedChained, Steps,
};
use dduroc_engine::schema::{DecodeError, Language, Migration, Schema};
use dduroc_engine::staged::{OwnedValue, Record};

type StepFn = fn(MigrationInput<'_>) -> Result<Option<MigrationOutcome>, DecodeError>;

/// The transformations of a test schema.
struct Table(Vec<(u16, StepFn)>);

impl Steps for Table {
    fn migrate(
        &mut self,
        from: u16,
        input: MigrationInput<'_>,
    ) -> Result<Option<MigrationOutcome>, DecodeError> {
        let step = self.0.iter().find(|(f, _)| *f == from).expect("a declared step");
        (step.1)(input)
    }
}

fn run<'a>(
    steps: &[(&'static Migration, StepFn)],
    record: Record<'a>,
) -> Result<Chained<'a>, ChainError> {
    let table = Table(steps.iter().map(|(m, f)| (m.from, *f)).collect());
    let list = steps.iter().map(|(m, _)| *m).collect();
    apply(&list, &mut Migrator::new(table), record)
}

fn msg(event: u16, payload: &[u8]) -> Record<'_> {
    Record::Message { event: EventId(event), span: Some(SpanId(7)), payload }
}

fn sample(metric: u16, v: u64) -> Record<'static> {
    Record::Sample { metric: MetricId(metric), value: Value::U64(v) }
}

fn step_of(
    from: u16,
    events: &'static [EventId],
    metrics: &'static [MetricId],
    spans: &'static [SpanKindId],
) -> &'static Migration {
    Box::leak(Box::new(Migration {
        from,
        touches_all: events.is_empty() && metrics.is_empty() && spans.is_empty(),
        events,
        metrics,
        spans,
    }))
}

fn step(
    from: u16,
    events: &'static [EventId],
    metrics: &'static [MetricId],
) -> &'static Migration {
    step_of(from, events, metrics, &[])
}

fn decode<T: serde::de::DeserializeOwned>(input: &MigrationInput<'_>) -> Result<T, DecodeError> {
    match input.record {
        Record::Message { payload, .. } => {
            postcard::from_bytes(payload).map_err(|_| DecodeError)
        }
        _ => Err(DecodeError),
    }
}

/// Whether a record came through with its own bytes.
fn is_same(chained: &Chained<'_>) -> bool {
    matches!(chained, Chained::Same(_))
}

#[test]
fn declared_sets_are_binding_not_advisory() {
    fn poison(_: MigrationInput<'_>) -> Result<Option<MigrationOutcome>, DecodeError> {
        Ok(Some(MigrationOutcome::Message { event: EventId(0xEE), payload: vec![0xEE] }))
    }
    let s = step(1, &[EventId(1)], &[]);
    let steps: &[(&'static Migration, StepFn)] = &[(s, poison)];

    match run(steps, msg(1, &[1])).unwrap() {
        Chained::Owned(OwnedChained::Message { event, span, .. }) => {
            assert_eq!(event, EventId(0xEE));
            assert_eq!(
                span,
                Some(SpanId(7)),
                "the attachment to a span survived the replacement"
            );
        }
        other => panic!("expected a replacement, got {other:?}"),
    }

    match run(steps, msg(2, &[2])).unwrap() {
        Chained::Same(Record::Message { event, span, payload }) => {
            assert_eq!((event, span, payload), (EventId(2), Some(SpanId(7)), &[2u8][..]));
        }
        other => panic!("the message should not have changed: {other:?}"),
    }
    match run(steps, sample(9, 42)).unwrap() {
        Chained::Same(Record::Sample { metric, value: Value::U64(42) }) => {
            assert_eq!(metric, MetricId(9));
        }
        other => panic!("the sample should not have changed: {other:?}"),
    }
    let text = Record::Text { level: Level::Info, span: None, target: "t", text: "x" };
    match run(steps, text).unwrap() {
        Chained::Same(Record::Text { level, span, target, text }) => {
            assert_eq!((level, span, target, text), (Level::Info, None, "t", "x"));
        }
        other => panic!("the text should not have changed: {other:?}"),
    }
}

#[test]
fn touches_all_sees_even_what_sets_cannot_name() {
    fn drop_text(r: MigrationInput<'_>) -> Result<Option<MigrationOutcome>, DecodeError> {
        Ok(match r.record {
            Record::Text { .. } => None,
            _ => Some(MigrationOutcome::AsIs),
        })
    }
    let s = step(1, &[], &[]);
    let steps: &[(&'static Migration, StepFn)] = &[(s, drop_text)];

    let text = Record::Text { level: Level::Info, span: None, target: "t", text: "a secret" };
    assert!(matches!(run(steps, text).unwrap(), Chained::Dropped));
    assert!(is_same(&run(steps, msg(1, &[1])).unwrap()));
    assert!(step_applies(s, &Record::SpanEnd { span: SpanId(1) }));
    assert!(step_applies(s, &Record::Ext { tag: 9, body: &[] }));
}

#[test]
fn steps_compose_in_order_and_each_sees_the_previous_layout() {
    fn one(r: MigrationInput<'_>) -> Result<Option<MigrationOutcome>, DecodeError> {
        let old: (u8,) = decode(&r)?;
        Ok(Some(MigrationOutcome::Message {
            event: EventId(2),
            payload: postcard::to_allocvec(&(u16::from(old.0) * 2,)).unwrap(),
        }))
    }
    fn two(r: MigrationInput<'_>) -> Result<Option<MigrationOutcome>, DecodeError> {
        let mid: (u16,) = decode(&r)?;
        Ok(Some(MigrationOutcome::Message {
            event: EventId(3),
            payload: postcard::to_allocvec(&(u32::from(mid.0) + 1,)).unwrap(),
        }))
    }
    let s1 = step(1, &[EventId(1)], &[]);
    let s2 = step(2, &[EventId(2)], &[]);
    let steps: &[(&'static Migration, StepFn)] = &[(s1, one), (s2, two)];

    let payload = postcard::to_allocvec(&(21u8,)).unwrap();
    match run(steps, msg(1, &payload)).unwrap() {
        Chained::Owned(OwnedChained::Message { event, payload, .. }) => {
            assert_eq!(event, EventId(3));
            let v: (u32,) = postcard::from_bytes(&payload).unwrap();
            assert_eq!(v.0, 43, "21 * 2 + 1: the steps composed in order");
        }
        other => panic!("{other:?}"),
    }

    let payload = postcard::to_allocvec(&(5u16,)).unwrap();
    match run(&steps[1..], msg(2, &payload)).unwrap() {
        Chained::Owned(OwnedChained::Message { event, .. }) => assert_eq!(event, EventId(3)),
        other => panic!("{other:?}"),
    }
}

#[test]
fn a_span_kind_is_renamed_and_its_identity_is_left_alone() {
    fn rename(_: MigrationInput<'_>) -> Result<Option<MigrationOutcome>, DecodeError> {
        Ok(Some(MigrationOutcome::SpanKind(SpanKindId(0x42))))
    }
    let s = step_of(1, &[], &[], &[SpanKindId(1)]);
    let steps: &[(&'static Migration, StepFn)] = &[(s, rename)];

    let start = Record::SpanStart {
        span: SpanId(11),
        kind: SpanKindId(1),
        parent: Some(SpanId(3)),
    };
    match run(steps, start).unwrap() {
        Chained::Owned(OwnedChained::SpanStart { span, kind, parent }) => {
            assert_eq!(kind, SpanKindId(0x42), "the kind was renamed");
            assert_eq!(span, SpanId(11), "the number is the record's identity");
            assert_eq!(parent, Some(SpanId(3)), "and so is the parent");
        }
        other => panic!("{other:?}"),
    }

    assert!(is_same(&run(steps, Record::SpanEnd { span: SpanId(11) }).unwrap()));

    let other_kind = Record::SpanStart { span: SpanId(12), kind: SpanKindId(9), parent: None };
    assert!(is_same(&run(steps, other_kind).unwrap()));
}

#[test]
fn a_transformed_value_survives_a_remap_on_top_of_it() {
    fn scale(r: MigrationInput<'_>) -> Result<Option<MigrationOutcome>, DecodeError> {
        let Some(Value::U64(v)) = r.value() else {
            return Err(DecodeError);
        };
        Ok(Some(MigrationOutcome::Sample {
            metric: MetricId(0x10),
            value: OwnedValue::F64((v as f64 / 10.0).to_bits()),
        }))
    }
    fn rename(_: MigrationInput<'_>) -> Result<Option<MigrationOutcome>, DecodeError> {
        Ok(Some(MigrationOutcome::SampleMetric(MetricId(0x20))))
    }
    let s1 = step(1, &[], &[MetricId(0x10)]);
    let s2 = step(2, &[], &[MetricId(0x10)]);

    let out = run(&[(s1, scale as StepFn), (s2, rename)], sample(0x10, 365)).unwrap();
    match out.record() {
        Some(Record::Sample { metric, value }) => {
            assert_eq!(metric, MetricId(0x20), "a remap on top of a transformation");
            assert!(
                matches!(value, Value::F64(bits) if bits == 36.5f64.to_bits()),
                "the value survived the remap"
            );
        }
        other => panic!("{other:?}"),
    }
}

#[test]
fn an_outcome_that_does_not_fit_the_record_is_a_defect_not_a_no_op() {
    fn span_kind(_: MigrationInput<'_>) -> Result<Option<MigrationOutcome>, DecodeError> {
        Ok(Some(MigrationOutcome::SpanKind(SpanKindId(1))))
    }
    let s = step(1, &[], &[MetricId(1)]);
    let e = run(&[(s, span_kind as StepFn)], sample(1, 5)).unwrap_err();
    assert_eq!(e.kind, ChainErrorKind::WrongOutcome);

    fn value(_: MigrationInput<'_>) -> Result<Option<MigrationOutcome>, DecodeError> {
        Ok(Some(MigrationOutcome::Sample { metric: MetricId(1), value: OwnedValue::U64(1) }))
    }
    let s = step(1, &[EventId(1)], &[]);
    let e = run(&[(s, value as StepFn)], msg(1, &[1])).unwrap_err();
    assert_eq!(e.kind, ChainErrorKind::WrongOutcome);
}

#[test]
fn a_step_that_touches_spans_rewrites_every_segment() {
    let footer = Footer {
        blocks: Vec::new(),
        events: vec![EventId(7)],
        metrics: vec![MetricId(7)],
    };
    let spans_step = step_of(1, &[], &[], &[SpanKindId(1)]);
    assert!(
        spans_step.touches(&footer),
        "a step with spans must rewrite the segment whatever the footer holds"
    );
    let events_step = step(1, &[EventId(1)], &[]);
    assert!(!events_step.touches(&footer));

    assert!(chain_touches(&vec![events_step, spans_step], &footer));
    assert!(!chain_touches(&vec![events_step], &footer));
    assert!(chain_touches(&vec![events_step, step(2, &[EventId(7)], &[])], &footer));
    assert!(chain_touches(&vec![step(2, &[], &[MetricId(7)])], &footer));
}

#[test]
fn metric_remap_keeps_the_value_bytes() {
    fn remap(_: MigrationInput<'_>) -> Result<Option<MigrationOutcome>, DecodeError> {
        Ok(Some(MigrationOutcome::SampleMetric(MetricId(0x20))))
    }
    let s = step(1, &[], &[MetricId(0x10)]);
    let steps: &[(&'static Migration, StepFn)] = &[(s, remap)];

    match run(steps, sample(0x10, 777)).unwrap() {
        Chained::Owned(o) => match o.as_record() {
            Record::Sample { metric, value } => {
                assert_eq!(metric, MetricId(0x20));
                assert!(matches!(value, Value::U64(777)));
            }
            other => panic!("{other:?}"),
        },
        other => panic!("{other:?}"),
    }
    assert!(is_same(&run(steps, sample(0x11, 1)).unwrap()));
}

#[test]
fn a_failing_step_names_itself() {
    fn broken(r: MigrationInput<'_>) -> Result<Option<MigrationOutcome>, DecodeError> {
        let _: (u64, u64, u64, u64) = decode(&r)?;
        Ok(Some(MigrationOutcome::AsIs))
    }
    fn keep(_: MigrationInput<'_>) -> Result<Option<MigrationOutcome>, DecodeError> {
        Ok(Some(MigrationOutcome::AsIs))
    }
    let s1 = step(1, &[EventId(1)], &[]);
    let s2 = step(2, &[EventId(1)], &[]);

    let err = run(&[(s1, keep as StepFn), (s2, broken)], msg(1, &[1])).unwrap_err();
    assert_eq!(err.step_from, 2, "the culprit is named");
    assert_eq!(err.kind, ChainErrorKind::Decode);
    assert_eq!(err.message(), "migration step 2 → 3: the payload did not parse");
}

#[test]
fn an_outcome_that_does_not_fit_the_record_is_a_step_bug() {
    fn wrong(_: MigrationInput<'_>) -> Result<Option<MigrationOutcome>, DecodeError> {
        Ok(Some(MigrationOutcome::SampleMetric(MetricId(1))))
    }
    let s = step(1, &[EventId(1)], &[]);
    let err = run(&[(s, wrong as StepFn)], msg(1, &[1])).unwrap_err();
    assert_eq!(err.kind, ChainErrorKind::WrongOutcome);
    assert_eq!(
        err.message(),
        "migration step 1 → 2: the step's outcome does not apply to the record kind"
    );
}

fn schema(version: u16, migrations: &'static [Migration]) -> Schema {
    static LANGS: &[Language] = &[Language("en")];
    Schema {
        name: "radio",
        version: ProtocolVersion(version),
        languages: LANGS,
        events: &[],
        metrics: &[],
        spans: &[],
        migrations,
    }
}

const fn all(from: u16) -> Migration {
    Migration { from, touches_all: true, events: &[], metrics: &[], spans: &[] }
}

#[test]
fn chain_is_resolved_or_refused_never_guessed() {
    static STEPS: &[Migration] = &[all(1), all(2)];
    let s = schema(3, STEPS);

    assert_eq!(chain(&s, 3).unwrap().len(), 0, "the current version");
    assert_eq!(chain(&s, 2).unwrap().len(), 1);
    let full = chain(&s, 1).unwrap();
    assert_eq!(full.len(), 2);
    assert_eq!(full[0].from, 1);
    assert_eq!(full[1].from, 2);

    static GAPPY: &[Migration] = &[all(2)];
    let s = schema(3, GAPPY);
    let err = chain(&s, 1).unwrap_err();
    assert_eq!(err.step_from, 1);
    assert_eq!(err.kind, ChainErrorKind::MissingStep);
    assert_eq!(err.message(), "migration step 1 → 2: the step is missing from the schema");
    assert_eq!(chain_between(STEPS, 7, 3).unwrap().len(), 0, "newer than the schema");
}

#[test]
fn a_deleted_record_is_shown_to_no_further_step() {
    fn delete(_: MigrationInput<'_>) -> Result<Option<MigrationOutcome>, DecodeError> {
        Ok(None)
    }
    fn never(_: MigrationInput<'_>) -> Result<Option<MigrationOutcome>, DecodeError> {
        panic!("a deleted record was shown to a step")
    }
    let out = run(&[(step(1, &[], &[]), delete as StepFn), (step(2, &[], &[]), never)], msg(1, &[]))
        .unwrap();
    assert!(out.record().is_none());
}

#[test]
fn an_empty_chain_hands_the_record_on() {
    match run(&[], msg(4, &[9])).unwrap() {
        Chained::Same(Record::Message { event, payload, .. }) => {
            assert_eq!((event, payload), (EventId(4), &[9u8][..]));
        }
        other => panic!("the message should not have changed: {other:?}"),
    }
}

#[test]
fn a_chain_ends_where_a_step_refuses_or_deletes() {
    fn refuses(_: MigrationInput<'_>) -> Result<Option<MigrationOutcome>, DecodeError> {
        Err(DecodeError)
    }
    fn deletes(_: MigrationInput<'_>) -> Result<Option<MigrationOutcome>, DecodeError> {
        Ok(None)
    }
    fn unasked(_: MigrationInput<'_>) -> Result<Option<MigrationOutcome>, DecodeError> {
        panic!("a step behind the end of the chain was asked")
    }
    let first = step(1, &[EventId(1)], &[]);
    let second = step(2, &[EventId(1)], &[]);
    let e = run(&[(first, refuses as StepFn), (second, unasked)], msg(1, &[1])).unwrap_err();
    assert_eq!(e.step_from, 1);
    assert!(matches!(e.kind, ChainErrorKind::Decode));
    let gone = run(&[(first, deletes as StepFn), (second, unasked)], msg(1, &[1])).unwrap();
    assert!(matches!(gone, Chained::Dropped));
}
