//! Applying migration steps to records.
//!
//! Reading old segments and rewriting them push records through the same chain:
//! "how it reads" and "how it is rewritten" are two answers to one question.
//!
//! A step's sets of types are a binding filter: a step is called only for records
//! whose type it names. So the sets decide both whether a segment is worth
//! rewriting and whether a record is shown to the step. A step that touches all
//! sees every record, text and the ends of spans as well.

use crate::footer::Footer;
use crate::format::{EventId, MetricId, SpanId, SpanKindId, Value, ValueView};
use crate::schema;
use crate::schema::{DecodeError, Migration, Schema};
use crate::staged::{OwnedValue, Record, RecordView};
use vstd::prelude::*;

verus! {

/// A record shown to a migration step.
#[derive(Debug, Clone, Copy)]
pub struct MigrationInput<'a> {
    pub record: Record<'a>,
}

impl<'a> MigrationInput<'a> {
    /// The value of a sample.
    pub fn value(&self) -> (v: Option<Value<'a>>)
        ensures
            match v {
                Some(x) => self.record@ matches RecordView::Sample { value, .. } && x@ == value,
                None => !(self.record@ is Sample),
            },
    {
        match self.record {
            Record::Sample { value, .. } => Some(value),
            _ => None,
        }
    }
}

/// What a migration step makes of a record.
#[derive(Debug)]
pub enum MigrationOutcome {
    /// The record stays as it is.
    AsIs,
    /// The type and the payload of a message are replaced.
    Message { event: EventId, payload: Vec<u8> },
    /// The metric of a sample is replaced; its value stays.
    SampleMetric(MetricId),
    /// The metric and the value of a sample are replaced.
    Sample { metric: MetricId, value: OwnedValue },
    /// The kind of a span is replaced.
    SpanKind(SpanKindId),
}

/// An outcome by its contents.
#[verifier::ext_equal]
pub enum OutcomeView {
    AsIs,
    Message { event: EventId, payload: Seq<u8> },
    SampleMetric(MetricId),
    Sample { metric: MetricId, value: ValueView },
    SpanKind(SpanKindId),
}

impl View for MigrationOutcome {
    type V = OutcomeView;

    open spec fn view(&self) -> OutcomeView {
        match *self {
            MigrationOutcome::AsIs => OutcomeView::AsIs,
            MigrationOutcome::Message { event, payload } => OutcomeView::Message {
                event,
                payload: payload@,
            },
            MigrationOutcome::SampleMetric(metric) => OutcomeView::SampleMetric(metric),
            MigrationOutcome::Sample { metric, value } => OutcomeView::Sample {
                metric,
                value: value@,
            },
            MigrationOutcome::SpanKind(kind) => OutcomeView::SpanKind(kind),
        }
    }
}

/// What a step answered, by its contents: a failure to parse, a deletion, or an
/// outcome.
pub open spec fn answer_view(r: Result<Option<MigrationOutcome>, DecodeError>) -> Result<
    Option<OutcomeView>,
    DecodeError,
> {
    match r {
        Ok(Some(o)) => Ok(Some(o@)),
        Ok(None) => Ok(None),
        Err(e) => Err(e),
    }
}

/// The transformations of an application's schema, by the version they migrate
/// from.
pub trait Steps {
    /// Transforms one record. `Ok(None)` deletes it.
    fn migrate(&mut self, from: u16, input: MigrationInput<'_>) -> Result<
        Option<MigrationOutcome>,
        DecodeError,
    >;
}

/// A question to a step with its answer.
pub struct Asked {
    pub from: u16,
    pub record: RecordView,
    pub answer: Result<Option<OutcomeView>, DecodeError>,
}

/// The transformations together with what was asked of them.
pub struct Migrator<S> {
    steps: S,
    asked: Ghost<Seq<Asked>>,
}

impl<S> View for Migrator<S> {
    type V = Seq<Asked>;

    closed spec fn view(&self) -> Seq<Asked> {
        self.asked@
    }
}

impl<S: Steps> Migrator<S> {
    pub fn new(steps: S) -> (m: Migrator<S>)
        ensures
            m@ == Seq::<Asked>::empty(),
    {
        Migrator { steps, asked: Ghost(Seq::empty()) }
    }

    fn migrate(&mut self, from: u16, input: MigrationInput<'_>) -> (r: Result<
        Option<MigrationOutcome>,
        DecodeError,
    >)
        ensures
            final(self)@ == old(self)@.push(
                Asked { from, record: input.record@, answer: answer_view(r) },
            ),
    {
        let ghost record = input.record@;
        let r = self.steps.migrate(from, input);
        self.asked = Ghost(self.asked@.push(Asked { from, record, answer: answer_view(r) }));
        r
    }
}

/// A failure of the chain at a particular step.
#[derive(Debug, Clone, Copy, PartialEq, Eq, Structural)]
pub struct ChainError {
    /// The version the failing step migrates from.
    pub step_from: u16,
    pub kind: ChainErrorKind,
}

#[derive(Debug, Clone, Copy, PartialEq, Eq, Structural)]
pub enum ChainErrorKind {
    /// The step could not parse the payload: corruption, or a mistake in the
    /// declared history.
    Decode,
    /// The outcome does not apply to the kind of the record: a defect in the
    /// step's code, not in the data.
    WrongOutcome,
    /// There is no step from this version: the schema was never validated.
    MissingStep,
}

/// The step from a version is the first one declared for it.
pub open spec fn is_step(migrations: Seq<Migration>, from: int, step: Migration) -> bool {
    exists|j: int|
        0 <= j < migrations.len() && step == #[trigger] migrations[j] && migrations[j].from == from
            && forall|k: int| 0 <= k < j ==> (#[trigger] migrations[k]).from != from
}

/// The steps from one version to another, one for each version between.
pub open spec fn is_chain(
    migrations: Seq<Migration>,
    from: u16,
    to: u16,
    steps: Seq<&'static Migration>,
) -> bool {
    &&& steps.len() == if from < to {
        to - from
    } else {
        0
    }
    &&& forall|k: int|
        0 <= k < steps.len() ==> is_step(migrations, from + k, *(#[trigger] steps[k]))
}

/// The chain of steps that brings records of a version up to the current one.
/// Empty where the version is current or newer. An error means the chain has a
/// hole: skipping a step silently would mean reading records in a foreign layout.
pub fn chain(schema: &Schema, seg_version: u16) -> (r: Result<Vec<&'static Migration>, ChainError>)
    ensures
        match r {
            Ok(steps) => is_chain(
                schema.migrations@,
                seg_version,
                schema.version.0,
                steps@,
            ),
            Err(e) => is_first_hole(schema.migrations@, seg_version, schema.version.0, e),
        },
{
    chain_between(schema.migrations, seg_version, schema.version.0)
}

/// The first version without a step on the way from one version to another.
pub open spec fn is_first_hole(
    migrations: Seq<Migration>,
    from: u16,
    to: u16,
    e: ChainError,
) -> bool {
    &&& e.kind == ChainErrorKind::MissingStep
    &&& from <= e.step_from < to
    &&& !schema::has_step(migrations, e.step_from as int)
    &&& forall|v: int| from <= v < e.step_from ==> #[trigger] schema::has_step(migrations, v)
}

/// The same from a bare list of steps.
pub fn chain_between(migrations: &'static [Migration], from: u16, to: u16) -> (r: Result<
    Vec<&'static Migration>,
    ChainError,
>)
    ensures
        match r {
            Ok(steps) => is_chain(migrations@, from, to, steps@),
            Err(e) => is_first_hole(migrations@, from, to, e),
        },
{
    let mut steps: Vec<&'static Migration> = Vec::new();
    let mut v: u16 = from;
    while v < to
        invariant
            from <= v,
            from < to ==> v <= to,
            from >= to ==> v == from,
            steps@.len() == v - from,
            forall|k: int|
                0 <= k < steps@.len() ==> is_step(
                    migrations@,
                    from + k,
                    *(#[trigger] steps@[k]),
                ),
            forall|w: int| from <= w < v ==> #[trigger] schema::has_step(migrations@, w),
        decreases to - v,
    {
        match find_step(migrations, v) {
            Some(step) => {
                let ghost had = steps@;
                steps.push(step);
                proof {
                    assert forall|k: int| 0 <= k < steps@.len() implies is_step(
                        migrations@,
                        from + k,
                        *(#[trigger] steps@[k]),
                    ) by {
                        if k < had.len() {
                            assert(steps@[k] == had[k]);
                        }
                    }
                    let j = choose|j: int|
                        0 <= j < migrations@.len() && *step == #[trigger] migrations@[j]
                            && migrations@[j].from == v && forall|k: int|
                            0 <= k < j ==> (#[trigger] migrations@[k]).from != v;
                    assert(migrations@[j].from == v as int);
                }
            },
            None => {
                return Err(ChainError { step_from: v, kind: ChainErrorKind::MissingStep });
            },
        }
        v = v + 1;
    }
    Ok(steps)
}

fn find_step(migrations: &'static [Migration], from: u16) -> (m: Option<&'static Migration>)
    ensures
        match m {
            Some(step) => is_step(migrations@, from as int, *step),
            None => !schema::has_step(migrations@, from as int),
        },
{
    let mut j: usize = 0;
    while j < migrations.len()
        invariant
            j <= migrations@.len(),
            forall|k: int| 0 <= k < j ==> (#[trigger] migrations@[k]).from != from,
        decreases migrations@.len() - j,
    {
        if migrations[j].from == from {
            assert(migrations@[j as int].from == from);
            return Some(&migrations[j]);
        }
        j = j + 1;
    }
    None
}

/// A validated schema has a chain from every version it has had.
pub proof fn law_a_validated_history_has_no_holes(s: Schema, from: u16, e: ChainError)
    requires
        s.valid(),
        1 <= from,
    ensures
        !is_first_hole(s.migrations@, from, s.version.0, e),
{
    if is_first_hole(s.migrations@, from, s.version.0, e) {
        schema::law_validated_chain_is_unbroken(s, e.step_from as int);
    }
}

// ---------------------------------------------------------------------------
// Which records a step sees
// ---------------------------------------------------------------------------

/// A step sees a record.
pub open spec fn sees(step: Migration, record: RecordView) -> bool {
    step.touches_all || match record {
        RecordView::Message { event, .. } => step.events@.contains(event),
        RecordView::Sample { metric, .. } => step.metrics@.contains(metric),
        RecordView::SpanStart { kind, .. } => step.spans@.contains(kind),
        _ => false,
    }
}

/// A step has to rewrite a segment with this footer. The footer holds no kinds of
/// spans: there is nobody to ask whether there is such a span, and deciding "no"
/// on a guess would leave those records in the old layout forever.
pub open spec fn needs_rewrite(step: Migration, footer: Footer) -> bool {
    step.touches_all || step.spans@.len() > 0 || footer.holds_any(step.events@, step.metrics@)
}

impl Migration {
    /// Whether the step has to rewrite a segment with this footer.
    pub fn touches(&self, footer: &Footer) -> (yes: bool)
        ensures
            yes == needs_rewrite(*self, *footer),
    {
        self.touches_all || self.spans.len() > 0 || footer.touches(self.events, self.metrics)
    }
}

/// Whether any step of the chain has to rewrite a segment with this footer.
pub fn chain_touches(steps: &Vec<&'static Migration>, footer: &Footer) -> (yes: bool)
    ensures
        yes == exists|k: int|
            0 <= k < steps@.len() && needs_rewrite(*(#[trigger] steps@[k]), *footer),
{
    let mut k: usize = 0;
    while k < steps.len()
        invariant
            k <= steps@.len(),
            forall|m: int| 0 <= m < k ==> !needs_rewrite(*(#[trigger] steps@[m]), *footer),
        decreases steps@.len() - k,
    {
        if steps[k].touches(footer) {
            assert(needs_rewrite(*steps@[k as int], *footer));
            return true;
        }
        k = k + 1;
    }
    false
}

fn holds_event(ids: &[EventId], id: EventId) -> (yes: bool)
    ensures
        yes == ids@.contains(id),
{
    let mut i: usize = 0;
    while i < ids.len()
        invariant
            i <= ids@.len(),
            forall|k: int| 0 <= k < i ==> ids@[k] != id,
        decreases ids@.len() - i,
    {
        if ids[i].0 == id.0 {
            assert(ids@[i as int] == id);
            return true;
        }
        i = i + 1;
    }
    false
}

fn holds_metric(ids: &[MetricId], id: MetricId) -> (yes: bool)
    ensures
        yes == ids@.contains(id),
{
    let mut i: usize = 0;
    while i < ids.len()
        invariant
            i <= ids@.len(),
            forall|k: int| 0 <= k < i ==> ids@[k] != id,
        decreases ids@.len() - i,
    {
        if ids[i].0 == id.0 {
            assert(ids@[i as int] == id);
            return true;
        }
        i = i + 1;
    }
    false
}

fn holds_kind(ids: &[SpanKindId], id: SpanKindId) -> (yes: bool)
    ensures
        yes == ids@.contains(id),
{
    let mut i: usize = 0;
    while i < ids.len()
        invariant
            i <= ids@.len(),
            forall|k: int| 0 <= k < i ==> ids@[k] != id,
        decreases ids@.len() - i,
    {
        if ids[i].0 == id.0 {
            assert(ids@[i as int] == id);
            return true;
        }
        i = i + 1;
    }
    false
}

/// Whether a step sees this record.
pub fn step_applies(step: &Migration, record: &Record<'_>) -> (yes: bool)
    ensures
        yes == sees(*step, record@),
{
    if step.touches_all {
        return true;
    }
    match record {
        Record::Message { event, .. } => holds_event(step.events, *event),
        Record::Sample { metric, .. } => holds_metric(step.metrics, *metric),
        Record::SpanStart { kind, .. } => holds_kind(step.spans, *kind),
        _ => false,
    }
}

// ---------------------------------------------------------------------------
// The chain on one record
// ---------------------------------------------------------------------------

/// A sample's value partway through the chain: a change of the identifier does
/// not touch it, and there is no reason to copy it.
#[derive(Debug)]
pub enum ChainedValue<'a> {
    /// The value of the original record.
    Same(Value<'a>),
    /// The value computed by a step.
    Owned(OwnedValue),
}

impl<'a> View for ChainedValue<'a> {
    type V = ValueView;

    open spec fn view(&self) -> ValueView {
        match *self {
            ChainedValue::Same(v) => v@,
            ChainedValue::Owned(v) => v@,
        }
    }
}

impl<'a> ChainedValue<'a> {
    pub fn as_value(&self) -> (v: Value<'_>)
        ensures
            v@ == self@,
    {
        match self {
            ChainedValue::Same(v) => *v,
            ChainedValue::Owned(v) => v.as_value(),
        }
    }
}

/// A transformed record: it owns what a step changed and borrows what none did.
#[derive(Debug)]
pub enum OwnedChained<'a> {
    Message {
        event: EventId,
        /// The span of the original record: a step has no way to change it.
        span: Option<SpanId>,
        payload: Vec<u8>,
    },
    /// A span with another kind. Its number and its parent are its identity: its
    /// messages and its children refer to them.
    SpanStart { span: SpanId, kind: SpanKindId, parent: Option<SpanId> },
    Sample { metric: MetricId, value: ChainedValue<'a> },
}

impl<'a> View for OwnedChained<'a> {
    type V = RecordView;

    open spec fn view(&self) -> RecordView {
        match *self {
            OwnedChained::Message { event, span, payload } => RecordView::Message {
                event,
                span,
                payload: payload@,
            },
            OwnedChained::SpanStart { span, kind, parent } => RecordView::SpanStart {
                span,
                kind,
                parent,
            },
            OwnedChained::Sample { metric, value } => RecordView::Sample { metric, value: value@ },
        }
    }
}

impl<'a> OwnedChained<'a> {
    pub fn as_record(&self) -> (r: Record<'_>)
        ensures
            r@ == self@,
    {
        match self {
            OwnedChained::Message { event, span, payload } => Record::Message {
                event: *event,
                span: *span,
                payload: payload.as_slice(),
            },
            OwnedChained::SpanStart { span, kind, parent } => Record::SpanStart {
                span: *span,
                kind: *kind,
                parent: *parent,
            },
            OwnedChained::Sample { metric, value } => Record::Sample {
                metric: *metric,
                value: value.as_value(),
            },
        }
    }
}

/// The outcome of the chain on one record.
#[derive(Debug)]
pub enum Chained<'a> {
    /// No step changed the record: the bytes are the originals.
    Same(Record<'a>),
    /// The record was transformed.
    Owned(OwnedChained<'a>),
    /// Some step deleted the record.
    Dropped,
}

/// The outcome of the chain by its contents.
#[verifier::ext_equal]
pub enum ChainedView {
    Same(RecordView),
    Owned(RecordView),
    Dropped,
}

impl ChainedView {
    /// The record, if it survived.
    pub open spec fn record(self) -> Option<RecordView> {
        match self {
            ChainedView::Same(r) => Some(r),
            ChainedView::Owned(r) => Some(r),
            ChainedView::Dropped => None,
        }
    }
}

impl<'a> View for Chained<'a> {
    type V = ChainedView;

    open spec fn view(&self) -> ChainedView {
        match *self {
            Chained::Same(r) => ChainedView::Same(r@),
            Chained::Owned(o) => ChainedView::Owned(o@),
            Chained::Dropped => ChainedView::Dropped,
        }
    }
}

impl<'a> Chained<'a> {
    /// The record, if it survived the chain.
    pub fn record(&self) -> (r: Option<Record<'_>>)
        ensures
            match r {
                Some(x) => self@.record() == Some(x@),
                None => self@.record() is None,
            },
    {
        match self {
            Chained::Same(r) => Some(*r),
            Chained::Owned(o) => Some(o.as_record()),
            Chained::Dropped => None,
        }
    }
}

/// What an outcome makes of a record; `None` where it does not apply to its kind.
pub open spec fn changed(record: RecordView, outcome: OutcomeView) -> Option<RecordView> {
    match outcome {
        OutcomeView::AsIs => Some(record),
        OutcomeView::Message { event, payload } => match record {
            RecordView::Message { span, .. } => Some(RecordView::Message { event, span, payload }),
            RecordView::Text { span, .. } => Some(RecordView::Message { event, span, payload }),
            _ => None,
        },
        OutcomeView::SampleMetric(metric) => match record {
            RecordView::Sample { value, .. } => Some(RecordView::Sample { metric, value }),
            _ => None,
        },
        OutcomeView::Sample { metric, value } => match record {
            RecordView::Sample { .. } => Some(RecordView::Sample { metric, value }),
            _ => None,
        },
        OutcomeView::SpanKind(kind) => match record {
            RecordView::SpanStart { span, parent, .. } => Some(
                RecordView::SpanStart { span, kind, parent },
            ),
            _ => None,
        },
    }
}

/// What an outcome makes of a record partway through the chain.
pub open spec fn advanced(current: ChainedView, outcome: OutcomeView) -> Option<ChainedView> {
    if outcome is AsIs {
        Some(current)
    } else {
        match changed(current.record()->0, outcome) {
            Some(r) => Some(ChainedView::Owned(r)),
            None => None,
        }
    }
}

/// Applies the outcome of a step to a record partway through the chain. An outcome
/// that does not apply to its kind is a defect of the step, and said to be one.
pub fn advance<'a>(current: Chained<'a>, outcome: MigrationOutcome) -> (r: Result<
    Chained<'a>,
    ChainErrorKind,
>)
    requires
        !(current@ is Dropped),
    ensures
        match advanced(current@, outcome@) {
            Some(next) => r matches Ok(c) && c@ == next,
            None => r == Err::<Chained<'a>, ChainErrorKind>(ChainErrorKind::WrongOutcome),
        },
{
    match outcome {
        MigrationOutcome::AsIs => Ok(current),
        MigrationOutcome::Message { event, payload } => {
            let span: Option<SpanId> = match current.record() {
                Some(Record::Message { span, .. }) => span,
                Some(Record::Text { span, .. }) => span,
                _ => {
                    return Err(ChainErrorKind::WrongOutcome);
                },
            };
            Ok(Chained::Owned(OwnedChained::Message { event, span, payload }))
        },
        MigrationOutcome::SampleMetric(metric) => match current {
            Chained::Owned(OwnedChained::Sample { value, .. }) => Ok(
                Chained::Owned(OwnedChained::Sample { metric, value }),
            ),
            Chained::Same(Record::Sample { value, .. }) => Ok(
                Chained::Owned(OwnedChained::Sample { metric, value: ChainedValue::Same(value) }),
            ),
            _ => Err(ChainErrorKind::WrongOutcome),
        },
        MigrationOutcome::Sample { metric, value } => match current.record() {
            Some(Record::Sample { .. }) => Ok(
                Chained::Owned(OwnedChained::Sample { metric, value: ChainedValue::Owned(value) }),
            ),
            _ => Err(ChainErrorKind::WrongOutcome),
        },
        MigrationOutcome::SpanKind(kind) => match current.record() {
            Some(Record::SpanStart { span, parent, .. }) => Ok(
                Chained::Owned(OwnedChained::SpanStart { span, kind, parent }),
            ),
            _ => Err(ChainErrorKind::WrongOutcome),
        },
    }
}

/// What the chain comes to, given what its steps answered: each step in turn sees
/// the record as the one before left it, and none that does not see it is asked.
pub open spec fn settles(
    steps: Seq<&'static Migration>,
    current: ChainedView,
    asked: Seq<Asked>,
    r: Result<ChainedView, ChainError>,
) -> bool
    decreases steps.len(),
{
    if steps.len() == 0 {
        asked.len() == 0 && r == Ok::<ChainedView, ChainError>(current)
    } else {
        let step = *steps[0];
        let record = current.record()->0;
        if !sees(step, record) {
            settles(steps.skip(1), current, asked, r)
        } else {
            &&& asked.len() > 0
            &&& asked[0].from == step.from
            &&& asked[0].record == record
            &&& match asked[0].answer {
                Err(_) => asked.len() == 1 && r == Err::<ChainedView, ChainError>(
                    ChainError { step_from: step.from, kind: ChainErrorKind::Decode },
                ),
                Ok(None) => asked.len() == 1 && r == Ok::<ChainedView, ChainError>(
                    ChainedView::Dropped,
                ),
                Ok(Some(outcome)) => match advanced(current, outcome) {
                    None => asked.len() == 1 && r == Err::<ChainedView, ChainError>(
                        ChainError { step_from: step.from, kind: ChainErrorKind::WrongOutcome },
                    ),
                    Some(next) => settles(steps.skip(1), next, asked.skip(1), r),
                },
            }
        }
    }
}

/// The contents of what the chain answered.
pub open spec fn result_view(r: Result<Chained<'_>, ChainError>) -> Result<ChainedView, ChainError> {
    match r {
        Ok(c) => Ok(c@),
        Err(e) => Err(e),
    }
}

/// Pushes a record through the chain of steps.
pub fn apply<'a, S: Steps>(
    steps: &Vec<&'static Migration>,
    migrator: &mut Migrator<S>,
    record: Record<'a>,
) -> (r: Result<Chained<'a>, ChainError>)
    ensures
        exists|asked: Seq<Asked>|
            {
                &&& final(migrator)@ == old(migrator)@ + asked
                &&& #[trigger] settles(
                    steps@,
                    ChainedView::Same(record@),
                    asked,
                    result_view(r),
                )
            },
{
    let ghost start = ChainedView::Same(record@);
    let ghost a0 = migrator@;
    let ghost mut asked: Seq<Asked> = Seq::empty();
    let mut current: Chained<'a> = Chained::Same(record);
    let mut k: usize = 0;
    assert(a0 + asked =~= a0);
    assert(steps@.skip(0) =~= steps@);
    assert forall|rest: Seq<Asked>, r: Result<ChainedView, ChainError>| #[trigger]
        settles(steps@.skip(0), start, rest, r) implies settles(
        steps@,
        start,
        asked + rest,
        r,
    ) by {
        assert(asked + rest =~= rest);
    }
    while k < steps.len()
        invariant
            k <= steps@.len(),
            a0 == old(migrator)@,
            migrator@ == a0 + asked,
            start == ChainedView::Same(record@),
            !(current@ is Dropped),
            forall|rest: Seq<Asked>, r: Result<ChainedView, ChainError>| #[trigger]
                settles(steps@.skip(k as int), current@, rest, r) ==> settles(
                    steps@,
                    start,
                    asked + rest,
                    r,
                ),
        decreases steps@.len() - k,
    {
        let step: &'static Migration = steps[k];
        let ghost before = current@;
        let ghost left = steps@.skip(k as int);
        proof {
            assert(left[0] == steps@[k as int]);
            assert(left.skip(1) =~= steps@.skip(k + 1));
        }
        let answer = match current.record() {
            None => Ok(None),
            Some(viewed) => {
                if !step_applies(step, &viewed) {
                    proof {
                        assert forall|rest: Seq<Asked>, r: Result<ChainedView, ChainError>| #[trigger]
                            settles(steps@.skip(k + 1), current@, rest, r) implies settles(
                            steps@,
                            start,
                            asked + rest,
                            r,
                        ) by {
                            assert(settles(left, current@, rest, r));
                        }
                    }
                    k = k + 1;
                    continue;
                }
                migrator.migrate(step.from, MigrationInput { record: viewed })
            },
        };
        let ghost entry = Asked {
            from: step.from,
            record: before.record()->0,
            answer: answer_view(answer),
        };
        let ghost one = seq![entry];
        proof {
            assert(migrator@ =~= a0 + (asked + one));
            assert(one.skip(1) =~= Seq::<Asked>::empty());
        }
        match answer {
            Err(_) => {
                let e = ChainError { step_from: step.from, kind: ChainErrorKind::Decode };
                assert(settles(left, before, one, Err::<ChainedView, ChainError>(e)));
                assert(settles(steps@, start, asked + one, Err::<ChainedView, ChainError>(e)));
                return Err(e);
            },
            Ok(None) => {
                assert(settles(
                    left,
                    before,
                    one,
                    Ok::<ChainedView, ChainError>(ChainedView::Dropped),
                ));
                assert(settles(
                    steps@,
                    start,
                    asked + one,
                    Ok::<ChainedView, ChainError>(ChainedView::Dropped),
                ));
                return Ok(Chained::Dropped);
            },
            Ok(Some(outcome)) => {
                let ghost said = outcome@;
                match advance(current, outcome) {
                    Err(kind) => {
                        let e = ChainError { step_from: step.from, kind };
                        assert(settles(left, before, one, Err::<ChainedView, ChainError>(e)));
                        assert(settles(
                            steps@,
                            start,
                            asked + one,
                            Err::<ChainedView, ChainError>(e),
                        ));
                        return Err(e);
                    },
                    Ok(next) => {
                        proof {
                            let longer = asked + one;
                            assert forall|rest: Seq<Asked>, r: Result<ChainedView, ChainError>|
                                #[trigger]
                                settles(steps@.skip(k + 1), next@, rest, r) implies settles(
                                steps@,
                                start,
                                longer + rest,
                                r,
                            ) by {
                                let tail = one + rest;
                                assert(tail.skip(1) =~= rest);
                                assert(tail[0] == entry);
                                assert(settles(left, before, tail, r));
                                assert(asked + tail =~= longer + rest);
                            }
                            asked = longer;
                        }
                        current = next;
                    },
                }
            },
        }
        k = k + 1;
    }
    proof {
        let none = Seq::<Asked>::empty();
        assert(steps@.skip(k as int) =~= Seq::<&'static Migration>::empty());
        assert(settles(steps@.skip(k as int), current@, none, Ok::<ChainedView, ChainError>(current@)));
        assert(asked + none =~= asked);
        assert(settles(steps@, start, asked, Ok::<ChainedView, ChainError>(current@)));
    }
    Ok(current)
}

// ---------------------------------------------------------------------------
// Laws
// ---------------------------------------------------------------------------

/// A record's type is listed in the footer of its segment.
pub open spec fn is_listed(footer: Footer, record: RecordView) -> bool {
    match record {
        RecordView::Message { event, .. } => footer.events@.contains(event),
        RecordView::Sample { metric, .. } => footer.metrics@.contains(metric),
        _ => true,
    }
}

proof fn lemma_unseen(step: Migration, footer: Footer, record: RecordView)
    requires
        !needs_rewrite(step, footer),
        is_listed(footer, record),
    ensures
        !sees(step, record),
{
    match record {
        RecordView::Message { event, .. } => {
            if step.events@.contains(event) {
                let i = step.events@.index_of(event);
                assert(footer.events@.contains(step.events@[i]));
            }
        },
        RecordView::Sample { metric, .. } => {
            if step.metrics@.contains(metric) {
                let i = step.metrics@.index_of(metric);
                assert(footer.metrics@.contains(step.metrics@[i]));
            }
        },
        _ => {},
    }
}

/// A segment that no step has to rewrite reads as it is: its records pass the
/// whole chain without a step being asked.
pub proof fn law_an_untouched_segment_reads_as_it_is(
    steps: Seq<&'static Migration>,
    footer: Footer,
    record: RecordView,
    asked: Seq<Asked>,
    r: Result<ChainedView, ChainError>,
)
    requires
        forall|k: int| 0 <= k < steps.len() ==> !needs_rewrite(*(#[trigger] steps[k]), footer),
        is_listed(footer, record),
        settles(steps, ChainedView::Same(record), asked, r),
    ensures
        asked.len() == 0,
        r == Ok::<ChainedView, ChainError>(ChainedView::Same(record)),
    decreases steps.len(),
{
    if steps.len() > 0 {
        assert(!needs_rewrite(*steps[0], footer));
        lemma_unseen(*steps[0], footer, record);
        let rest = steps.skip(1);
        assert forall|k: int| 0 <= k < rest.len() implies !needs_rewrite(
            *(#[trigger] rest[k]),
            footer,
        ) by {
            assert(rest[k] == steps[k + 1]);
        }
        law_an_untouched_segment_reads_as_it_is(rest, footer, record, asked, r);
    }
}

/// A jump across several versions is made of the same steps as jumps across one:
/// chains compose.
pub proof fn law_chains_compose(
    first: Seq<&'static Migration>,
    second: Seq<&'static Migration>,
    current: ChainedView,
    between: ChainedView,
    a1: Seq<Asked>,
    a2: Seq<Asked>,
    r: Result<ChainedView, ChainError>,
)
    requires
        !(between is Dropped),
        settles(first, current, a1, Ok::<ChainedView, ChainError>(between)),
        settles(second, between, a2, r),
    ensures
        settles(first + second, current, a1 + a2, r),
    decreases first.len(),
{
    let all = first + second;
    if first.len() == 0 {
        assert(all =~= second);
        assert(a1 + a2 =~= a2);
    } else {
        assert(all[0] == first[0]);
        assert(all.skip(1) =~= first.skip(1) + second);
        let step = *first[0];
        let record = current.record()->0;
        if !sees(step, record) {
            law_chains_compose(first.skip(1), second, current, between, a1, a2, r);
        } else {
            assert((a1 + a2)[0] == a1[0]);
            assert((a1 + a2).skip(1) =~= a1.skip(1) + a2);
            match a1[0].answer {
                Ok(Some(outcome)) => {
                    match advanced(current, outcome) {
                        Some(next) => {
                            law_chains_compose(
                                first.skip(1),
                                second,
                                next,
                                between,
                                a1.skip(1),
                                a2,
                                r,
                            );
                        },
                        None => {},
                    }
                },
                _ => {},
            }
        }
    }
}

/// A chain without steps hands the record on as it is.
pub proof fn law_an_empty_chain_changes_nothing(
    record: RecordView,
    asked: Seq<Asked>,
    r: Result<ChainedView, ChainError>,
)
    requires
        settles(Seq::empty(), ChainedView::Same(record), asked, r),
    ensures
        asked.len() == 0,
        r == Ok::<ChainedView, ChainError>(ChainedView::Same(record)),
{
}

/// A refusal or a deletion in the first half of a chain is the answer of the whole
/// chain, and no step of the second half is asked.
pub proof fn law_a_chain_ends_at_a_refusal_or_a_deletion(
    first: Seq<&'static Migration>,
    second: Seq<&'static Migration>,
    current: ChainedView,
    a1: Seq<Asked>,
    r1: Result<ChainedView, ChainError>,
    asked: Seq<Asked>,
    r: Result<ChainedView, ChainError>,
)
    requires
        !(current is Dropped),
        settles(first, current, a1, r1),
        r1 is Err || r1 == Ok::<ChainedView, ChainError>(ChainedView::Dropped),
        settles(first + second, current, asked, r),
        // The steps answered the same.
        forall|k: int|
            0 <= k < a1.len() && k < asked.len() ==> (#[trigger] asked[k]).answer == a1[k].answer,
    ensures
        asked == a1,
        r == r1,
    decreases first.len(),
{
    let all = first + second;
    if first.len() > 0 {
        assert(all[0] == first[0]);
        assert(all.skip(1) =~= first.skip(1) + second);
        let step = *first[0];
        let record = current.record()->0;
        if !sees(step, record) {
            law_a_chain_ends_at_a_refusal_or_a_deletion(
                first.skip(1),
                second,
                current,
                a1,
                r1,
                asked,
                r,
            );
        } else {
            assert(asked[0].answer == a1[0].answer);
            assert(asked[0] == a1[0]);
            match a1[0].answer {
                Ok(Some(outcome)) => {
                    match advanced(current, outcome) {
                        Some(next) => {
                            let x = asked.skip(1);
                            let y = a1.skip(1);
                            assert forall|k: int| 0 <= k < y.len() && k < x.len() implies (
                            #[trigger] x[k]).answer == y[k].answer by {
                                assert(x[k] == asked[k + 1] && y[k] == a1[k + 1]);
                            }
                            law_a_chain_ends_at_a_refusal_or_a_deletion(
                                first.skip(1),
                                second,
                                next,
                                y,
                                r1,
                                x,
                                r,
                            );
                            assert(asked =~= seq![asked[0]] + x);
                            assert(a1 =~= seq![a1[0]] + y);
                        },
                        None => {
                            assert(asked =~= a1);
                        },
                    }
                },
                _ => {
                    assert(asked =~= a1);
                },
            }
        }
    }
}

/// A step keeps what others refer to a record by: a message stays attached to its
/// span, a span keeps its number and its parent, and a change of a sample's metric
/// keeps its value.
pub proof fn law_a_step_keeps_the_identity(record: RecordView, outcome: OutcomeView)
    requires
        changed(record, outcome) is Some,
    ensures
        match (record, changed(record, outcome)->0) {
            (RecordView::Message { span: a, .. }, RecordView::Message { span: b, .. }) => a == b,
            (RecordView::Text { span: a, .. }, RecordView::Message { span: b, .. }) => a == b,
            (
                RecordView::SpanStart { span: a, parent: p, .. },
                RecordView::SpanStart { span: b, parent: q, .. },
            ) => a == b && p == q,
            (RecordView::Sample { value: a, .. }, RecordView::Sample { value: b, .. }) => a == b
                || outcome is Sample,
            (before, after) => before == after,
        },
{
}

/// A step sees every record where it touches all, and otherwise exactly the messages, samples and
/// starts of spans of the types it names; the end of a span and free text have no type to name.
pub proof fn law_a_step_sees_the_types_it_names(step: Migration, record: RecordView)
    ensures
        step.touches_all ==> sees(step, record),
        !step.touches_all ==> match record {
            RecordView::Message { event, .. } => sees(step, record) <==> step.events@.contains(event),
            RecordView::Sample { metric, .. } => sees(step, record) <==> step.metrics@.contains(
                metric,
            ),
            RecordView::SpanStart { kind, .. } => sees(step, record) <==> step.spans@.contains(kind),
            _ => !sees(step, record),
        },
{
}

/// A segment is rewritten for a step if and only if the step touches all, or some kind of span, or a
/// type that the segment's footer lists.
pub proof fn law_a_segment_is_rewritten_only_for_what_it_holds(step: Migration, footer: Footer)
    ensures
        needs_rewrite(step, footer) <==> {
            ||| step.touches_all
            ||| step.spans@.len() > 0
            ||| exists|e: EventId| #[trigger]
                footer.events@.contains(e) && step.events@.contains(e)
            ||| exists|m: MetricId| #[trigger]
                footer.metrics@.contains(m) && step.metrics@.contains(m)
        },
{
    if footer.holds_any(step.events@, step.metrics@) {
        if exists|i: int|
            0 <= i < step.events@.len() && footer.events@.contains(#[trigger] step.events@[i]) {
            let i = choose|i: int|
                0 <= i < step.events@.len() && footer.events@.contains(#[trigger] step.events@[i]);
            assert(step.events@.contains(step.events@[i]));
        } else {
            let i = choose|i: int|
                0 <= i < step.metrics@.len() && footer.metrics@.contains(
                    #[trigger] step.metrics@[i],
                );
            assert(step.metrics@.contains(step.metrics@[i]));
        }
    }
    if exists|e: EventId| #[trigger] footer.events@.contains(e) && step.events@.contains(e) {
        let e = choose|e: EventId| #[trigger]
            footer.events@.contains(e) && step.events@.contains(e);
        let i = step.events@.index_of(e);
        assert(footer.events@.contains(step.events@[i]));
    }
    if exists|m: MetricId| #[trigger] footer.metrics@.contains(m) && step.metrics@.contains(m) {
        let m = choose|m: MetricId| #[trigger]
            footer.metrics@.contains(m) && step.metrics@.contains(m);
        let i = step.metrics@.index_of(m);
        assert(footer.metrics@.contains(step.metrics@[i]));
    }
}

/// A record becomes what the step answered: a message or a text the message it names, a sample one
/// of the metric or the value it names, the start of a span one of the kind it names. An answer for
/// another kind of record fits none, and "as it is" leaves every record as it is.
pub proof fn law_a_record_becomes_what_the_step_answered(record: RecordView, outcome: OutcomeView)
    ensures
        outcome is AsIs ==> changed(record, outcome) == Some(record),
        outcome matches OutcomeView::Message { event, payload } ==> {
            &&& changed(record, outcome) is Some <==> record is Message || record is Text
            &&& changed(record, outcome) matches Some(r) ==> (r matches RecordView::Message {
                event: e,
                payload: p,
                ..
            } && e == event && p == payload)
        },
        outcome matches OutcomeView::SampleMetric(metric) ==> {
            &&& changed(record, outcome) is Some <==> record is Sample
            &&& changed(record, outcome) matches Some(r) ==> (r matches RecordView::Sample {
                metric: m,
                ..
            } && m == metric)
        },
        outcome matches OutcomeView::Sample { metric, value } ==> {
            &&& changed(record, outcome) is Some <==> record is Sample
            &&& changed(record, outcome) matches Some(r) ==> (r matches RecordView::Sample {
                metric: m,
                value: v,
            } && m == metric && v == value)
        },
        outcome matches OutcomeView::SpanKind(kind) ==> {
            &&& changed(record, outcome) is Some <==> record is SpanStart
            &&& changed(record, outcome) matches Some(r) ==> (r matches RecordView::SpanStart {
                kind: k,
                ..
            } && k == kind)
        },
{
}

/// A chain goes from version to version without a gap: its first step is from the version of the
/// data, each step from the version after the one before it, and the last leads to the version
/// asked for. Data of that version or a later one needs no step.
pub proof fn law_a_chain_goes_version_by_version(
    migrations: Seq<Migration>,
    from: u16,
    to: u16,
    steps: Seq<&'static Migration>,
    k: int,
)
    requires
        is_chain(migrations, from, to, steps),
    ensures
        from >= to ==> steps.len() == 0,
        from < to ==> steps.len() == to - from && steps[0].from == from && steps.last().from == to
            - 1,
        0 <= k < steps.len() ==> steps[k].from == from + k && migrations.contains(*steps[k]),
{
    if 0 <= k < steps.len() {
        assert(is_step(migrations, from + k, *steps[k]));
    }
    if from < to {
        assert(is_step(migrations, from + 0, *steps[0]));
        assert(is_step(migrations, from + (steps.len() - 1), *steps[steps.len() - 1]));
    }
}

/// There is one step from a version: the first that is declared for it.
pub proof fn law_there_is_one_step_from_a_version(
    migrations: Seq<Migration>,
    from: int,
    step: Migration,
    other: Migration,
    i: int,
)
    requires
        is_step(migrations, from, step),
    ensures
        step.from == from,
        migrations.contains(step),
        is_step(migrations, from, other) ==> other == step,
        0 <= i < migrations.len() && migrations[i].from == from && (forall|k: int|
            0 <= k < i ==> (#[trigger] migrations[k]).from != from) ==> migrations[i] == step,
{
    let j = choose|j: int|
        0 <= j < migrations.len() && step == #[trigger] migrations[j] && migrations[j].from == from
            && forall|k: int| 0 <= k < j ==> (#[trigger] migrations[k]).from != from;
    assert(migrations[j].from == from);
    if is_step(migrations, from, other) {
        let m = choose|m: int|
            0 <= m < migrations.len() && other == #[trigger] migrations[m] && migrations[m].from
                == from && forall|k: int| 0 <= k < m ==> (#[trigger] migrations[k]).from != from;
        assert(migrations[m].from == from);
    }
}

} // verus!
