//! The description of a namespace's schema.
//!
//! A schema is a **compile-time** entity: it belongs to the code of a service and
//! describes which events, metrics and spans it can write. Only the version
//! number of a schema reaches the medium; levels, templates, tags and names are
//! resolved by identifier when a record is read.
//!
//! Identifiers are **explicit**: numbering by position would silently remap old
//! records to foreign decoders as soon as an event was inserted mid-list.

use crate::format::{EventId, Level, MetricId, ProtocolVersion, SpanKindId, Value, ValueType};
use crate::scalar::Scalar;
use crate::search;
use crate::text::same_text;
use vstd::prelude::*;

verus! {

// ---------------------------------------------------------------------------
// Storage classes and languages
// ---------------------------------------------------------------------------

/// A storage class: the channel that records of a type go to.
///
/// A channel decides the durability policy and the budget. Significant data
/// declares [`StorageClass::Critical`], everything else
/// [`StorageClass::Default`]. The order of the variants is the order of the
/// names.
#[derive(Debug, Clone, Copy, PartialEq, Eq, Structural, PartialOrd, Ord, Hash)]
pub enum StorageClass {
    /// Synced at once (group commit): survives a power loss.
    Critical,
    /// Batches with deferred syncing.
    Default,
    /// A channel of its own for telemetry, usually with the largest budget.
    Telemetry,
}

/// How many storage classes there are.
pub const CLASS_COUNT: usize = 3;

/// All classes, in order.
pub open spec fn all_classes() -> Seq<StorageClass> {
    seq![StorageClass::Critical, StorageClass::Default, StorageClass::Telemetry]
}

impl StorageClass {
    /// All classes, in order.
    pub fn all() -> (classes: Vec<StorageClass>)
        ensures
            classes@ == all_classes(),
    {
        let classes = vec![StorageClass::Critical, StorageClass::Default, StorageClass::Telemetry];
        assert(classes@ =~= all_classes());
        classes
    }

    pub open spec fn name(self) -> Seq<char> {
        match self {
            StorageClass::Critical => "critical"@,
            StorageClass::Default => "default"@,
            StorageClass::Telemetry => "telemetry"@,
        }
    }

    /// The name of the class, which is also the name of its directory.
    pub fn as_str(self) -> (name: &'static str)
        ensures
            name@ == self.name(),
    {
        match self {
            StorageClass::Critical => "critical",
            StorageClass::Default => "default",
            StorageClass::Telemetry => "telemetry",
        }
    }

    pub open spec fn position(self) -> int {
        match self {
            StorageClass::Critical => 0,
            StorageClass::Default => 1,
            StorageClass::Telemetry => 2,
        }
    }

    /// The position of the class among all classes.
    pub fn index(self) -> (i: usize)
        ensures
            i == self.position(),
            i < CLASS_COUNT,
            all_classes()[i as int] == self,
    {
        match self {
            StorageClass::Critical => 0,
            StorageClass::Default => 1,
            StorageClass::Telemetry => 2,
        }
    }
}

/// The code of a template language (`"en"`, `"ru"`, `"ja"`, ...). The set of
/// languages is the application's choice.
#[derive(Debug, Clone, Copy, PartialEq, Eq, PartialOrd, Ord, Hash)]
pub struct Language(pub &'static str);

impl Language {
    pub fn as_str(self) -> (code: &'static str)
        ensures
            code@ == self.0@,
    {
        self.0
    }
}

// ---------------------------------------------------------------------------
// Events
// ---------------------------------------------------------------------------

/// A field of an event's payload, for showing structured data.
#[derive(Debug, Clone, Copy, PartialEq, Eq)]
pub struct FieldDesc {
    pub name: &'static str,
    /// The type name as in the source (`"f32"`, `"String"`).
    pub ty: &'static str,
}

/// A payload that does not decode.
#[derive(Debug, Clone, Copy, PartialEq, Eq, Structural)]
pub struct DecodeError;

/// An event type.
#[derive(Debug, Clone, Copy)]
pub struct EventDesc {
    pub id: EventId,
    pub name: &'static str,
    pub level: Level,
    pub class: StorageClass,
    pub tags: &'static [&'static str],
    /// The templates, one per language of [`Schema::languages`], in its order.
    pub templates: &'static [&'static str],
    pub fields: &'static [FieldDesc],
}

impl EventDesc {
    /// The template in a language; `None` where there is no such language.
    pub fn template(&self, lang_index: usize) -> (t: Option<&'static str>)
        ensures
            match t {
                Some(text) => lang_index < self.templates@.len() && text
                    == self.templates@[lang_index as int],
                None => lang_index >= self.templates@.len(),
            },
    {
        if lang_index < self.templates.len() {
            Some(self.templates[lang_index])
        } else {
            None
        }
    }
}

// ---------------------------------------------------------------------------
// Severity and thresholds
// ---------------------------------------------------------------------------

/// How much a metric's value calls for attention.
#[derive(Debug, Clone, Copy, PartialEq, Eq, Structural, PartialOrd, Ord, Hash)]
pub enum Severity {
    Normal,
    /// The quantity left what is normal.
    Warn,
    /// The quantity left what is permissible.
    Alarm,
}

impl Default for Severity {
    fn default() -> (s: Severity)
        ensures
            s is Normal,
    {
        Severity::Normal
    }
}

impl Severity {
    pub open spec fn name(self) -> Seq<char> {
        match self {
            Severity::Normal => "normal"@,
            Severity::Warn => "warn"@,
            Severity::Alarm => "alarm"@,
        }
    }

    pub fn as_str(self) -> (name: &'static str)
        ensures
            name@ == self.name(),
    {
        match self {
            Severity::Normal => "normal",
            Severity::Warn => "warn",
            Severity::Alarm => "alarm",
        }
    }

    pub fn is_normal(self) -> (yes: bool)
        ensures
            yes == (self is Normal),
    {
        matches!(self, Severity::Normal)
    }

    pub open spec fn weight(self) -> int {
        match self {
            Severity::Normal => 0,
            Severity::Warn => 1,
            Severity::Alarm => 2,
        }
    }

    pub open spec fn max_with(self, other: Severity) -> Severity {
        if self.weight() >= other.weight() {
            self
        } else {
            other
        }
    }

    /// The heavier of two diagnoses.
    pub fn heavier(self, other: Severity) -> (s: Severity)
        ensures
            s == self.max_with(other),
    {
        match (self, other) {
            (Severity::Alarm, _) => self,
            (_, Severity::Alarm) => other,
            (Severity::Warn, _) => self,
            (Severity::Normal, _) => other,
        }
    }
}

/// How a quantity behaves between samples.
#[derive(Debug, Clone, Copy, PartialEq, Eq, Structural, Hash)]
pub enum MetricKind {
    /// A continuous quantity; it may be interpolated.
    Gauge,
    /// A discrete state: it holds until the next sample.
    State,
    /// A counter that only grows.
    Counter,
}

impl Default for MetricKind {
    fn default() -> (k: MetricKind)
        ensures
            k is Gauge,
    {
        MetricKind::Gauge
    }
}

/// One state of an enum metric. Codes are explicit and go to the medium as plain
/// integers; the name and the severity stay in the schema.
#[derive(Debug, Clone, Copy, PartialEq, Eq)]
pub struct StateDesc {
    pub code: u64,
    pub name: &'static str,
    pub severity: Severity,
}

/// A range of permissible values, bounds included; `None` leaves a side open.
#[derive(Debug, Clone, Copy, PartialEq, Eq, Structural)]
pub struct Range {
    pub min: Option<Scalar>,
    pub max: Option<Scalar>,
}

impl Default for Range {
    fn default() -> (r: Range)
        ensures
            r == (Range { min: None, max: None }),
    {
        Range { min: None, max: None }
    }
}

impl Range {
    /// The range without bounds.
    pub fn none() -> (r: Range)
        ensures
            r == (Range { min: None, max: None }),
    {
        Range { min: None, max: None }
    }

    pub open spec fn unset(self) -> bool {
        self.min is None && self.max is None
    }

    pub fn is_unset(&self) -> (yes: bool)
        ensures
            yes == self.unset(),
    {
        self.min.is_none() && self.max.is_none()
    }

    /// A value is inside when it is a number and passes both bounds; nothing
    /// passes a bound that is not a number.
    pub open spec fn holds(self, v: Scalar) -> bool {
        &&& !(v is Nan)
        &&& self.min matches Some(m) ==> v.reaches(m)
        &&& self.max matches Some(m) ==> m.reaches(v)
    }

    /// Whether the value lies inside, bounds included. A value that is not a
    /// number is inside no range.
    pub fn contains(&self, v: Scalar) -> (yes: bool)
        ensures
            yes == self.holds(v),
    {
        if v.is_nan() {
            return false;
        }
        let above: bool = match self.min {
            Some(m) => v.is_at_least(m),
            None => true,
        };
        let below: bool = match self.max {
            Some(m) => m.is_at_least(v),
            None => true,
        };
        above && below
    }
}

/// The limits of a numeric metric: the ranges **outside** which a value calls for
/// attention. `alarm` has to contain `warn`.
#[derive(Debug, Clone, Copy, PartialEq, Eq, Structural)]
pub struct Thresholds {
    /// Outside of this, [`Severity::Warn`].
    pub warn: Range,
    /// Outside of this, [`Severity::Alarm`].
    pub alarm: Range,
}

impl Default for Thresholds {
    fn default() -> (t: Thresholds)
        ensures
            t.unset(),
    {
        Thresholds { warn: Range::none(), alarm: Range::none() }
    }
}

impl Thresholds {
    /// No limits at all.
    pub fn none() -> (t: Thresholds)
        ensures
            t.unset(),
    {
        Thresholds { warn: Range::none(), alarm: Range::none() }
    }

    pub fn new(warn: Range, alarm: Range) -> (t: Thresholds)
        ensures
            t == (Thresholds { warn, alarm }),
    {
        Thresholds { warn, alarm }
    }

    pub open spec fn unset(self) -> bool {
        self.warn.unset() && self.alarm.unset()
    }

    pub fn is_unset(&self) -> (yes: bool)
        ensures
            yes == self.unset(),
    {
        self.warn.is_unset() && self.alarm.is_unset()
    }

    /// The heavier diagnosis wins; an unset range makes none.
    pub open spec fn diagnosis(self, v: Scalar) -> Severity {
        if !self.alarm.unset() && !self.alarm.holds(v) {
            Severity::Alarm
        } else if !self.warn.unset() && !self.warn.holds(v) {
            Severity::Warn
        } else {
            Severity::Normal
        }
    }

    /// The severity of a number.
    pub fn severity_of(&self, v: Scalar) -> (s: Severity)
        ensures
            s == self.diagnosis(v),
    {
        if !self.alarm.is_unset() && !self.alarm.contains(v) {
            return Severity::Alarm;
        }
        if !self.warn.is_unset() && !self.warn.contains(v) {
            return Severity::Warn;
        }
        Severity::Normal
    }

    /// Whether the alarm range contains the warning one, bound by bound.
    pub open spec fn nested(self) -> bool {
        &&& !(self.warn.min matches Some(w) && self.alarm.min matches Some(c) && c.exceeds(w))
        &&& !(self.warn.max matches Some(w) && self.alarm.max matches Some(c) && w.exceeds(c))
    }
}

/// With nested ranges that are bounded on the same sides, whatever leaves the
/// alarm range has left the warning range too: no value is alarming without
/// being a warning.
pub proof fn law_an_alarm_is_a_warning_first(t: Thresholds, v: Scalar)
    requires
        t.nested(),
        !(t.warn.min matches Some(m) && m is Nan),
        !(t.warn.max matches Some(m) && m is Nan),
        !(t.alarm.min matches Some(m) && m is Nan),
        !(t.alarm.max matches Some(m) && m is Nan),
        t.alarm.min is Some ==> t.warn.min is Some,
        t.alarm.max is Some ==> t.warn.max is Some,
        !t.alarm.unset(),
        !t.alarm.holds(v),
    ensures
        !t.warn.unset(),
        !t.warn.holds(v),
{
}

/// Without limits every number is normal.
pub proof fn law_no_limits_no_diagnosis(t: Thresholds, v: Scalar)
    requires
        t.unset(),
    ensures
        t.diagnosis(v) is Normal,
{
}

// ---------------------------------------------------------------------------
// Metrics
// ---------------------------------------------------------------------------

/// A metric's value as a diagnosis sees it: the value itself, the number it
/// stands for (a blob stands for none), and which of the schema's predicates the
/// number triggered.
#[derive(Debug, Clone, Copy)]
pub struct Reading<'a> {
    pub value: Value<'a>,
    pub number: Option<Scalar>,
    pub warn_hit: bool,
    pub alarm_hit: bool,
}

/// The state code a value carries: a non-negative integer or a boolean.
pub open spec fn code_of(value: Value<'_>) -> Option<u64> {
    match value {
        Value::U64(v) => Some(v),
        Value::I64(v) => if v >= 0 {
            Some(v as u64)
        } else {
            None
        },
        Value::Bool(b) => Some(if b {
            1
        } else {
            0
        }),
        _ => None,
    }
}

/// The state code a value carries.
pub fn state_code(value: &Value<'_>) -> (code: Option<u64>)
    ensures
        code == code_of(*value),
{
    match value {
        Value::U64(v) => Some(*v),
        Value::I64(v) => if *v >= 0 {
            Some(*v as u64)
        } else {
            None
        },
        Value::Bool(b) => if *b {
            Some(1)
        } else {
            Some(0)
        },
        _ => None,
    }
}

/// A telemetry metric.
#[derive(Debug, Clone, Copy)]
pub struct MetricDesc {
    pub id: MetricId,
    pub name: &'static str,
    pub value_type: ValueType,
    pub class: StorageClass,
    /// The unit for display.
    pub unit: &'static str,
    pub tags: &'static [&'static str],
    pub kind: MetricKind,
    /// The labels of the state codes. Empty means not an enum.
    pub states: &'static [StateDesc],
    /// The default limits; an installation may override them at runtime.
    pub thresholds: Thresholds,
}

pub open spec fn has_code(states: Seq<StateDesc>, code: u64) -> spec_fn(int) -> bool {
    |i: int| states[i].code == code
}

impl MetricDesc {
    /// The position of the first state with a code.
    pub open spec fn state_at(self, code: u64) -> int {
        search::first_at(has_code(self.states@, code), 0, self.states@.len() as int)
    }

    /// The label of a state code; `None` where the code is not declared.
    pub fn state(&self, code: u64) -> (s: Option<&'static StateDesc>)
        ensures
            match s {
                Some(d) => self.state_at(code) < self.states@.len() && *d
                    == self.states@[self.state_at(code)] && d.code == code,
                None => self.state_at(code) == self.states@.len() && forall|i: int|
                    0 <= i < self.states@.len() ==> (#[trigger] self.states@[i]).code != code,
            },
    {
        let ghost p = has_code(self.states@, code);
        let n: usize = self.states.len();
        let mut i: usize = 0;
        while i < n
            invariant
                i <= n == self.states@.len(),
                p == has_code(self.states@, code),
                search::first_at(p, 0, n as int) == search::first_at(p, i as int, n as int),
                forall|k: int| 0 <= k < i ==> (#[trigger] self.states@[k]).code != code,
            decreases n - i,
        {
            if self.states[i].code == code {
                assert(p(i as int));
                return Some(&self.states[i]);
            }
            assert(!p(i as int));
            i = i + 1;
        }
        None
    }

    /// The severity the schema gives to a state code; an unfamiliar code has
    /// nothing to warn about.
    pub open spec fn code_severity(self, code: u64) -> Severity {
        if self.state_at(code) < self.states@.len() {
            self.states@[self.state_at(code)].severity
        } else {
            Severity::Normal
        }
    }

    /// The diagnosis of a number: the ranges and the triggered predicates are
    /// different axes of one diagnosis, and the heavier wins.
    pub open spec fn number_severity(thresholds: Thresholds, reading: Reading<'_>) -> Severity {
        match reading.number {
            Some(v) => {
                let ranged = thresholds.diagnosis(v);
                let warned = if reading.warn_hit {
                    ranged.max_with(Severity::Warn)
                } else {
                    ranged
                };
                if reading.alarm_hit {
                    Severity::Alarm
                } else {
                    warned
                }
            },
            None => Severity::Normal,
        }
    }

    /// The diagnosis of a number against given ranges.
    pub fn numeric_severity(thresholds: &Thresholds, reading: &Reading<'_>) -> (s: Severity)
        ensures
            s == Self::number_severity(*thresholds, *reading),
    {
        match reading.number {
            Some(v) => {
                let mut s = thresholds.severity_of(v);
                if reading.warn_hit {
                    s = s.heavier(Severity::Warn);
                }
                if reading.alarm_hit {
                    s = s.heavier(Severity::Alarm);
                }
                s
            },
            None => Severity::Normal,
        }
    }

    pub open spec fn schema_severity(self, reading: Reading<'_>) -> Severity {
        if self.states@.len() > 0 {
            match code_of(reading.value) {
                Some(code) => self.code_severity(code),
                None => Severity::Normal,
            }
        } else {
            Self::number_severity(self.thresholds, reading)
        }
    }

    /// The severity of a value by the limits **of the schema**.
    ///
    /// Enums take the severity of the state: their values are not ordered, and
    /// "above the threshold" does not apply to them.
    pub fn severity_of(&self, reading: &Reading<'_>) -> (s: Severity)
        ensures
            s == self.schema_severity(*reading),
    {
        if self.states.len() > 0 {
            match state_code(&reading.value) {
                Some(code) => match self.state(code) {
                    Some(d) => d.severity,
                    None => Severity::Normal,
                },
                None => Severity::Normal,
            }
        } else {
            Self::numeric_severity(&self.thresholds, reading)
        }
    }
}

/// A span kind.
#[derive(Debug, Clone, Copy)]
pub struct SpanDesc {
    pub id: SpanKindId,
    pub name: &'static str,
    pub class: StorageClass,
}

/// A migration step `from -> from + 1`: which types it touches.
///
/// The transformation of one record is code of the application; what the engine
/// needs of a step to decide what to rewrite is the set of types.
#[derive(Debug, Clone, Copy)]
pub struct Migration {
    /// The version migrated from.
    pub from: u16,
    /// The step sees every record, whatever its type.
    pub touches_all: bool,
    pub events: &'static [EventId],
    pub metrics: &'static [MetricId],
    pub spans: &'static [SpanKindId],
}

/// A schema that does not hold together. It is caught when a namespace comes up,
/// that is, at process start.
#[derive(Debug, Clone, Copy, PartialEq, Eq)]
pub enum SchemaError {
    DuplicateId {
        schema: &'static str,
        kind: &'static str,
        id: u16,
        first: &'static str,
        second: &'static str,
    },
    TemplateCount { schema: &'static str, event: &'static str, got: usize, want: usize },
    NoLanguages { schema: &'static str },
    DuplicateLanguage { schema: &'static str, lang: &'static str },
    ZeroVersion { schema: &'static str },
    MigrationGap { schema: &'static str, from: u16, version: u16 },
    DuplicateMigration { schema: &'static str, from: u16 },
    EmptyName { schema: &'static str },
    Unsorted { schema: &'static str, kind: &'static str, name: &'static str },
    DuplicateStateCode { schema: &'static str, metric: &'static str, code: u64 },
    BadMetric { schema: &'static str, metric: &'static str, reason: &'static str },
}

/// The schema of a namespace.
#[derive(Debug, Clone, Copy)]
pub struct Schema {
    /// The identity of the schema: a namespace refuses to open under another.
    pub name: &'static str,
    pub version: ProtocolVersion,
    pub languages: &'static [Language],
    pub events: &'static [EventDesc],
    pub metrics: &'static [MetricDesc],
    pub spans: &'static [SpanDesc],
    pub migrations: &'static [Migration],
}

/// An identifier with the name it was declared under.
pub type Declared = (u16, &'static str);

/// Index `i` repeats an identifier declared before it.
pub open spec fn repeats_id(items: Seq<Declared>) -> spec_fn(int) -> bool {
    |i: int| exists|j: int| 0 <= j < i && (#[trigger] items[j]).0 == items[i].0
}

/// Index `i` declares the identifier `id`.
pub open spec fn declares_id(items: Seq<Declared>, id: u16) -> spec_fn(int) -> bool {
    |i: int| items[i].0 == id
}

/// Index `i` does not rise above the one before it.
pub open spec fn breaks_order(items: Seq<Declared>) -> spec_fn(int) -> bool {
    |i: int| i > 0 && items[i].0 <= items[i - 1].0
}

/// What [`check_unique`] finds: the first identifier declared again, with the
/// names of its two declarations.
pub open spec fn unique_fault(
    schema: &'static str,
    kind: &'static str,
    items: Seq<Declared>,
) -> Option<SchemaError> {
    let i = search::first_at(repeats_id(items), 0, items.len() as int);
    if i < items.len() {
        let j = search::first_at(declares_id(items, items[i].0), 0, items.len() as int);
        Some(
            SchemaError::DuplicateId {
                schema,
                kind,
                id: items[i].0,
                first: items[j].1,
                second: items[i].1,
            },
        )
    } else {
        None
    }
}

/// What [`check_sorted`] finds: the first identifier that does not rise.
pub open spec fn order_fault(
    schema: &'static str,
    kind: &'static str,
    items: Seq<Declared>,
) -> Option<SchemaError> {
    let i = search::first_at(breaks_order(items), 0, items.len() as int);
    if i < items.len() {
        Some(SchemaError::Unsorted { schema, kind, name: items[i].1 })
    } else {
        None
    }
}

/// Checks that identifiers ascend: lookups are binary searches over them.
pub fn check_sorted(schema: &'static str, kind: &'static str, items: &Vec<Declared>) -> (r: Result<
    (),
    SchemaError,
>)
    ensures
        match r {
            Ok(()) => order_fault(schema, kind, items@) is None,
            Err(e) => order_fault(schema, kind, items@) == Some(e),
        },
{
    let ghost p = breaks_order(items@);
    let n: usize = items.len();
    let mut i: usize = 0;
    while i < n
        invariant
            i <= n == items@.len(),
            p == breaks_order(items@),
            search::first_at(p, 0, n as int) == search::first_at(p, i as int, n as int),
        decreases n - i,
    {
        if i > 0 && items[i].0 <= items[i - 1].0 {
            assert(p(i as int));
            return Err(SchemaError::Unsorted { schema, kind, name: items[i].1 });
        }
        assert(!p(i as int));
        i = i + 1;
    }
    Ok(())
}

/// Checks that no identifier is declared twice.
pub fn check_unique(schema: &'static str, kind: &'static str, items: &Vec<Declared>) -> (r: Result<
    (),
    SchemaError,
>)
    ensures
        match r {
            Ok(()) => unique_fault(schema, kind, items@) is None,
            Err(e) => unique_fault(schema, kind, items@) == Some(e),
        },
{
    let ghost p = repeats_id(items@);
    let n: usize = items.len();
    let mut i: usize = 0;
    while i < n
        invariant
            i <= n == items@.len(),
            p == repeats_id(items@),
            search::first_at(p, 0, n as int) == search::first_at(p, i as int, n as int),
        decreases n - i,
    {
        let id: u16 = items[i].0;
        let ghost q = declares_id(items@, id);
        let mut j: usize = 0;
        while j < i
            invariant
                j <= i < n == items@.len(),
                p == repeats_id(items@),
                q == declares_id(items@, id),
                id == items@[i as int].0,
                search::first_at(p, 0, n as int) == search::first_at(p, i as int, n as int),
                search::first_at(q, 0, n as int) == search::first_at(q, j as int, n as int),
                forall|k: int| 0 <= k < j ==> (#[trigger] items@[k]).0 != id,
            decreases i - j,
        {
            if items[j].0 == id {
                assert(q(j as int));
                assert(items@[j as int].0 == items@[i as int].0);
                assert(p(i as int));
                return Err(
                    SchemaError::DuplicateId {
                        schema,
                        kind,
                        id,
                        first: items[j].1,
                        second: items[i].1,
                    },
                );
            }
            assert(!q(j as int));
            j = j + 1;
        }
        assert(!p(i as int));
        i = i + 1;
    }
    Ok(())
}

// ---------------------------------------------------------------------------
// Validation of a metric
// ---------------------------------------------------------------------------

pub const STATE_WITHOUT_STATES: &'static str = "вид State без объявленных состояний: подписывать нечем";

pub const STATES_WITHOUT_STATE: &'static str =
    "состояния объявлены, но вид не State — график нарисовали бы прямой через значения, которых не было";

pub const STATES_NOT_INTEGRAL: &'static str =
    "состояния допустимы только у целочисленной или булевой метрики: код состояния хранится целым";

pub const STATES_WITH_THRESHOLDS: &'static str =
    "числовые пределы у перечисления: его значения не упорядочены, важность задаётся на состояние";

pub const NAMELESS_STATE: &'static str = "состояние без имени";

pub const BOOL_STATE_CODE: &'static str = "у булевой метрики допустимы только коды 0 и 1";

pub const INVERTED_RANGE: &'static str = "диапазон задан вывернутым: min больше max";

pub const NAN_BOUND: &'static str = "граница диапазона — NaN: сравнения с ним всегда ложны";

pub const NOT_NESTED: &'static str =
    "критический диапазон обязан включать тревожный: иначе значение оказалось бы критическим, не будучи тревожным";

/// Index `i` repeats a state code declared before it.
pub open spec fn repeats_code(states: Seq<StateDesc>, i: int) -> bool {
    exists|j: int| 0 <= j < i && (#[trigger] states[j]).code == states[i].code
}

/// What is wrong with the state at index `i` of a metric.
pub open spec fn state_fault(schema: &'static str, m: MetricDesc, i: int) -> Option<SchemaError> {
    let s = m.states@[i];
    if repeats_code(m.states@, i) {
        Some(SchemaError::DuplicateStateCode { schema, metric: m.name, code: s.code })
    } else if s.name@.len() == 0 {
        Some(SchemaError::BadMetric { schema, metric: m.name, reason: NAMELESS_STATE })
    } else if m.value_type is Bool && s.code > 1 {
        Some(SchemaError::BadMetric { schema, metric: m.name, reason: BOOL_STATE_CODE })
    } else {
        None
    }
}

pub open spec fn faulty_state(schema: &'static str, m: MetricDesc) -> spec_fn(int) -> bool {
    |i: int| state_fault(schema, m, i) is Some
}

/// What is wrong with the states of a metric: the first that is wrong.
pub open spec fn states_fault(schema: &'static str, m: MetricDesc) -> Option<SchemaError> {
    let n = m.states@.len() as int;
    let i = search::first_at(faulty_state(schema, m), 0, n);
    if i < n {
        state_fault(schema, m, i)
    } else {
        None
    }
}

/// What is wrong with a range by itself.
pub open spec fn range_fault(r: Range) -> Option<&'static str> {
    if r.min matches Some(lo) && r.max matches Some(hi) && lo.exceeds(hi) {
        Some(INVERTED_RANGE)
    } else if (r.min matches Some(b) && b is Nan) || (r.max matches Some(b) && b is Nan) {
        Some(NAN_BOUND)
    } else {
        None
    }
}

/// What is wrong with a pair of ranges.
pub open spec fn thresholds_fault(t: Thresholds) -> Option<&'static str> {
    match range_fault(t.warn) {
        Some(reason) => Some(reason),
        None => match range_fault(t.alarm) {
            Some(reason) => Some(reason),
            None => if t.nested() {
                None
            } else {
                Some(NOT_NESTED)
            },
        },
    }
}

/// What is wrong with a metric; the first objection in the order of the checks.
pub open spec fn metric_fault(schema: &'static str, m: MetricDesc) -> Option<SchemaError> {
    let bad = |reason: &'static str| SchemaError::BadMetric { schema, metric: m.name, reason };
    let enumerated = m.states@.len() > 0;
    if !enumerated && m.kind is State {
        Some(bad(STATE_WITHOUT_STATES))
    } else if enumerated && !(m.kind is State) {
        Some(bad(STATES_WITHOUT_STATE))
    } else if enumerated && !(m.value_type is U64 || m.value_type is I64 || m.value_type is Bool) {
        Some(bad(STATES_NOT_INTEGRAL))
    } else if enumerated && !m.thresholds.unset() {
        Some(bad(STATES_WITH_THRESHOLDS))
    } else if enumerated && states_fault(schema, m) is Some {
        states_fault(schema, m)
    } else {
        match thresholds_fault(m.thresholds) {
            Some(reason) => Some(bad(reason)),
            None => None,
        }
    }
}

/// Checks a range by itself.
fn check_range(r: &Range) -> (fault: Option<&'static str>)
    ensures
        fault == range_fault(*r),
{
    match (r.min, r.max) {
        (Some(lo), Some(hi)) => {
            if lo.is_above(hi) {
                return Some(INVERTED_RANGE);
            }
        },
        _ => {},
    }
    let nan_min: bool = match r.min {
        Some(b) => b.is_nan(),
        None => false,
    };
    let nan_max: bool = match r.max {
        Some(b) => b.is_nan(),
        None => false,
    };
    if nan_min || nan_max {
        return Some(NAN_BOUND);
    }
    None
}

impl Schema {
    /// Checks the states of an enum metric.
    fn check_states(&self, m: &MetricDesc) -> (r: Result<(), SchemaError>)
        ensures
            match r {
                Ok(()) => states_fault(self.name, *m) is None,
                Err(e) => states_fault(self.name, *m) == Some(e),
            },
    {
        let ghost p = faulty_state(self.name, *m);
        let n: usize = m.states.len();
        let mut i: usize = 0;
        while i < n
            invariant
                i <= n == m.states@.len(),
                p == faulty_state(self.name, *m),
                search::first_at(p, 0, n as int) == search::first_at(p, i as int, n as int),
            decreases n - i,
        {
            let s: StateDesc = m.states[i];
            let mut j: usize = 0;
            while j < i
                invariant
                    j <= i < n == m.states@.len(),
                    s == m.states@[i as int],
                    p == faulty_state(self.name, *m),
                    search::first_at(p, 0, n as int) == search::first_at(p, i as int, n as int),
                    forall|k: int| 0 <= k < j ==> (#[trigger] m.states@[k]).code != s.code,
                decreases i - j,
            {
                if m.states[j].code == s.code {
                    assert(repeats_code(m.states@, i as int));
                    assert(p(i as int));
                    return Err(
                        SchemaError::DuplicateStateCode {
                            schema: self.name,
                            metric: m.name,
                            code: s.code,
                        },
                    );
                }
                j = j + 1;
            }
            assert(!repeats_code(m.states@, i as int));
            if s.name.is_empty() {
                assert(p(i as int));
                return Err(
                    SchemaError::BadMetric {
                        schema: self.name,
                        metric: m.name,
                        reason: NAMELESS_STATE,
                    },
                );
            }
            if m.value_type == ValueType::Bool && s.code > 1 {
                assert(p(i as int));
                return Err(
                    SchemaError::BadMetric {
                        schema: self.name,
                        metric: m.name,
                        reason: BOOL_STATE_CODE,
                    },
                );
            }
            assert(!p(i as int));
            i = i + 1;
        }
        Ok(())
    }

    /// Checks that a metric makes sense: an enum is declared as a state and the
    /// other way round, codes are integers without repetition, and the ranges
    /// are ordered, comparable and nested.
    pub fn check_metric(&self, m: &MetricDesc) -> (r: Result<(), SchemaError>)
        ensures
            match r {
                Ok(()) => metric_fault(self.name, *m) is None,
                Err(e) => metric_fault(self.name, *m) == Some(e),
            },
    {
        let enumerated: bool = m.states.len() > 0;
        if !enumerated && m.kind == MetricKind::State {
            return Err(
                SchemaError::BadMetric {
                    schema: self.name,
                    metric: m.name,
                    reason: STATE_WITHOUT_STATES,
                },
            );
        }
        if enumerated && m.kind != MetricKind::State {
            return Err(
                SchemaError::BadMetric {
                    schema: self.name,
                    metric: m.name,
                    reason: STATES_WITHOUT_STATE,
                },
            );
        }
        if enumerated {
            if !matches!(m.value_type, ValueType::U64 | ValueType::I64 | ValueType::Bool) {
                return Err(
                    SchemaError::BadMetric {
                        schema: self.name,
                        metric: m.name,
                        reason: STATES_NOT_INTEGRAL,
                    },
                );
            }
            if !m.thresholds.is_unset() {
                return Err(
                    SchemaError::BadMetric {
                        schema: self.name,
                        metric: m.name,
                        reason: STATES_WITH_THRESHOLDS,
                    },
                );
            }
            match self.check_states(m) {
                Ok(()) => {},
                Err(e) => {
                    return Err(e);
                },
            }
        }
        let warn_fault = check_range(&m.thresholds.warn);
        let range_fault = match warn_fault {
            Some(reason) => Some(reason),
            None => check_range(&m.thresholds.alarm),
        };
        let fault = match range_fault {
            Some(reason) => Some(reason),
            None => if crate::limits::is_nested(&m.thresholds) {
                None
            } else {
                Some(NOT_NESTED)
            },
        };
        match fault {
            Some(reason) => Err(
                SchemaError::BadMetric { schema: self.name, metric: m.name, reason },
            ),
            None => Ok(()),
        }
    }
}

// ---------------------------------------------------------------------------
// Validation of a schema
// ---------------------------------------------------------------------------

pub open spec fn repeats_language(languages: Seq<Language>) -> spec_fn(int) -> bool {
    |i: int| exists|j: int| 0 <= j < i && (#[trigger] languages[j]).0@ == languages[i].0@
}

pub open spec fn repeats_step(migrations: Seq<Migration>) -> spec_fn(int) -> bool {
    |i: int| exists|j: int| 0 <= j < i && (#[trigger] migrations[j]).from == migrations[i].from
}

/// There is a step from version `from`.
pub open spec fn has_step(migrations: Seq<Migration>, from: int) -> bool {
    exists|j: int| 0 <= j < migrations.len() && (#[trigger] migrations[j]).from == from
}

pub open spec fn lacks_step(migrations: Seq<Migration>) -> spec_fn(int) -> bool {
    |from: int| !has_step(migrations, from)
}

impl Schema {
    pub open spec fn declared_events(self) -> Seq<Declared> {
        Seq::new(self.events@.len(), |i: int| (self.events@[i].id.0, self.events@[i].name))
    }

    pub open spec fn declared_metrics(self) -> Seq<Declared> {
        Seq::new(self.metrics@.len(), |i: int| (self.metrics@[i].id.0, self.metrics@[i].name))
    }

    pub open spec fn declared_spans(self) -> Seq<Declared> {
        Seq::new(self.spans@.len(), |i: int| (self.spans@[i].id.0, self.spans@[i].name))
    }

    pub open spec fn lacks_templates(self) -> spec_fn(int) -> bool {
        |i: int| self.events@[i].templates@.len() != self.languages@.len()
    }

    pub open spec fn faulty_metric(self) -> spec_fn(int) -> bool {
        |i: int| metric_fault(self.name, self.metrics@[i]) is Some
    }

    /// What is wrong with the languages.
    pub open spec fn languages_fault(self) -> Option<SchemaError> {
        let n = self.languages@.len() as int;
        let i = search::first_at(repeats_language(self.languages@), 0, n);
        if n == 0 {
            Some(SchemaError::NoLanguages { schema: self.name })
        } else if i < n {
            Some(
                SchemaError::DuplicateLanguage {
                    schema: self.name,
                    lang: self.languages@[i].0,
                },
            )
        } else {
            None
        }
    }

    /// What is wrong with the identifiers: repetitions first, then the order.
    pub open spec fn ids_fault(self) -> Option<SchemaError> {
        let events = self.declared_events();
        let metrics = self.declared_metrics();
        let spans = self.declared_spans();
        if unique_fault(self.name, "event", events) is Some {
            unique_fault(self.name, "event", events)
        } else if unique_fault(self.name, "metric", metrics) is Some {
            unique_fault(self.name, "metric", metrics)
        } else if unique_fault(self.name, "span", spans) is Some {
            unique_fault(self.name, "span", spans)
        } else if order_fault(self.name, "event", events) is Some {
            order_fault(self.name, "event", events)
        } else if order_fault(self.name, "metric", metrics) is Some {
            order_fault(self.name, "metric", metrics)
        } else {
            order_fault(self.name, "span", spans)
        }
    }

    /// What is wrong with the templates: the first event without exactly one per
    /// language.
    pub open spec fn templates_fault(self) -> Option<SchemaError> {
        let n = self.events@.len() as int;
        let i = search::first_at(self.lacks_templates(), 0, n);
        if i < n {
            Some(
                SchemaError::TemplateCount {
                    schema: self.name,
                    event: self.events@[i].name,
                    got: self.events@[i].templates@.len() as usize,
                    want: self.languages@.len() as usize,
                },
            )
        } else {
            None
        }
    }

    /// What is wrong with the metrics: the first that is wrong.
    pub open spec fn metrics_fault(self) -> Option<SchemaError> {
        let n = self.metrics@.len() as int;
        let i = search::first_at(self.faulty_metric(), 0, n);
        if i < n {
            metric_fault(self.name, self.metrics@[i])
        } else {
            None
        }
    }

    /// What is wrong with the migrations: a step declared twice, or the first
    /// version below the current one without a step.
    pub open spec fn migrations_fault(self) -> Option<SchemaError> {
        let n = self.migrations@.len() as int;
        let i = search::first_at(repeats_step(self.migrations@), 0, n);
        let version = self.version.0 as int;
        let from = search::first_at(lacks_step(self.migrations@), 1, version);
        if i < n {
            Some(
                SchemaError::DuplicateMigration {
                    schema: self.name,
                    from: self.migrations@[i].from,
                },
            )
        } else if 1 <= from < version {
            Some(
                SchemaError::MigrationGap {
                    schema: self.name,
                    from: from as u16,
                    version: self.version.0,
                },
            )
        } else {
            None
        }
    }

    /// The first objection to the schema, in the order of the checks.
    pub open spec fn fault(self) -> Option<SchemaError> {
        if self.name@.len() == 0 {
            Some(SchemaError::EmptyName { schema: self.name })
        } else if self.version.0 == 0 {
            Some(SchemaError::ZeroVersion { schema: self.name })
        } else if self.languages_fault() is Some {
            self.languages_fault()
        } else if self.ids_fault() is Some {
            self.ids_fault()
        } else if self.templates_fault() is Some {
            self.templates_fault()
        } else if self.metrics_fault() is Some {
            self.metrics_fault()
        } else {
            self.migrations_fault()
        }
    }

    /// A schema a namespace may come up with.
    pub open spec fn valid(self) -> bool {
        self.fault() is None
    }

    fn event_decls(&self) -> (out: Vec<Declared>)
        ensures
            out@ == self.declared_events(),
    {
        let mut out: Vec<Declared> = Vec::new();
        let mut i: usize = 0;
        while i < self.events.len()
            invariant
                i <= self.events@.len(),
                out@ == self.declared_events().take(i as int),
            decreases self.events@.len() - i,
        {
            out.push((self.events[i].id.0, self.events[i].name));
            i = i + 1;
            assert(out@ =~= self.declared_events().take(i as int));
        }
        assert(out@ =~= self.declared_events());
        out
    }

    fn metric_decls(&self) -> (out: Vec<Declared>)
        ensures
            out@ == self.declared_metrics(),
    {
        let mut out: Vec<Declared> = Vec::new();
        let mut i: usize = 0;
        while i < self.metrics.len()
            invariant
                i <= self.metrics@.len(),
                out@ == self.declared_metrics().take(i as int),
            decreases self.metrics@.len() - i,
        {
            out.push((self.metrics[i].id.0, self.metrics[i].name));
            i = i + 1;
            assert(out@ =~= self.declared_metrics().take(i as int));
        }
        assert(out@ =~= self.declared_metrics());
        out
    }

    fn span_decls(&self) -> (out: Vec<Declared>)
        ensures
            out@ == self.declared_spans(),
    {
        let mut out: Vec<Declared> = Vec::new();
        let mut i: usize = 0;
        while i < self.spans.len()
            invariant
                i <= self.spans@.len(),
                out@ == self.declared_spans().take(i as int),
            decreases self.spans@.len() - i,
        {
            out.push((self.spans[i].id.0, self.spans[i].name));
            i = i + 1;
            assert(out@ =~= self.declared_spans().take(i as int));
        }
        assert(out@ =~= self.declared_spans());
        out
    }

    fn check_languages(&self) -> (r: Result<(), SchemaError>)
        ensures
            match r {
                Ok(()) => self.languages_fault() is None,
                Err(e) => self.languages_fault() == Some(e),
            },
    {
        if self.languages.len() == 0 {
            return Err(SchemaError::NoLanguages { schema: self.name });
        }
        let ghost p = repeats_language(self.languages@);
        let n: usize = self.languages.len();
        let mut i: usize = 0;
        while i < n
            invariant
                i <= n == self.languages@.len(),
                n > 0,
                p == repeats_language(self.languages@),
                search::first_at(p, 0, n as int) == search::first_at(p, i as int, n as int),
            decreases n - i,
        {
            let mut j: usize = 0;
            while j < i
                invariant
                    j <= i < n == self.languages@.len(),
                    p == repeats_language(self.languages@),
                    search::first_at(p, 0, n as int) == search::first_at(p, i as int, n as int),
                    forall|k: int|
                        0 <= k < j ==> (#[trigger] self.languages@[k]).0@
                            != self.languages@[i as int].0@,
                decreases i - j,
            {
                if same_text(self.languages[j].0, self.languages[i].0) {
                    assert(p(i as int));
                    return Err(
                        SchemaError::DuplicateLanguage {
                            schema: self.name,
                            lang: self.languages[i].0,
                        },
                    );
                }
                j = j + 1;
            }
            assert(!p(i as int));
            i = i + 1;
        }
        Ok(())
    }

    fn check_ids(&self) -> (r: Result<(), SchemaError>)
        ensures
            match r {
                Ok(()) => self.ids_fault() is None,
                Err(e) => self.ids_fault() == Some(e),
            },
    {
        let events = self.event_decls();
        let metrics = self.metric_decls();
        let spans = self.span_decls();
        check_unique(self.name, "event", &events)?;
        check_unique(self.name, "metric", &metrics)?;
        check_unique(self.name, "span", &spans)?;
        check_sorted(self.name, "event", &events)?;
        check_sorted(self.name, "metric", &metrics)?;
        check_sorted(self.name, "span", &spans)
    }

    fn check_templates(&self) -> (r: Result<(), SchemaError>)
        ensures
            match r {
                Ok(()) => self.templates_fault() is None,
                Err(e) => self.templates_fault() == Some(e),
            },
    {
        let ghost p = self.lacks_templates();
        let n: usize = self.events.len();
        let mut i: usize = 0;
        while i < n
            invariant
                i <= n == self.events@.len(),
                p == self.lacks_templates(),
                search::first_at(p, 0, n as int) == search::first_at(p, i as int, n as int),
            decreases n - i,
        {
            if self.events[i].templates.len() != self.languages.len() {
                assert(p(i as int));
                return Err(
                    SchemaError::TemplateCount {
                        schema: self.name,
                        event: self.events[i].name,
                        got: self.events[i].templates.len(),
                        want: self.languages.len(),
                    },
                );
            }
            assert(!p(i as int));
            i = i + 1;
        }
        Ok(())
    }

    fn check_metrics(&self) -> (r: Result<(), SchemaError>)
        ensures
            match r {
                Ok(()) => self.metrics_fault() is None,
                Err(e) => self.metrics_fault() == Some(e),
            },
    {
        let ghost p = self.faulty_metric();
        let n: usize = self.metrics.len();
        let mut i: usize = 0;
        while i < n
            invariant
                i <= n == self.metrics@.len(),
                p == self.faulty_metric(),
                search::first_at(p, 0, n as int) == search::first_at(p, i as int, n as int),
            decreases n - i,
        {
            match self.check_metric(&self.metrics[i]) {
                Ok(()) => {
                    assert(!p(i as int));
                },
                Err(e) => {
                    assert(p(i as int));
                    return Err(e);
                },
            }
            i = i + 1;
        }
        Ok(())
    }

    fn check_migrations(&self) -> (r: Result<(), SchemaError>)
        ensures
            match r {
                Ok(()) => self.migrations_fault() is None,
                Err(e) => self.migrations_fault() == Some(e),
            },
    {
        let ghost p = repeats_step(self.migrations@);
        let n: usize = self.migrations.len();
        let mut i: usize = 0;
        while i < n
            invariant
                i <= n == self.migrations@.len(),
                p == repeats_step(self.migrations@),
                search::first_at(p, 0, n as int) == search::first_at(p, i as int, n as int),
            decreases n - i,
        {
            let from: u16 = self.migrations[i].from;
            let mut j: usize = 0;
            while j < i
                invariant
                    j <= i < n == self.migrations@.len(),
                    from == self.migrations@[i as int].from,
                    p == repeats_step(self.migrations@),
                    search::first_at(p, 0, n as int) == search::first_at(p, i as int, n as int),
                    forall|k: int| 0 <= k < j ==> (#[trigger] self.migrations@[k]).from != from,
                decreases i - j,
            {
                if self.migrations[j].from == from {
                    assert(self.migrations@[j as int].from == self.migrations@[i as int].from);
                    assert(p(i as int));
                    return Err(SchemaError::DuplicateMigration { schema: self.name, from });
                }
                j = j + 1;
            }
            assert(!p(i as int));
            i = i + 1;
        }
        let ghost q = lacks_step(self.migrations@);
        let version: u16 = self.version.0;
        let mut from: u16 = 1;
        while from < version
            invariant
                1 <= from,
                version == self.version.0,
                from <= version || version == 0,
                search::first_at(repeats_step(self.migrations@), 0, self.migrations@.len() as int)
                    == self.migrations@.len(),
                q == lacks_step(self.migrations@),
                search::first_at(q, 1, version as int) == search::first_at(
                    q,
                    from as int,
                    version as int,
                ),
            decreases version - from,
        {
            if self.migration(from).is_none() {
                assert(q(from as int));
                return Err(SchemaError::MigrationGap { schema: self.name, from, version });
            }
            assert(!q(from as int));
            from = from + 1;
        }
        Ok(())
    }

    /// Checks that the schema holds together.
    pub fn validate(&self) -> (r: Result<(), SchemaError>)
        ensures
            match r {
                Ok(()) => self.valid(),
                Err(e) => self.fault() == Some(e),
            },
    {
        if self.name.is_empty() {
            return Err(SchemaError::EmptyName { schema: self.name });
        }
        if self.version.0 == 0 {
            return Err(SchemaError::ZeroVersion { schema: self.name });
        }
        self.check_languages()?;
        self.check_ids()?;
        self.check_templates()?;
        self.check_metrics()?;
        self.check_migrations()
    }

    /// The migration step from a version.
    pub fn migration(&self, from: u16) -> (m: Option<&'static Migration>)
        ensures
            match m {
                Some(step) => exists|j: int|
                    0 <= j < self.migrations@.len() && *step == self.migrations@[j]
                        && self.migrations@[j].from == from && forall|k: int|
                        0 <= k < j ==> (#[trigger] self.migrations@[k]).from != from,
                None => !has_step(self.migrations@, from as int),
            },
            m is Some ==> has_step(self.migrations@, from as int),
    {
        let mut j: usize = 0;
        while j < self.migrations.len()
            invariant
                j <= self.migrations@.len(),
                forall|k: int| 0 <= k < j ==> (#[trigger] self.migrations@[k]).from != from,
            decreases self.migrations@.len() - j,
        {
            if self.migrations[j].from == from {
                assert(self.migrations@[j as int].from == from);
                return Some(&self.migrations[j]);
            }
            j = j + 1;
        }
        None
    }
}

// ---------------------------------------------------------------------------
// Lookups
// ---------------------------------------------------------------------------

impl Schema {
    /// The position of an event with an identifier: a binary search, and an honest
    /// walk where the descriptors are not in order.
    fn event_position(&self, id: EventId) -> (found: Option<usize>)
        ensures
            match found {
                Some(i) => i < self.events@.len() && self.events@[i as int].id == id,
                None => forall|i: int|
                    0 <= i < self.events@.len() ==> (#[trigger] self.events@[i]).id != id,
            },
    {
        let mut lo: usize = 0;
        let mut hi: usize = self.events.len();
        while lo < hi
            invariant
                lo <= hi <= self.events@.len(),
            decreases hi - lo,
        {
            let mid: usize = lo + (hi - lo) / 2;
            let at: u16 = self.events[mid].id.0;
            if at == id.0 {
                return Some(mid);
            } else if at < id.0 {
                lo = mid + 1;
            } else {
                hi = mid;
            }
        }
        let mut i: usize = 0;
        while i < self.events.len()
            invariant
                i <= self.events@.len(),
                forall|k: int| 0 <= k < i ==> (#[trigger] self.events@[k]).id != id,
            decreases self.events@.len() - i,
        {
            if self.events[i].id == id {
                return Some(i);
            }
            i = i + 1;
        }
        None
    }

    /// The position of a metric with an identifier: a binary search, and an honest
    /// walk where the descriptors are not in order.
    fn metric_position(&self, id: MetricId) -> (found: Option<usize>)
        ensures
            match found {
                Some(i) => i < self.metrics@.len() && self.metrics@[i as int].id == id,
                None => forall|i: int|
                    0 <= i < self.metrics@.len() ==> (#[trigger] self.metrics@[i]).id != id,
            },
    {
        let mut lo: usize = 0;
        let mut hi: usize = self.metrics.len();
        while lo < hi
            invariant
                lo <= hi <= self.metrics@.len(),
            decreases hi - lo,
        {
            let mid: usize = lo + (hi - lo) / 2;
            let at: u16 = self.metrics[mid].id.0;
            if at == id.0 {
                return Some(mid);
            } else if at < id.0 {
                lo = mid + 1;
            } else {
                hi = mid;
            }
        }
        let mut i: usize = 0;
        while i < self.metrics.len()
            invariant
                i <= self.metrics@.len(),
                forall|k: int| 0 <= k < i ==> (#[trigger] self.metrics@[k]).id != id,
            decreases self.metrics@.len() - i,
        {
            if self.metrics[i].id == id {
                return Some(i);
            }
            i = i + 1;
        }
        None
    }

    /// The position of a span with an identifier: a binary search, and an honest
    /// walk where the descriptors are not in order.
    fn span_position(&self, id: SpanKindId) -> (found: Option<usize>)
        ensures
            match found {
                Some(i) => i < self.spans@.len() && self.spans@[i as int].id == id,
                None => forall|i: int|
                    0 <= i < self.spans@.len() ==> (#[trigger] self.spans@[i]).id != id,
            },
    {
        let mut lo: usize = 0;
        let mut hi: usize = self.spans.len();
        while lo < hi
            invariant
                lo <= hi <= self.spans@.len(),
            decreases hi - lo,
        {
            let mid: usize = lo + (hi - lo) / 2;
            let at: u16 = self.spans[mid].id.0;
            if at == id.0 {
                return Some(mid);
            } else if at < id.0 {
                lo = mid + 1;
            } else {
                hi = mid;
            }
        }
        let mut i: usize = 0;
        while i < self.spans.len()
            invariant
                i <= self.spans@.len(),
                forall|k: int| 0 <= k < i ==> (#[trigger] self.spans@[k]).id != id,
            decreases self.spans@.len() - i,
        {
            if self.spans[i].id == id {
                return Some(i);
            }
            i = i + 1;
        }
        None
    }

    pub open spec fn has_event(self, id: EventId) -> bool {
        exists|i: int| 0 <= i < self.events@.len() && (#[trigger] self.events@[i]).id == id
    }

    pub open spec fn has_metric(self, id: MetricId) -> bool {
        exists|i: int| 0 <= i < self.metrics@.len() && (#[trigger] self.metrics@[i]).id == id
    }

    pub open spec fn has_span(self, id: SpanKindId) -> bool {
        exists|i: int| 0 <= i < self.spans@.len() && (#[trigger] self.spans@[i]).id == id
    }

    /// The event type with an identifier.
    pub fn event(&self, id: EventId) -> (d: Option<&'static EventDesc>)
        ensures
            d is Some == self.has_event(id),
            d matches Some(e) ==> e.id == id && self.events@.contains(*e),
    {
        match self.event_position(id) {
            Some(i) => {
                assert(self.events@[i as int].id == id);
                Some(&self.events[i])
            },
            None => None,
        }
    }

    /// The metric with an identifier.
    pub fn metric(&self, id: MetricId) -> (d: Option<&'static MetricDesc>)
        ensures
            d is Some == self.has_metric(id),
            d matches Some(m) ==> m.id == id && self.metrics@.contains(*m),
    {
        match self.metric_index(id) {
            Some((_, d)) => Some(d),
            None => None,
        }
    }

    /// The metric with an identifier, together with its position in
    /// [`Schema::metrics`]: a stable key for what is kept beside the schema.
    pub fn metric_index(&self, id: MetricId) -> (d: Option<(usize, &'static MetricDesc)>)
        ensures
            d is Some == self.has_metric(id),
            d matches Some((i, m)) ==> i < self.metrics@.len() && *m == self.metrics@[i as int]
                && m.id == id,
    {
        match self.metric_position(id) {
            Some(i) => {
                assert(self.metrics@[i as int].id == id);
                Some((i, &self.metrics[i]))
            },
            None => None,
        }
    }

    /// The span kind with an identifier.
    pub fn span(&self, id: SpanKindId) -> (d: Option<&'static SpanDesc>)
        ensures
            d is Some == self.has_span(id),
            d matches Some(k) ==> k.id == id && self.spans@.contains(*k),
    {
        match self.span_position(id) {
            Some(i) => {
                assert(self.spans@[i as int].id == id);
                Some(&self.spans[i])
            },
            None => None,
        }
    }

    /// The position of a language.
    pub fn language_index(&self, code: &str) -> (found: Option<usize>)
        ensures
            match found {
                Some(i) => i < self.languages@.len() && self.languages@[i as int].0@ == code@
                    && forall|k: int|
                    0 <= k < i ==> (#[trigger] self.languages@[k]).0@ != code@,
                None => forall|k: int|
                    0 <= k < self.languages@.len() ==> (#[trigger] self.languages@[k]).0@ != code@,
            },
    {
        let mut i: usize = 0;
        while i < self.languages.len()
            invariant
                i <= self.languages@.len(),
                forall|k: int| 0 <= k < i ==> (#[trigger] self.languages@[k]).0@ != code@,
            decreases self.languages@.len() - i,
        {
            if same_text(self.languages[i].0, code) {
                return Some(i);
            }
            i = i + 1;
        }
        None
    }

    /// Some type of the schema goes to the channel of this class. The ordinary
    /// channel is always used: free text goes there.
    pub open spec fn uses(self, class: StorageClass) -> bool {
        ||| class is Default
        ||| exists|i: int| 0 <= i < self.events@.len() && (#[trigger] self.events@[i]).class == class
        ||| exists|i: int|
            0 <= i < self.metrics@.len() && (#[trigger] self.metrics@[i]).class == class
        ||| exists|i: int| 0 <= i < self.spans@.len() && (#[trigger] self.spans@[i]).class == class
    }

    /// The classes that have a channel, in order and without repetition.
    pub open spec fn used_classes(self) -> Seq<StorageClass> {
        all_classes().filter(|c: StorageClass| self.uses(c))
    }

    /// Whether some type of the schema goes to the channel of this class.
    pub fn uses_class(&self, class: StorageClass) -> (yes: bool)
        ensures
            yes == self.uses(class),
    {
        if class == StorageClass::Default {
            return true;
        }
        let mut i: usize = 0;
        while i < self.events.len()
            invariant
                i <= self.events@.len(),
                forall|k: int| 0 <= k < i ==> (#[trigger] self.events@[k]).class != class,
            decreases self.events@.len() - i,
        {
            if self.events[i].class == class {
                assert(self.events@[i as int].class == class);
                return true;
            }
            i = i + 1;
        }
        let mut j: usize = 0;
        while j < self.metrics.len()
            invariant
                j <= self.metrics@.len(),
                forall|k: int| 0 <= k < j ==> (#[trigger] self.metrics@[k]).class != class,
            decreases self.metrics@.len() - j,
        {
            if self.metrics[j].class == class {
                assert(self.metrics@[j as int].class == class);
                return true;
            }
            j = j + 1;
        }
        let mut l: usize = 0;
        while l < self.spans.len()
            invariant
                l <= self.spans@.len(),
                forall|k: int| 0 <= k < l ==> (#[trigger] self.spans@[k]).class != class,
            decreases self.spans@.len() - l,
        {
            if self.spans[l].class == class {
                assert(self.spans@[l as int].class == class);
                return true;
            }
            l = l + 1;
        }
        false
    }

    /// All channels the schema uses.
    pub fn classes(&self) -> (out: Vec<StorageClass>)
        ensures
            out@ == self.used_classes(),
    {
        let mut out: Vec<StorageClass> = Vec::new();
        let all: Vec<StorageClass> = StorageClass::all();
        let ghost keep = |c: StorageClass| self.uses(c);
        let mut i: usize = 0;
        while i < all.len()
            invariant
                all@ == all_classes(),
                i <= all@.len(),
                keep == (|c: StorageClass| self.uses(c)),
                out@ == all@.take(i as int).filter(keep),
            decreases all@.len() - i,
        {
            let class: StorageClass = all[i];
            proof {
                assert(all@.take(i + 1).drop_last() =~= all@.take(i as int));
                reveal(Seq::filter);
            }
            if self.uses_class(class) {
                out.push(class);
            }
            i = i + 1;
        }
        assert(all@.take(all@.len() as int) =~= all@);
        out
    }
}

/// The ordinary channel is there whatever the schema declares.
pub proof fn law_the_ordinary_channel_is_always_there(s: Schema)
    ensures
        s.used_classes().contains(StorageClass::Default),
{
    let keep = |c: StorageClass| s.uses(c);
    assert(all_classes()[1] == StorageClass::Default);
    all_classes().lemma_filter_contains(keep, 1);
}

/// Every class that is used has a channel, and no other class has one.
pub proof fn law_channels_are_the_used_classes(s: Schema, class: StorageClass)
    ensures
        s.used_classes().contains(class) == s.uses(class),
        s.used_classes().no_duplicates(),
{
    let keep = |c: StorageClass| s.uses(c);
    let i = class.position();
    assert(all_classes()[i] == class);
    if s.uses(class) {
        all_classes().lemma_filter_contains(keep, i);
    }
    assert forall|k: int| 0 <= k < s.used_classes().len() implies s.uses(
        #[trigger] s.used_classes()[k],
    ) by {
        all_classes().lemma_filter_pred(keep, k);
    }
    lemma_filter_keeps_distinct(all_classes(), keep);
}

proof fn lemma_filter_keeps_distinct<A>(s: Seq<A>, keep: spec_fn(A) -> bool)
    requires
        s.no_duplicates(),
    ensures
        s.filter(keep).no_duplicates(),
    decreases s.len(),
{
    reveal(Seq::filter);
    if s.len() > 0 {
        let rest = s.drop_last();
        lemma_filter_keeps_distinct(rest, keep);
        assert forall|i: int| 0 <= i < rest.filter(keep).len() implies #[trigger] rest.filter(
            keep,
        )[i] != s.last() by {
            rest.lemma_filter_contains_rev(keep, rest.filter(keep)[i]);
        }
    }
}

/// In a schema that passed validation identifiers ascend, so an identifier names
/// one event, one metric and one span kind.
pub proof fn law_validated_identifiers_are_unique(s: Schema, i: int, j: int)
    requires
        s.valid(),
        0 <= i < j,
    ensures
        j < s.events@.len() ==> s.events@[i].id.0 < s.events@[j].id.0,
        j < s.metrics@.len() ==> s.metrics@[i].id.0 < s.metrics@[j].id.0,
        j < s.spans@.len() ==> s.spans@[i].id.0 < s.spans@[j].id.0,
{
    if j < s.events@.len() {
        lemma_ordered(s.name, "event", s.declared_events(), i, j);
    }
    if j < s.metrics@.len() {
        lemma_ordered(s.name, "metric", s.declared_metrics(), i, j);
    }
    if j < s.spans@.len() {
        lemma_ordered(s.name, "span", s.declared_spans(), i, j);
    }
}

proof fn lemma_ordered(
    schema: &'static str,
    kind: &'static str,
    items: Seq<Declared>,
    i: int,
    j: int,
)
    requires
        order_fault(schema, kind, items) is None,
        0 <= i < j < items.len(),
    ensures
        items[i].0 < items[j].0,
    decreases j - i,
{
    let p = breaks_order(items);
    search::lemma_first_at(p, 0, items.len() as int);
    assert(!p(j));
    if i < j - 1 {
        lemma_ordered(schema, kind, items, i, j - 1);
    }
}

/// A schema that passed validation has a step from every version below its own,
/// so data of any earlier version can be brought up to date.
pub proof fn law_validated_chain_is_unbroken(s: Schema, from: int)
    requires
        s.valid(),
        1 <= from < s.version.0,
    ensures
        has_step(s.migrations@, from),
{
    let q = lacks_step(s.migrations@);
    search::lemma_first_at(q, 1, s.version.0 as int);
    assert(!q(from));
}

/// A schema that passed validation has a template in every language for every
/// event, and limits that make sense for every metric.
pub proof fn law_validated_types_are_complete(s: Schema, i: int)
    requires
        s.valid(),
        0 <= i,
    ensures
        i < s.events@.len() ==> s.events@[i].templates@.len() == s.languages@.len(),
        i < s.metrics@.len() ==> metric_fault(s.name, s.metrics@[i]) is None,
{
    search::lemma_first_at(s.lacks_templates(), 0, s.events@.len() as int);
    search::lemma_first_at(s.faulty_metric(), 0, s.metrics@.len() as int);
    if i < s.events@.len() {
        assert(!(s.lacks_templates())(i));
    }
    if i < s.metrics@.len() {
        let p = s.faulty_metric();
        assert(!p(i));
    }
}

/// A number is called to attention by the alarm before the warning. It is alarming if and only if
/// the alarm predicate was triggered or it lies outside a bound of the alarm range; short of that
/// it is a warning if and only if the warning predicate was triggered or it lies outside a bound of
/// the warning range. No triggered predicate makes a diagnosis lighter, and what is no number by
/// value is outside of every range that has a bound.
pub proof fn law_the_heavier_diagnosis_wins(t: Thresholds, reading: Reading<'_>, k: i64)
    requires
        reading.number == Some(Scalar::Key(k)),
    ensures
        MetricDesc::number_severity(t, reading) is Alarm <==> {
            ||| reading.alarm_hit
            ||| t.alarm.min matches Some(b) && (b matches Scalar::Key(lo) ==> k < lo)
            ||| t.alarm.max matches Some(b) && (b matches Scalar::Key(hi) ==> k > hi)
        },
        !(MetricDesc::number_severity(t, reading) is Normal) <==> {
            ||| reading.alarm_hit
            ||| reading.warn_hit
            ||| t.alarm.min matches Some(b) && (b matches Scalar::Key(lo) ==> k < lo)
            ||| t.alarm.max matches Some(b) && (b matches Scalar::Key(hi) ==> k > hi)
            ||| t.warn.min matches Some(b) && (b matches Scalar::Key(lo) ==> k < lo)
            ||| t.warn.max matches Some(b) && (b matches Scalar::Key(hi) ==> k > hi)
        },
{
}

/// A reading that is not a number lies outside of every range that has a bound; one without a
/// number at all, a blob, calls for no attention.
pub proof fn law_what_is_no_number_is_out_of_range(t: Thresholds, reading: Reading<'_>)
    ensures
        reading.number == Some(Scalar::Nan) && (t.alarm.min is Some || t.alarm.max is Some)
            ==> MetricDesc::number_severity(t, reading) is Alarm,
        reading.number == Some(Scalar::Nan) && (t.warn.min is Some || t.warn.max is Some)
            ==> !(MetricDesc::number_severity(t, reading) is Normal),
        reading.number == Some(Scalar::Nan) && !reading.alarm_hit && t.alarm.min is None
            && t.alarm.max is None ==> !(MetricDesc::number_severity(t, reading) is Alarm),
        reading.number is None ==> MetricDesc::number_severity(t, reading) is Normal,
{
}

/// Against the same ranges a predicate more never makes the diagnosis lighter, and the ranges alone
/// never give a heavier one than together with the predicates.
pub proof fn law_a_predicate_only_adds_weight(t: Thresholds, quiet: Reading<'_>, hit: Reading<'_>)
    requires
        quiet.number == hit.number,
        quiet.warn_hit ==> hit.warn_hit,
        quiet.alarm_hit ==> hit.alarm_hit,
    ensures
        MetricDesc::number_severity(t, quiet) is Alarm ==> MetricDesc::number_severity(
            t,
            hit,
        ) is Alarm,
        MetricDesc::number_severity(t, quiet) is Warn ==> !(MetricDesc::number_severity(
            t,
            hit,
        ) is Normal),
{
}

/// The heavier of two diagnoses is one of the two, and neither is heavier: an alarm beats
/// everything, a normal reading nothing.
pub proof fn law_the_heavier_is_one_of_the_two(a: Severity, b: Severity)
    ensures
        a.max_with(b) == a || a.max_with(b) == b,
        a.max_with(b) == b.max_with(a),
        a is Alarm ==> a.max_with(b) is Alarm,
        a is Normal ==> a.max_with(b) == b,
        a is Warn && !(b is Alarm) ==> a.max_with(b) is Warn,
{
}

/// The states of an enum metric have the weight the schema gives them: a value that carries the
/// code of a state has that state's severity, a value that carries none, or the code of no state,
/// is normal, whatever the ranges say of the number.
pub proof fn law_a_state_has_its_own_weight(m: MetricDesc, reading: Reading<'_>, i: int)
    requires
        m.states@.len() > 0,
    ensures
        0 <= i < m.states@.len() && (forall|j: int|
            0 <= j < i ==> (#[trigger] m.states@[j]).code != m.states@[i].code) && code_of(
            reading.value,
        ) == Some(m.states@[i].code) ==> m.schema_severity(reading) == m.states@[i].severity,
        (forall|j: int|
            0 <= j < m.states@.len() ==> code_of(reading.value) != Some(
                (#[trigger] m.states@[j]).code,
            )) ==> m.schema_severity(reading) is Normal,
{
    let n = m.states@.len() as int;
    if code_of(reading.value) is Some {
        let code = code_of(reading.value)->0;
        let p = has_code(m.states@, code);
        if 0 <= i < n && code == m.states@[i].code && (forall|j: int|
            0 <= j < i ==> (#[trigger] m.states@[j]).code != m.states@[i].code) {
            search::lemma_first_is(p, 0, n, i);
        }
        if forall|j: int| 0 <= j < n ==> code_of(reading.value) != Some((#[trigger] m.states@[j]).code) {
            assert forall|j: int| 0 <= j < n implies !#[trigger] p(j) by {
                assert(m.states@[j].code != code);
            }
            search::lemma_first_is(p, 0, n, n);
        }
    }
}

/// A state code is read from an integer as it stands and from a boolean as zero or one; a negative
/// number, a float and a blob carry none.
pub proof fn law_a_code_is_the_integer_it_stands_as(n: u64, m: i64)
    ensures
        code_of(Value::U64(n)) == Some(n),
        m >= 0 ==> (code_of(Value::I64(m)) matches Some(c) && c == m),
        m < 0 ==> code_of(Value::I64(m)) is None,
        code_of(Value::Bool(true)) == Some(1u64),
        code_of(Value::Bool(false)) == Some(0u64),
        code_of(Value::F32(0)) is None && code_of(Value::F64(0)) is None,
{
}

/// The limits of a metric make sense if and only if it is a state with states or neither, its codes
/// are integers that are told apart, have names and fit a boolean where it is one, an enum has no
/// bounds, every bound is a number, none is inverted, and no alarm bound lies inside the warning
/// range.
pub proof fn law_a_metric_passes_only_if_it_makes_sense(schema: &'static str, m: MetricDesc)
    ensures
        metric_fault(schema, m) is None <==> {
            &&& m.states@.len() > 0 <==> m.kind is State
            &&& m.states@.len() > 0 ==> {
                &&& m.value_type is U64 || m.value_type is I64 || m.value_type is Bool
                &&& m.thresholds.warn.min is None && m.thresholds.warn.max is None
                &&& m.thresholds.alarm.min is None && m.thresholds.alarm.max is None
            }
            &&& forall|i: int|
                0 <= i < m.states@.len() ==> {
                    &&& (#[trigger] m.states@[i]).name@.len() > 0
                    &&& m.value_type is Bool ==> m.states@[i].code <= 1
                }
            &&& forall|i: int, j: int|
                0 <= i < j < m.states@.len() ==> (#[trigger] m.states@[i]).code != (
                #[trigger] m.states@[j]).code
            &&& makes_sense(m.thresholds.warn)
            &&& makes_sense(m.thresholds.alarm)
            &&& !(m.thresholds.warn.min matches Some(Scalar::Key(w))
                && m.thresholds.alarm.min matches Some(Scalar::Key(c)) && c > w)
            &&& !(m.thresholds.warn.max matches Some(Scalar::Key(w))
                && m.thresholds.alarm.max matches Some(Scalar::Key(c)) && c < w)
        },
{
    let n = m.states@.len() as int;
    let p = faulty_state(schema, m);
    search::lemma_first_at(p, 0, n);
    if metric_fault(schema, m) is None && n > 0 {
        assert forall|i: int| 0 <= i < n implies {
            &&& (#[trigger] m.states@[i]).name@.len() > 0
            &&& m.value_type is Bool ==> m.states@[i].code <= 1
        } by {
            assert(!p(i));
        }
        assert forall|i: int, j: int| 0 <= i < j < n implies (#[trigger] m.states@[i]).code != (
        #[trigger] m.states@[j]).code by {
            assert(!p(j));
            assert(!repeats_code(m.states@, j));
        }
    }
    if n > 0 && states_fault(schema, m) is Some {
        let i = search::first_at(p, 0, n);
        assert(p(i));
        if repeats_code(m.states@, i) {
            let j = choose|j: int| 0 <= j < i && (#[trigger] m.states@[j]).code == m.states@[i].code;
            assert(m.states@[j].code == m.states@[i].code);
        }
    }
}

/// A range whose bounds are numbers and stand the right way round.
pub open spec fn makes_sense(r: Range) -> bool {
    &&& !(r.min matches Some(Scalar::Nan))
    &&& !(r.max matches Some(Scalar::Nan))
    &&& !(r.min matches Some(Scalar::Key(lo)) && r.max matches Some(Scalar::Key(hi)) && lo > hi)
}

/// A schema passes if and only if it has a name, a version above zero, at least one language and
/// none of them twice, ascending identifiers of each kind, a template in every language for every
/// event, metrics that make sense, and exactly one step from each version below its own.
pub proof fn law_a_schema_passes_only_if_it_holds_together(s: Schema)
    ensures
        s.fault() is None <==> {
            &&& s.name@.len() > 0
            &&& s.version.0 > 0
            &&& s.languages@.len() > 0
            &&& forall|i: int, j: int|
                0 <= i < j < s.languages@.len() ==> (#[trigger] s.languages@[i]).0@ != (
                #[trigger] s.languages@[j]).0@
            &&& forall|i: int, j: int|
                0 <= i < j < s.events@.len() ==> (#[trigger] s.events@[i]).id.0 < (
                #[trigger] s.events@[j]).id.0
            &&& forall|i: int, j: int|
                0 <= i < j < s.metrics@.len() ==> (#[trigger] s.metrics@[i]).id.0 < (
                #[trigger] s.metrics@[j]).id.0
            &&& forall|i: int, j: int|
                0 <= i < j < s.spans@.len() ==> (#[trigger] s.spans@[i]).id.0 < (
                #[trigger] s.spans@[j]).id.0
            &&& forall|i: int|
                0 <= i < s.events@.len() ==> (#[trigger] s.events@[i]).templates@.len()
                    == s.languages@.len()
            &&& forall|i: int|
                0 <= i < s.metrics@.len() ==> metric_fault(
                    s.name,
                    #[trigger] s.metrics@[i],
                ) is None
            &&& forall|i: int, j: int|
                0 <= i < j < s.migrations@.len() ==> (#[trigger] s.migrations@[i]).from != (
                #[trigger] s.migrations@[j]).from
            &&& forall|from: int|
                1 <= from < s.version.0 ==> exists|j: int|
                    0 <= j < s.migrations@.len() && #[trigger] has_step(s.migrations@, from) && (
                    #[trigger] s.migrations@[j]).from == from
        },
{
    lemma_languages_told_apart(s);
    lemma_kind_in_order(s.name, "event", s.declared_events());
    lemma_kind_in_order(s.name, "metric", s.declared_metrics());
    lemma_kind_in_order(s.name, "span", s.declared_spans());
    let e = s.declared_events();
    let m = s.declared_metrics();
    let p = s.declared_spans();
    assert(forall|i: int| 0 <= i < e.len() ==> (#[trigger] e[i]).0 == s.events@[i].id.0);
    assert(forall|i: int| 0 <= i < m.len() ==> (#[trigger] m[i]).0 == s.metrics@[i].id.0);
    assert(forall|i: int| 0 <= i < p.len() ==> (#[trigger] p[i]).0 == s.spans@[i].id.0);
    assert(forall|i: int|
        0 <= i < e.len() ==> (#[trigger] s.events@[i]).id.0 == s.declared_events()[i].0);
    assert(forall|i: int|
        0 <= i < m.len() ==> (#[trigger] s.metrics@[i]).id.0 == s.declared_metrics()[i].0);
    assert(forall|i: int|
        0 <= i < p.len() ==> (#[trigger] s.spans@[i]).id.0 == s.declared_spans()[i].0);
    lemma_types_complete(s);
    lemma_steps_complete(s);
}

proof fn lemma_languages_told_apart(s: Schema)
    ensures
        s.languages_fault() is None <==> s.languages@.len() > 0 && forall|i: int, j: int|
            0 <= i < j < s.languages@.len() ==> (#[trigger] s.languages@[i]).0@ != (
            #[trigger] s.languages@[j]).0@,
{
    let p = repeats_language(s.languages@);
    let n = s.languages@.len() as int;
    search::lemma_first_at(p, 0, n);
    let k = search::first_at(p, 0, n);
    if n > 0 {
        if k < n {
            assert(p(k));
            let j = choose|j: int|
                0 <= j < k && (#[trigger] s.languages@[j]).0@ == s.languages@[k].0@;
            assert(s.languages@[j].0@ == s.languages@[k].0@);
        } else {
            assert forall|i: int, j: int| 0 <= i < j < n implies (#[trigger] s.languages@[i]).0@ != (
            #[trigger] s.languages@[j]).0@ by {
                assert(!p(j));
            }
        }
    }
}

proof fn lemma_kind_in_order(schema: &'static str, kind: &'static str, items: Seq<Declared>)
    ensures
        unique_fault(schema, kind, items) is None && order_fault(schema, kind, items) is None
            <==> forall|i: int, j: int|
            0 <= i < j < items.len() ==> (#[trigger] items[i]).0 < (#[trigger] items[j]).0,
{
    let n = items.len() as int;
    let twice = repeats_id(items);
    let falls = breaks_order(items);
    search::lemma_first_at(twice, 0, n);
    search::lemma_first_at(falls, 0, n);
    if order_fault(schema, kind, items) is None {
        assert forall|i: int, j: int| 0 <= i < j < n implies (#[trigger] items[i]).0 < (
        #[trigger] items[j]).0 by {
            lemma_ordered(schema, kind, items, i, j);
        }
    } else {
        let k = search::first_at(falls, 0, n);
        assert(falls(k));
        assert(items[k].0 <= items[k - 1].0);
    }
    if unique_fault(schema, kind, items) is Some {
        let k = search::first_at(twice, 0, n);
        assert(twice(k));
        let j = choose|j: int| 0 <= j < k && (#[trigger] items[j]).0 == items[k].0;
        assert(items[j].0 == items[k].0);
    }
}

proof fn lemma_types_complete(s: Schema)
    ensures
        s.templates_fault() is None <==> forall|i: int|
            0 <= i < s.events@.len() ==> (#[trigger] s.events@[i]).templates@.len()
                == s.languages@.len(),
        s.metrics_fault() is None <==> forall|i: int|
            0 <= i < s.metrics@.len() ==> metric_fault(s.name, #[trigger] s.metrics@[i]) is None,
{
    let p = s.lacks_templates();
    let q = s.faulty_metric();
    search::lemma_first_at(p, 0, s.events@.len() as int);
    search::lemma_first_at(q, 0, s.metrics@.len() as int);
    if s.templates_fault() is None {
        assert forall|i: int| 0 <= i < s.events@.len() implies (
        #[trigger] s.events@[i]).templates@.len() == s.languages@.len() by {
            assert(!p(i));
        }
    } else {
        assert(p(search::first_at(p, 0, s.events@.len() as int)));
    }
    if s.metrics_fault() is None {
        assert forall|i: int| 0 <= i < s.metrics@.len() implies metric_fault(
            s.name,
            #[trigger] s.metrics@[i],
        ) is None by {
            if search::first_at(q, 0, s.metrics@.len() as int) < s.metrics@.len() {
                assert(q(search::first_at(q, 0, s.metrics@.len() as int)));
            }
            assert(!q(i));
        }
    } else {
        assert(q(search::first_at(q, 0, s.metrics@.len() as int)));
    }
}

proof fn lemma_steps_complete(s: Schema)
    ensures
        s.version.0 > 0 ==> (s.migrations_fault() is None <==> {
            &&& forall|i: int, j: int|
                0 <= i < j < s.migrations@.len() ==> (#[trigger] s.migrations@[i]).from != (
                #[trigger] s.migrations@[j]).from
            &&& forall|from: int|
                1 <= from < s.version.0 ==> exists|j: int|
                    0 <= j < s.migrations@.len() && #[trigger] has_step(s.migrations@, from) && (
                    #[trigger] s.migrations@[j]).from == from
        }),
{
    if s.version.0 > 0 {
        let n = s.migrations@.len() as int;
        let p = repeats_step(s.migrations@);
        let q = lacks_step(s.migrations@);
        search::lemma_first_at(p, 0, n);
        search::lemma_first_at(q, 1, s.version.0 as int);
        let k = search::first_at(p, 0, n);
        let f = search::first_at(q, 1, s.version.0 as int);
        if k < n {
            assert(p(k));
            let j = choose|j: int|
                0 <= j < k && (#[trigger] s.migrations@[j]).from == s.migrations@[k].from;
            assert(s.migrations@[j].from == s.migrations@[k].from);
        } else {
            assert forall|i: int, j: int| 0 <= i < j < n implies (#[trigger] s.migrations@[i]).from != (
            #[trigger] s.migrations@[j]).from by {
                assert(!p(j));
            }
        }
        if f < s.version.0 {
            assert(q(f));
            assert(!has_step(s.migrations@, f));
        } else {
            assert forall|from: int| 1 <= from < s.version.0 implies exists|j: int|
                0 <= j < s.migrations@.len() && #[trigger] has_step(s.migrations@, from) && (
                #[trigger] s.migrations@[j]).from == from by {
                assert(!q(from));
                let j = choose|j: int|
                    0 <= j < s.migrations@.len() && (#[trigger] s.migrations@[j]).from == from;
                assert(s.migrations@[j].from == from);
            }
        }
    }
}

/// A class has a channel if and only if it is the ordinary one or some type is declared for it.
pub proof fn law_a_class_is_used_by_what_is_declared_for_it(s: Schema, class: StorageClass)
    ensures
        s.used_classes().contains(class) <==> {
            ||| class == StorageClass::Default
            ||| exists|i: int|
                0 <= i < s.events@.len() && (#[trigger] s.events@[i]).class == class
            ||| exists|i: int|
                0 <= i < s.metrics@.len() && (#[trigger] s.metrics@[i]).class == class
            ||| exists|i: int| 0 <= i < s.spans@.len() && (#[trigger] s.spans@[i]).class == class
        },
{
    law_channels_are_the_used_classes(s, class);
}

/// What is declared is found by its identifier, and nothing else is.
pub proof fn law_what_is_declared_is_found(s: Schema, event: EventId, metric: MetricId, span: SpanKindId, i: int)
    ensures
        0 <= i < s.events@.len() ==> s.has_event(s.events@[i].id),
        0 <= i < s.metrics@.len() ==> s.has_metric(s.metrics@[i].id),
        0 <= i < s.spans@.len() ==> s.has_span(s.spans@[i].id),
        0 <= i < s.events@.len() && !s.has_event(event) ==> s.events@[i].id != event,
        0 <= i < s.metrics@.len() && !s.has_metric(metric) ==> s.metrics@[i].id != metric,
        0 <= i < s.spans@.len() && !s.has_span(span) ==> s.spans@[i].id != span,
        s.events@.len() == 0 ==> !s.has_event(event),
        s.metrics@.len() == 0 ==> !s.has_metric(metric),
        s.spans@.len() == 0 ==> !s.has_span(span),
{
}

/// Each class has a place of its own, and stands there among all classes: the critical one first,
/// then the ordinary one, then telemetry.
pub proof fn law_each_class_has_its_own_place(a: StorageClass, b: StorageClass)
    ensures
        StorageClass::Critical.position() == 0,
        StorageClass::Default.position() == 1,
        StorageClass::Telemetry.position() == 2,
        a.position() == b.position() <==> a == b,
        all_classes().len() == 3,
        all_classes()[a.position()] == a,
{
}

} // verus!
