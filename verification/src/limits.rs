//! Metric value limits: the schema's defaults plus runtime overrides.
//!
//! A limit is a property of the **installation**, not of the measurement: one and
//! the same temperature is normal for one amplifier and alarming for another. So
//! limits live in memory, belong to a namespace, and a value's severity is
//! computed when it is asked for.

use crate::error::Error;
use crate::format::{MetricId, ValueType};
use crate::scalar::Scalar;
use crate::schema;
use crate::schema::{
    state_code, MetricDesc, MetricKind, Reading, Schema, Severity, StateDesc, Thresholds,
};
use crate::search;
use vstd::prelude::*;

verus! {

/// Whether the alarm range contains the warning one: a quantity first leaves
/// what is normal and only then what is permissible.
pub fn is_nested(t: &Thresholds) -> (yes: bool)
    ensures
        yes == t.nested(),
{
    let bad_low: bool = match (t.warn.min, t.alarm.min) {
        (Some(w), Some(c)) => c.is_above(w),
        _ => false,
    };
    let bad_high: bool = match (t.warn.max, t.alarm.max) {
        (Some(w), Some(c)) => w.is_above(c),
        _ => false,
    };
    !bad_low && !bad_high
}

pub const BOUNDS_ON_AN_ENUM: &'static str =
    "numeric bounds on an enum metric: its values are not ordered, set the severity of the states instead";

pub const STATES_ON_A_NUMBER: &'static str =
    "state severities on a metric that is not declared as an enum";

pub const UNKNOWN_STATE: &'static str =
    "the severity of a state code the schema does not have: there would be nothing to label it with";

pub const NOT_NESTED: &'static str =
    "the alarm range has to contain the warning one: otherwise a value would be alarming without being a warning";

pub const CLOSURE_ON_A_BLOB: &'static str =
    "a diagnosis closure on a blob metric: the value cannot be reduced to a number, so there would be nothing to call it with";

/// An override of one metric's limits. The fields are independent: what is not
/// set stays as in the schema.
#[derive(Debug, Clone)]
pub struct MetricLimits {
    /// Numeric bounds; `None` keeps those of the schema.
    pub thresholds: Option<Thresholds>,
    /// The severity of individual state codes; what is not named keeps that of the
    /// schema.
    pub states: Vec<(u64, Severity)>,
}

impl Default for MetricLimits {
    fn default() -> (l: MetricLimits)
        ensures
            l.is_unset(),
    {
        MetricLimits { thresholds: None, states: Vec::new() }
    }
}

/// Position `i` names the severity of a code.
pub open spec fn names_code(states: Seq<(u64, Severity)>, code: u64) -> spec_fn(int) -> bool {
    |i: int| states[i].0 == code
}

/// The severity an override gives to a code: the first one named.
pub open spec fn overriding(states: Seq<(u64, Severity)>, code: u64) -> Option<Severity> {
    let i = search::first_at(names_code(states, code), 0, states.len() as int);
    if i < states.len() {
        Some(states[i].1)
    } else {
        None
    }
}

fn find_override(states: &Vec<(u64, Severity)>, code: u64) -> (s: Option<Severity>)
    ensures
        s == overriding(states@, code),
{
    let ghost p = names_code(states@, code);
    let n: usize = states.len();
    let mut i: usize = 0;
    while i < n
        invariant
            i <= n == states@.len(),
            p == names_code(states@, code),
            search::first_at(p, 0, n as int) == search::first_at(p, i as int, n as int),
        decreases n - i,
    {
        if states[i].0 == code {
            assert(p(i as int));
            return Some(states[i].1);
        }
        assert(!p(i as int));
        i = i + 1;
    }
    None
}

impl MetricLimits {
    /// Nothing is overridden.
    pub open spec fn is_unset(self) -> bool {
        self.thresholds is None && self.states@.len() == 0
    }

    /// Numeric bounds only.
    pub fn numeric(thresholds: Thresholds) -> (l: MetricLimits)
        ensures
            l.thresholds == Some(thresholds),
            l.states@.len() == 0,
    {
        MetricLimits { thresholds: Some(thresholds), states: Vec::new() }
    }

    /// State severities only.
    pub fn states(states: Vec<(u64, Severity)>) -> (l: MetricLimits)
        ensures
            l.thresholds is None,
            l.states == states,
    {
        MetricLimits { thresholds: None, states }
    }

    pub fn is_empty(&self) -> (yes: bool)
        ensures
            yes == self.is_unset(),
    {
        self.thresholds.is_none() && self.states.len() == 0
    }

    /// Why the override makes no sense for a metric; `None` where it does.
    pub open spec fn fault(self, desc: MetricDesc) -> Option<&'static str> {
        if (self.thresholds matches Some(t) && !t.unset()) && desc.states@.len() > 0 {
            Some(BOUNDS_ON_AN_ENUM)
        } else if self.states@.len() > 0 && desc.states@.len() == 0 {
            Some(STATES_ON_A_NUMBER)
        } else if exists|i: int|
            0 <= i < self.states@.len() && is_unlabelled(desc, (#[trigger] self.states@[i]).0) {
            Some(UNKNOWN_STATE)
        } else if self.thresholds matches Some(t) && !t.nested() {
            Some(NOT_NESTED)
        } else {
            None
        }
    }

    /// Whether the override makes sense for a metric. Swallowing one that does not
    /// is no option: the operator would believe the limit was in force.
    fn check(&self, desc: &MetricDesc) -> (r: Result<(), &'static str>)
        ensures
            match r {
                Ok(_) => self.fault(*desc) is None,
                Err(reason) => self.fault(*desc) == Some(reason),
            },
    {
        if let Some(t) = &self.thresholds {
            if !t.is_unset() && desc.states.len() > 0 {
                return Err(BOUNDS_ON_AN_ENUM);
            }
        }
        if self.states.len() > 0 && desc.states.len() == 0 {
            return Err(STATES_ON_A_NUMBER);
        }
        let mut i: usize = 0;
        while i < self.states.len()
            invariant
                i <= self.states@.len(),
                !((self.thresholds matches Some(t) && !t.unset()) && desc.states@.len() > 0),
                !(self.states@.len() > 0 && desc.states@.len() == 0),
                forall|k: int|
                    0 <= k < i ==> !is_unlabelled(*desc, (#[trigger] self.states@[k]).0),
            decreases self.states@.len() - i,
        {
            if desc.state(self.states[i].0).is_none() {
                assert(is_unlabelled(*desc, self.states@[i as int].0));
                return Err(UNKNOWN_STATE);
            }
            i = i + 1;
        }
        if let Some(t) = &self.thresholds {
            if !is_nested(t) {
                return Err(NOT_NESTED);
            }
        }
        Ok(())
    }

    /// A value's severity with the override taken into account: a code it names
    /// first, otherwise the schema; ranges are replaced, the schema's predicates
    /// keep applying.
    pub open spec fn severity(self, desc: MetricDesc, reading: Reading<'_>) -> Severity {
        if desc.states@.len() > 0 {
            match schema::code_of(reading.value) {
                None => Severity::Normal,
                Some(code) => match overriding(self.states@, code) {
                    Some(s) => s,
                    None => desc.code_severity(code),
                },
            }
        } else {
            MetricDesc::number_severity(
                match self.thresholds {
                    Some(t) => t,
                    None => desc.thresholds,
                },
                reading,
            )
        }
    }

    /// A value's severity with the override taken into account.
    pub fn severity_of(&self, desc: &MetricDesc, reading: &Reading<'_>) -> (s: Severity)
        ensures
            s == self.severity(*desc, *reading),
    {
        if desc.states.len() > 0 {
            let code: u64 = match state_code(&reading.value) {
                Some(c) => c,
                None => {
                    return Severity::Normal;
                },
            };
            if let Some(s) = find_override(&self.states, code) {
                return s;
            }
            return match desc.state(code) {
                Some(d) => d.severity,
                None => Severity::Normal,
            };
        }
        let thresholds: Thresholds = match self.thresholds {
            Some(t) => t,
            None => desc.thresholds,
        };
        MetricDesc::numeric_severity(&thresholds, reading)
    }
}

/// The schema has no label for a code.
pub open spec fn is_unlabelled(desc: MetricDesc, code: u64) -> bool {
    desc.state_at(code) == desc.states@.len()
}

/// An override that says nothing changes no diagnosis.
pub proof fn law_an_empty_override_changes_nothing(
    limits: MetricLimits,
    desc: MetricDesc,
    reading: Reading<'_>,
)
    requires
        limits.is_unset(),
    ensures
        limits.fault(desc) is None,
        limits.severity(desc, reading) == desc.schema_severity(reading),
{
}

/// A metric's state with the severity in effect.
#[derive(Debug, Clone, Copy, PartialEq, Eq)]
pub struct StateStatus {
    pub code: u64,
    pub name: &'static str,
    pub severity: Severity,
}

/// A metric's limits as they stand: the schema and the overrides.
#[derive(Debug)]
#[non_exhaustive]
pub struct EffectiveLimits {
    pub metric: MetricId,
    pub name: &'static str,
    pub unit: &'static str,
    pub kind: MetricKind,
    pub thresholds: Thresholds,
    /// The states in the order of the schema. Empty means not an enum.
    pub states: Vec<StateStatus>,
    /// Whether what is in effect differs from what the schema declared.
    pub overridden: bool,
    /// The diagnosis is taken over by a closure: the numbers above describe what
    /// it overrides, and bands must not be drawn from them.
    pub has_severity_fn: bool,
}

/// A state with the severity in effect.
pub open spec fn status_of(state: StateDesc, over: Option<MetricLimits>) -> StateStatus {
    StateStatus {
        code: state.code,
        name: state.name,
        severity: match over {
            Some(o) => match overriding(o.states@, state.code) {
                Some(s) => s,
                None => state.severity,
            },
            None => state.severity,
        },
    }
}

impl EffectiveLimits {
    /// These are the limits of a metric under an override.
    pub open spec fn describe(
        self,
        desc: MetricDesc,
        over: Option<MetricLimits>,
        has_fn: bool,
    ) -> bool {
        &&& self.metric == desc.id
        &&& self.name == desc.name
        &&& self.unit == desc.unit
        &&& self.kind == desc.kind
        &&& self.thresholds == match over {
            Some(o) => match o.thresholds {
                Some(t) => t,
                None => desc.thresholds,
            },
            None => desc.thresholds,
        }
        &&& self.states@.len() == desc.states@.len()
        &&& forall|i: int|
            0 <= i < desc.states@.len() ==> #[trigger] self.states@[i] == status_of(
                desc.states@[i],
                over,
            )
        &&& self.overridden == (self.thresholds != desc.thresholds || exists|i: int|
            0 <= i < desc.states@.len() && (#[trigger] self.states@[i]).severity
                != desc.states@[i].severity)
        &&& self.has_severity_fn == has_fn
    }
}

/// The limits of all metrics of a namespace, by the metric's position in the
/// schema. A slot appears with the first override: most namespaces have none.
///
/// The closures that take a diagnosis over live with the application; here is
/// which metrics have one.
#[derive(Debug)]
pub struct LimitsRegistry {
    slots: Vec<Option<MetricLimits>>,
    fns: Vec<bool>,
}

impl Default for LimitsRegistry {
    fn default() -> (r: LimitsRegistry)
        ensures
            forall|i: int| #[trigger] r.over(i) is None,
            forall|i: int| !#[trigger] r.has_fn(i),
    {
        LimitsRegistry { slots: Vec::new(), fns: Vec::new() }
    }
}

/// A metric stands at a position of the schema.
pub open spec fn stands_at(schema: Schema, metric: MetricId, i: int) -> bool {
    0 <= i < schema.metrics@.len() && schema.metrics@[i].id == metric
}

impl LimitsRegistry {
    /// The override at a position.
    pub closed spec fn over(&self, i: int) -> Option<MetricLimits> {
        if 0 <= i < self.slots@.len() {
            self.slots@[i]
        } else {
            None
        }
    }

    /// A closure takes over the diagnosis at a position.
    pub closed spec fn has_fn(&self, i: int) -> bool {
        0 <= i < self.fns@.len() && self.fns@[i]
    }

    pub fn new() -> (r: LimitsRegistry)
        ensures
            forall|i: int| #[trigger] r.over(i) is None,
            forall|i: int| !#[trigger] r.has_fn(i),
    {
        LimitsRegistry::default()
    }

    /// The override of a metric was set or removed, and nothing else; or it was
    /// refused, and nothing changed.
    pub open spec fn overridden(
        before: LimitsRegistry,
        after: LimitsRegistry,
        schema: Schema,
        metric: MetricId,
        limits: Option<MetricLimits>,
        r: Result<(), Error>,
    ) -> bool {
        &&& forall|i: int| #[trigger] after.has_fn(i) == before.has_fn(i)
        &&& r is Err ==> forall|i: int| #[trigger] after.over(i) == before.over(i)
        &&& !schema.has_metric(metric) ==> r == Err::<(), Error>(
            Error::UnknownMetric { metric_id: metric.0 },
        )
        &&& schema.has_metric(metric) ==> exists|at: int|
            {
                &&& #[trigger] stands_at(schema, metric, at)
                &&& match limits {
                    Some(l) => match l.fault(schema.metrics@[at]) {
                        Some(reason) => r == Err::<(), Error>(
                            Error::BadLimits { metric_name: schema.metrics@[at].name, reason },
                        ),
                        None => r is Ok,
                    },
                    None => r is Ok,
                }
                &&& r is Ok ==> forall|i: int| #[trigger]
                    after.over(i) == if i == at {
                        match limits {
                            Some(l) => if l.is_unset() {
                                None
                            } else {
                                Some(l)
                            },
                            None => None,
                        }
                    } else {
                        before.over(i)
                    }
            }
    }

    /// Whether a closure takes over a metric's diagnosis was noted, and nothing
    /// else; or it was refused, and nothing changed.
    pub open spec fn taken_over(
        before: LimitsRegistry,
        after: LimitsRegistry,
        schema: Schema,
        metric: MetricId,
        present: bool,
        r: Result<(), Error>,
    ) -> bool {
        &&& forall|i: int| #[trigger] after.over(i) == before.over(i)
        &&& r is Err ==> forall|i: int| #[trigger] after.has_fn(i) == before.has_fn(i)
        &&& !schema.has_metric(metric) ==> r == Err::<(), Error>(
            Error::UnknownMetric { metric_id: metric.0 },
        )
        &&& schema.has_metric(metric) ==> exists|at: int|
            {
                &&& #[trigger] stands_at(schema, metric, at)
                &&& if present && schema.metrics@[at].value_type == ValueType::Blob {
                    r == Err::<(), Error>(
                        Error::BadLimits {
                            metric_name: schema.metrics@[at].name,
                            reason: CLOSURE_ON_A_BLOB,
                        },
                    )
                } else {
                    r is Ok
                }
                &&& r is Ok ==> forall|i: int| #[trigger]
                    after.has_fn(i) == if i == at {
                        present
                    } else {
                        before.has_fn(i)
                    }
            }
    }

    /// Sets the limits of a metric; `None` removes the override, and so does one
    /// that says nothing.
    pub fn set(&mut self, schema: &Schema, metric: MetricId, limits: Option<MetricLimits>) -> (r:
        Result<(), Error>)
        ensures
            Self::overridden(*old(self), *final(self), *schema, metric, limits, r),
    {
        let (index, desc) = match schema.metric_index(metric) {
            Some(d) => d,
            None => {
                return Err(Error::UnknownMetric { metric_id: metric.0 });
            },
        };
        assert(schema.metrics@[index as int].id == metric);
        assert(stands_at(*schema, metric, index as int));
        let mut kept: Option<MetricLimits> = limits;
        if let Some(l) = &kept {
            match l.check(desc) {
                Ok(()) => {},
                Err(reason) => {
                    return Err(Error::BadLimits { metric_name: desc.name, reason });
                },
            }
        }
        let empty: bool = match &kept {
            Some(l) => l.is_empty(),
            None => true,
        };
        if empty {
            kept = None;
        }
        while self.slots.len() <= index
            invariant
                forall|i: int| #[trigger] self.over(i) == old(self).over(i),
                self.fns@ == old(self).fns@,
            decreases index + 1 - self.slots@.len(),
        {
            let ghost before = *self;
            self.slots.push(None);
            assert forall|i: int| #[trigger] self.over(i) == old(self).over(i) by {
                assert(before.over(i) == old(self).over(i));
            }
        }
        let ghost grown = *self;
        self.slots.set(index, kept);
        assert forall|i: int| #[trigger] self.over(i) == if i == index {
            kept
        } else {
            old(self).over(i)
        } by {
            assert(grown.over(i) == old(self).over(i));
        }
        Ok(())
    }

    /// Notes that a closure takes over a metric's diagnosis, or no longer does. A
    /// blob is refused: it stands for no number, and the closure would never be
    /// called.
    pub fn set_fn(&mut self, schema: &Schema, metric: MetricId, present: bool) -> (r: Result<
        (),
        Error,
    >)
        ensures
            Self::taken_over(*old(self), *final(self), *schema, metric, present, r),
    {
        let (index, desc) = match schema.metric_index(metric) {
            Some(d) => d,
            None => {
                return Err(Error::UnknownMetric { metric_id: metric.0 });
            },
        };
        assert(schema.metrics@[index as int].id == metric);
        assert(stands_at(*schema, metric, index as int));
        if present && desc.value_type == ValueType::Blob {
            return Err(Error::BadLimits { metric_name: desc.name, reason: CLOSURE_ON_A_BLOB });
        }
        while self.fns.len() <= index
            invariant
                forall|i: int| #[trigger] self.has_fn(i) == old(self).has_fn(i),
                self.slots@ == old(self).slots@,
            decreases index + 1 - self.fns@.len(),
        {
            let ghost before = *self;
            self.fns.push(false);
            assert forall|i: int| #[trigger] self.has_fn(i) == old(self).has_fn(i) by {
                assert(before.has_fn(i) == old(self).has_fn(i));
            }
        }
        let ghost grown = *self;
        self.fns.set(index, present);
        assert forall|i: int| #[trigger] self.has_fn(i) == if i == index {
            present
        } else {
            old(self).has_fn(i)
        } by {
            assert(grown.has_fn(i) == old(self).has_fn(i));
        }
        Ok(())
    }

    /// A metric's limits as they stand.
    pub fn effective(&self, schema: &Schema, metric: MetricId) -> (r: Result<EffectiveLimits, Error>)
        ensures
            match r {
                Err(e) => !schema.has_metric(metric) && e == (Error::UnknownMetric {
                    metric_id: metric.0,
                }),
                Ok(l) => exists|at: int| #[trigger]
                    stands_at(*schema, metric, at) && l.describe(
                        schema.metrics@[at],
                        self.over(at),
                        self.has_fn(at),
                    ),
            },
    {
        let (index, desc) = match schema.metric_index(metric) {
            Some(d) => d,
            None => {
                return Err(Error::UnknownMetric { metric_id: metric.0 });
            },
        };
        assert(stands_at(*schema, metric, index as int));
        let over: Option<&MetricLimits> = if index < self.slots.len() {
            self.slots[index].as_ref()
        } else {
            None
        };
        let ghost o = self.over(index as int);
        let mut states: Vec<StateStatus> = Vec::new();
        let mut differs: bool = false;
        let mut k: usize = 0;
        while k < desc.states.len()
            invariant
                k <= desc.states@.len(),
                states@.len() == k,
                differs == exists|i: int|
                    0 <= i < k && (#[trigger] states@[i]).severity != desc.states@[i].severity,
                match over {
                    Some(x) => o == Some(*x),
                    None => o is None,
                },
                forall|i: int|
                    0 <= i < k ==> #[trigger] states@[i] == status_of(desc.states@[i], o),
            decreases desc.states@.len() - k,
        {
            let state: StateDesc = desc.states[k];
            let severity: Severity = match over {
                Some(x) => match find_override(&x.states, state.code) {
                    Some(s) => s,
                    None => state.severity,
                },
                None => state.severity,
            };
            let ghost had = states@;
            states.push(StateStatus { code: state.code, name: state.name, severity });
            proof {
                assert forall|i: int| 0 <= i < k implies #[trigger] states@[i] == had[i] by {}
                if differs {
                    let i = choose|i: int|
                        0 <= i < k && (#[trigger] had[i]).severity != desc.states@[i].severity;
                    assert(states@[i] == had[i]);
                }
            }
            if severity != state.severity {
                assert(states@[k as int].severity != desc.states@[k as int].severity);
                differs = true;
            }
            k = k + 1;
        }
        let thresholds: Thresholds = match over {
            Some(x) => match x.thresholds {
                Some(t) => t,
                None => desc.thresholds,
            },
            None => desc.thresholds,
        };
        let l = EffectiveLimits {
            metric: desc.id,
            name: desc.name,
            unit: desc.unit,
            kind: desc.kind,
            thresholds,
            states,
            overridden: thresholds != desc.thresholds || differs,
            has_severity_fn: index < self.fns.len() && self.fns[index],
        };
        assert(l.describe(schema.metrics@[index as int], o, self.has_fn(index as int)));
        Ok(l)
    }

    /// Whether a closure has to be asked about a value: one is set for its metric,
    /// and the value stands for a number.
    pub fn asks_fn(&self, schema: &Schema, metric: MetricId, reading: &Reading<'_>) -> (yes: bool)
        ensures
            yes ==> reading.number is Some && exists|at: int|
                #[trigger] stands_at(*schema, metric, at) && self.has_fn(at),
            !yes && reading.number is Some && schema.has_metric(metric) ==> exists|at: int|
                #[trigger] stands_at(*schema, metric, at) && !self.has_fn(at),
    {
        match schema.metric_index(metric) {
            None => false,
            Some((index, _)) => {
                assert(stands_at(*schema, metric, index as int));
                reading.number.is_some() && index < self.fns.len() && self.fns[index]
            },
        }
    }

    /// A value's severity: what the closure judged where there is one, otherwise
    /// the override, otherwise the schema. An unknown metric has nothing to warn
    /// about.
    pub open spec fn verdict(
        &self,
        at: int,
        desc: MetricDesc,
        reading: Reading<'_>,
        judged: Option<Severity>,
    ) -> Severity {
        if self.has_fn(at) && reading.number is Some && judged is Some {
            judged->0
        } else {
            match self.over(at) {
                Some(o) => o.severity(desc, reading),
                None => desc.schema_severity(reading),
            }
        }
    }

    /// A value's severity. `judged` is what the metric's closure answered, if it
    /// was asked.
    pub fn severity_of(
        &self,
        schema: &Schema,
        metric: MetricId,
        reading: &Reading<'_>,
        judged: Option<Severity>,
    ) -> (s: Severity)
        ensures
            !schema.has_metric(metric) ==> s == Severity::Normal,
            schema.has_metric(metric) ==> exists|at: int| #[trigger]
                stands_at(*schema, metric, at) && s == self.verdict(
                    at,
                    schema.metrics@[at],
                    *reading,
                    judged,
                ),
    {
        let (index, desc) = match schema.metric_index(metric) {
            Some(d) => d,
            None => {
                return Severity::Normal;
            },
        };
        assert(stands_at(*schema, metric, index as int));
        if index < self.fns.len() && self.fns[index] && reading.number.is_some() {
            if let Some(s) = judged {
                return s;
            }
        }
        if index < self.slots.len() {
            if let Some(o) = &self.slots[index] {
                return o.severity_of(desc, reading);
            }
        }
        desc.severity_of(reading)
    }
}

/// Removing an override brings back what the schema declared, and setting one puts
/// exactly it in force; the other metrics keep their limits.
pub proof fn law_limits_are_set_and_taken_back(
    before: LimitsRegistry,
    set: LimitsRegistry,
    cleared: LimitsRegistry,
    s: Schema,
    i: int,
    j: int,
    limits: MetricLimits,
    reading: Reading<'_>,
)
    requires
        s.valid(),
        0 <= i < s.metrics@.len(),
        0 <= j < s.metrics@.len(),
        i != j,
        !before.has_fn(i),
        !limits.is_unset(),
        LimitsRegistry::overridden(before, set, s, s.metrics@[i].id, Some(limits), Ok(())),
        LimitsRegistry::overridden(set, cleared, s, s.metrics@[i].id, None, Ok(())),
    ensures
        set.verdict(i, s.metrics@[i], reading, None) == limits.severity(s.metrics@[i], reading),
        cleared.verdict(i, s.metrics@[i], reading, None) == s.metrics@[i].schema_severity(reading),
        set.over(j) == before.over(j),
        cleared.over(j) == before.over(j),
{
    let metric = s.metrics@[i].id;
    assert(s.has_metric(metric)) by {
        assert(s.metrics@[i].id == metric);
    }
    assert forall|at: int| #[trigger] stands_at(s, metric, at) implies at == i by {
        if at < i {
            schema::law_validated_identifiers_are_unique(s, at, i);
        } else if at > i {
            schema::law_validated_identifiers_are_unique(s, i, at);
        }
    }
    assert(set.has_fn(i) == before.has_fn(i));
    assert(cleared.has_fn(i) == set.has_fn(i));
}

/// An override of bounds takes the place of the schema's: a value of a number is judged as if the
/// schema had declared them, its predicates included. Where no bounds are set the schema's apply.
pub proof fn law_bounds_take_the_place_of_the_schemas(
    limits: MetricLimits,
    desc: MetricDesc,
    reading: Reading<'_>,
)
    requires
        desc.states@.len() == 0,
    ensures
        limits.thresholds matches Some(t) ==> limits.severity(desc, reading) == (MetricDesc {
            thresholds: t,
            ..desc
        }).schema_severity(reading),
        limits.thresholds is None ==> limits.severity(desc, reading) == desc.schema_severity(
            reading,
        ),
{
}

/// Of an enum the states an override names have the weight it gives them, the first mention
/// counting, and all others keep the schema's; a value that carries no code is normal.
pub proof fn law_a_named_state_has_the_new_weight(
    limits: MetricLimits,
    desc: MetricDesc,
    reading: Reading<'_>,
    i: int,
)
    requires
        desc.states@.len() > 0,
    ensures
        0 <= i < limits.states@.len() && schema::code_of(reading.value) == Some(
            limits.states@[i].0,
        ) && (forall|j: int| 0 <= j < i ==> (#[trigger] limits.states@[j]).0 != limits.states@[i].0)
            ==> limits.severity(desc, reading) == limits.states@[i].1,
        (forall|j: int|
            0 <= j < limits.states@.len() ==> schema::code_of(reading.value) != Some(
                (#[trigger] limits.states@[j]).0,
            )) ==> limits.severity(desc, reading) == desc.schema_severity(reading),
        schema::code_of(reading.value) is None ==> limits.severity(desc, reading) is Normal,
{
    let n = limits.states@.len() as int;
    if schema::code_of(reading.value) is Some {
        let code = schema::code_of(reading.value)->0;
        let p = names_code(limits.states@, code);
        if 0 <= i < n && code == limits.states@[i].0 && (forall|j: int|
            0 <= j < i ==> (#[trigger] limits.states@[j]).0 != limits.states@[i].0) {
            search::lemma_first_is(p, 0, n, i);
        }
        if forall|j: int|
            0 <= j < n ==> schema::code_of(reading.value) != Some((#[trigger] limits.states@[j]).0) {
            assert forall|j: int| 0 <= j < n implies !#[trigger] p(j) by {
                assert(limits.states@[j].0 != code);
            }
            search::lemma_first_is(p, 0, n, n);
        }
    }
}

/// No bound of either range is set.
proof fn lemma_unset_ranges(t: Thresholds)
    ensures
        t.unset() <==> t.warn.min is None && t.warn.max is None && t.alarm.min is None
            && t.alarm.max is None,
        t.nested() <==> {
            &&& !(t.warn.min matches Some(Scalar::Key(w))
                && t.alarm.min matches Some(Scalar::Key(c)) && c > w)
            &&& !(t.warn.max matches Some(Scalar::Key(w))
                && t.alarm.max matches Some(Scalar::Key(c)) && c < w)
        },
{
}

/// Some state of a metric has a code.
pub open spec fn has_state(desc: MetricDesc, code: u64) -> bool {
    exists|k: int| 0 <= k < desc.states@.len() && (#[trigger] desc.states@[k]).code == code
}

proof fn lemma_labelled(desc: MetricDesc, code: u64)
    ensures
        is_unlabelled(desc, code) <==> !has_state(desc, code),
{
    let n = desc.states@.len() as int;
    let p = schema::has_code(desc.states@, code);
    search::lemma_first_at(p, 0, n);
    let f = search::first_at(p, 0, n);
    if f < n {
        assert(p(f));
        assert(desc.states@[f].code == code);
    } else {
        assert forall|k: int| 0 <= k < n implies (#[trigger] desc.states@[k]).code != code by {
            assert(!p(k));
        }
    }
}

/// An override is refused if and only if it puts bounds on an enum or states on a number, names a
/// state the schema does not have, or leaves an alarm bound inside the warning range.
pub proof fn law_an_override_is_refused_only_for_a_reason(limits: MetricLimits, desc: MetricDesc)
    ensures
        limits.fault(desc) is None <==> {
            &&& limits.thresholds matches Some(t) ==> {
                &&& desc.states@.len() > 0 ==> t.warn.min is None && t.warn.max is None
                    && t.alarm.min is None && t.alarm.max is None
                &&& !(t.warn.min matches Some(Scalar::Key(w))
                    && t.alarm.min matches Some(Scalar::Key(c)) && c > w)
                &&& !(t.warn.max matches Some(Scalar::Key(w))
                    && t.alarm.max matches Some(Scalar::Key(c)) && c < w)
            }
            &&& desc.states@.len() == 0 ==> limits.states@.len() == 0
            &&& forall|i: int|
                0 <= i < limits.states@.len() ==> has_state(
                    desc,
                    (#[trigger] limits.states@[i]).0,
                )
        },
{
    assert forall|i: int| 0 <= i < limits.states@.len() implies is_unlabelled(
        desc,
        (#[trigger] limits.states@[i]).0,
    ) == !has_state(desc, limits.states@[i].0) by {
        lemma_labelled(desc, limits.states@[i].0);
    }
    if limits.thresholds is Some {
        lemma_unset_ranges(limits.thresholds->0);
    }
}

/// Where a closure judged a number its word is the last; anything else is judged by the override
/// in force, and without one by the schema.
pub proof fn law_the_closure_has_the_last_word(
    r: LimitsRegistry,
    at: int,
    desc: MetricDesc,
    reading: Reading<'_>,
    judged: Severity,
)
    ensures
        r.has_fn(at) && reading.number is Some ==> r.verdict(at, desc, reading, Some(judged))
            == judged,
        !r.has_fn(at) || reading.number is None ==> r.verdict(at, desc, reading, Some(judged))
            == r.verdict(at, desc, reading, None),
        r.over(at) matches Some(o) ==> r.verdict(at, desc, reading, None) == o.severity(
            desc,
            reading,
        ),
        r.over(at) is None ==> r.verdict(at, desc, reading, None) == desc.schema_severity(reading),
{
}

/// The limits as they are shown are the limits values are judged by: without a closure a number is
/// judged by the bounds shown, and a state has the weight shown beside it.
pub proof fn law_what_is_shown_is_what_values_are_judged_by(
    shown: EffectiveLimits,
    r: LimitsRegistry,
    at: int,
    desc: MetricDesc,
    reading: Reading<'_>,
    i: int,
)
    requires
        shown.describe(desc, r.over(at), r.has_fn(at)),
        !shown.has_severity_fn,
    ensures
        shown.states@.len() == desc.states@.len(),
        desc.states@.len() == 0 ==> r.verdict(at, desc, reading, None) == (MetricDesc {
            thresholds: shown.thresholds,
            ..desc
        }).schema_severity(reading),
        0 <= i < shown.states@.len() ==> shown.states@[i].code == desc.states@[i].code
            && shown.states@[i].name == desc.states@[i].name,
        0 <= i < shown.states@.len() && schema::code_of(reading.value) == Some(
            shown.states@[i].code,
        ) && (forall|j: int| 0 <= j < i ==> (#[trigger] desc.states@[j]).code != desc.states@[i].code)
            ==> r.verdict(at, desc, reading, None) == shown.states@[i].severity,
{
    if 0 <= i < desc.states@.len() {
        assert(shown.states@[i] == status_of(desc.states@[i], r.over(at)));
        schema::law_a_state_has_its_own_weight(desc, reading, i);
    }
}

/// A closure is set for one metric and no other: it stands there if and only if one was given, and no
/// override is touched. Only a metric that is not declared, and a closure over a binary value, are
/// refused, and then nothing changes.
pub proof fn law_a_closure_is_set_for_one_metric(
    before: LimitsRegistry,
    after: LimitsRegistry,
    schema: Schema,
    metric: MetricId,
    present: bool,
    r: Result<(), Error>,
    at: int,
    other: int,
)
    requires
        LimitsRegistry::taken_over(before, after, schema, metric, present, r),
        0 <= at < schema.metrics@.len() && schema.metrics@[at].id == metric,
        forall|k: int|
            0 <= k < schema.metrics@.len() && k != at ==> (#[trigger] schema.metrics@[k]).id
                != metric,
    ensures
        r is Ok <==> !(present && schema.metrics@[at].value_type is Blob),
        r is Ok ==> after.has_fn(at) == present,
        other != at || r is Err ==> after.has_fn(other) == before.has_fn(other),
        after.over(other) == before.over(other),
{
    assert(schema.has_metric(metric));
    let k = choose|k: int|
        {
            &&& #[trigger] stands_at(schema, metric, k)
            &&& if present && schema.metrics@[k].value_type == ValueType::Blob {
                r == Err::<(), Error>(
                    Error::BadLimits {
                        metric_name: schema.metrics@[k].name,
                        reason: CLOSURE_ON_A_BLOB,
                    },
                )
            } else {
                r is Ok
            }
            &&& r is Ok ==> forall|i: int| #[trigger]
                after.has_fn(i) == if i == k {
                    present
                } else {
                    before.has_fn(i)
                }
        };
    assert(schema.metrics@[k].id == metric);
    assert(k == at);
}

} // verus!
