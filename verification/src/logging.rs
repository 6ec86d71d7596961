//! The write paths of a namespace: events, text, samples and spans.
//!
//! The methods that answer leave a failure to their caller. The quiet ones count
//! it themselves: a loss is counted by the writer's handle, a contract violation
//! is counted here, and announced once of its kind. Whether to announce it is
//! their answer.

use crate::desk::Desk;
use crate::error::Error;
use crate::format::{EventId, Level, MetricId, Micros, SpanId, SpanKindId};
use crate::limits::{EffectiveLimits, LimitsRegistry, MetricLimits, stands_at};
use crate::metric::MetricValue;
use crate::namespace::{coerced, kind_bit, Namespace, NsMeta, Routed, Series};
use crate::schema::{Range, Reading, Schema, Severity, StorageClass, Thresholds};
use crate::staged::{payload_bytes, ChannelIdx, NsId, OwnedValue, Payload, Staged, StagedRecord};
use crate::stats;
use crate::stats::Counters;
use crate::store::{next_span_id, numbered};
use std::sync::Arc;
use vstd::prelude::*;

verus! {

impl Namespace {
    /// The schema the namespace is opened with.
    pub fn schema(&self) -> (s: &Schema)
        ensures
            *s == self.schema,
    {
        &self.schema
    }

    /// The metadata.
    pub fn meta(&self) -> (m: &NsMeta)
        ensures
            *m == self.meta,
    {
        &self.meta
    }

    /// How writing an event ended: an event the schema does not declare goes
    /// nowhere and moves no account; any other is handed in at the desk.
    pub open spec fn logged(
        &self,
        event: EventId,
        payload: Payload,
        span: Option<SpanId>,
        at: Micros,
        before: Desk,
        after: Desk,
        r: Result<(), Error>,
    ) -> bool {
        if self.schema.has_event(event) {
            exists|routed: Routed| #[trigger]
                self.routes_message(routed, event, payload, span, at) && Desk::wrote(
                    before,
                    after,
                    routed.item,
                    routed.critical,
                    r,
                )
        } else {
            &&& r == Err::<(), Error>(
                Error::UnknownEvent { schema: self.schema.name, event: event.0 },
            )
            &&& after == before
        }
    }

    /// What a quiet method leaves of an event the schema does not declare.
    pub open spec fn rejected(
        before: Namespace,
        after: Namespace,
        d0: Desk,
        d1: Desk,
        e: Error,
        announce: bool,
    ) -> bool {
        &&& announce == (before.announced & kind_bit(e) == 0)
        &&& after == (Namespace {
            announced: before.announced | kind_bit(e),
            ..before
        })
        &&& d1 == (Desk {
            counters: Counters { rejected: stats::plus(d0.counters.rejected, 1), ..d0.counters },
            ..d0
        })
    }

    /// How writing an event ended where the caller is not told.
    pub open spec fn logged_quietly(
        before: Namespace,
        after: Namespace,
        event: EventId,
        payload: Payload,
        span: Option<SpanId>,
        at: Micros,
        d0: Desk,
        d1: Desk,
        announce: bool,
    ) -> bool {
        if before.schema.has_event(event) {
            &&& !announce
            &&& after == before
            &&& exists|r: Result<(), Error>| #[trigger]
                before.logged(event, payload, span, at, d0, d1, r)
        } else {
            Self::rejected(
                before,
                after,
                d0,
                d1,
                Error::UnknownEvent { schema: before.schema.name, event: event.0 },
                announce,
            )
        }
    }

    /// Writes an event and says how it ended. A contract violation is the caller's
    /// to handle: it moves no account.
    pub fn try_log_payload(
        &self,
        event: EventId,
        payload: Payload,
        span: Option<SpanId>,
        at: Micros,
        desk: &mut Desk,
    ) -> (r: Result<(), Error>)
        requires
            self.wf(),
        ensures
            self.logged(event, payload, span, at, *old(desk), *final(desk), r),
    {
        let ghost given = payload;
        let routed: Routed = match self.route_message(event, payload, span, at) {
            Ok(x) => x,
            Err(e) => {
                return Err(e);
            },
        };
        assert(self.routes_message(routed, event, given, span, at));
        desk.put(routed.item, routed.critical)
    }

    /// The same with a payload to be copied.
    pub fn try_log_raw(
        &self,
        event: EventId,
        payload: &[u8],
        span: Option<SpanId>,
        at: Micros,
        desk: &mut Desk,
    ) -> (r: Result<(), Error>)
        requires
            self.wf(),
        ensures
            exists|p: Payload| payload_bytes(p) == payload@ && #[trigger]
                self.logged(event, p, span, at, *old(desk), *final(desk), r),
    {
        let p: Payload = Payload::from_slice(payload);
        let ghost given = p;
        let r = self.try_log_payload(event, p, span, at, desk);
        assert(self.logged(event, given, span, at, *old(desk), *desk, r));
        r
    }

    /// Writes an event; what the caller is not told is accounted for. The answer
    /// says whether a contract violation is to be announced.
    pub fn log_payload(
        &mut self,
        event: EventId,
        payload: Payload,
        span: Option<SpanId>,
        at: Micros,
        desk: &mut Desk,
    ) -> (announce: bool)
        requires
            old(self).wf(),
        ensures
            final(self).wf(),
            Self::logged_quietly(
                *old(self),
                *final(self),
                event,
                payload,
                span,
                at,
                *old(desk),
                *final(desk),
                announce,
            ),
    {
        let ghost given = payload;
        let r = self.try_log_payload(event, payload, span, at, desk);
        assert(self.logged(event, given, span, at, *old(desk), *desk, r));
        match r {
            Ok(()) => false,
            Err(e) => {
                assert(self.schema.has_event(event) ==> e.is_loss());
                self.note_failure(&e, &mut desk.counters)
            },
        }
    }

    /// The same with a payload to be copied.
    pub fn log_raw(
        &mut self,
        event: EventId,
        payload: &[u8],
        span: Option<SpanId>,
        at: Micros,
        desk: &mut Desk,
    ) -> (announce: bool)
        requires
            old(self).wf(),
        ensures
            final(self).wf(),
            exists|p: Payload|
                payload_bytes(p) == payload@ && #[trigger] Self::logged_quietly(
                    *old(self),
                    *final(self),
                    event,
                    p,
                    span,
                    at,
                    *old(desk),
                    *final(desk),
                    announce,
                ),
    {
        self.log_payload(event, Payload::from_slice(payload), span, at, desk)
    }

    /// Text was handed in at the desk: at an error level in the critical channel
    /// if the schema has one, otherwise in the ordinary one.
    pub open spec fn logged_text(
        &self,
        level: Level,
        target: Arc<str>,
        text: Box<str>,
        span: Option<SpanId>,
        at: Micros,
        before: Desk,
        after: Desk,
        r: Result<(), Error>,
    ) -> bool {
        exists|routed: Routed|
            {
                &&& #[trigger] self.goes_to(routed, self.text_class(level), at)
                &&& routed.item.record == (StagedRecord::Text { level, span, target, text })
                &&& Desk::wrote(before, after, routed.item, routed.critical, r)
            }
    }

    /// Writes free text, which no schema declares, and says how it ended.
    pub fn try_log_text(
        &self,
        level: Level,
        target: Arc<str>,
        text: Box<str>,
        span: Option<SpanId>,
        at: Micros,
        desk: &mut Desk,
    ) -> (r: Result<(), Error>)
        requires
            self.wf(),
        ensures
            self.logged_text(level, target, text, span, at, *old(desk), *final(desk), r),
    {
        match self.route_text(level, target, text, span, at) {
            Ok(routed) => {
                assert(self.goes_to(routed, self.text_class(level), at));
                desk.put(routed.item, routed.critical)
            },
            Err(e) => Err(e),
        }
    }

    /// Writes free text. There is a channel for it in every schema, so there is
    /// nothing to announce; a loss is counted.
    pub fn log_text(
        &self,
        level: Level,
        target: Arc<str>,
        text: Box<str>,
        span: Option<SpanId>,
        at: Micros,
        desk: &mut Desk,
    )
        requires
            self.wf(),
        ensures
            exists|r: Result<(), Error>| #[trigger]
                self.logged_text(level, target, text, span, at, *old(desk), *final(desk), r),
    {
        let _r = self.try_log_text(level, target, text, span, at, desk);
    }

    // -- limits ---------------------------------------------------------------

    /// What an operation on the limits leaves alone.
    pub open spec fn same_but_limits(&self, other: &Namespace) -> bool {
        *self == (Namespace { limits: self.limits, ..*other })
    }

    /// Sets the whole override of a metric.
    pub fn set_limits(&mut self, metric: MetricId, limits: MetricLimits) -> (r: Result<(), Error>)
        ensures
            final(self).same_but_limits(old(self)),
            LimitsRegistry::overridden(
                old(self).limits,
                final(self).limits,
                old(self).schema,
                metric,
                Some(limits),
                r,
            ),
    {
        self.limits.set(&self.schema, metric, Some(limits))
    }

    /// Sets the bounds of a metric known only at run time: a bound that does not suit the
    /// declared type is refused here.
    pub fn set_thresholds_raw(&mut self, metric: MetricId, warn: Range, alarm: Range) -> (r: Result<
        (),
        Error,
    >)
        ensures
            final(self).same_but_limits(old(self)),
            exists|limits: MetricLimits|
                {
                    &&& #[trigger] LimitsRegistry::overridden(
                        old(self).limits,
                        final(self).limits,
                        old(self).schema,
                        metric,
                        Some(limits),
                        r,
                    )
                    &&& limits.thresholds == Some(Thresholds { warn, alarm })
                    &&& limits.states@.len() == 0
                },
    {
        let limits = MetricLimits::numeric(Thresholds::new(warn, alarm));
        let ghost given = limits;
        let r = self.set_limits(metric, limits);
        assert(LimitsRegistry::overridden(
            old(self).limits,
            self.limits,
            old(self).schema,
            metric,
            Some(given),
            r,
        ));
        r
    }

    /// Removes the override: what the schema declared applies again.
    pub fn clear_limits(&mut self, metric: MetricId) -> (r: Result<(), Error>)
        ensures
            final(self).same_but_limits(old(self)),
            LimitsRegistry::overridden(
                old(self).limits,
                final(self).limits,
                old(self).schema,
                metric,
                None,
                r,
            ),
    {
        self.limits.set(&self.schema, metric, None)
    }

    /// A closure takes a metric's diagnosis over.
    pub fn set_severity_fn(&mut self, metric: MetricId) -> (r: Result<(), Error>)
        ensures
            final(self).same_but_limits(old(self)),
            LimitsRegistry::taken_over(
                old(self).limits,
                final(self).limits,
                old(self).schema,
                metric,
                true,
                r,
            ),
    {
        self.limits.set_fn(&self.schema, metric, true)
    }

    /// The closure is gone: the overrides and the schema apply again.
    pub fn clear_severity_fn(&mut self, metric: MetricId) -> (r: Result<(), Error>)
        ensures
            final(self).same_but_limits(old(self)),
            LimitsRegistry::taken_over(
                old(self).limits,
                final(self).limits,
                old(self).schema,
                metric,
                false,
                r,
            ),
    {
        self.limits.set_fn(&self.schema, metric, false)
    }

    /// A metric's limits as they stand: the schema and the overrides.
    pub fn limits(&self, metric: MetricId) -> (r: Result<EffectiveLimits, Error>)
        ensures
            match r {
                Err(e) => !self.schema.has_metric(metric) && e == (Error::UnknownMetric {
                    metric_id: metric.0,
                }),
                Ok(l) => exists|i: int| #[trigger]
                    stands_at(self.schema, metric, i) && l.describe(
                        self.schema.metrics@[i],
                        self.limits.over(i),
                        self.limits.has_fn(i),
                    ),
            },
    {
        self.limits.effective(&self.schema, metric)
    }

    /// How much a value calls for attention, with what the closure judged of it
    /// where there is one.
    pub fn severity_of_raw(
        &self,
        metric: MetricId,
        reading: &Reading<'_>,
        judged: Option<Severity>,
    ) -> (s: Severity)
        ensures
            !self.schema.has_metric(metric) ==> s == Severity::Normal,
            self.schema.has_metric(metric) ==> exists|i: int| #[trigger]
                stands_at(self.schema, metric, i) && s == self.limits.verdict(
                    i,
                    self.schema.metrics@[i],
                    *reading,
                    judged,
                ),
    {
        self.limits.severity_of(&self.schema, metric, reading, judged)
    }

    // -- spans ----------------------------------------------------------------

    /// A span was begun: its start went to the class its kind is declared with,
    /// or to the ordinary one, and a kind the schema does not declare was
    /// accounted for first.
    pub open spec fn began(
        before: Namespace,
        after: Namespace,
        kind: SpanKindId,
        parent: Option<SpanId>,
        at: Micros,
        d0: Desk,
        d1: Desk,
        guard: SpanGuard,
        announce: bool,
    ) -> bool {
        &&& guard.ns == before.id
        &&& exists|routed: Routed, mid: Desk, class: StorageClass, w: Result<(), Error>|
            {
                &&& #[trigger] before.is_span_class(kind, class)
                &&& #[trigger] before.goes_to(routed, class, at)
                &&& #[trigger] Desk::wrote(mid, d1, routed.item, routed.critical, w)
                &&& routed.item.record == (StagedRecord::SpanStart {
                    span: guard.span,
                    kind,
                    parent,
                })
                &&& guard.channel == routed.item.channel
                &&& guard.critical == routed.critical
                &&& if before.schema.has_span(kind) {
                    mid == d0 && after == before && !announce
                } else {
                    Self::rejected(
                        before,
                        after,
                        d0,
                        mid,
                        Error::UnknownSpanKind { schema: before.schema.name, kind: kind.0 },
                        announce,
                    )
                }
            }
    }

    /// Begins a span. The guard is handed out always: nesting matters more than
    /// the record. A kind the schema does not declare goes to the ordinary class
    /// and is accounted for; the second answer says whether to announce it.
    pub fn span_with_parent(
        &mut self,
        kind: SpanKindId,
        parent: Option<SpanId>,
        numbers: &mut u32,
        at: Micros,
        desk: &mut Desk,
    ) -> (r: (SpanGuard, bool))
        requires
            old(self).wf(),
        ensures
            final(self).wf(),
            numbered(*old(numbers), *final(numbers), r.0.span),
            Self::began(
                *old(self),
                *final(self),
                kind,
                parent,
                at,
                *old(desk),
                *final(desk),
                r.0,
                r.1,
            ),
    {
        let span: SpanId = next_span_id(numbers);
        let (routed, defect) = self.begin_span(kind, parent, span, at);
        let ghost class = choose|class: StorageClass| #[trigger]
            self.is_span_class(kind, class) && self.goes_to(routed, class, at);
        let ghost start = routed;
        let announce: bool = match &defect {
            Some(e) => self.note_failure(e, &mut desk.counters),
            None => false,
        };
        let ghost mid = *desk;
        let guard = SpanGuard {
            ns: routed.item.ns,
            span,
            channel: routed.item.channel,
            critical: routed.critical,
        };
        let w = desk.put(routed.item, routed.critical);
        proof {
            assert(old(self).is_span_class(kind, class));
            assert(old(self).goes_to(start, class, at));
            assert(Desk::wrote(mid, *desk, start.item, start.critical, w));
        }
        (guard, announce)
    }

    /// Begins a span without a parent.
    pub fn span(&mut self, kind: SpanKindId, numbers: &mut u32, at: Micros, desk: &mut Desk) -> (r: (
        SpanGuard,
        bool,
    ))
        requires
            old(self).wf(),
        ensures
            final(self).wf(),
            numbered(*old(numbers), *final(numbers), r.0.span),
            Self::began(
                *old(self),
                *final(self),
                kind,
                None,
                at,
                *old(desk),
                *final(desk),
                r.0,
                r.1,
            ),
    {
        self.span_with_parent(kind, None, numbers, at, desk)
    }
}

/// An open span: its end goes to the channel of its start.
#[derive(Debug, PartialEq, Eq, Structural)]
#[must_use]
pub struct SpanGuard {
    pub ns: NsId,
    pub span: SpanId,
    pub channel: ChannelIdx,
    pub critical: bool,
}

impl SpanGuard {
    pub fn id(&self) -> (id: SpanId)
        ensures
            id == self.span,
    {
        self.span
    }

    /// The record of the span's end.
    pub open spec fn ending(self, at: Micros) -> Staged {
        Staged {
            ns: self.ns,
            channel: self.channel,
            at,
            record: StagedRecord::SpanEnd { span: self.span },
        }
    }

    fn end_record(&self, at: Micros) -> (item: Staged)
        ensures
            item == self.ending(at),
    {
        Staged {
            ns: self.ns,
            channel: self.channel,
            at,
            record: StagedRecord::SpanEnd { span: self.span },
        }
    }

    /// Closes the span and says how it ended: on a critical span the caller waits
    /// for room.
    pub fn close(self, at: Micros, desk: &mut Desk) -> (r: Result<(), Error>)
        ensures
            Desk::wrote(*old(desk), *final(desk), self.ending(at), self.critical, r),
    {
        let item: Staged = self.end_record(at);
        desk.put(item, self.critical)
    }

    /// Closes the span without waiting for room, as when the guard is dropped: an
    /// emergency stop must not turn into a hang. Under pressure the end is lost,
    /// and counted.
    pub fn abandon(self, at: Micros, desk: &mut Desk) -> (r: Result<(), Error>)
        ensures
            Desk::wrote_at_once(*old(desk), *final(desk), self.ending(at), self.critical, r),
    {
        let item: Staged = self.end_record(at);
        desk.put_no_wait(item, self.critical)
    }

    /// A nested span: this one becomes its parent.
    pub fn child(
        &self,
        ns: &mut Namespace,
        kind: SpanKindId,
        numbers: &mut u32,
        at: Micros,
        desk: &mut Desk,
    ) -> (r: (SpanGuard, bool))
        requires
            old(ns).wf(),
        ensures
            final(ns).wf(),
            numbered(*old(numbers), *final(numbers), r.0.span),
            Namespace::began(
                *old(ns),
                *final(ns),
                kind,
                Some(self.span),
                at,
                *old(desk),
                *final(desk),
                r.0,
                r.1,
            ),
    {
        ns.span_with_parent(kind, Some(self.span), numbers, at, desk)
    }

    /// Writes an event attached to this span; what the caller is not told is
    /// accounted for.
    pub fn log_payload(
        &self,
        ns: &mut Namespace,
        event: EventId,
        payload: Payload,
        at: Micros,
        desk: &mut Desk,
    ) -> (announce: bool)
        requires
            old(ns).wf(),
        ensures
            final(ns).wf(),
            Namespace::logged_quietly(
                *old(ns),
                *final(ns),
                event,
                payload,
                Some(self.span),
                at,
                *old(desk),
                *final(desk),
                announce,
            ),
    {
        ns.log_payload(event, payload, Some(self.span), at, desk)
    }

    /// The same with a payload to be copied.
    pub fn log_raw(
        &self,
        ns: &mut Namespace,
        event: EventId,
        payload: &[u8],
        at: Micros,
        desk: &mut Desk,
    ) -> (announce: bool)
        requires
            old(ns).wf(),
        ensures
            final(ns).wf(),
            exists|p: Payload|
                payload_bytes(p) == payload@ && #[trigger] Namespace::logged_quietly(
                    *old(ns),
                    *final(ns),
                    event,
                    p,
                    Some(self.span),
                    at,
                    *old(desk),
                    *final(desk),
                    announce,
                ),
    {
        ns.log_raw(event, payload, Some(self.span), at, desk)
    }

    /// Writes an event attached to this span and says how it ended.
    pub fn try_log_payload(
        &self,
        ns: &Namespace,
        event: EventId,
        payload: Payload,
        at: Micros,
        desk: &mut Desk,
    ) -> (r: Result<(), Error>)
        requires
            ns.wf(),
        ensures
            ns.logged(event, payload, Some(self.span), at, *old(desk), *final(desk), r),
    {
        ns.try_log_payload(event, payload, Some(self.span), at, desk)
    }
}

impl<M> Series<M> {
    /// The record of a sample.
    pub open spec fn sampled(&self, value: OwnedValue, at: Micros) -> Staged {
        Staged {
            ns: self.ns,
            channel: self.channel,
            at,
            record: StagedRecord::Sample { metric: self.metric, value },
        }
    }

    /// The failure of a sample of another type than the metric declares.
    pub open spec fn mismatch(&self, value: OwnedValue) -> Error {
        Error::ValueTypeMismatch {
            metric_id: self.metric.0,
            declared: self.value_type,
            got: value.type_of(),
        }
    }

    /// How writing a sample ended.
    pub open spec fn wrote(
        &self,
        value: OwnedValue,
        at: Micros,
        before: Desk,
        after: Desk,
        r: Result<(), Error>,
    ) -> bool {
        if value.type_of() == self.value_type {
            Desk::wrote(before, after, self.sampled(value, at), self.critical, r)
        } else {
            r == Err::<(), Error>(self.mismatch(value)) && after == before
        }
    }

    /// Writes a sample with an assembled value and says how it ended.
    pub fn try_sample_raw(&self, value: OwnedValue, at: Micros, desk: &mut Desk) -> (r: Result<
        (),
        Error,
    >)
        ensures
            self.wrote(value, at, *old(desk), *final(desk), r),
    {
        match self.route_raw(value, at) {
            Ok(routed) => desk.put(routed.item, routed.critical),
            Err(e) => Err(e),
        }
    }

    /// Writes a sample with an assembled value; what the caller is not told is
    /// accounted for. The answer says whether a contract violation is to be
    /// announced.
    pub fn sample_raw(
        &self,
        value: OwnedValue,
        ns: &mut Namespace,
        at: Micros,
        desk: &mut Desk,
    ) -> (announce: bool)
        ensures
            final(ns).wf() == old(ns).wf(),
            if value.type_of() == self.value_type {
                &&& !announce
                &&& *final(ns) == *old(ns)
                &&& exists|r: Result<(), Error>| #[trigger]
                    self.wrote(value, at, *old(desk), *final(desk), r)
            } else {
                Namespace::rejected(
                    *old(ns),
                    *final(ns),
                    *old(desk),
                    *final(desk),
                    self.mismatch(value),
                    announce,
                )
            },
    {
        let ghost given = value;
        let r = self.try_sample_raw(value, at, desk);
        assert(self.wrote(given, at, *old(desk), *desk, r));
        match r {
            Ok(()) => false,
            Err(e) => ns.note_failure(&e, &mut desk.counters),
        }
    }

    /// Writes a sample and says how it ended. Only what the metric declares is
    /// accepted.
    pub fn try_sample<V: MetricValue<M>>(&self, value: V, at: Micros, desk: &mut Desk) -> (r: Result<
        (),
        Error,
    >)
        ensures
            exists|v: OwnedValue| v@ == value.carried() && self.wrote(
                #[trigger] coerced(self.value_type, v),
                at,
                *old(desk),
                *final(desk),
                r,
            ),
    {
        let owned: OwnedValue = value.into_owned();
        let ghost v = owned;
        let fitted: OwnedValue = self.coerce(owned);
        assert(fitted == coerced(self.value_type, v));
        self.try_sample_raw(fitted, at, desk)
    }

    /// Writes a sample; what the caller is not told is accounted for.
    pub fn sample<V: MetricValue<M>>(
        &self,
        value: V,
        ns: &mut Namespace,
        at: Micros,
        desk: &mut Desk,
    ) -> (announce: bool)
        ensures
            final(ns).wf() == old(ns).wf(),
            exists|v: OwnedValue|
                {
                    let fitted = #[trigger] coerced(self.value_type, v);
                    &&& v@ == value.carried()
                    &&& if fitted.type_of() == self.value_type {
                        &&& !announce
                        &&& *final(ns) == *old(ns)
                        &&& exists|r: Result<(), Error>| #[trigger]
                            self.wrote(fitted, at, *old(desk), *final(desk), r)
                    } else {
                        Namespace::rejected(
                            *old(ns),
                            *final(ns),
                            *old(desk),
                            *final(desk),
                            self.mismatch(fitted),
                            announce,
                        )
                    }
                },
    {
        let owned: OwnedValue = value.into_owned();
        let ghost v = owned;
        let fitted: OwnedValue = self.coerce(owned);
        assert(fitted == coerced(self.value_type, v));
        self.sample_raw(fitted, ns, at, desk)
    }
}

/// A call that breaks the contract writes nothing and loses nothing: the queues and the losses stay
/// as they are, one more call counts as rejected, and it is announced if and only if none of its kind
/// was before.
pub proof fn law_a_rejected_call_writes_nothing(
    before: Namespace,
    after: Namespace,
    d0: Desk,
    d1: Desk,
    e: Error,
    announce: bool,
)
    requires
        Namespace::rejected(before, after, d0, d1, e, announce),
    ensures
        d1.writer == d0.writer,
        d1.drops == d0.drops,
        d1.counters.dropped == d0.counters.dropped,
        d1.counters.rejected == stats::plus(d0.counters.rejected, 1),
        announce <==> before.announced & kind_bit(e) == 0,
        after.announced & kind_bit(e) != 0,
        after.limits == before.limits && after.schema == before.schema,
{
    crate::namespace::law_a_defect_is_announced_once(before.announced, e, e);
}

/// A span ends where it began: its end goes to the channel of its start, under the number of the
/// span, and waits for room only if its start did.
pub proof fn law_a_span_ends_where_it_began(
    before: Namespace,
    after: Namespace,
    kind: SpanKindId,
    parent: Option<SpanId>,
    at: Micros,
    d0: Desk,
    d1: Desk,
    guard: SpanGuard,
    announce: bool,
    end: Micros,
)
    requires
        Namespace::began(before, after, kind, parent, at, d0, d1, guard, announce),
    ensures
        exists|start: Routed|
            {
                &&& start.item.record == (StagedRecord::SpanStart {
                    span: guard.span,
                    kind,
                    parent,
                })
                &&& start.item.at == at
                &&& (#[trigger] start.item).ns == guard.ending(end).ns
                &&& start.item.channel == guard.ending(end).channel
                &&& start.critical == guard.critical
                &&& guard.ending(end).record == (StagedRecord::SpanEnd { span: guard.span })
                &&& guard.ending(end).at == end
            },
        before.schema.has_span(kind) ==> !announce && after == before,
{
    let (routed, mid, class, w) = choose|
        routed: Routed,
        mid: Desk,
        class: StorageClass,
        w: Result<(), Error>,
    |
        {
            &&& #[trigger] before.is_span_class(kind, class)
            &&& #[trigger] before.goes_to(routed, class, at)
            &&& #[trigger] Desk::wrote(mid, d1, routed.item, routed.critical, w)
            &&& routed.item.record == (StagedRecord::SpanStart { span: guard.span, kind, parent })
            &&& guard.channel == routed.item.channel
            &&& guard.critical == routed.critical
            &&& if before.schema.has_span(kind) {
                mid == d0 && after == before && !announce
            } else {
                Namespace::rejected(
                    before,
                    after,
                    d0,
                    mid,
                    Error::UnknownSpanKind { schema: before.schema.name, kind: kind.0 },
                    announce,
                )
            }
        };
    let start = routed.item;
    assert(routed.item.ns == guard.ns);
}

/// A message of a declared event is handed in, and the caller is told how that ended; one of an
/// undeclared event is refused, and nothing is handed in.
pub proof fn law_a_message_is_handed_in_if_its_event_is_declared(
    ns: &Namespace,
    event: EventId,
    payload: Payload,
    span: Option<SpanId>,
    at: Micros,
    before: Desk,
    after: Desk,
    r: Result<(), Error>,
)
    requires
        ns.logged(event, payload, span, at, before, after, r),
    ensures
        !ns.schema.has_event(event) ==> after == before && r == Err::<(), Error>(
            Error::UnknownEvent { schema: ns.schema.name, event: event.0 },
        ),
        ns.schema.has_event(event) ==> exists|item: Staged, critical: bool|
            {
                &&& #[trigger] Desk::wrote(before, after, item, critical, r)
                &&& item.record == (StagedRecord::Message { event, span, payload })
                &&& item.at == at
                &&& item.ns == ns.id
            },
{
    if ns.schema.has_event(event) {
        let routed = choose|routed: Routed| #[trigger]
            ns.routes_message(routed, event, payload, span, at) && Desk::wrote(
                before,
                after,
                routed.item,
                routed.critical,
                r,
            );
        assert(Desk::wrote(before, after, routed.item, routed.critical, r));
    }
}

/// A text is handed in whatever the schema declares, with all it says.
pub proof fn law_a_text_is_handed_in_as_it_is(
    ns: &Namespace,
    level: Level,
    target: Arc<str>,
    text: Box<str>,
    span: Option<SpanId>,
    at: Micros,
    before: Desk,
    after: Desk,
    r: Result<(), Error>,
)
    requires
        ns.logged_text(level, target, text, span, at, before, after, r),
    ensures
        exists|item: Staged, critical: bool|
            {
                &&& #[trigger] Desk::wrote(before, after, item, critical, r)
                &&& item.record == (StagedRecord::Text { level, span, target, text })
                &&& item.at == at
                &&& item.ns == ns.id
            },
{
    let routed = choose|routed: Routed|
        {
            &&& #[trigger] ns.goes_to(routed, ns.text_class(level), at)
            &&& routed.item.record == (StagedRecord::Text { level, span, target, text })
            &&& Desk::wrote(before, after, routed.item, routed.critical, r)
        };
    assert(Desk::wrote(before, after, routed.item, routed.critical, r));
}

} // verus!
