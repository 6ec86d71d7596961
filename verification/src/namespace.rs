//! The namespace: a service's working handle.
//!
//! A namespace is a directory with its own segments, bound to a schema. Four
//! instances of a service bring up four namespaces with one schema, and whose a
//! record is follows from where it lies.
//!
//! Where a record goes is decided here; putting it in a queue is the writer's
//! handle.

use crate::error::Error;
use crate::format::{EventId, Level, MetricId, Micros, ProtocolVersion, SpanId, SpanKindId, ValueType};
use crate::limits::LimitsRegistry;
use crate::metric::{Metric, MetricValue};
use crate::schema;
use crate::schema::{EventDesc, MetricDesc, MetricKind, Schema, SpanDesc, StorageClass};
use crate::staged;
use crate::staged::{ChannelIdx, NsId, OwnedValue, Payload, Staged, StagedRecord};
use crate::stats;
use crate::stats::Counters;
use crate::text;
use crate::wire;
use std::marker::PhantomData;
use std::sync::Arc;
use vstd::prelude::*;

verus! {

/// The name of a namespace's metadata file.
pub const NS_META: &'static str = "ns-meta";

// ---------------------------------------------------------------------------
// Metadata
// ---------------------------------------------------------------------------

/// A namespace's metadata.
#[derive(Debug, Clone, PartialEq, Eq)]
pub struct NsMeta {
    /// The name of the schema. The same identifiers mean different things in
    /// different schemas, so a namespace is not opened under a foreign one.
    pub schema_name: String,
    /// The version of the last **completed** migration.
    pub protocol_version: u16,
}

/// How a namespace's metadata is opened.
#[derive(Debug)]
pub struct NsOpening {
    pub meta: NsMeta,
    /// What has to be written before the namespace is used.
    pub write: Option<Vec<u8>>,
}

pub const NS_META_DOES_NOT_PARSE: &'static str = "the namespace metadata does not parse";

/// The bytes are the metadata.
pub open spec fn ns_meta_in(bytes: Seq<u8>, meta: NsMeta) -> bool {
    wire::ns_meta_of(bytes) == Some((meta.schema_name@, meta.protocol_version))
}

/// What is wrong with opening a namespace of stored metadata under a schema.
pub enum NsFault {
    Mismatch,
    FromFuture,
    MissingStep(int),
}

/// What is wrong with opening a namespace under a schema: another schema, newer
/// data, or a hole in the chain of steps.
pub open spec fn ns_fault(stored_name: Seq<char>, stored: u16, s: Schema) -> Option<NsFault> {
    if stored_name != s.name@ {
        Some(NsFault::Mismatch)
    } else if stored > s.version.0 {
        Some(NsFault::FromFuture)
    } else {
        let from = crate::search::first_at(
            schema::lacks_step(s.migrations@),
            stored as int,
            s.version.0 as int,
        );
        if from < s.version.0 {
            Some(NsFault::MissingStep(from))
        } else {
            None
        }
    }
}

impl NsMeta {
    /// The bytes of the metadata file.
    pub fn encode(&self) -> (r: Option<Vec<u8>>)
        ensures
            r is Some,
            r->0@ == wire::ns_meta_bytes(self.schema_name@, self.protocol_version),
            ns_meta_in(r->0@, *self),
    {
        wire::encode_ns_meta(self.schema_name.as_str(), self.protocol_version)
    }

    /// An error tells what is wrong.
    pub open spec fn tells(
        fault: NsFault,
        e: Error,
        ns_name: Seq<char>,
        stored_name: Seq<char>,
        stored: u16,
        s: Schema,
    ) -> bool {
        match fault {
            NsFault::Mismatch => e matches Error::SchemaMismatch { namespace, stored: n, opening }
                && namespace@ == ns_name && n@ == stored_name && opening@ == s.name@,
            NsFault::FromFuture => e matches Error::ProtocolFromFuture {
                namespace,
                stored: v,
                current,
            } && namespace@ == ns_name && v == stored && current == s.version.0,
            NsFault::MissingStep(at) => e matches Error::MissingMigration { schema: n, from, to }
                && n@ == s.name@ && from == at && to == at + 1,
        }
    }

    /// How opening the metadata ends: without a file it is made up from the schema
    /// and has to be written; what a file holds is checked against the schema.
    pub open spec fn opened(
        bytes: Option<&Vec<u8>>,
        path: Seq<char>,
        ns_name: Seq<char>,
        schema: Schema,
        r: Result<NsOpening, Error>,
    ) -> bool {
        match bytes {
            None => r matches Ok(o) && {
                &&& o.meta.schema_name@ == schema.name@
                &&& o.meta.protocol_version == schema.version.0
                &&& o.write matches Some(w) && ns_meta_in(w@, o.meta)
            },
            Some(b) => match wire::ns_meta_of(b@) {
                None => r matches Err(Error::Corrupt { path: p, reason }) && p@ == path
                    && reason@ == NS_META_DOES_NOT_PARSE@,
                Some((name, version)) => match ns_fault(name, version, schema) {
                    Some(fault) => r matches Err(e) && Self::tells(
                        fault,
                        e,
                        ns_name,
                        name,
                        version,
                        schema,
                    ),
                    None => r matches Ok(o) && {
                        &&& ns_meta_in(b@, o.meta)
                        &&& o.write is None
                    },
                },
            },
        }
    }

    /// Opens the metadata of a namespace: what the file holds, `None` where there
    /// is no file.
    ///
    /// The stored version is that of the last completed migration and is not
    /// rewritten here: coming up is not a run, and stamping it would declare
    /// segments migrated that are not.
    pub fn open(bytes: Option<&Vec<u8>>, path: &str, ns_name: &str, schema: &Schema) -> (r: Result<
        NsOpening,
        Error,
    >)
        ensures
            Self::opened(bytes, path@, ns_name@, *schema, r),
    {
        let stored: NsMeta = match bytes {
            None => {
                let meta = NsMeta {
                    schema_name: schema.name.to_owned(),
                    protocol_version: schema.version.0,
                };
                let write = meta.encode();
                return Ok(NsOpening { meta, write });
            },
            Some(b) => match wire::decode_ns_meta(b.as_slice()) {
                None => {
                    return Err(
                        Error::Corrupt {
                            path: path.to_owned(),
                            reason: NS_META_DOES_NOT_PARSE.to_owned(),
                        },
                    );
                },
                Some((schema_name, protocol_version)) => NsMeta { schema_name, protocol_version },
            },
        };
        let ghost name = stored.schema_name@;
        if !text::same_text(stored.schema_name.as_str(), schema.name) {
            return Err(
                Error::SchemaMismatch {
                    namespace: ns_name.to_owned(),
                    stored: stored.schema_name,
                    opening: schema.name.to_owned(),
                },
            );
        }
        if stored.protocol_version > schema.version.0 {
            return Err(
                Error::ProtocolFromFuture {
                    namespace: ns_name.to_owned(),
                    stored: stored.protocol_version,
                    current: schema.version.0,
                },
            );
        }
        let ghost q = schema::lacks_step(schema.migrations@);
        let start: u16 = stored.protocol_version;
        let mut from: u16 = start;
        while from < schema.version.0
            invariant
                start <= from <= schema.version.0,
                q == schema::lacks_step(schema.migrations@),
                name == schema.name@,
                bytes is Some,
                wire::ns_meta_of(bytes->0@) == Some((name, start)),
                crate::search::first_at(q, start as int, schema.version.0 as int)
                    == crate::search::first_at(q, from as int, schema.version.0 as int),
            decreases schema.version.0 - from,
        {
            if schema.migration(from).is_none() {
                assert(q(from as int));
                return Err(
                    Error::MissingMigration {
                        schema: schema.name.to_owned(),
                        from,
                        to: from + 1,
                    },
                );
            }
            assert(!q(from as int));
            from = from + 1;
        }
        Ok(NsOpening { meta: stored, write: None })
    }
}

// ---------------------------------------------------------------------------
// Where records go
// ---------------------------------------------------------------------------

/// A record with its destination, and whether its queue is the critical one.
#[derive(Debug)]
pub struct Routed {
    pub item: Staged,
    pub critical: bool,
}

/// A namespace handle.
#[derive(Debug)]
pub struct Namespace {
    pub id: NsId,
    pub name: String,
    pub schema: Schema,
    /// The classes that have a channel, in the order of the channels.
    pub classes: Vec<StorageClass>,
    pub meta: NsMeta,
    /// The value limits: they live in memory and are never written.
    pub limits: LimitsRegistry,
    /// Which contract violations have been announced in the stream, one bit for
    /// each kind.
    pub announced: u8,
    /// A migration run is going on: it is exclusive.
    pub migrating: bool,
}

/// The bit of a kind of contract violation.
pub open spec fn kind_bit(e: Error) -> u8 {
    match e {
        Error::UnknownEvent { .. } => 1,
        Error::UnknownMetric { .. } => 2,
        Error::UnknownSpanKind { .. } => 4,
        Error::ValueTypeMismatch { .. } => 8,
        Error::ClassNotDeclared { .. } => 16,
        Error::EncodeFailed { .. } => 32,
        _ => 128,
    }
}

/// A bit for each kind of contract violation: each is announced once. The rest
/// share one: a failing medium can flood the journal just as easily.
pub fn contract_bit(e: &Error) -> (bit: u8)
    ensures
        bit == kind_bit(*e),
{
    match e {
        Error::UnknownEvent { .. } => 1,
        Error::UnknownMetric { .. } => 2,
        Error::UnknownSpanKind { .. } => 4,
        Error::ValueTypeMismatch { .. } => 8,
        Error::ClassNotDeclared { .. } => 16,
        Error::EncodeFailed { .. } => 32,
        _ => 128,
    }
}

/// The channel of a class among those that have one.
pub open spec fn is_channel(classes: Seq<StorageClass>, class: StorageClass, i: int) -> bool {
    &&& 0 <= i < classes.len()
    &&& classes[i] == class
    &&& forall|k: int| 0 <= k < i ==> (#[trigger] classes[k]) != class
}

impl Namespace {
    /// The channels are those of the schema.
    pub open spec fn wf(&self) -> bool {
        self.classes@ == self.schema.used_classes()
    }

    pub fn new(id: NsId, name: String, schema: Schema, meta: NsMeta) -> (ns: Namespace)
        ensures
            ns.wf(),
            ns.id == id,
            ns.name == name,
            ns.schema == schema,
            ns.meta == meta,
            forall|i: int| #[trigger] ns.limits.over(i) is None,
            forall|i: int| !#[trigger] ns.limits.has_fn(i),
            ns.announced == 0,
            !ns.migrating,
    {
        let classes: Vec<StorageClass> = schema.classes();
        Namespace {
            id,
            name,
            schema,
            classes,
            meta,
            limits: LimitsRegistry::new(),
            announced: 0,
            migrating: false,
        }
    }

    /// The slot of the namespace in the writer.
    pub fn id(&self) -> (id: NsId)
        ensures
            id == self.id,
    {
        self.id
    }

    /// The version of this build's schema, which new segments are written with.
    pub fn schema_version(&self) -> (v: ProtocolVersion)
        ensures
            v == self.schema.version,
    {
        self.schema.version
    }

    /// An unfinished migration: from which version to which.
    pub fn pending_migration(&self) -> (p: Option<(u16, u16)>)
        ensures
            p == if self.meta.protocol_version < self.schema.version.0 {
                Some((self.meta.protocol_version, self.schema.version.0))
            } else {
                None
            },
    {
        let stored: u16 = self.meta.protocol_version;
        let current: u16 = self.schema.version.0;
        if stored < current {
            Some((stored, current))
        } else {
            None
        }
    }

    /// Begins a migration run. `Ok(None)` means there is nothing to migrate; a
    /// second run at the same time would rewrite the same files.
    pub fn begin_migration(&mut self) -> (r: Result<Option<u16>, Error>)
        ensures
            *final(self) == (Namespace { migrating: final(self).migrating, ..*old(self) }),
            old(self).meta.protocol_version >= old(self).schema.version.0 ==> r == Ok::<
                Option<u16>,
                Error,
            >(None) && final(self).migrating == old(self).migrating,
            old(self).meta.protocol_version < old(self).schema.version.0 ==> {
                &&& final(self).migrating
                &&& if old(self).migrating {
                    r matches Err(Error::MigrationBusy(n)) && n@ == old(self).name@
                } else {
                    r == Ok::<Option<u16>, Error>(Some(old(self).schema.version.0))
                }
            },
    {
        match self.pending_migration() {
            None => Ok(None),
            Some((_, to)) => {
                if self.migrating {
                    return Err(Error::MigrationBusy(self.name.clone()));
                }
                self.migrating = true;
                Ok(Some(to))
            },
        }
    }

    /// What the metadata file says once every segment is current, rewritten, or
    /// provably untouched.
    pub fn stamp_bytes(&self) -> (r: Option<Vec<u8>>)
        ensures
            r is Some,
            wire::ns_meta_of(r->0@) == Some((self.meta.schema_name@, self.schema.version.0)),
    {
        wire::encode_ns_meta(self.meta.schema_name.as_str(), self.schema.version.0)
    }

    /// Ends a migration run; a completed one moves the version of the metadata.
    pub fn end_migration(&mut self, completed: bool)
        ensures
            final(self).wf() == old(self).wf(),
            *final(self) == (Namespace {
                migrating: false,
                meta: NsMeta {
                    protocol_version: if completed {
                        old(self).schema.version.0
                    } else {
                        old(self).meta.protocol_version
                    },
                    ..old(self).meta
                },
                ..*old(self)
            }),
    {
        self.migrating = false;
        if completed {
            self.meta.protocol_version = self.schema.version.0;
        }
    }

    /// The channel of a storage class. Answering a miss with the first channel
    /// would carry a critical record to the ordinary one without a word.
    pub fn channel_of(&self, class: StorageClass) -> (r: Result<ChannelIdx, Error>)
        requires
            self.wf(),
        ensures
            match r {
                Ok(c) => is_channel(self.classes@, class, c.0 as int),
                Err(e) => !self.classes@.contains(class) && e == (Error::ClassNotDeclared {
                    schema: self.schema.name,
                    class,
                }),
            },
            r is Ok == self.schema.uses(class),
    {
        proof {
            schema::law_channels_are_the_used_classes(self.schema, class);
            lemma_few_classes(self.schema);
        }
        let mut i: usize = 0;
        while i < self.classes.len()
            invariant
                i <= self.classes@.len() <= 3,
                self.classes@ == self.schema.used_classes(),
                self.classes@.contains(class) == self.schema.uses(class),
                forall|k: int| 0 <= k < i ==> (#[trigger] self.classes@[k]) != class,
            decreases self.classes@.len() - i,
        {
            if self.classes[i] == class {
                assert(self.classes@[i as int] == class);
                return Ok(ChannelIdx(i as u16));
            }
            i = i + 1;
        }
        Err(Error::ClassNotDeclared { schema: self.schema.name, class })
    }

    /// A record goes to the channel of a class.
    pub open spec fn goes_to(&self, r: Routed, class: StorageClass, at: Micros) -> bool {
        &&& r.item.ns == self.id
        &&& r.item.at == at
        &&& is_channel(self.classes@, class, r.item.channel.0 as int)
        &&& r.critical == (class == StorageClass::Critical)
    }

    /// A message goes to the channel of the class its event is declared with.
    pub open spec fn routes_message(
        &self,
        routed: Routed,
        event: EventId,
        payload: Payload,
        span: Option<SpanId>,
        at: Micros,
    ) -> bool {
        exists|d: EventDesc|
            {
                &&& #[trigger] self.schema.events@.contains(d)
                &&& d.id == event
                &&& self.goes_to(routed, d.class, at)
                &&& routed.item.record == (StagedRecord::Message { event, span, payload })
            }
    }

    /// Where a message goes: to the channel of its event's class. An event that is
    /// not of this schema is a build defect.
    pub fn route_message(
        &self,
        event: EventId,
        payload: Payload,
        span: Option<SpanId>,
        at: Micros,
    ) -> (r: Result<Routed, Error>)
        requires
            self.wf(),
        ensures
            match r {
                Err(e) => !self.schema.has_event(event) && e == (Error::UnknownEvent {
                    schema: self.schema.name,
                    event: event.0,
                }),
                Ok(routed) => self.routes_message(routed, event, payload, span, at),
            },
    {
        let desc: &EventDesc = match self.schema.event(event) {
            Some(d) => d,
            None => {
                return Err(Error::UnknownEvent { schema: self.schema.name, event: event.0 });
            },
        };
        proof {
            let i = self.schema.events@.index_of(*desc);
            assert(self.schema.events@[i].class == desc.class);
        }
        match self.channel_of(desc.class) {
            Ok(channel) => {
                let routed = Routed {
                    item: Staged {
                        ns: self.id,
                        channel,
                        at,
                        record: StagedRecord::Message { event, span, payload },
                    },
                    critical: desc.class == StorageClass::Critical,
                };
                assert(self.goes_to(routed, desc.class, at));
                Ok(routed)
            },
            Err(e) => Err(e),
        }
    }

    /// The class free text goes to: at the error level the critical one where there
    /// is one, otherwise the ordinary one, which always is. Refusing would mean
    /// staying silent exactly where text is written in order not to be.
    pub open spec fn text_class(&self, level: Level) -> StorageClass {
        if level == Level::Error && self.schema.uses(StorageClass::Critical) {
            StorageClass::Critical
        } else {
            StorageClass::Default
        }
    }

    /// Where free text goes. The queue follows the channel that was obtained:
    /// waiting for room to reach a channel with deferred syncing would be a price
    /// without a guarantee.
    pub fn route_text(
        &self,
        level: Level,
        target: Arc<str>,
        text: Box<str>,
        span: Option<SpanId>,
        at: Micros,
    ) -> (r: Result<Routed, Error>)
        requires
            self.wf(),
        ensures
            r matches Ok(routed) && {
                &&& self.goes_to(routed, self.text_class(level), at)
                &&& routed.item.record == (StagedRecord::Text { level, span, target, text })
            },
    {
        let (channel, critical) = match level {
            Level::Error => match self.channel_of(StorageClass::Critical) {
                Ok(c) => (c, true),
                Err(_) => match self.channel_of(StorageClass::Default) {
                    Ok(c) => (c, false),
                    Err(e) => {
                        return Err(e);
                    },
                },
            },
            _ => match self.channel_of(StorageClass::Default) {
                Ok(c) => (c, false),
                Err(e) => {
                    return Err(e);
                },
            },
        };
        Ok(
            Routed {
                item: Staged {
                    ns: self.id,
                    channel,
                    at,
                    record: StagedRecord::Text { level, span, target, text },
                },
                critical,
            },
        )
    }

    /// Opens a telemetry series: the metric is looked up once, after which a
    /// sample costs no lookup at all.
    pub fn series<M>(&self, metric: Metric<M>) -> (r: Result<Series<M>, Error>)
        requires
            self.wf(),
        ensures
            match r {
                Err(e) => !self.schema.has_metric(metric.number()) && e
                    == (Error::UnknownMetric { metric_id: metric.number().0 }),
                Ok(s) => s.of(self) && s.metric == metric.number(),
            },
    {
        self.open_series(metric.id())
    }

    /// Opens a series by an identifier known only at runtime.
    pub fn series_untyped(&self, metric: MetricId) -> (r: Result<
        Series<crate::metric::Untyped>,
        Error,
    >)
        requires
            self.wf(),
        ensures
            match r {
                Err(e) => !self.schema.has_metric(metric) && e == (Error::UnknownMetric {
                    metric_id: metric.0,
                }),
                Ok(s) => s.of(self) && s.metric == metric,
            },
    {
        self.open_series(metric)
    }

    fn open_series<M>(&self, metric: MetricId) -> (r: Result<Series<M>, Error>)
        requires
            self.wf(),
        ensures
            match r {
                Err(e) => !self.schema.has_metric(metric) && e == (Error::UnknownMetric {
                    metric_id: metric.0,
                }),
                Ok(s) => s.of(self) && s.metric == metric,
            },
    {
        let desc: &'static MetricDesc = match self.schema.metric(metric) {
            Some(d) => d,
            None => {
                return Err(Error::UnknownMetric { metric_id: metric.0 });
            },
        };
        proof {
            let i = self.schema.metrics@.index_of(*desc);
            assert(self.schema.metrics@[i].class == desc.class);
        }
        match self.channel_of(desc.class) {
            Ok(channel) => Ok(
                Series {
                    ns: self.id,
                    metric,
                    channel,
                    critical: desc.class == StorageClass::Critical,
                    value_type: desc.value_type,
                    desc,
                    value: PhantomData,
                },
            ),
            Err(e) => Err(e),
        }
    }

    /// The class of a span kind; one that is not of this schema goes to the
    /// ordinary class.
    pub open spec fn is_span_class(&self, kind: SpanKindId, class: StorageClass) -> bool {
        if self.schema.has_span(kind) {
            exists|d: SpanDesc|
                #[trigger] self.schema.spans@.contains(d) && d.id == kind && d.class == class
        } else {
            class == StorageClass::Default
        }
    }

    /// Begins a span: where its start goes, and the defect to report if its kind is
    /// not of this schema. The span is opened all the same: nesting matters more
    /// than the record.
    pub fn begin_span(&self, kind: SpanKindId, parent: Option<SpanId>, span: SpanId, at: Micros) -> (r:
        (Routed, Option<Error>))
        requires
            self.wf(),
        ensures
            exists|class: StorageClass| #[trigger]
                self.is_span_class(kind, class) && self.goes_to(r.0, class, at),
            r.0.item.record == (StagedRecord::SpanStart { span, kind, parent }),
            r.1 == if self.schema.has_span(kind) {
                None
            } else {
                Some(Error::UnknownSpanKind { schema: self.schema.name, kind: kind.0 })
            },
    {
        let found: Option<&SpanDesc> = self.schema.span(kind);
        let class: StorageClass = match found {
            Some(d) => {
                proof {
                    let i = self.schema.spans@.index_of(*d);
                    assert(self.schema.spans@[i].class == d.class);
                }
                d.class
            },
            None => StorageClass::Default,
        };
        assert(self.is_span_class(kind, class));
        let channel: ChannelIdx = match self.channel_of(class) {
            Ok(c) => c,
            Err(_) => ChannelIdx(0),
        };
        let routed = Routed {
            item: Staged {
                ns: self.id,
                channel,
                at,
                record: StagedRecord::SpanStart { span, kind, parent },
            },
            critical: class == StorageClass::Critical,
        };
        let defect: Option<Error> = if found.is_some() {
            None
        } else {
            Some(Error::UnknownSpanKind { schema: self.schema.name, kind: kind.0 })
        };
        assert(self.goes_to(routed, class, at));
        (routed, defect)
    }

    /// Takes into account a failure the caller is not told about. A loss is counted
    /// by the writer and announced by a notice; anything else is a defect: it is
    /// counted, and the answer says whether it has to be announced, which happens
    /// once for each kind.
    pub fn note_failure(&mut self, e: &Error, counters: &mut Counters) -> (announce: bool)
        ensures
            e.is_loss() ==> !announce && *final(self) == *old(self) && *final(counters) == *old(
                counters,
            ),
            !e.is_loss() ==> {
                &&& announce == (old(self).announced & kind_bit(*e) == 0)
                &&& *final(self) == (Namespace {
                    announced: old(self).announced | kind_bit(*e),
                    ..*old(self)
                })
                &&& *final(counters) == (Counters {
                    rejected: stats::plus(old(counters).rejected, 1),
                    ..*old(counters)
                })
            },
    {
        if e.loses_record() {
            return false;
        }
        Counters::bump(&mut counters.rejected);
        let bit: u8 = contract_bit(e);
        let first: bool = self.announced & bit == 0;
        self.announced = self.announced | bit;
        first
    }
}

proof fn lemma_few_classes(s: Schema)
    ensures
        s.used_classes().len() <= 3,
{
    let keep = |c: StorageClass| s.uses(c);
    schema::all_classes().lemma_filter_len(keep);
}

// ---------------------------------------------------------------------------
// Series
// ---------------------------------------------------------------------------

/// An open telemetry series.
#[derive(Debug)]
pub struct Series<M> {
    pub ns: NsId,
    pub metric: MetricId,
    pub channel: ChannelIdx,
    pub critical: bool,
    pub value_type: ValueType,
    pub desc: &'static MetricDesc,
    pub value: PhantomData<M>,
}

/// A value in the representation a metric declares: a state code arrives as an
/// integer, and the metric may be declared as a boolean or as a signed integer.
pub open spec fn coerced(declared: ValueType, value: OwnedValue) -> OwnedValue {
    match (declared, value) {
        (ValueType::Bool, OwnedValue::U64(code)) => OwnedValue::Bool(code != 0),
        (ValueType::I64, OwnedValue::U64(code)) => OwnedValue::I64(
            if code <= i64::MAX {
                code as i64
            } else {
                (code - 0x1_0000_0000_0000_0000) as i64
            },
        ),
        _ => value,
    }
}

impl<M> Series<M> {
    /// The series is of a metric of a namespace's schema.
    pub open spec fn of(&self, ns: &Namespace) -> bool {
        &&& ns.schema.metrics@.contains(*self.desc)
        &&& self.desc.id == self.metric
        &&& self.ns == ns.id
        &&& self.value_type == self.desc.value_type
        &&& is_channel(ns.classes@, self.desc.class, self.channel.0 as int)
        &&& self.critical == (self.desc.class == StorageClass::Critical)
    }

    pub fn metric(&self) -> (m: MetricId)
        ensures
            m == self.metric,
    {
        self.metric
    }

    pub fn value_type(&self) -> (t: ValueType)
        ensures
            t == self.value_type,
    {
        self.value_type
    }

    /// How the quantity behaves between samples.
    pub fn kind(&self) -> (k: MetricKind)
        ensures
            k == self.desc.kind,
    {
        self.desc.kind
    }

    /// The metric's name from the schema.
    pub fn name(&self) -> (n: &'static str)
        ensures
            n == self.desc.name,
    {
        self.desc.name
    }

    /// Brings a value to the declared representation.
    pub fn coerce(&self, value: OwnedValue) -> (v: OwnedValue)
        ensures
            v == coerced(self.value_type, value),
    {
        match (self.value_type, &value) {
            (ValueType::Bool, OwnedValue::U64(code)) => OwnedValue::Bool(*code != 0),
            (ValueType::I64, OwnedValue::U64(code)) => {
                let code: u64 = *code;
                if code <= i64::MAX as u64 {
                    OwnedValue::I64(code as i64)
                } else {
                    OwnedValue::I64((code as i128 - 0x1_0000_0000_0000_0000i128) as i64)
                }
            },
            _ => value,
        }
    }

    /// Where a sample with an assembled value goes. A value of another type than
    /// the metric declares is a build defect.
    pub fn route_raw(&self, value: OwnedValue, at: Micros) -> (r: Result<Routed, Error>)
        ensures
            match r {
                Err(e) => value.type_of() != self.value_type && e == (Error::ValueTypeMismatch {
                    metric_id: self.metric.0,
                    declared: self.value_type,
                    got: value.type_of(),
                }),
                Ok(routed) => value.type_of() == self.value_type && routed == (Routed {
                    item: Staged {
                        ns: self.ns,
                        channel: self.channel,
                        at,
                        record: StagedRecord::Sample { metric: self.metric, value },
                    },
                    critical: self.critical,
                }),
            },
    {
        let got: ValueType = value.value_type();
        if got != self.value_type {
            return Err(
                Error::ValueTypeMismatch {
                    metric_id: self.metric.0,
                    declared: self.value_type,
                    got,
                },
            );
        }
        Ok(
            Routed {
                item: Staged {
                    ns: self.ns,
                    channel: self.channel,
                    at,
                    record: StagedRecord::Sample { metric: self.metric, value },
                },
                critical: self.critical,
            },
        )
    }

    /// Where a sample goes: only what the metric declares is accepted, and the
    /// compiler sees to it.
    pub fn route<V: MetricValue<M>>(&self, value: V, at: Micros) -> (r: Result<Routed, Error>)
        ensures
            exists|v: OwnedValue|
                {
                    &&& v@ == value.carried()
                    &&& match r {
                        Ok(routed) => coerced(self.value_type, v).type_of() == self.value_type
                            && routed.item.record == (StagedRecord::Sample {
                            metric: self.metric,
                            value: #[trigger] coerced(self.value_type, v),
                        }) && routed.item.channel == self.channel && routed.item.ns == self.ns
                            && routed.item.at == at && routed.critical == self.critical,
                        Err(e) => coerced(self.value_type, v).type_of() != self.value_type && e
                            == (Error::ValueTypeMismatch {
                            metric_id: self.metric.0,
                            declared: self.value_type,
                            got: coerced(self.value_type, v).type_of(),
                        }),
                    }
                },
    {
        let owned: OwnedValue = value.into_owned();
        let ghost v = owned;
        let fitted: OwnedValue = self.coerce(owned);
        assert(fitted == coerced(self.value_type, v));
        self.route_raw(fitted, at)
    }
}

/// Each kind of contract violation is announced once: after the first report the
/// bit of the kind is set, and no report of another kind clears it.
pub proof fn law_a_defect_is_announced_once(announced: u8, first: Error, other: Error)
    ensures
        (announced | kind_bit(first)) & kind_bit(first) != 0,
        ((announced | kind_bit(first)) | kind_bit(other)) & kind_bit(first) != 0,
{
    let a = kind_bit(first);
    let b = kind_bit(other);
    assert((announced | a) & a != 0 && ((announced | a) | b) & a != 0) by (bit_vector)
        requires
            a == 1 || a == 2 || a == 4 || a == 8 || a == 16 || a == 32 || a == 128,
    ;
}

/// A state code reaches the medium as the code it is: in whatever representation the metric
/// declares, the stored value carries the code that was handed in, for every code the type has room
/// for. A boolean is true for one and false for zero.
pub proof fn law_a_state_code_is_stored_as_it_is(declared: ValueType, code: u64)
    ensures
        ({
            let stored = coerced(declared, OwnedValue::U64(code));
            &&& declared is U64 ==> stored == OwnedValue::U64(code)
            &&& declared is Bool && code <= 1 ==> stored == OwnedValue::Bool(code == 1)
            &&& declared is I64 && code <= i64::MAX ==> (stored matches OwnedValue::I64(n) && n
                == code)
            &&& declared is Bool ==> stored.type_of() is Bool
            &&& declared is I64 ==> stored.type_of() is I64
        }),
        forall|v: crate::format::Value<'_>| #[trigger]
            v@ == coerced(declared, OwnedValue::U64(code))@ && ({
                ||| declared is U64
                ||| declared is Bool && code <= 1
                ||| declared is I64 && code <= i64::MAX
            }) ==> crate::schema::code_of(v) == Some(code),
{
}

/// Two codes the type has room for are never stored as one value.
pub proof fn law_state_codes_stay_apart(declared: ValueType, a: u64, b: u64)
    requires
        declared is U64 || declared is I64 || declared is Bool && a <= 1 && b <= 1,
    ensures
        coerced(declared, OwnedValue::U64(a)) == coerced(declared, OwnedValue::U64(b)) ==> a == b,
{
}

/// Only an unsigned integer is ever brought to another representation: any other value is stored
/// as it was handed in.
pub proof fn law_other_values_are_stored_as_they_are(declared: ValueType, value: OwnedValue)
    requires
        !(value is U64) || !(declared is Bool || declared is I64),
    ensures
        coerced(declared, value) == value,
{
}

/// A report of one kind of contract violation silences no other kind: two different kinds never
/// share a bit.
pub proof fn law_one_kind_does_not_silence_another(announced: u8, a: Error, b: Error)
    requires
        !(a is UnknownEvent && b is UnknownEvent),
        !(a is UnknownMetric && b is UnknownMetric),
        !(a is UnknownSpanKind && b is UnknownSpanKind),
        !(a is ValueTypeMismatch && b is ValueTypeMismatch),
        !(a is ClassNotDeclared && b is ClassNotDeclared),
        !(a is EncodeFailed && b is EncodeFailed),
        a is UnknownEvent || a is UnknownMetric || a is UnknownSpanKind || a is ValueTypeMismatch
            || a is ClassNotDeclared || a is EncodeFailed,
    ensures
        (announced | kind_bit(a)) & kind_bit(b) == announced & kind_bit(b),
        kind_bit(a) != kind_bit(b),
{
    let x = kind_bit(a);
    let y = kind_bit(b);
    assert((announced | x) & y == announced & y) by (bit_vector)
        requires
            x == 1 || x == 2 || x == 4 || x == 8 || x == 16 || x == 32 || x == 128,
            y == 1 || y == 2 || y == 4 || y == 8 || y == 16 || y == 32 || y == 128,
            x != y,
    ;
}

/// A message goes to the channel of the class its event is declared with, and waits for room only
/// if that class is the critical one.
pub proof fn law_a_message_goes_where_its_event_is_declared(
    ns: &Namespace,
    routed: Routed,
    i: int,
    payload: Payload,
    span: Option<SpanId>,
    at: Micros,
)
    requires
        ns.wf(),
        ns.schema.valid(),
        0 <= i < ns.schema.events@.len(),
        ns.routes_message(routed, ns.schema.events@[i].id, payload, span, at),
    ensures
        routed.item.ns == ns.id,
        routed.item.at == at,
        (routed.item.channel.0 as int) < ns.classes@.len(),
        ns.classes@[routed.item.channel.0 as int] == ns.schema.events@[i].class,
        routed.critical <==> ns.schema.events@[i].class is Critical,
        routed.item.record == (StagedRecord::Message {
            event: ns.schema.events@[i].id,
            span,
            payload,
        }),
{
    let event = ns.schema.events@[i].id;
    let d = choose|d: EventDesc|
        {
            &&& #[trigger] ns.schema.events@.contains(d)
            &&& d.id == event
            &&& ns.goes_to(routed, d.class, at)
            &&& routed.item.record == (StagedRecord::Message { event, span, payload })
        };
    let k = ns.schema.events@.index_of(d);
    if k < i {
        schema::law_validated_identifiers_are_unique(ns.schema, k, i);
    } else if i < k {
        schema::law_validated_identifiers_are_unique(ns.schema, i, k);
    }
}

/// Free text at the error level goes to the critical channel where some type of the schema is
/// critical, and waits for room there; all other text goes to the ordinary channel and does not.
pub proof fn law_text_of_errors_goes_to_the_critical_channel(
    ns: &Namespace,
    routed: Routed,
    level: Level,
    at: Micros,
)
    requires
        ns.wf(),
        ns.goes_to(routed, ns.text_class(level), at),
    ensures
        (routed.item.channel.0 as int) < ns.classes@.len(),
        routed.critical <==> level is Error && ns.classes@.contains(StorageClass::Critical),
        ns.classes@[routed.item.channel.0 as int] is Critical <==> routed.critical,
        ns.classes@[routed.item.channel.0 as int] is Default <==> !routed.critical,
{
    schema::law_channels_are_the_used_classes(ns.schema, StorageClass::Critical);
}

/// The start of a span goes to the channel of the class its kind is declared with; a kind that is
/// not declared goes to the ordinary channel.
pub proof fn law_a_span_goes_where_its_kind_is_declared(
    ns: &Namespace,
    routed: Routed,
    kind: SpanKindId,
    class: StorageClass,
    at: Micros,
    i: int,
)
    requires
        ns.wf(),
        ns.schema.valid(),
        ns.is_span_class(kind, class),
        ns.goes_to(routed, class, at),
    ensures
        (routed.item.channel.0 as int) < ns.classes@.len(),
        0 <= i < ns.schema.spans@.len() && ns.schema.spans@[i].id == kind ==> {
            &&& ns.classes@[routed.item.channel.0 as int] == ns.schema.spans@[i].class
            &&& routed.critical <==> ns.schema.spans@[i].class is Critical
        },
        (forall|k: int| 0 <= k < ns.schema.spans@.len() ==> (#[trigger] ns.schema.spans@[k]).id != kind)
            ==> ns.classes@[routed.item.channel.0 as int] is Default && !routed.critical,
{
    if 0 <= i < ns.schema.spans@.len() && ns.schema.spans@[i].id == kind {
        assert(ns.schema.has_span(kind));
        let d = choose|d: SpanDesc|
            #[trigger] ns.schema.spans@.contains(d) && d.id == kind && d.class == class;
        let k = ns.schema.spans@.index_of(d);
        if k < i {
            schema::law_validated_identifiers_are_unique(ns.schema, k, i);
        } else if i < k {
            schema::law_validated_identifiers_are_unique(ns.schema, i, k);
        }
    }
}

/// A namespace comes up under a schema if and only if its data were written under the same schema,
/// in its version or an earlier one, and there is a step from each version in between.
pub proof fn law_a_namespace_opens_only_under_its_own_schema(
    stored_name: Seq<char>,
    stored: u16,
    s: Schema,
)
    ensures
        ns_fault(stored_name, stored, s) is None <==> {
            &&& stored_name == s.name@
            &&& stored <= s.version.0
            &&& forall|from: int|
                stored <= from < s.version.0 ==> #[trigger] schema::has_step(s.migrations@, from)
        },
        ns_fault(stored_name, stored, s) matches Some(NsFault::MissingStep(from)) ==> {
            &&& stored <= from < s.version.0
            &&& !schema::has_step(s.migrations@, from)
            &&& forall|k: int| stored <= k < from ==> #[trigger] schema::has_step(s.migrations@, k)
        },
        ns_fault(stored_name, stored, s) is Some && stored_name == s.name@ && stored > s.version.0
            ==> ns_fault(stored_name, stored, s)->0 is FromFuture,
        stored_name != s.name@ ==> (ns_fault(stored_name, stored, s) matches Some(f)
            && f is Mismatch),
{
    if stored_name == s.name@ && stored <= s.version.0 {
        let q = schema::lacks_step(s.migrations@);
        crate::search::lemma_first_at(q, stored as int, s.version.0 as int);
        let f = crate::search::first_at(q, stored as int, s.version.0 as int);
        assert forall|k: int| stored <= k < f implies #[trigger] schema::has_step(s.migrations@, k) by {
            assert(!q(k));
        }
        if f < s.version.0 {
            assert(q(f));
        }
    }
}

/// A class has one channel: the first that bears it.
pub proof fn law_a_class_has_one_channel(
    classes: Seq<StorageClass>,
    class: StorageClass,
    i: int,
    j: int,
)
    requires
        is_channel(classes, class, i),
    ensures
        0 <= i < classes.len() && classes[i] == class,
        is_channel(classes, class, j) ==> j == i,
        0 <= j < i ==> classes[j] != class,
{
}

} // verus!
