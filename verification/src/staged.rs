//! A record on its way from the calling thread to the writer.
//!
//! A record is staged: its payload is copied into a small vector whose inline
//! capacity is enough for a typical event, so the hot path does not touch the
//! heap.

use crate::format::{
    EventId, Level, MetricId, Micros, SpanId, SpanKindId, Value, ValueType, ValueView,
};
use crate::stats::Counters;
use smallvec::SmallVec;
use std::sync::Arc;
use vstd::prelude::*;

verus! {

/// The payload's inline capacity. An event with a couple of numbers fits
/// entirely; larger ones go to the heap.
pub const INLINE_PAYLOAD: usize = 32;

/// The bytes of a payload, in a [`SmallVec`] of [`INLINE_PAYLOAD`] bytes.
#[verifier::external_body]
#[derive(Debug, PartialEq)]
pub struct Payload {
    bytes: SmallVec<[u8; 32]>,
}

/// The bytes a payload holds.
pub uninterp spec fn payload_bytes(p: Payload) -> Seq<u8>;

impl Payload {
    /// `SmallVec::from_slice`: a vector with a copy of the slice's bytes.
    #[verifier::external_body]
    fn small_from_slice(bytes: &[u8]) -> (p: Payload)
        ensures
            payload_bytes(p) == bytes@,
    {
        Payload { bytes: SmallVec::from_slice(bytes) }
    }

    /// `SmallVec::from_vec`: a vector that takes over the buffer of another, with
    /// its bytes.
    #[verifier::external_body]
    fn small_from_vec(bytes: Vec<u8>) -> (p: Payload)
        ensures
            payload_bytes(p) == bytes@,
    {
        Payload { bytes: SmallVec::from_vec(bytes) }
    }

    /// `SmallVec::as_slice`: the bytes the vector holds, in order.
    #[verifier::external_body]
    fn small_as_slice(&self) -> (bytes: &[u8])
        ensures
            bytes@ == payload_bytes(*self),
    {
        self.bytes.as_slice()
    }

    /// A payload with a copy of these bytes.
    pub fn from_slice(bytes: &[u8]) -> (p: Payload)
        ensures
            payload_bytes(p) == bytes@,
    {
        Payload::small_from_slice(bytes)
    }

    /// A payload of these bytes, without a copy: a large one changes hands.
    pub fn from_vec(bytes: Vec<u8>) -> (p: Payload)
        ensures
            payload_bytes(p) == bytes@,
    {
        Payload::small_from_vec(bytes)
    }

    /// The bytes.
    pub fn as_slice(&self) -> (bytes: &[u8])
        ensures
            bytes@ == payload_bytes(*self),
    {
        self.small_as_slice()
    }

    /// `SmallVec::spilled`: whether the bytes lie on the heap. Bytes that do not are no
    /// more than fit inline; whether bytes that would fit lie on the heap all the same is a
    /// matter of capacity, and nothing is claimed of it.
    #[verifier::external_body]
    fn spilled(&self) -> (yes: bool)
        ensures
            !yes ==> payload_bytes(*self).len() <= INLINE_PAYLOAD,
    {
        self.bytes.spilled()
    }

    /// Whether the bytes lie within the payload itself, without a trip to the heap: then
    /// they are no more than fit there.
    pub fn is_inline(&self) -> (yes: bool)
        ensures
            yes ==> payload_bytes(*self).len() <= INLINE_PAYLOAD,
    {
        !self.spilled()
    }
}

/// A namespace identifier within the process.
#[derive(Debug, Clone, Copy, PartialEq, Eq, Structural, PartialOrd, Ord, Hash)]
pub struct NsId(pub u32);

/// A channel index within a namespace.
#[derive(Debug, Clone, Copy, PartialEq, Eq, Structural, PartialOrd, Ord, Hash)]
pub struct ChannelIdx(pub u16);

/// A sample value in owning form. Floats are carried by their bits.
#[derive(Debug, PartialEq)]
pub enum OwnedValue {
    F32(u32),
    F64(u64),
    I64(i64),
    U64(u64),
    Bool(bool),
    Blob(Payload),
}

impl View for OwnedValue {
    type V = ValueView;

    open spec fn view(&self) -> ValueView {
        match *self {
            OwnedValue::F32(v) => ValueView::F32(v),
            OwnedValue::F64(v) => ValueView::F64(v),
            OwnedValue::I64(v) => ValueView::I64(v),
            OwnedValue::U64(v) => ValueView::U64(v),
            OwnedValue::Bool(v) => ValueView::Bool(v),
            OwnedValue::Blob(b) => ValueView::Blob(payload_bytes(b)),
        }
    }
}

impl OwnedValue {
    pub open spec fn type_of(self) -> ValueType {
        match self {
            OwnedValue::F32(_) => ValueType::F32,
            OwnedValue::F64(_) => ValueType::F64,
            OwnedValue::I64(_) => ValueType::I64,
            OwnedValue::U64(_) => ValueType::U64,
            OwnedValue::Bool(_) => ValueType::Bool,
            OwnedValue::Blob(_) => ValueType::Blob,
        }
    }

    pub fn value_type(&self) -> (t: ValueType)
        ensures
            t == self.type_of(),
    {
        match self {
            OwnedValue::F32(_) => ValueType::F32,
            OwnedValue::F64(_) => ValueType::F64,
            OwnedValue::I64(_) => ValueType::I64,
            OwnedValue::U64(_) => ValueType::U64,
            OwnedValue::Bool(_) => ValueType::Bool,
            OwnedValue::Blob(_) => ValueType::Blob,
        }
    }

    pub fn as_value(&self) -> (v: Value<'_>)
        ensures
            v@ == self@,
            v.type_of() == self.type_of(),
    {
        match self {
            OwnedValue::F32(v) => Value::F32(*v),
            OwnedValue::F64(v) => Value::F64(*v),
            OwnedValue::I64(v) => Value::I64(*v),
            OwnedValue::U64(v) => Value::U64(*v),
            OwnedValue::Bool(v) => Value::Bool(*v),
            OwnedValue::Blob(b) => Value::Blob(b.as_slice()),
        }
    }
}

/// A record as the format takes it.
#[derive(Debug, Clone, Copy)]
pub enum Record<'a> {
    Message { event: EventId, span: Option<SpanId>, payload: &'a [u8] },
    SpanStart { span: SpanId, kind: SpanKindId, parent: Option<SpanId> },
    SpanEnd { span: SpanId },
    Sample { metric: MetricId, value: Value<'a> },
    Text { level: Level, span: Option<SpanId>, target: &'a str, text: &'a str },
    /// A record of a kind this build does not know; carried over as it is.
    Ext { tag: u8, body: &'a [u8] },
}

/// A record by its contents.
#[verifier::ext_equal]
pub enum RecordView {
    Message { event: EventId, span: Option<SpanId>, payload: Seq<u8> },
    SpanStart { span: SpanId, kind: SpanKindId, parent: Option<SpanId> },
    SpanEnd { span: SpanId },
    Sample { metric: MetricId, value: ValueView },
    Text { level: Level, span: Option<SpanId>, target: Seq<char>, text: Seq<char> },
    Ext { tag: u8, body: Seq<u8> },
}

impl<'a> View for Record<'a> {
    type V = RecordView;

    open spec fn view(&self) -> RecordView {
        match *self {
            Record::Message { event, span, payload } => RecordView::Message {
                event,
                span,
                payload: payload@,
            },
            Record::SpanStart { span, kind, parent } => RecordView::SpanStart {
                span,
                kind,
                parent,
            },
            Record::SpanEnd { span } => RecordView::SpanEnd { span },
            Record::Sample { metric, value } => RecordView::Sample { metric, value: value@ },
            Record::Text { level, span, target, text } => RecordView::Text {
                level,
                span,
                target: target@,
                text: text@,
            },
            Record::Ext { tag, body } => RecordView::Ext { tag, body: body@ },
        }
    }
}

/// A record body in owning form.
#[derive(Debug, PartialEq)]
pub enum StagedRecord {
    Message { event: EventId, span: Option<SpanId>, payload: Payload },
    SpanStart { span: SpanId, kind: SpanKindId, parent: Option<SpanId> },
    SpanEnd { span: SpanId },
    Sample { metric: MetricId, value: OwnedValue },
    Text {
        level: Level,
        span: Option<SpanId>,
        /// The message's source, shared by millions of records.
        target: Arc<str>,
        text: Box<str>,
    },
}

/// A record as it was read from a segment, in owning form.
#[derive(Debug)]
pub enum StoredRecord {
    Message { event: EventId, span: Option<SpanId>, payload: Vec<u8> },
    SpanStart { span: SpanId, kind: SpanKindId, parent: Option<SpanId> },
    SpanEnd { span: SpanId },
    Sample { metric: MetricId, value: OwnedValue },
    Text { level: Level, span: Option<SpanId>, target: String, text: String },
    Ext { tag: u8, body: Vec<u8> },
}

impl View for StoredRecord {
    type V = RecordView;

    open spec fn view(&self) -> RecordView {
        match *self {
            StoredRecord::Message { event, span, payload } => RecordView::Message {
                event,
                span,
                payload: payload@,
            },
            StoredRecord::SpanStart { span, kind, parent } => RecordView::SpanStart {
                span,
                kind,
                parent,
            },
            StoredRecord::SpanEnd { span } => RecordView::SpanEnd { span },
            StoredRecord::Sample { metric, value } => RecordView::Sample { metric, value: value@ },
            StoredRecord::Text { level, span, target, text } => RecordView::Text {
                level,
                span,
                target: target@,
                text: text@,
            },
            StoredRecord::Ext { tag, body } => RecordView::Ext { tag, body: body@ },
        }
    }
}

impl StoredRecord {
    /// The record borrowed in the form the format takes.
    pub fn as_record(&self) -> (r: Record<'_>)
        ensures
            r@ == self@,
    {
        match self {
            StoredRecord::Message { event, span, payload } => Record::Message {
                event: *event,
                span: *span,
                payload: payload.as_slice(),
            },
            StoredRecord::SpanStart { span, kind, parent } => Record::SpanStart {
                span: *span,
                kind: *kind,
                parent: *parent,
            },
            StoredRecord::SpanEnd { span } => Record::SpanEnd { span: *span },
            StoredRecord::Sample { metric, value } => Record::Sample {
                metric: *metric,
                value: value.as_value(),
            },
            StoredRecord::Text { level, span, target, text } => Record::Text {
                level: *level,
                span: *span,
                target: target.as_str(),
                text: text.as_str(),
            },
            StoredRecord::Ext { tag, body } => Record::Ext { tag: *tag, body: body.as_slice() },
        }
    }
}

/// A record together with its destination.
#[derive(Debug, PartialEq)]
pub struct Staged {
    pub ns: NsId,
    pub channel: ChannelIdx,
    pub at: Micros,
    pub record: StagedRecord,
}

impl Staged {
    /// The type a record adds to the footer of its segment: the event of a
    /// message, the metric of a sample.
    pub open spec fn types(self) -> (Option<EventId>, Option<MetricId>) {
        match self.record {
            StagedRecord::Message { event, .. } => (Some(event), None),
            StagedRecord::Sample { metric, .. } => (None, Some(metric)),
            _ => (None, None),
        }
    }

    /// The type identifier, for accounting in the footer.
    pub fn footer_ids(&self) -> (ids: (Option<EventId>, Option<MetricId>))
        ensures
            ids == self.types(),
    {
        match &self.record {
            StagedRecord::Message { event, .. } => (Some(*event), None),
            StagedRecord::Sample { metric, .. } => (None, Some(*metric)),
            _ => (None, None),
        }
    }
}

impl View for StagedRecord {
    type V = RecordView;

    open spec fn view(&self) -> RecordView {
        match *self {
            StagedRecord::Message { event, span, payload } => RecordView::Message {
                event,
                span,
                payload: payload_bytes(payload),
            },
            StagedRecord::SpanStart { span, kind, parent } => RecordView::SpanStart {
                span,
                kind,
                parent,
            },
            StagedRecord::SpanEnd { span } => RecordView::SpanEnd { span },
            StagedRecord::Sample { metric, value } => RecordView::Sample {
                metric,
                value: value@,
            },
            StagedRecord::Text { level, span, target, text } => RecordView::Text {
                level,
                span,
                target: (*target)@,
                text: (*text)@,
            },
        }
    }
}

impl StagedRecord {
    /// The record borrowed in the form the format takes. There is nothing to
    /// resolve: a sample carries its metric, and the metric identifies the
    /// series.
    pub fn as_record(&self) -> (r: Record<'_>)
        ensures
            r@ == self@,
    {
        match self {
            StagedRecord::Message { event, span, payload } => Record::Message {
                event: *event,
                span: *span,
                payload: payload.as_slice(),
            },
            StagedRecord::SpanStart { span, kind, parent } => Record::SpanStart {
                span: *span,
                kind: *kind,
                parent: *parent,
            },
            StagedRecord::SpanEnd { span } => Record::SpanEnd { span: *span },
            StagedRecord::Sample { metric, value } => Record::Sample {
                metric: *metric,
                value: value.as_value(),
            },
            StagedRecord::Text { level, span, target, text } => Record::Text {
                level: *level,
                span: *span,
                target: &**target,
                text: &**text,
            },
        }
    }
}

/// Per-channel loss counters of a namespace.
///
/// Accounting for losses sits on the hot path at the very moment the system is
/// under pressure, so this is an array indexed by channel number.
#[derive(Debug)]
pub struct DropCounters {
    per_channel: Vec<u64>,
}

impl View for DropCounters {
    type V = Seq<u64>;

    closed spec fn view(&self) -> Seq<u64> {
        self.per_channel@
    }
}

impl DropCounters {
    pub fn new(channels: usize) -> (d: DropCounters)
        ensures
            d@ == Seq::new(channels as nat, |i: int| 0u64),
    {
        let mut per_channel: Vec<u64> = Vec::new();
        let mut i: usize = 0;
        while i < channels
            invariant
                i <= channels,
                per_channel@ == Seq::new(i as nat, |k: int| 0u64),
            decreases channels - i,
        {
            per_channel.push(0);
            i = i + 1;
            assert(per_channel@ =~= Seq::new(i as nat, |k: int| 0u64));
        }
        DropCounters { per_channel }
    }

    /// Notes a loss in a channel.
    pub fn record(&mut self, channel: ChannelIdx)
        ensures
            final(self)@ == with_losses(old(self)@, channel, 1),
    {
        self.record_n(channel, 1);
    }

    /// Notes several losses at once: a block is lost whole, and announcing one
    /// record instead of a hundred would lie about the size of the hole.
    pub fn record_n(&mut self, channel: ChannelIdx, n: u64)
        ensures
            final(self)@ == with_losses(old(self)@, channel, n as int),
    {
        let i: usize = channel.0 as usize;
        if i < self.per_channel.len() {
            let mut count: u64 = self.per_channel[i];
            Counters::add(&mut count, n);
            self.per_channel.set(i, count);
        }
    }

    /// Takes what has accumulated, zeroing the counter.
    pub fn take(&mut self, channel: ChannelIdx) -> (n: u64)
        ensures
            n == losses_of(old(self)@, channel),
            final(self)@ == without_losses(old(self)@, channel),
    {
        let i: usize = channel.0 as usize;
        if i < self.per_channel.len() {
            let count: u64 = self.per_channel[i];
            self.per_channel.set(i, 0);
            count
        } else {
            0
        }
    }

    pub fn channels(&self) -> (n: usize)
        ensures
            n == self@.len(),
    {
        self.per_channel.len()
    }
}

/// The counters with `n` more losses in a channel; a channel that does not exist
/// has no counter.
pub open spec fn with_losses(counters: Seq<u64>, channel: ChannelIdx, n: int) -> Seq<u64> {
    if (channel.0 as int) < counters.len() {
        counters.update(channel.0 as int, crate::stats::plus(counters[channel.0 as int], n))
    } else {
        counters
    }
}

/// The losses a channel has accumulated.
pub open spec fn losses_of(counters: Seq<u64>, channel: ChannelIdx) -> u64 {
    if (channel.0 as int) < counters.len() {
        counters[channel.0 as int]
    } else {
        0
    }
}

/// The counters with a channel's losses taken.
pub open spec fn without_losses(counters: Seq<u64>, channel: ChannelIdx) -> Seq<u64> {
    if (channel.0 as int) < counters.len() {
        counters.update(channel.0 as int, 0)
    } else {
        counters
    }
}

/// Losses are handed out once: what was noted since the last taking is what the
/// next taking gives, a second taking finds nothing, and the other channels are
/// untouched.
pub proof fn law_losses_are_taken_once(
    counters: Seq<u64>,
    channel: ChannelIdx,
    other: ChannelIdx,
    n: u64,
)
    requires
        (channel.0 as int) < counters.len(),
        other != channel,
    ensures
        losses_of(with_losses(without_losses(counters, channel), channel, n as int), channel) == n,
        losses_of(without_losses(counters, channel), channel) == 0,
        losses_of(with_losses(counters, channel, n as int), other) == losses_of(counters, other),
        losses_of(without_losses(counters, channel), other) == losses_of(counters, other),
{
    crate::stats::lemma_plus_in_range(0, n as int);
}

/// A value holds what it was made of, under its own type.
pub proof fn law_a_value_holds_what_it_was_made_of(n: u32, m: u64, i: i64, b: bool, p: Payload)
    ensures
        OwnedValue::F32(n)@ == ValueView::F32(n) && OwnedValue::F32(n).type_of() is F32,
        OwnedValue::F64(m)@ == ValueView::F64(m) && OwnedValue::F64(m).type_of() is F64,
        OwnedValue::I64(i)@ == ValueView::I64(i) && OwnedValue::I64(i).type_of() is I64,
        OwnedValue::U64(m)@ == ValueView::U64(m) && OwnedValue::U64(m).type_of() is U64,
        OwnedValue::Bool(b)@ == ValueView::Bool(b) && OwnedValue::Bool(b).type_of() is Bool,
        OwnedValue::Blob(p)@ == ValueView::Blob(payload_bytes(p)) && OwnedValue::Blob(
            p,
        ).type_of() is Blob,
{
}

/// A record that was staged and one that was read back from a segment are the same record if and
/// only if all they hold is the same: nothing is lost or mixed up on the way to the medium.
pub proof fn law_a_record_holds_what_it_was_made_of(a: StagedRecord, b: StoredRecord)
    ensures
        a@ == b@ <==> match (a, b) {
            (
                StagedRecord::Message { event, span, payload },
                StoredRecord::Message { event: e, span: s, payload: p },
            ) => event == e && span == s && payload_bytes(payload) == p@,
            (
                StagedRecord::SpanStart { span, kind, parent },
                StoredRecord::SpanStart { span: s, kind: k, parent: p },
            ) => span == s && kind == k && parent == p,
            (StagedRecord::SpanEnd { span }, StoredRecord::SpanEnd { span: s }) => span == s,
            (
                StagedRecord::Sample { metric, value },
                StoredRecord::Sample { metric: m, value: v },
            ) => metric == m && value@ == v@,
            (
                StagedRecord::Text { level, span, target, text },
                StoredRecord::Text { level: l, span: s, target: t, text: x },
            ) => level == l && span == s && (*target)@ == t@ && (*text)@ == x@,
            _ => false,
        },
{
}

/// A message counts under its event and a sample under its metric; other records have no type to
/// count under.
pub proof fn law_a_record_counts_under_its_type(item: Staged)
    ensures
        item.record matches StagedRecord::Message { event, .. } ==> item.types() == (
            Some(event),
            None::<MetricId>,
        ),
        item.record matches StagedRecord::Sample { metric, .. } ==> item.types() == (
            None::<EventId>,
            Some(metric),
        ),
        !(item.record is Message) && !(item.record is Sample) ==> item.types() == (
            None::<EventId>,
            None::<MetricId>,
        ),
{
}

} // verus!
