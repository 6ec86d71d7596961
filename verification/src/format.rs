//! The values of the on-medium format that the engine reasons about.
//!
//! Encoding and decoding bytes is the format's own business; the engine works
//! with what the bytes say: identifiers, moments in time, segment and block
//! headers, and the sizes of the fixed parts.

use vstd::prelude::*;

verus! {

/// The identifier of an event type within a schema.
#[derive(Debug, Clone, Copy, PartialEq, Eq, Structural, PartialOrd, Ord, Hash)]
pub struct EventId(pub u16);

/// The identifier of a metric within a schema.
#[derive(Debug, Clone, Copy, PartialEq, Eq, Structural, PartialOrd, Ord, Hash)]
pub struct MetricId(pub u16);

/// The identifier of a span kind within a schema.
#[derive(Debug, Clone, Copy, PartialEq, Eq, Structural, PartialOrd, Ord, Hash)]
pub struct SpanKindId(pub u16);

/// The identifier of one span of a run.
#[derive(Debug, Clone, Copy, PartialEq, Eq, Structural, PartialOrd, Ord, Hash)]
pub struct SpanId(pub u32);

/// The number of a run of the process.
#[derive(Debug, Clone, Copy, PartialEq, Eq, Structural, PartialOrd, Ord, Hash)]
pub struct BootCounter(pub u32);

/// Microseconds since the run started.
#[derive(Debug, Clone, Copy, PartialEq, Eq, Structural, PartialOrd, Ord, Hash)]
pub struct Micros(pub u64);

/// The version of a schema.
#[derive(Debug, Clone, Copy, PartialEq, Eq, Structural, PartialOrd, Ord, Hash)]
pub struct ProtocolVersion(pub u16);

/// A moment: the run and the time within it.
#[derive(Debug, Clone, Copy, PartialEq, Eq, Structural, PartialOrd, Ord, Hash)]
pub struct BootTime {
    pub boot: BootCounter,
    pub at: Micros,
}

impl BootTime {
    pub fn new(boot: BootCounter, at: Micros) -> (t: BootTime)
        ensures
            t == (BootTime { boot, at }),
    {
        BootTime { boot, at }
    }

    pub fn from_raw(boot: u32, at: u64) -> (t: BootTime)
        ensures
            t == (BootTime { boot: BootCounter(boot), at: Micros(at) }),
    {
        BootTime { boot: BootCounter(boot), at: Micros(at) }
    }
}

/// The level of a message.
#[derive(Debug, Clone, Copy, PartialEq, Eq, Structural, PartialOrd, Ord, Hash)]
pub enum Level {
    Trace,
    Debug,
    Info,
    Warn,
    Error,
}

/// The type of a metric's values.
#[derive(Debug, Clone, Copy, PartialEq, Eq, Structural, Hash)]
pub enum ValueType {
    F32,
    F64,
    I64,
    U64,
    Bool,
    Blob,
}

/// A sample value as it stands in a record. Floats are carried by their bits.
#[derive(Debug, Clone, Copy)]
pub enum Value<'a> {
    F32(u32),
    F64(u64),
    I64(i64),
    U64(u64),
    Bool(bool),
    Blob(&'a [u8]),
}

/// A sample value by its contents.
#[verifier::ext_equal]
pub enum ValueView {
    F32(u32),
    F64(u64),
    I64(i64),
    U64(u64),
    Bool(bool),
    Blob(Seq<u8>),
}

impl<'a> View for Value<'a> {
    type V = ValueView;

    open spec fn view(&self) -> ValueView {
        match *self {
            Value::F32(v) => ValueView::F32(v),
            Value::F64(v) => ValueView::F64(v),
            Value::I64(v) => ValueView::I64(v),
            Value::U64(v) => ValueView::U64(v),
            Value::Bool(v) => ValueView::Bool(v),
            Value::Blob(b) => ValueView::Blob(b@),
        }
    }
}

impl<'a> Value<'a> {
    pub open spec fn type_of(self) -> ValueType {
        match self {
            Value::F32(_) => ValueType::F32,
            Value::F64(_) => ValueType::F64,
            Value::I64(_) => ValueType::I64,
            Value::U64(_) => ValueType::U64,
            Value::Bool(_) => ValueType::Bool,
            Value::Blob(_) => ValueType::Blob,
        }
    }

    pub fn value_type(&self) -> (t: ValueType)
        ensures
            t == self.type_of(),
    {
        match self {
            Value::F32(_) => ValueType::F32,
            Value::F64(_) => ValueType::F64,
            Value::I64(_) => ValueType::I64,
            Value::U64(_) => ValueType::U64,
            Value::Bool(_) => ValueType::Bool,
            Value::Blob(_) => ValueType::Blob,
        }
    }
}

/// The codec of block bodies.
#[derive(Debug, Clone, Copy, PartialEq, Eq, Structural, Hash)]
pub enum Compression {
    /// Bodies are stored as they are.
    Plain,
    Lz4,
}

/// The identity of a segment: the run and the time of its first record.
///
/// Names are ordered by run and then by time, and the run number is one for the
/// whole store, so the order is chronological across channels and namespaces.
#[derive(Debug, Clone, Copy, PartialEq, Eq, Structural, PartialOrd, Ord, Hash)]
pub struct SegmentName {
    pub boot: BootCounter,
    pub base: Micros,
}

impl SegmentName {
    pub fn new(boot: BootCounter, base: Micros) -> (name: SegmentName)
        ensures
            name == (SegmentName { boot, base }),
    {
        SegmentName { boot, base }
    }

    /// Whether this segment began earlier than `other`.
    pub open spec fn precedes(self, other: SegmentName) -> bool {
        self.boot.0 < other.boot.0 || (self.boot.0 == other.boot.0 && self.base.0 < other.base.0)
    }

    /// Whether this segment began earlier than `other`.
    pub fn is_before(self, other: SegmentName) -> (yes: bool)
        ensures
            yes == self.precedes(other),
    {
        self.boot.0 < other.boot.0 || (self.boot.0 == other.boot.0 && self.base.0 < other.base.0)
    }

    /// The moment of the segment's first record.
    pub fn start(self) -> (t: BootTime)
        ensures
            t == (BootTime { boot: self.boot, at: self.base }),
    {
        BootTime { boot: self.boot, at: self.base }
    }
}

/// The header of a segment.
#[derive(Debug, Clone, Copy, PartialEq, Eq, Structural)]
pub struct SegmentHeader {
    pub protocol_version: ProtocolVersion,
    pub boot: BootCounter,
    pub base: Micros,
    /// The identity of the store that wrote the segment.
    pub store_id: u64,
}

impl SegmentHeader {
    pub open spec fn name(self) -> SegmentName {
        SegmentName { boot: self.boot, base: self.base }
    }

    /// The name a segment with this header lies under.
    pub fn file_name(self) -> (name: SegmentName)
        ensures
            name == self.name(),
    {
        SegmentName { boot: self.boot, base: self.base }
    }
}

/// The header of a block.
#[derive(Debug, Clone, Copy, PartialEq, Eq, Structural)]
pub struct BlockHeader {
    /// The number of the block within its segment, from zero.
    pub seq: u32,
    /// The length of the body behind the header.
    pub body_len: u32,
    /// The time of the block's first record.
    pub base: Micros,
    /// How many records the block holds.
    pub count: u32,
}

/// The sizes of the fixed parts of a segment file.
#[derive(Debug, Clone, Copy, PartialEq, Eq, Structural)]
pub struct Layout {
    pub segment_header: u32,
    pub block_header: u32,
    pub trailer: u32,
}

/// Segments are in the order of time: by the run, and within a run by the time they begin. Of two
/// names one comes first unless they are the same, and the order carries on.
pub proof fn law_names_are_in_the_order_of_time(a: SegmentName, b: SegmentName, c: SegmentName)
    ensures
        a.boot.0 < b.boot.0 ==> a.precedes(b) && !b.precedes(a),
        a.boot == b.boot ==> (a.precedes(b) <==> a.base.0 < b.base.0),
        a.precedes(b) || b.precedes(a) || a == b,
        !(a.precedes(b) && b.precedes(a)),
        a.precedes(b) && b.precedes(c) ==> a.precedes(c),
{
}

} // verus!
