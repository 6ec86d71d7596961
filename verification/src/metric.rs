//! A metric together with the type of its value.
//!
//! The type of a sample is a property of the metric, declared in the schema. So a
//! metric constant carries it, and it is the compiler's job to check it. Floats
//! are carried by their bits.

use crate::format::{MetricId, ValueView};
use crate::staged;
use crate::staged::{OwnedValue, Payload};
use std::marker::PhantomData;
use vstd::prelude::*;

verus! {

/// A metric declared with value type `T`.
#[derive(Debug)]
pub struct Metric<T> {
    id: MetricId,
    value: PhantomData<T>,
}

impl<T> Metric<T> {
    /// The identifier.
    pub closed spec fn number(&self) -> MetricId {
        self.id
    }

    pub fn new(id: MetricId) -> (m: Metric<T>)
        ensures
            m.number() == id,
    {
        Metric { id, value: PhantomData }
    }

    pub fn id(&self) -> (id: MetricId)
        ensures
            id == self.number(),
    {
        self.id
    }
}

/// The marker of a metric with a binary value.
#[derive(Debug, Clone, Copy, PartialEq, Eq, Structural)]
pub struct Blob;

/// The marker of a series opened by an identifier known only at runtime.
#[derive(Debug, Clone, Copy, PartialEq, Eq, Structural)]
pub struct Untyped;

/// A single-precision number, by its bits.
#[derive(Debug, Clone, Copy, PartialEq, Eq, Structural)]
pub struct Single(pub u32);

/// A double-precision number, by its bits.
#[derive(Debug, Clone, Copy, PartialEq, Eq, Structural)]
pub struct Double(pub u64);

/// A value admissible for a metric declared as `M`.
pub trait MetricValue<M>: Sized {
    /// What the value carries.
    spec fn carried(self) -> ValueView;

    /// Converts into the form that goes into the write queue.
    fn into_owned(self) -> (v: OwnedValue)
        ensures
            v@ == self.carried(),
    ;
}

impl MetricValue<Single> for Single {
    open spec fn carried(self) -> ValueView {
        ValueView::F32(self.0)
    }

    fn into_owned(self) -> (v: OwnedValue) {
        OwnedValue::F32(self.0)
    }
}

impl MetricValue<Double> for Double {
    open spec fn carried(self) -> ValueView {
        ValueView::F64(self.0)
    }

    fn into_owned(self) -> (v: OwnedValue) {
        OwnedValue::F64(self.0)
    }
}

impl MetricValue<i64> for i64 {
    open spec fn carried(self) -> ValueView {
        ValueView::I64(self)
    }

    fn into_owned(self) -> (v: OwnedValue) {
        OwnedValue::I64(self)
    }
}

impl MetricValue<u64> for u64 {
    open spec fn carried(self) -> ValueView {
        ValueView::U64(self)
    }

    fn into_owned(self) -> (v: OwnedValue) {
        OwnedValue::U64(self)
    }
}

impl MetricValue<bool> for bool {
    open spec fn carried(self) -> ValueView {
        ValueView::Bool(self)
    }

    fn into_owned(self) -> (v: OwnedValue) {
        OwnedValue::Bool(self)
    }
}

impl MetricValue<Blob> for &[u8] {
    open spec fn carried(self) -> ValueView {
        ValueView::Blob(self@)
    }

    fn into_owned(self) -> (v: OwnedValue) {
        OwnedValue::Blob(Payload::from_slice(self))
    }
}

impl MetricValue<Blob> for Vec<u8> {
    open spec fn carried(self) -> ValueView {
        ValueView::Blob(self@)
    }

    fn into_owned(self) -> (v: OwnedValue) {
        OwnedValue::Blob(Payload::from_vec(self))
    }
}

/// A state of an enum metric: a name, and the code that goes to the medium.
pub trait MetricState: Sized {
    /// The metric this enum belongs to.
    fn metric() -> MetricId;

    /// The code that reaches the medium.
    fn code(&self) -> u64;

    /// The state's name from the schema.
    fn name(&self) -> &'static str;
}

/// A value is carried as it was given: under its own type, bit for bit and byte for byte.
pub proof fn law_a_value_is_carried_as_it_is(
    single: Single,
    double: Double,
    i: i64,
    u: u64,
    b: bool,
    bytes: &[u8],
    owned: Vec<u8>,
)
    ensures
        single.carried() == ValueView::F32(single.0),
        double.carried() == ValueView::F64(double.0),
        i.carried() == ValueView::I64(i),
        u.carried() == ValueView::U64(u),
        b.carried() == ValueView::Bool(b),
        bytes.carried() == ValueView::Blob(bytes@),
        owned.carried() == ValueView::Blob(owned@),
{
}

} // verus!
