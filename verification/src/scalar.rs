//! Numbers by their order alone.
//!
//! A threshold compares numbers and does nothing else with them, so all it
//! needs of a 64-bit float is where it stands among the others. [`Scalar`] is
//! that place: an integer key for every number, with the two zeros sharing one,
//! and a separate value for "not a number", which compares with nothing.

use vstd::prelude::*;

verus! {

/// The bit pattern of positive infinity: the largest of the non-negative
/// numbers. Every pattern above it (below the sign bit) is not a number.
pub const INFINITY_BITS: u64 = 0x7ff0_0000_0000_0000;

/// The sign bit of a 64-bit float.
pub const SIGN_BIT: u64 = 0x8000_0000_0000_0000;

/// A number known by its order.
#[derive(Debug, Clone, Copy, PartialEq, Eq, Structural)]
pub enum Scalar {
    /// Not a number: no comparison with it holds.
    Nan,
    /// The place of the number in the order.
    Key(i64),
}

/// The scalar of an IEEE 754 bit pattern: magnitudes grow with the pattern, and
/// the sign bit turns the order round.
pub open spec fn scalar_of_bits(bits: u64) -> Scalar {
    let magnitude = if bits < SIGN_BIT {
        bits as int
    } else {
        bits - SIGN_BIT
    };
    if magnitude > INFINITY_BITS {
        Scalar::Nan
    } else if bits < SIGN_BIT {
        Scalar::Key(magnitude as i64)
    } else {
        Scalar::Key((-magnitude) as i64)
    }
}

impl Scalar {
    /// The scalar of a 64-bit float given by its bits.
    pub fn from_bits(bits: u64) -> (s: Scalar)
        ensures
            s == scalar_of_bits(bits),
    {
        if bits < SIGN_BIT {
            if bits > INFINITY_BITS {
                Scalar::Nan
            } else {
                Scalar::Key(bits as i64)
            }
        } else {
            let magnitude: u64 = bits - SIGN_BIT;
            if magnitude > INFINITY_BITS {
                Scalar::Nan
            } else {
                Scalar::Key(-(magnitude as i64))
            }
        }
    }

    /// `self > other`, which is false where either is not a number.
    pub open spec fn exceeds(self, other: Scalar) -> bool {
        match (self, other) {
            (Scalar::Key(a), Scalar::Key(b)) => a > b,
            _ => false,
        }
    }

    /// `self > other`.
    pub fn is_above(self, other: Scalar) -> (yes: bool)
        ensures
            yes == self.exceeds(other),
    {
        match (self, other) {
            (Scalar::Key(a), Scalar::Key(b)) => a > b,
            _ => false,
        }
    }

    /// `self >= other`, which is false where either is not a number.
    pub open spec fn reaches(self, other: Scalar) -> bool {
        match (self, other) {
            (Scalar::Key(a), Scalar::Key(b)) => a >= b,
            _ => false,
        }
    }

    /// `self >= other`.
    pub fn is_at_least(self, other: Scalar) -> (yes: bool)
        ensures
            yes == self.reaches(other),
    {
        match (self, other) {
            (Scalar::Key(a), Scalar::Key(b)) => a >= b,
            _ => false,
        }
    }

    pub fn is_nan(self) -> (yes: bool)
        ensures
            yes == (self is Nan),
    {
        match self {
            Scalar::Nan => true,
            Scalar::Key(_) => false,
        }
    }
}

/// The order of the keys is the order of the numbers: among patterns without the sign bit a
/// larger pattern is a larger number, with it a smaller one, and no number with it lies above
/// one without. A pattern beyond infinity is no number, and no comparison with it holds.
pub proof fn law_keys_keep_the_order_of_the_numbers(a: u64, b: u64)
    ensures
        a <= 0x7ff0_0000_0000_0000 && b <= 0x7ff0_0000_0000_0000 ==> {
            &&& scalar_of_bits(a).exceeds(scalar_of_bits(b)) <==> a > b
            &&& scalar_of_bits(a).reaches(scalar_of_bits(b)) <==> a >= b
        },
        0x8000_0000_0000_0000 <= a <= 0xfff0_0000_0000_0000 && 0x8000_0000_0000_0000 <= b
            <= 0xfff0_0000_0000_0000 ==> {
            &&& scalar_of_bits(a).exceeds(scalar_of_bits(b)) <==> a < b
            &&& scalar_of_bits(a).reaches(scalar_of_bits(b)) <==> a <= b
        },
        a <= 0x7ff0_0000_0000_0000 && 0x8000_0000_0000_0000 <= b <= 0xfff0_0000_0000_0000 ==> {
            &&& scalar_of_bits(a).reaches(scalar_of_bits(b))
            &&& scalar_of_bits(a).exceeds(scalar_of_bits(b)) <==> a != 0 || b
                != 0x8000_0000_0000_0000
            &&& !scalar_of_bits(b).exceeds(scalar_of_bits(a))
        },
        0x7ff0_0000_0000_0000 < a < 0x8000_0000_0000_0000 || a > 0xfff0_0000_0000_0000 ==> {
            &&& scalar_of_bits(a) is Nan
            &&& !scalar_of_bits(a).exceeds(scalar_of_bits(b))
            &&& !scalar_of_bits(a).reaches(scalar_of_bits(b))
            &&& !scalar_of_bits(b).exceeds(scalar_of_bits(a))
            &&& !scalar_of_bits(b).reaches(scalar_of_bits(a))
        },
{
}

/// Of two numbers one is above the other or they are the same, never both ways; and reaching is
/// not being exceeded.
pub proof fn law_two_numbers_compare_one_way(a: Scalar, b: Scalar)
    requires
        !(a is Nan),
        !(b is Nan),
    ensures
        a.exceeds(b) || b.exceeds(a) || a == b,
        !(a.exceeds(b) && b.exceeds(a)),
        !a.exceeds(a),
        a.reaches(b) <==> !b.exceeds(a),
{
}

} // verus!
