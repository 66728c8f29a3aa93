//! Numbers as bit patterns, and their order.
use vstd::prelude::*;

verus! {

/// The sign bit of a binary64 bit pattern.
pub const SIGN_BIT: u64 = 0x8000_0000_0000_0000;

/// The magnitude bits of infinity. A larger magnitude is not a number.
pub const INFINITY_MAGNITUDE: u64 = 0x7ff0_0000_0000_0000;

/// A binary64 number, held as its bit pattern: one sign bit above 63 bits of
/// magnitude (exponent, then fraction).
///
/// The library orders values but never computes with them, and the order of
/// two numbers can be read off their bit patterns: among numbers of one sign
/// the one with the larger magnitude bits is further from zero.
#[derive(Clone, Copy, Debug, PartialEq, Eq, Structural)]
pub struct Value {
    pub bits: u64,
}

impl Value {
    /// Whether the sign bit is set.
    pub open spec fn is_negative(self) -> bool {
        self.bits >= SIGN_BIT
    }

    /// The pattern without its sign bit.
    pub open spec fn magnitude(self) -> int {
        if self.bits >= SIGN_BIT {
            self.bits - SIGN_BIT
        } else {
            self.bits as int
        }
    }

    /// Whether the pattern stands for no number at all.
    pub open spec fn is_nan_spec(self) -> bool {
        self.magnitude() > INFINITY_MAGNITUDE
    }

    /// The place of a number on the number line, as an integer: magnitudes
    /// count upwards from zero, negative numbers mirror them. Both zeros
    /// share the place 0.
    pub open spec fn ordinal(self) -> int {
        if self.is_negative() {
            -self.magnitude()
        } else {
            self.magnitude()
        }
    }

    /// The order of the numbers. Nothing is below or above what is not a
    /// number.
    pub open spec fn less_than_spec(self, other: Value) -> bool {
        &&& !self.is_nan_spec()
        &&& !other.is_nan_spec()
        &&& self.ordinal() < other.ordinal()
    }

    pub fn from_bits(bits: u64) -> (v: Value)
        ensures
            v.bits == bits,
    {
        Value { bits }
    }

    pub fn to_bits(self) -> (bits: u64)
        ensures
            bits == self.bits,
    {
        self.bits
    }

    fn magnitude_bits(self) -> (m: u64)
        ensures
            m == self.magnitude(),
    {
        if self.bits >= SIGN_BIT {
            self.bits - SIGN_BIT
        } else {
            self.bits
        }
    }

    #[verifier::when_used_as_spec(is_nan_spec)]
    pub fn is_nan(self) -> (b: bool)
        ensures
            b == self.is_nan_spec(),
    {
        self.magnitude_bits() > INFINITY_MAGNITUDE
    }

    /// Whether `self` is the smaller number.
    #[verifier::when_used_as_spec(less_than_spec)]
    pub fn less_than(self, other: Value) -> (b: bool)
        ensures
            b == self.less_than_spec(other),
    {
        if self.is_nan() || other.is_nan() {
            return false;
        }
        let a: u64 = self.magnitude_bits();
        let b: u64 = other.magnitude_bits();
        if self.bits >= SIGN_BIT {
            if other.bits >= SIGN_BIT {
                b < a
            } else {
                a != 0 || b != 0
            }
        } else {
            if other.bits >= SIGN_BIT {
                false
            } else {
                a < b
            }
        }
    }
}

/// Among numbers, `less_than` is a strict order in which two values are
/// unordered exactly when they hold the same place: it is irreflexive and
/// transitive, and being unordered is transitive too.
pub proof fn lemma_less_than_orders_numbers(a: Value, b: Value, c: Value)
    requires
        !a.is_nan(),
        !b.is_nan(),
        !c.is_nan(),
    ensures
        !a.less_than(a),
        a.less_than(b) && b.less_than(c) ==> a.less_than(c),
        a.less_than(b) ==> !b.less_than(a),
        !a.less_than(b) && !b.less_than(c) ==> !a.less_than(c),
{
}

} // verus!
