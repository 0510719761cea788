//! Mole-percent quantities.
//!
//! A quantity is carried as the 64 bits of a binary64 number of IEEE 754. The
//! library never computes with quantities: it compares them, stores them and
//! hands them to the arithmetic that its caller supplies.

use vstd::prelude::*;

verus! {

/// The sign bit of a binary64 pattern.
pub const SIGN_BIT: u64 = 0x8000_0000_0000_0000;

/// The pattern of positive infinity: every magnitude above it is not a number.
pub const INFINITY_BITS: u64 = 0x7ff0_0000_0000_0000;

/// A quantity, as its binary64 bit pattern.
#[derive(Clone, Copy, Debug, PartialEq, Eq, Hash, Structural)]
pub struct Value {
    pub bits: u64,
}

impl Value {
    /// Whether the sign bit is set.
    pub open spec fn negative(self) -> bool {
        self.bits >= SIGN_BIT
    }

    /// The pattern without its sign bit.
    pub open spec fn magnitude(self) -> int {
        if self.bits >= SIGN_BIT {
            self.bits - SIGN_BIT
        } else {
            self.bits as int
        }
    }

    /// Whether the pattern is not a number.
    pub open spec fn nan(self) -> bool {
        self.magnitude() > INFINITY_BITS
    }

    /// Where a number stands among the numbers: patterns that are numbers
    /// compare as their `number`s do. Both zeros stand at 0.
    pub open spec fn number(self) -> int {
        if self.negative() {
            -self.magnitude()
        } else {
            self.magnitude()
        }
    }

    /// Where a pattern stands in the total order of IEEE 754: negative
    /// patterns below positive ones, the negative zero just below the positive
    /// zero, and what is not a number at either end, by its sign.
    pub open spec fn rank(self) -> int {
        if self.negative() {
            -1 - self.magnitude()
        } else {
            self.magnitude()
        }
    }

    /// `self >= other` as numbers: false when either is not a number.
    pub open spec fn spec_ge(self, other: Value) -> bool {
        !self.nan() && !other.nan() && self.number() >= other.number()
    }

    /// `self > other` as numbers: false when either is not a number.
    pub open spec fn spec_gt(self, other: Value) -> bool {
        !self.nan() && !other.nan() && self.number() > other.number()
    }

    /// `self == other` as numbers: false when either is not a number, true of
    /// the two zeros.
    pub open spec fn spec_equals(self, other: Value) -> bool {
        !self.nan() && !other.nan() && self.number() == other.number()
    }

    /// `self` does not come after `other` in the total order.
    pub open spec fn spec_total_le(self, other: Value) -> bool {
        self.rank() <= other.rank()
    }

    pub fn from_bits(bits: u64) -> (value: Value)
        ensures
            value.bits == bits,
    {
        Value { bits }
    }

    pub fn to_bits(self) -> (bits: u64)
        ensures
            bits == self.bits,
    {
        self.bits
    }

    fn is_negative(self) -> (r: bool)
        ensures
            r == self.negative(),
    {
        self.bits >= SIGN_BIT
    }

    fn abs_bits(self) -> (m: u64)
        ensures
            m == self.magnitude(),
            m < SIGN_BIT,
    {
        if self.bits >= SIGN_BIT {
            self.bits - SIGN_BIT
        } else {
            self.bits
        }
    }

    pub fn is_nan(self) -> (r: bool)
        ensures
            r == self.nan(),
    {
        self.abs_bits() > INFINITY_BITS
    }

    #[verifier::when_used_as_spec(spec_ge)]
    pub fn ge(self, other: Value) -> (r: bool)
        ensures
            r == self.spec_ge(other),
    {
        if self.is_nan() || other.is_nan() {
            return false;
        }
        let a = self.abs_bits();
        let b = other.abs_bits();
        if self.is_negative() {
            if other.is_negative() {
                a <= b
            } else {
                a == 0 && b == 0
            }
        } else {
            if other.is_negative() {
                true
            } else {
                a >= b
            }
        }
    }

    #[verifier::when_used_as_spec(spec_gt)]
    pub fn gt(self, other: Value) -> (r: bool)
        ensures
            r == self.spec_gt(other),
    {
        if self.is_nan() || other.is_nan() {
            return false;
        }
        let a = self.abs_bits();
        let b = other.abs_bits();
        if self.is_negative() {
            if other.is_negative() {
                a < b
            } else {
                false
            }
        } else {
            if other.is_negative() {
                a != 0 || b != 0
            } else {
                a > b
            }
        }
    }

    #[verifier::when_used_as_spec(spec_total_le)]
    pub fn total_le(self, other: Value) -> (r: bool)
        ensures
            r == self.spec_total_le(other),
    {
        let a = self.abs_bits();
        let b = other.abs_bits();
        if self.is_negative() {
            if other.is_negative() {
                a >= b
            } else {
                true
            }
        } else {
            if other.is_negative() {
                false
            } else {
                a <= b
            }
        }
    }
}

/// An operation of arithmetic on two quantities.
///
/// The library does no arithmetic on quantities itself: where it needs the
/// result of an operation it asks its caller, who passes a function from an
/// operation and two quantities to a quantity.
#[derive(Clone, Copy, Debug, PartialEq, Eq, Structural)]
pub enum Operation {
    /// The first plus the second.
    Plus,
    /// The first minus the second.
    Minus,
    /// The first times the second.
    Times,
    /// The first divided by the second.
    Divide,
}

/// What an arithmetic can make of two quantities by an operation: the last
/// quantity is one that it can give for the operation and the first two.
pub type Arithmetic = spec_fn(Operation, Value, Value, Value) -> bool;

/// What `arithmetic` can make of two quantities by an operation.
pub open spec fn arithmetic_of<A: Fn(Operation, Value, Value) -> Value>(arithmetic: A) -> Arithmetic {
    |operation: Operation, a: Value, b: Value, result: Value|
        arithmetic.ensures((operation, a, b), result)
}

/// A threshold on quantities.
#[derive(Clone, Copy, Debug, PartialEq, Eq, Structural)]
pub enum Bound {
    /// Keeps what is at least the threshold.
    Included(Value),
    /// Keeps what is above the threshold.
    Excluded(Value),
    /// Keeps everything.
    Unbounded,
}

impl Bound {
    /// Whether the threshold lets `value` through.
    pub open spec fn spec_admits(self, value: Value) -> bool {
        match self {
            Bound::Included(bound) => value.spec_ge(bound),
            Bound::Excluded(bound) => value.spec_gt(bound),
            Bound::Unbounded => true,
        }
    }

    #[verifier::when_used_as_spec(spec_admits)]
    pub fn admits(self, value: Value) -> (r: bool)
        ensures
            r == self.spec_admits(value),
    {
        match self {
            Bound::Included(bound) => value.ge(bound),
            Bound::Excluded(bound) => value.gt(bound),
            Bound::Unbounded => true,
        }
    }
}

impl Default for Bound {
    fn default() -> (bound: Self)
        ensures
            bound == Bound::Unbounded,
    {
        Bound::Unbounded
    }
}

} // verus!
