//! Measured quantities: IEEE 754 doubles, held by their bits.
//!
//! The library compares and stores measures; it does no arithmetic on them.
//! Callers turn a double into its bits and back.

use vstd::prelude::*;

verus! {

/// The sign bit of a double.
pub const SIGN: u64 = 0x8000_0000_0000_0000;

/// The bits of positive infinity.
pub const INFINITY: u64 = 0x7FF0_0000_0000_0000;

/// The bits of the double 1.
pub const ONE: u64 = 0x3FF0_0000_0000_0000;

/// A double-precision number, by its bits.
#[derive(Clone, Copy, Debug, PartialEq, Eq, Structural)]
pub struct Measure {
    pub bits: u64,
}

impl DeepView for Measure {
    type V = Measure;

    open spec fn deep_view(&self) -> Measure {
        *self
    }
}

impl Measure {
    /// The bits without the sign.
    pub open spec fn magnitude(self) -> int {
        if self.bits >= SIGN {
            self.bits - SIGN
        } else {
            self.bits as int
        }
    }

    /// The sign bit is set.
    pub open spec fn negative(self) -> bool {
        self.bits >= SIGN
    }

    /// Not a number.
    pub open spec fn nan(self) -> bool {
        self.magnitude() > INFINITY
    }

    /// Neither infinite nor a non-number.
    pub open spec fn finite(self) -> bool {
        self.magnitude() < INFINITY
    }

    /// An integer that orders the numbers as their values do: both zeros are
    /// at 0. Meaningless of a non-number.
    pub open spec fn rank(self) -> int {
        if self.negative() {
            -self.magnitude()
        } else {
            self.magnitude()
        }
    }

    /// `self < other` as numbers. Nothing is less than a non-number, nor greater.
    pub open spec fn below(self, other: Measure) -> bool {
        !self.nan() && !other.nan() && self.rank() < other.rank()
    }

    /// The measure zero.
    pub fn zero() -> (r: Measure)
        ensures
            r.bits == 0,
    {
        Measure { bits: 0 }
    }

    /// The measure one.
    pub fn one() -> (r: Measure)
        ensures
            r.bits == ONE,
    {
        Measure { bits: ONE }
    }

    /// The measure with the given bits.
    pub fn from_bits(bits: u64) -> (r: Measure)
        ensures
            r.bits == bits,
    {
        Measure { bits }
    }

    /// Whether the measure is neither infinite nor a non-number.
    pub fn is_finite(self) -> (r: bool)
        ensures
            r == self.finite(),
    {
        if self.bits >= SIGN {
            self.bits - SIGN < INFINITY
        } else {
            self.bits < INFINITY
        }
    }

    /// Whether the sign bit is set.
    pub fn is_negative(self) -> (r: bool)
        ensures
            r == self.negative(),
    {
        self.bits >= SIGN
    }

    /// Whether the measure is a non-number.
    pub fn is_nan(self) -> (r: bool)
        ensures
            r == self.nan(),
    {
        if self.bits >= SIGN {
            self.bits - SIGN > INFINITY
        } else {
            self.bits > INFINITY
        }
    }

    /// Whether `self < other` as numbers.
    pub fn less_than(self, other: Measure) -> (r: bool)
        ensures
            r == self.below(other),
    {
        if self.is_nan() || other.is_nan() {
            return false;
        }
        if self.bits >= SIGN {
            if other.bits >= SIGN {
                self.bits > other.bits
            } else {
                self.bits != SIGN || other.bits != 0
            }
        } else if other.bits >= SIGN {
            false
        } else {
            self.bits < other.bits
        }
    }
}

/// The order of measures is a strict order: irreflexive, asymmetric and
/// transitive.
pub proof fn law_below_is_strict_order(a: Measure, b: Measure, c: Measure)
    ensures
        !a.below(a),
        a.below(b) ==> !b.below(a),
        a.below(b) && b.below(c) ==> a.below(c),
{
}

/// Measures compare as the numbers that they stand for: without a sign by their
/// bits, with one the other way round, and a negative one is below any other,
/// but for the two zeros, which are the same. `x` and `y` are bits of numbers
/// without a sign.
pub proof fn law_below_compares_values(x: u64, y: u64)
    requires
        x <= INFINITY,
        y <= INFINITY,
    ensures
        (Measure { bits: x }).below(Measure { bits: y }) <==> x < y,
        (Measure { bits: (SIGN + x) as u64 }).below(Measure { bits: (SIGN + y) as u64 }) <==> y < x,
        (Measure { bits: (SIGN + x) as u64 }).below(Measure { bits: y }) <==> x > 0 || y > 0,
        !(Measure { bits: x }).below(Measure { bits: (SIGN + y) as u64 }),
{
}

/// A non-number is below nothing, and nothing is below it. A measure is finite
/// exactly if it is a number below the infinite ones.
pub proof fn law_non_numbers_do_not_compare(x: u64, other: Measure)
    requires
        INFINITY < x < SIGN,
    ensures
        !(Measure { bits: x }).below(other),
        !other.below(Measure { bits: x }),
        !(Measure { bits: (SIGN + x) as u64 }).below(other),
        !other.below(Measure { bits: (SIGN + x) as u64 }),
        other.finite() <==> other.below(Measure { bits: INFINITY }) && (Measure {
            bits: (SIGN + INFINITY) as u64,
        }).below(other),
{
}

} // verus!
