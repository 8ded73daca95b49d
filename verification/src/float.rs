//! Floating-point numbers as the library holds them: by their bit patterns.
//!
//! The library compares such numbers and hands them on; arithmetic on them is left to its
//! callers.

use std::cmp::Ordering;
use vstd::prelude::*;

verus! {

/// A single-precision number in the IEEE 754 binary32 format.
#[derive(Clone, Copy, Debug)]
pub struct Float32 {
    pub bits: u32,
}

impl DeepView for Float32 {
    type V = Float32;

    open spec fn deep_view(&self) -> Float32 {
        *self
    }
}

impl Float32 {
    /// The number zero.
    pub fn zero() -> (r: Float32)
        ensures
            r == float_zero(),
    {
        Float32 { bits: 0 }
    }

    /// The number one.
    pub fn one() -> (r: Float32)
        ensures
            r == float_one(),
    {
        Float32 { bits: 0x3f80_0000 }
    }

    /// Negative infinity.
    pub fn negative_infinity() -> (r: Float32)
        ensures
            r == float_negative_infinity(),
    {
        Float32 { bits: 0xff80_0000 }
    }

    /// Whether the sign bit is set.
    pub open spec fn negative(self) -> bool {
        self.bits >= 0x8000_0000
    }

    /// Everything but the sign bit.
    pub open spec fn magnitude(self) -> int {
        if self.bits >= 0x8000_0000 {
            self.bits - 0x8000_0000
        } else {
            self.bits as int
        }
    }

    /// Whether this is not a number: all exponent bits are set, and some fraction bit.
    pub open spec fn nan(self) -> bool {
        self.magnitude() > 0x7f80_0000
    }

    /// A number whose order is the numeric order; both zeros have the same.
    pub open spec fn rank(self) -> int {
        if self.negative() {
            -self.magnitude()
        } else {
            self.magnitude()
        }
    }

    /// A number whose order is the IEEE 754 `totalOrder`: numeric, with the negative zero before
    /// the positive one, and each NaN beyond the infinity of its sign.
    pub open spec fn total(self) -> int {
        if self.negative() {
            -1 - self.magnitude()
        } else {
            self.magnitude()
        }
    }

    /// Numeric `<`: false where either side is not a number.
    pub open spec fn below(self, other: Float32) -> bool {
        !self.nan() && !other.nan() && self.rank() < other.rank()
    }

    /// Numeric `>=`: false where either side is not a number.
    pub open spec fn reaches(self, other: Float32) -> bool {
        !self.nan() && !other.nan() && self.rank() >= other.rank()
    }

    /// Numeric `==`: false where either side is not a number.
    pub open spec fn equals(self, other: Float32) -> bool {
        !self.nan() && !other.nan() && self.rank() == other.rank()
    }

    fn signed_magnitude(self) -> (r: (bool, u32))
        ensures
            r.0 == self.negative(),
            r.1 == self.magnitude(),
    {
        if self.bits >= 0x8000_0000 {
            (true, self.bits - 0x8000_0000)
        } else {
            (false, self.bits)
        }
    }

    /// Whether this is not a number.
    pub fn is_nan(self) -> (r: bool)
        ensures
            r == self.nan(),
    {
        self.signed_magnitude().1 > 0x7f80_0000
    }

    fn numeric_rank(self) -> (r: i64)
        ensures
            r == self.rank(),
    {
        let (negative, magnitude) = self.signed_magnitude();
        if negative {
            -(magnitude as i64)
        } else {
            magnitude as i64
        }
    }

    /// A key whose order is the IEEE 754 `totalOrder`.
    pub fn total_key(self) -> (r: i64)
        ensures
            r == self.total(),
    {
        let (negative, magnitude) = self.signed_magnitude();
        if negative {
            -1 - (magnitude as i64)
        } else {
            magnitude as i64
        }
    }

    /// Numeric `<`.
    pub fn is_below(self, other: Float32) -> (r: bool)
        ensures
            r == self.below(other),
    {
        !self.is_nan() && !other.is_nan() && self.numeric_rank() < other.numeric_rank()
    }

    /// Numeric `>=`.
    pub fn is_at_least(self, other: Float32) -> (r: bool)
        ensures
            r == self.reaches(other),
    {
        !self.is_nan() && !other.is_nan() && self.numeric_rank() >= other.numeric_rank()
    }

    /// The number itself where it lies between zero and one, else the nearer of the two; what is
    /// not a number stays as it is.
    pub fn clamp_to_unit(self) -> (r: Float32)
        ensures
            r == clamped_to_unit(self),
    {
        if self.is_below(Float32::zero()) {
            Float32::zero()
        } else if Float32::one().is_below(self) {
            Float32::one()
        } else {
            self
        }
    }
}

/// The number zero.
pub open spec fn float_zero() -> Float32 {
    Float32 { bits: 0 }
}

/// The number one.
pub open spec fn float_one() -> Float32 {
    Float32 { bits: 0x3f80_0000 }
}

/// Negative infinity.
pub open spec fn float_negative_infinity() -> Float32 {
    Float32 { bits: 0xff80_0000 }
}

/// A number moved into the range from zero to one.
pub open spec fn clamped_to_unit(x: Float32) -> Float32 {
    if x.below(float_zero()) {
        float_zero()
    } else if float_one().below(x) {
        float_one()
    } else {
        x
    }
}

/// Whether a number lies between zero and one, both included.
pub open spec fn in_unit_range(x: Float32) -> bool {
    x.reaches(float_zero()) && float_one().reaches(x)
}

/// What is moved into the range from zero to one lies there, unless it is not a number; and a
/// number that lies there already is not moved.
pub proof fn clamping_lands_in_the_unit_range(x: Float32)
    ensures
        !x.nan() ==> in_unit_range(clamped_to_unit(x)),
        x.nan() || in_unit_range(x) ==> clamped_to_unit(x) == x,
{
}

/// The total order agrees with the numeric order wherever that tells two numbers apart, and is an
/// order of bit patterns: only equal ones are at the same place.
pub proof fn total_order_refines_numeric_order(a: Float32, b: Float32)
    ensures
        a.below(b) ==> a.total() < b.total(),
        a.total() == b.total() <==> a == b,
{
}

impl PartialEq for Float32 {
    fn eq(&self, other: &Self) -> (r: bool) {
        self.is_at_least(*other) && other.is_at_least(*self)
    }
}

impl vstd::std_specs::cmp::PartialEqSpecImpl for Float32 {
    open spec fn obeys_eq_spec() -> bool {
        true
    }

    open spec fn eq_spec(&self, other: &Self) -> bool {
        self.equals(*other)
    }
}

impl PartialOrd for Float32 {
    fn partial_cmp(&self, other: &Self) -> (r: Option<Ordering>) {
        if self.is_below(*other) {
            Some(Ordering::Less)
        } else if other.is_below(*self) {
            Some(Ordering::Greater)
        } else if self.is_at_least(*other) {
            Some(Ordering::Equal)
        } else {
            None
        }
    }
}

impl vstd::std_specs::cmp::PartialOrdSpecImpl for Float32 {
    open spec fn obeys_partial_cmp_spec() -> bool {
        true
    }

    open spec fn partial_cmp_spec(&self, other: &Self) -> Option<Ordering> {
        if self.below(*other) {
            Some(Ordering::Less)
        } else if other.below(*self) {
            Some(Ordering::Greater)
        } else if self.equals(*other) {
            Some(Ordering::Equal)
        } else {
            None
        }
    }
}

/// A double-precision number in the IEEE 754 binary64 format, together with its two decimal
/// renderings, which its bits determine: `debug` reads back as the same number, and `display` is
/// the plain form for readers.
#[derive(Clone, Debug, PartialEq, Eq, PartialOrd, Ord, Hash)]
pub struct Float64 {
    pub bits: u64,
    pub debug: String,
    pub display: String,
}

} // verus!
