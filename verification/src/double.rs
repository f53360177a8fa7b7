//! Order of double-precision numbers, which are carried by their bit patterns.

use vstd::prelude::*;

verus! {

/// A double-precision number of IEEE 754, held as its 64-bit pattern: one sign bit, eleven bits
/// of exponent and fifty-two bits of fraction. Arithmetic on it is left to the caller; the
/// library compares such numbers.
#[derive(Clone, Copy, Debug)]
pub struct Double {
    pub bits: u64,
}

/// The pattern of the sign bit alone, which is also one more than the greatest magnitude.
pub const SIGN: u64 = 0x8000_0000_0000_0000;

/// The magnitude of infinity: whatever lies above it is not a number.
pub const INFINITY: u64 = 0x7ff0_0000_0000_0000;

impl Double {
    /// The pattern without its sign bit.
    pub open spec fn magnitude(self) -> int {
        if self.bits < SIGN {
            self.bits as int
        } else {
            self.bits - SIGN
        }
    }

    /// Whether the pattern stands for no number.
    pub open spec fn is_nan(self) -> bool {
        self.magnitude() > INFINITY
    }

    /// An integer that orders the numbers: for a fixed sign the patterns grow with the number,
    /// and both zeros have rank zero.
    pub open spec fn rank(self) -> int {
        if self.bits < SIGN {
            self.magnitude()
        } else {
            -self.magnitude()
        }
    }

    /// Whether the number is greater than `other`; not-a-number compares with nothing.
    pub open spec fn exceeds(self, other: Double) -> bool {
        !self.is_nan() && !other.is_nan() && self.rank() > other.rank()
    }

    /// Whether the number is zero, of either sign.
    pub open spec fn equals_zero(self) -> bool {
        self.rank() == 0
    }

    /// The greater of two numbers; the other one where one is not a number.
    pub open spec fn larger(self, other: Double) -> Double {
        if self.is_nan() || other.exceeds(self) {
            other
        } else {
            self
        }
    }

    /// Positive zero.
    pub open spec fn spec_zero() -> Double {
        Double { bits: 0 }
    }

    /// Positive zero.
    pub fn zero() -> (zero: Double)
        ensures
            zero == Double::spec_zero(),
    {
        Double { bits: 0 }
    }

    /// Whether the pattern stands for no number.
    pub fn nan(self) -> (nan: bool)
        ensures
            nan == self.is_nan(),
    {
        if self.bits < SIGN {
            self.bits > INFINITY
        } else {
            self.bits - SIGN > INFINITY
        }
    }

    /// Whether the number is greater than `other`.
    pub fn gt(self, other: Double) -> (greater: bool)
        ensures
            greater == self.exceeds(other),
    {
        if self.nan() || other.nan() {
            return false;
        }
        if self.bits < SIGN {
            if other.bits < SIGN {
                self.bits > other.bits
            } else {
                self.bits > 0 || other.bits > SIGN
            }
        } else {
            other.bits >= SIGN && self.bits < other.bits
        }
    }

    /// Whether the number is zero.
    pub fn is_zero(self) -> (zero: bool)
        ensures
            zero == self.equals_zero(),
    {
        self.bits == 0 || self.bits == SIGN
    }

    /// The greater of two numbers.
    pub fn max(self, other: Double) -> (greater: Double)
        ensures
            greater == self.larger(other),
    {
        if self.nan() || other.gt(self) {
            other
        } else {
            self
        }
    }
}

/// A number, and what is shown of it: the number rounded to four decimal places. As all arithmetic,
/// the rounding is left to the caller.
#[derive(Clone, Copy, Debug)]
pub struct Rounded {
    pub value: Double,
    pub shown: Double,
}

impl Rounded {
    /// Whether what is shown is the number as `rounding` rounds it.
    pub open spec fn is_by(self, rounding: spec_fn(Double) -> Double) -> bool {
        self.shown == rounding(self.value)
    }

    /// The greater of two numbers, with what is shown of it.
    pub open spec fn larger(self, other: Rounded) -> Rounded {
        if self.value.is_nan() || other.value.exceeds(self.value) {
            other
        } else {
            self
        }
    }

    /// Positive zero, which is shown as it is.
    pub open spec fn spec_zero() -> Rounded {
        Rounded { value: Double::spec_zero(), shown: Double::spec_zero() }
    }

    /// Positive zero.
    pub fn zero() -> (zero: Rounded)
        ensures
            zero == Rounded::spec_zero(),
    {
        Rounded { value: Double::zero(), shown: Double::zero() }
    }

    /// The greater of two numbers.
    pub fn max(self, other: Rounded) -> (greater: Rounded)
        ensures
            greater == self.larger(other),
    {
        if self.value.nan() || other.value.gt(self.value) {
            other
        } else {
            self
        }
    }
}

/// A number raised to a floor never falls below it.
pub proof fn lemma_larger_bounds(value: Double, floor: Double)
    ensures
        !floor.exceeds(value.larger(floor)),
        !value.exceeds(value.larger(floor)),
        value.larger(floor) == value || value.larger(floor) == floor,
{
}

/// "Greater than" is asymmetric and transitive.
pub proof fn law_greater_is_an_order(a: Double, b: Double, c: Double)
    ensures
        a.exceeds(b) ==> !b.exceeds(a),
        a.exceeds(b) && b.exceeds(c) ==> a.exceeds(c),
{
}

/// Numbers are ordered as their patterns tell: positive ones by the pattern, negative ones the
/// other way round, and every negative number is below every positive one; both zeros are alike.
/// What is not a number is neither greater nor smaller than anything.
pub proof fn law_patterns_order_numbers(a: Double, b: Double)
    ensures
        a.is_nan() || b.is_nan() ==> !a.exceeds(b),
        a.is_nan() <==> (INFINITY < a.bits < SIGN || a.bits > SIGN + INFINITY),
        !a.is_nan() && !b.is_nan() && a.bits < SIGN && b.bits < SIGN ==> (a.exceeds(b) <==> a.bits
            > b.bits),
        !a.is_nan() && !b.is_nan() && a.bits >= SIGN && b.bits >= SIGN ==> (a.exceeds(b) <==> a.bits
            < b.bits),
        !a.is_nan() && !b.is_nan() && 0 < a.bits < SIGN && b.bits >= SIGN ==> a.exceeds(b),
        !a.is_nan() && !b.is_nan() && a.bits < SIGN && b.bits > SIGN ==> a.exceeds(b),
        !a.is_nan() && !b.is_nan() && a.bits >= SIGN && b.bits < SIGN ==> !a.exceeds(b),
        a.equals_zero() <==> a.bits == 0 || a.bits == SIGN,
        a.equals_zero() && b.equals_zero() ==> !a.exceeds(b),
{
}

/// The greater of two numbers is one of them, and neither is greater than it; one that is not a
/// number gives way to the other. With the rounding of numbers goes that of the greater one.
pub proof fn law_the_greater_is_one_of_both(a: Rounded, b: Rounded)
    ensures
        a.larger(b) == a || a.larger(b) == b,
        !a.value.exceeds(a.larger(b).value),
        !b.value.exceeds(a.larger(b).value),
        a.value.exceeds(b.value) ==> a.larger(b) == a,
        b.value.exceeds(a.value) ==> a.larger(b) == b,
        a.value.is_nan() ==> a.larger(b) == b,
        b.value.is_nan() && !a.value.is_nan() ==> a.larger(b) == a,
        a.larger(b).value == a.value.larger(b.value),
{
}

} // verus!
