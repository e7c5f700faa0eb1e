use crate::float::format::Format;
use vstd::prelude::*;

verus! {

/// The bit pattern of one in single precision.
pub const SINGLE_ONE: u32 = 0x3f80_0000;

/// The bit pattern of two in single precision.
pub const SINGLE_TWO: u32 = 0x4000_0000;

/// The bit pattern of a half in single precision.
pub const SINGLE_HALF: u32 = 0x3f00_0000;

/// The bit pattern of a quarter in single precision.
pub const SINGLE_QUARTER: u32 = 0x3e80_0000;

/// The bit pattern of positive infinity in single precision.
pub const SINGLE_INFINITY: u32 = 0x7f80_0000;

/// The bit pattern of negative infinity in single precision.
pub const SINGLE_NEG_INFINITY: u32 = 0xff80_0000;

/// The bit pattern of one in double precision.
pub const DOUBLE_ONE: u64 = 0x3ff0_0000_0000_0000;

/// The bit pattern of ten in double precision.
pub const DOUBLE_TEN: u64 = 0x4024_0000_0000_0000;

/// A single-precision number, as its bit pattern. Equality is equality of the
/// patterns; the order of the numbers is `less` and `at_most`.
#[derive(Clone, Copy, Debug, PartialEq, Eq, Structural)]
pub struct Single {
    pub bits: u32,
}

impl Single {
    /// The number with the bit pattern `bits`.
    pub open spec fn of(bits: int) -> Single {
        Single { bits: bits as u32 }
    }

    pub open spec fn is_nan(self) -> bool {
        Format::Single.is_nan(self.bits as int)
    }

    pub open spec fn is_finite(self) -> bool {
        Format::Single.is_finite(self.bits as int)
    }

    pub open spec fn plus(self, other: Single) -> Single {
        Single::of(Format::Single.sum(self.bits as int, other.bits as int))
    }

    pub open spec fn minus(self, other: Single) -> Single {
        Single::of(Format::Single.difference(self.bits as int, other.bits as int))
    }

    pub open spec fn times(self, other: Single) -> Single {
        Single::of(Format::Single.product(self.bits as int, other.bits as int))
    }

    pub open spec fn over(self, other: Single) -> Single {
        Single::of(Format::Single.quotient(self.bits as int, other.bits as int))
    }

    pub open spec fn opposite(self) -> Single {
        Single::of(Format::Single.negated(self.bits as int))
    }

    /// `self < other`; false where either is not a number.
    pub open spec fn less(self, other: Single) -> bool {
        Format::Single.less(self.bits as int, other.bits as int)
    }

    /// `self <= other`; false where either is not a number.
    pub open spec fn at_most(self, other: Single) -> bool {
        Format::Single.less_equal(self.bits as int, other.bits as int)
    }

    /// The lesser of two numbers; where one is not a number, the other.
    pub open spec fn lesser(self, other: Single) -> Single {
        if self.is_nan() || other.less(self) {
            other
        } else {
            self
        }
    }

    /// The greater of two numbers; where one is not a number, the other.
    pub open spec fn greater(self, other: Single) -> Single {
        if self.is_nan() || self.less(other) {
            other
        } else {
            self
        }
    }

    /// The number moved to the nearer end where it lies outside `low` to `high`.
    pub open spec fn clamped(self, low: Single, high: Single) -> Single {
        if self.less(low) {
            low
        } else if high.less(self) {
            high
        } else {
            self
        }
    }

    /// The number nearest to a whole number.
    pub open spec fn of_integer(n: int) -> Single {
        Single::of(Format::Single.of_integer(n))
    }

    /// The number cut to a whole number from 0 to `max`.
    pub open spec fn whole(self, max: int) -> int {
        Format::Single.to_integer(self.bits as int, max)
    }

    pub fn add(self, other: Single) -> (r: Single)
        ensures
            r == self.plus(other),
    {
        let bits: u64 = Format::Single.sum_bits(self.bits as u64, other.bits as u64);
        Single { bits: bits as u32 }
    }

    pub fn sub(self, other: Single) -> (r: Single)
        ensures
            r == self.minus(other),
    {
        let opposite: u64 = Format::Single.negate(other.bits as u64);
        let bits: u64 = Format::Single.sum_bits(self.bits as u64, opposite);
        Single { bits: bits as u32 }
    }

    pub fn mul(self, other: Single) -> (r: Single)
        ensures
            r == self.times(other),
    {
        let bits: u64 = Format::Single.multiply(self.bits as u64, other.bits as u64);
        Single { bits: bits as u32 }
    }

    pub fn div(self, other: Single) -> (r: Single)
        ensures
            r == self.over(other),
    {
        let bits: u64 = Format::Single.divide(self.bits as u64, other.bits as u64);
        Single { bits: bits as u32 }
    }

    pub fn neg(self) -> (r: Single)
        ensures
            r == self.opposite(),
    {
        let bits: u64 = Format::Single.negate(self.bits as u64);
        Single { bits: bits as u32 }
    }

    pub fn lt(self, other: Single) -> (r: bool)
        ensures
            r == self.less(other),
    {
        Format::Single.less_than(self.bits as u64, other.bits as u64)
    }

    pub fn le(self, other: Single) -> (r: bool)
        ensures
            r == self.at_most(other),
    {
        Format::Single.at_most(self.bits as u64, other.bits as u64)
    }

    pub fn is_number(self) -> (r: bool)
        ensures
            r == !self.is_nan(),
    {
        let (_, size) = Format::Single.split_sign(self.bits as u64);
        size <= Format::Single.infinity_bits()
    }

    pub fn min(self, other: Single) -> (r: Single)
        ensures
            r == self.lesser(other),
    {
        if !self.is_number() || other.lt(self) {
            other
        } else {
            self
        }
    }

    pub fn max(self, other: Single) -> (r: Single)
        ensures
            r == self.greater(other),
    {
        if !self.is_number() || self.lt(other) {
            other
        } else {
            self
        }
    }

    pub fn clamp(self, low: Single, high: Single) -> (r: Single)
        ensures
            r == self.clamped(low, high),
    {
        if self.lt(low) {
            low
        } else if high.lt(self) {
            high
        } else {
            self
        }
    }

    pub fn from_integer(n: u64) -> (r: Single)
        ensures
            r == Single::of_integer(n as int),
    {
        Single { bits: Format::Single.from_integer(n) as u32 }
    }

    /// The number cut to an index.
    pub fn to_usize(self) -> (r: usize)
        ensures
            r == self.whole(usize::MAX as int),
    {
        Format::Single.truncate(self.bits as u64, usize::MAX as u64) as usize
    }

    pub open spec fn widened(self) -> Double {
        Double::of(Format::Single.converted(Format::Double, self.bits as int))
    }

    pub fn to_double(self) -> (r: Double)
        ensures
            r == self.widened(),
    {
        Double { bits: Format::Single.convert(Format::Double, self.bits as u64) }
    }
}

/// A double-precision number, as its bit pattern. Equality is equality of the
/// patterns; the order of the numbers is `less` and `at_most`.
#[derive(Clone, Copy, Debug, PartialEq, Eq, Structural)]
pub struct Double {
    pub bits: u64,
}

impl Double {
    /// The number with the bit pattern `bits`.
    pub open spec fn of(bits: int) -> Double {
        Double { bits: bits as u64 }
    }

    pub open spec fn is_nan(self) -> bool {
        Format::Double.is_nan(self.bits as int)
    }

    pub open spec fn is_finite(self) -> bool {
        Format::Double.is_finite(self.bits as int)
    }

    pub open spec fn plus(self, other: Double) -> Double {
        Double::of(Format::Double.sum(self.bits as int, other.bits as int))
    }

    pub open spec fn minus(self, other: Double) -> Double {
        Double::of(Format::Double.difference(self.bits as int, other.bits as int))
    }

    pub open spec fn times(self, other: Double) -> Double {
        Double::of(Format::Double.product(self.bits as int, other.bits as int))
    }

    pub open spec fn over(self, other: Double) -> Double {
        Double::of(Format::Double.quotient(self.bits as int, other.bits as int))
    }

    pub open spec fn opposite(self) -> Double {
        Double::of(Format::Double.negated(self.bits as int))
    }

    /// `self < other`; false where either is not a number.
    pub open spec fn less(self, other: Double) -> bool {
        Format::Double.less(self.bits as int, other.bits as int)
    }

    /// `self <= other`; false where either is not a number.
    pub open spec fn at_most(self, other: Double) -> bool {
        Format::Double.less_equal(self.bits as int, other.bits as int)
    }

    /// The lesser of two numbers; where one is not a number, the other.
    pub open spec fn lesser(self, other: Double) -> Double {
        if self.is_nan() || other.less(self) {
            other
        } else {
            self
        }
    }

    /// The greater of two numbers; where one is not a number, the other.
    pub open spec fn greater(self, other: Double) -> Double {
        if self.is_nan() || self.less(other) {
            other
        } else {
            self
        }
    }

    /// The number moved to the nearer end where it lies outside `low` to `high`.
    pub open spec fn clamped(self, low: Double, high: Double) -> Double {
        if self.less(low) {
            low
        } else if high.less(self) {
            high
        } else {
            self
        }
    }

    /// The number nearest to a whole number.
    pub open spec fn of_integer(n: int) -> Double {
        Double::of(Format::Double.of_integer(n))
    }

    /// The number cut to a whole number from 0 to `max`.
    pub open spec fn whole(self, max: int) -> int {
        Format::Double.to_integer(self.bits as int, max)
    }

    pub fn add(self, other: Double) -> (r: Double)
        ensures
            r == self.plus(other),
    {
        let bits: u64 = Format::Double.sum_bits(self.bits as u64, other.bits as u64);
        Double { bits: bits as u64 }
    }

    pub fn sub(self, other: Double) -> (r: Double)
        ensures
            r == self.minus(other),
    {
        let opposite: u64 = Format::Double.negate(other.bits as u64);
        let bits: u64 = Format::Double.sum_bits(self.bits as u64, opposite);
        Double { bits: bits as u64 }
    }

    pub fn mul(self, other: Double) -> (r: Double)
        ensures
            r == self.times(other),
    {
        let bits: u64 = Format::Double.multiply(self.bits as u64, other.bits as u64);
        Double { bits: bits as u64 }
    }

    pub fn div(self, other: Double) -> (r: Double)
        ensures
            r == self.over(other),
    {
        let bits: u64 = Format::Double.divide(self.bits as u64, other.bits as u64);
        Double { bits: bits as u64 }
    }

    pub fn neg(self) -> (r: Double)
        ensures
            r == self.opposite(),
    {
        let bits: u64 = Format::Double.negate(self.bits as u64);
        Double { bits: bits as u64 }
    }

    pub fn lt(self, other: Double) -> (r: bool)
        ensures
            r == self.less(other),
    {
        Format::Double.less_than(self.bits as u64, other.bits as u64)
    }

    pub fn le(self, other: Double) -> (r: bool)
        ensures
            r == self.at_most(other),
    {
        Format::Double.at_most(self.bits as u64, other.bits as u64)
    }

    pub fn is_number(self) -> (r: bool)
        ensures
            r == !self.is_nan(),
    {
        let (_, size) = Format::Double.split_sign(self.bits as u64);
        size <= Format::Double.infinity_bits()
    }

    pub fn min(self, other: Double) -> (r: Double)
        ensures
            r == self.lesser(other),
    {
        if !self.is_number() || other.lt(self) {
            other
        } else {
            self
        }
    }

    pub fn max(self, other: Double) -> (r: Double)
        ensures
            r == self.greater(other),
    {
        if !self.is_number() || self.lt(other) {
            other
        } else {
            self
        }
    }

    pub fn clamp(self, low: Double, high: Double) -> (r: Double)
        ensures
            r == self.clamped(low, high),
    {
        if self.lt(low) {
            low
        } else if high.lt(self) {
            high
        } else {
            self
        }
    }

    pub fn from_integer(n: u64) -> (r: Double)
        ensures
            r == Double::of_integer(n as int),
    {
        Double { bits: Format::Double.from_integer(n) as u64 }
    }

    /// The number cut to an index.
    pub fn to_usize(self) -> (r: usize)
        ensures
            r == self.whole(usize::MAX as int),
    {
        Format::Double.truncate(self.bits as u64, usize::MAX as u64) as usize
    }

    /// The single-precision number nearest to this one.
    pub open spec fn narrowed(self) -> Single {
        Single::of(Format::Double.converted(Format::Single, self.bits as int))
    }

    /// The remainder of a division by one.
    pub open spec fn fraction(self) -> Double {
        Double::of(Format::Double.fraction(self.bits as int))
    }

    /// The number rounded up to a whole number from 0 to `max`.
    pub open spec fn whole_above(self, max: int) -> int {
        Format::Double.ceil_to_integer(self.bits as int, max)
    }

    pub fn to_single(self) -> (r: Single)
        ensures
            r == self.narrowed(),
    {
        Single { bits: Format::Double.convert(Format::Single, self.bits) as u32 }
    }

    pub fn rem_one(self) -> (r: Double)
        ensures
            r == self.fraction(),
    {
        Double { bits: Format::Double.remainder_of_one(self.bits) }
    }

    pub fn ceil_to_usize(self) -> (r: usize)
        ensures
            r == self.whole_above(usize::MAX as int),
    {
        Format::Double.round_up(self.bits, usize::MAX as u64) as usize
    }

    pub fn to_u64(self) -> (r: u64)
        ensures
            r == self.whole(u64::MAX as int),
    {
        Format::Double.truncate(self.bits, u64::MAX)
    }

    pub fn to_u32(self) -> (r: u32)
        ensures
            r == self.whole(u32::MAX as int),
    {
        Format::Double.truncate(self.bits, u32::MAX as u64) as u32
    }

    pub fn finite(self) -> (r: bool)
        ensures
            r == self.is_finite(),
    {
        let (_, size) = Format::Double.split_sign(self.bits);
        size < Format::Double.infinity_bits()
    }
}

} // verus!
