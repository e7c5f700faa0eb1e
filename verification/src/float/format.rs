use vstd::arithmetic::power2::*;
use vstd::prelude::*;

verus! {

/// The two binary interchange formats of IEEE 754 that audio samples and
/// playback positions are kept in.
///
/// A number is handled as its bit pattern. Every finite number of a format is a
/// whole multiple of the format's least positive number, so the exact value of
/// a bit pattern is an `int`: how many of those units it stands for.
#[derive(Clone, Copy, PartialEq, Eq, Structural)]
pub enum Format {
    Single,
    Double,
}

impl Format {
    /// Significant binary digits of a normal number.
    pub open spec fn precision(self) -> nat {
        match self {
            Format::Single => 24,
            Format::Double => 53,
        }
    }

    /// The leading digit of a normal number, which the bit pattern leaves out:
    /// two to the power `precision - 1`.
    pub open spec fn hidden(self) -> int {
        match self {
            Format::Single => 0x80_0000,
            Format::Double => 0x10_0000_0000_0000,
        }
    }

    /// One is this power of two units.
    pub open spec fn scale(self) -> nat {
        match self {
            Format::Single => 149,
            Format::Double => 1074,
        }
    }

    /// The bit pattern of positive infinity.
    pub open spec fn infinity(self) -> int {
        match self {
            Format::Single => 0x7f80_0000,
            Format::Double => 0x7ff0_0000_0000_0000,
        }
    }

    /// The weight of the sign bit.
    pub open spec fn sign_bit(self) -> int {
        match self {
            Format::Single => 0x8000_0000,
            Format::Double => 0x8000_0000_0000_0000,
        }
    }

    /// The bit pattern given for a result that is not a number.
    pub open spec fn quiet_nan(self) -> int {
        match self {
            Format::Single => 0x7fc0_0000,
            Format::Double => 0x7ff8_0000_0000_0000,
        }
    }

    /// Whether `bits` fits the width of the format.
    pub open spec fn holds(self, bits: int) -> bool {
        0 <= bits < 2 * self.sign_bit()
    }

    pub open spec fn negative(self, bits: int) -> bool {
        bits >= self.sign_bit()
    }

    /// The bit pattern without its sign.
    pub open spec fn magnitude(self, bits: int) -> int {
        if self.negative(bits) {
            bits - self.sign_bit()
        } else {
            bits
        }
    }

    /// A magnitude with a sign put in front.
    pub open spec fn signed(self, negative: bool, magnitude: int) -> int {
        if negative {
            self.sign_bit() + magnitude
        } else {
            magnitude
        }
    }

    pub open spec fn is_nan(self, bits: int) -> bool {
        self.magnitude(bits) > self.infinity()
    }

    pub open spec fn is_infinite(self, bits: int) -> bool {
        self.magnitude(bits) == self.infinity()
    }

    pub open spec fn is_finite(self, bits: int) -> bool {
        self.magnitude(bits) < self.infinity()
    }

    pub open spec fn is_zero(self, bits: int) -> bool {
        self.magnitude(bits) == 0
    }

    /// How many units a magnitude stands for. Infinity counts as the number
    /// after the largest finite one, so that the order of the units is the
    /// order of the numbers.
    pub open spec fn units(self, magnitude: int) -> int {
        let field = magnitude / self.hidden();
        let fraction = magnitude % self.hidden();
        if field == 0 {
            fraction
        } else {
            (self.hidden() + fraction) * pow2((field - 1) as nat)
        }
    }

    /// The exact value of a bit pattern that is a number, in units.
    pub open spec fn value(self, bits: int) -> int {
        if self.negative(bits) {
            -self.units(self.magnitude(bits))
        } else {
            self.units(self.magnitude(bits))
        }
    }

    /// How many binary digits `n` has; zero has none.
    pub open spec fn bit_length(n: nat) -> nat
        decreases n,
    {
        if n == 0 {
            0
        } else {
            1 + Self::bit_length(n / 2)
        }
    }

    /// The whole number nearest to `num / den`; of two equally near, the even one.
    pub open spec fn nearest_even(num: int, den: int) -> int {
        let floor = num / den;
        let rest = num % den;
        if 2 * rest < den || (2 * rest == den && floor % 2 == 0) {
            floor
        } else {
            floor + 1
        }
    }

    /// The power of two, in units, that numbers of the size of `num / den` are
    /// spaced by.
    pub open spec fn spacing(self, num: int, den: int) -> nat {
        let length = Self::bit_length((num / den) as nat);
        if length > self.precision() {
            (length - self.precision()) as nat
        } else {
            0
        }
    }

    /// The magnitude nearest to `num / den` units, ties to even, with infinity
    /// beyond the largest finite number.
    pub open spec fn rounded(self, num: int, den: int) -> int {
        let step = self.spacing(num, den);
        let magnitude = step * self.hidden() + Self::nearest_even(num, den * pow2(step));
        if magnitude < self.infinity() {
            magnitude
        } else {
            self.infinity()
        }
    }

    /// The exact value `num / den` units, rounded to the format. `zero_negative`
    /// is the sign that an exact zero takes.
    pub open spec fn rounded_value(self, num: int, den: int, zero_negative: bool) -> int {
        if num == 0 {
            self.signed(zero_negative, 0)
        } else if num < 0 {
            self.signed(true, self.rounded(-num, den))
        } else {
            self.signed(false, self.rounded(num, den))
        }
    }

    pub open spec fn sum(self, a: int, b: int) -> int {
        if self.is_nan(a) || self.is_nan(b) {
            self.quiet_nan()
        } else if self.is_infinite(a) && self.is_infinite(b) {
            if a == b {
                a
            } else {
                self.quiet_nan()
            }
        } else if self.is_infinite(a) {
            a
        } else if self.is_infinite(b) {
            b
        } else {
            self.rounded_value(
                self.value(a) + self.value(b),
                1,
                self.negative(a) && self.negative(b),
            )
        }
    }

    pub open spec fn negated(self, a: int) -> int {
        self.signed(!self.negative(a), self.magnitude(a))
    }

    pub open spec fn difference(self, a: int, b: int) -> int {
        self.sum(a, self.negated(b))
    }

    pub open spec fn product(self, a: int, b: int) -> int {
        let negative = self.negative(a) != self.negative(b);
        if self.is_nan(a) || self.is_nan(b) {
            self.quiet_nan()
        } else if self.is_infinite(a) || self.is_infinite(b) {
            if self.is_zero(a) || self.is_zero(b) {
                self.quiet_nan()
            } else {
                self.signed(negative, self.infinity())
            }
        } else {
            self.signed(
                negative,
                self.rounded(
                    self.units(self.magnitude(a)) * self.units(self.magnitude(b)),
                    pow2(self.scale()) as int,
                ),
            )
        }
    }

    pub open spec fn quotient(self, a: int, b: int) -> int {
        let negative = self.negative(a) != self.negative(b);
        if self.is_nan(a) || self.is_nan(b) {
            self.quiet_nan()
        } else if self.is_infinite(a) {
            if self.is_infinite(b) {
                self.quiet_nan()
            } else {
                self.signed(negative, self.infinity())
            }
        } else if self.is_infinite(b) {
            self.signed(negative, 0)
        } else if self.is_zero(b) {
            if self.is_zero(a) {
                self.quiet_nan()
            } else {
                self.signed(negative, self.infinity())
            }
        } else {
            self.signed(
                negative,
                self.rounded(
                    self.units(self.magnitude(a)) * pow2(self.scale()),
                    self.units(self.magnitude(b)),
                ),
            )
        }
    }

    /// `a < b`; false where either is not a number.
    pub open spec fn less(self, a: int, b: int) -> bool {
        &&& !self.is_nan(a)
        &&& !self.is_nan(b)
        &&& self.value(a) < self.value(b)
    }

    /// `a <= b`; false where either is not a number.
    pub open spec fn less_equal(self, a: int, b: int) -> bool {
        &&& !self.is_nan(a)
        &&& !self.is_nan(b)
        &&& self.value(a) <= self.value(b)
    }
}

} // verus!
