use crate::float::format::Format;
use crate::float::number::{Double, Single, DOUBLE_ONE, SINGLE_ONE};
use vstd::arithmetic::div_mod::*;
use vstd::arithmetic::power2::*;
use vstd::prelude::*;

verus! {

impl Format {
    /// How far apart two whole numbers are.
    pub open spec fn distance(a: int, b: int) -> int {
        if a < b {
            b - a
        } else {
            a - b
        }
    }

    /// Two to the power `k`, in units.
    pub open spec fn most(self, k: nat) -> int {
        pow2(self.scale() + k) as int
    }

    /// How far a result up to two to the power `k` may be off, in units: half the
    /// last digit of such a number.
    pub open spec fn error(self, k: nat) -> int {
        pow2((self.scale() + k - self.precision()) as nat) as int
    }

    /// Whether a pattern fits the format and stands for a finite number.
    pub open spec fn is_number(self, bits: int) -> bool {
        self.holds(bits) && self.is_finite(bits)
    }

    pub proof fn lemma_most(self, k: nat)
        ensures
            self.most(k) > 0,
            self.error(k) > 0,
            self.most(0) == self.one(),
            self.most(k + 1) == 2 * self.most(k),
            self.error(k + 1) == 2 * self.error(k),
            self.most(k) == 2 * self.hidden() * self.error(k),
            self.most(k) >= self.one(),
            self.most(k) >= 64 * self.error(k),
    {
        lemma_pow2_pos(self.scale() + k);
        lemma_pow2_pos((self.scale() + k - self.precision()) as nat);
        crate::float::round::lemma_pow2_double(self.scale() + k);
        crate::float::round::lemma_pow2_double((self.scale() + k - self.precision()) as nat);
        self.lemma_hidden_is_power();
        lemma_pow2_adds(self.precision(), (self.scale() + k - self.precision()) as nat);
        crate::float::round::lemma_pow2_monotone(self.scale(), self.scale() + k);
        let digits = 2 * self.hidden();
        let error = self.error(k);
        assert(digits * error >= 64 * error) by (nonlinear_arith)
            requires
                digits >= 64,
                error > 0,
        ;
    }

    /// Equal fractions are rounded alike.
    pub proof fn lemma_equal_fractions(self, num: int, den: int, other_num: int, other_den: int)
        requires
            num >= 0,
            other_num >= 0,
            den > 0,
            other_den > 0,
            num * other_den == other_num * den,
        ensures
            self.rounded(num, den) == self.rounded(other_num, other_den),
    {
        self.law_rounding_keeps_order(num, den, other_num, other_den);
        self.law_rounding_keeps_order(other_num, other_den, num, den);
    }

    /// A fraction up to two to the power `k` is rounded to a finite number that is
    /// off by no more than the error of that size.
    pub proof fn lemma_rounded_error(self, num: int, den: int, k: nat)
        requires
            num >= 0,
            den > 0,
            k <= 60,
            num <= den * self.most(k),
        ensures
            0 <= self.rounded(num, den) < self.infinity(),
            self.units(self.rounded(num, den)) >= 0,
            Format::distance(den * self.units(self.rounded(num, den)), num) <= den * self.error(k),
    {
        let scale = self.scale();
        let high = pow2(64 + scale) as int;
        let most = self.most(k);
        self.lemma_most(k);
        lemma_pow2_strictly_increases(scale + k, 64 + scale);
        assert(num < den * high) by (nonlinear_arith)
            requires
                num <= den * most,
                most < high,
                den > 0,
        ;
        self.lemma_rounded_finite(num, den);
        self.lemma_rounded_digits(num, den);
        let step = self.spacing(num, den);
        let power = pow2(step) as int;
        let divisor = den * power;
        let q = Format::nearest_even(num, divisor);
        let floor = num / den;
        lemma_pow2_pos(step);
        lemma_fundamental_div_mod(num, den);
        lemma_mod_bound(num, den);
        lemma_div_pos_is_pos(num, den);
        assert(floor <= most) by (nonlinear_arith)
            requires
                den * floor <= num,
                num <= den * most,
                den > 0,
        ;
        crate::float::round::lemma_bit_length_bounds(floor as nat);
        let length = Format::bit_length(floor as nat);
        if length > scale + k + 1 {
            crate::float::round::lemma_pow2_double(scale + k);
            crate::float::round::lemma_pow2_monotone(scale + k + 1, (length - 1) as nat);
        }
        let half = self.error(k);
        assert(power <= 2 * half) by {
            let places = (scale + k - self.precision()) as nat;
            crate::float::round::lemma_pow2_double(places);
            crate::float::round::lemma_pow2_monotone(step, places + 1);
        }
        assert(divisor > 0) by (nonlinear_arith)
            requires
                divisor == den * power,
                den > 0,
                power > 0,
        ;
        Format::lemma_nearest_error(num, divisor);
        let units = q * power;
        assert(den * units == q * divisor) by (nonlinear_arith)
            requires
                units == q * power,
                divisor == den * power,
        ;
        assert(divisor <= 2 * (den * half)) by (nonlinear_arith)
            requires
                divisor == den * power,
                power <= 2 * half,
                den > 0,
        ;
        assert(units >= 0) by (nonlinear_arith)
            requires
                units == q * power,
                q >= 0,
                power > 0,
        ;
    }

    /// A whole number of units is rounded off by no more than its last digit allows.
    pub proof fn lemma_rounded_relative(self, num: int)
        requires
            num >= 0,
            self.rounded(num, 1) < self.infinity(),
        ensures
            2 * self.hidden() * Format::distance(self.units(self.rounded(num, 1)), num) <= num,
    {
        let hidden = self.hidden();
        let step = self.spacing(num, 1);
        let power = pow2(step) as int;
        let q = Format::nearest_even(num, power);
        lemma_pow2_pos(step);
        self.lemma_rounded_digits(num, 1);
        Format::lemma_nearest_error(num, power);
        assert(1 * power == power);
        let off = Format::distance(q * power, num);
        if step == 0 {
            crate::float::round::lemma_pow2_zero_one();
            assert(q * power == q) by (nonlinear_arith)
                requires
                    power == 1,
            ;
            assert(off == 0);
            assert(2 * hidden * off == 0) by (nonlinear_arith)
                requires
                    off == 0,
            ;
        } else {
            assert(2 * hidden * off <= num) by (nonlinear_arith)
                requires
                    2 * off <= power,
                    hidden * power <= num,
                    hidden > 0,
            ;
        }
    }

    /// A sum that a number stands for is that number.
    pub proof fn lemma_sum_exact(self, a: int, b: int, magnitude: int)
        requires
            self.is_number(a),
            self.is_number(b),
            0 <= magnitude < self.infinity(),
            Format::distance(self.value(a) + self.value(b), 0) == self.units(magnitude),
        ensures
            self.is_number(self.sum(a, b)),
            self.value(self.sum(a, b)) == self.value(a) + self.value(b),
    {
        let total = self.value(a) + self.value(b);
        self.law_rounding_keeps_numbers(magnitude);
        self.lemma_units_zero();
        self.lemma_signed(true, magnitude);
        self.lemma_signed(false, magnitude);
    }

    /// A finite sum is the rounded size of the exact one, with its sign.
    pub proof fn lemma_sum_parts(self, a: int, b: int)
        requires
            self.is_number(a),
            self.is_number(b),
        ensures
            ({
                let total = self.value(a) + self.value(b);
                self.value(self.sum(a, b)) == if total < 0 {
                    -self.units(self.rounded(-total, 1))
                } else {
                    self.units(self.rounded(total, 1))
                }
            }),
    {
        let total = self.value(a) + self.value(b);
        self.lemma_units_zero();
        self.lemma_rounded_zero(1);
        if total < 0 {
            self.lemma_rounded_range(-total, 1);
        } else {
            self.lemma_rounded_range(total, 1);
        }
    }

    /// A quotient that a number stands for is that number.
    pub proof fn lemma_quotient_exact(self, a: int, b: int, magnitude: int)
        requires
            self.is_number(a),
            self.is_number(b),
            self.value(b) > 0,
            0 <= magnitude < self.infinity(),
            self.units(self.magnitude(a)) * self.one() == self.value(b) * self.units(magnitude),
        ensures
            self.is_number(self.quotient(a, b)),
            self.value(self.quotient(a, b)) == self.units(magnitude) || self.value(
                self.quotient(a, b),
            ) == -self.units(magnitude),
            self.negative(a) == self.negative(self.quotient(a, b)),
    {
        self.lemma_value(a);
        self.lemma_value(b);
        self.lemma_exact(
            self.units(self.magnitude(a)) * self.one(),
            self.value(b),
            magnitude,
        );
        self.lemma_signed(self.negative(a), magnitude);
    }

    /// The value of a pattern is its size with a sign.
    pub proof fn lemma_value(self, bits: int)
        requires
            self.holds(bits),
        ensures
            self.units(self.magnitude(bits)) >= 0,
            self.magnitude(bits) > 0 ==> self.units(self.magnitude(bits)) > 0,
            self.magnitude(bits) == 0 ==> self.units(self.magnitude(bits)) == 0,
            self.value(bits) == self.units(self.magnitude(bits)) || self.value(bits)
                == -self.units(self.magnitude(bits)),
            self.holds(self.negated(bits)),
            self.magnitude(self.negated(bits)) == self.magnitude(bits),
            !self.is_nan(bits) ==> self.value(self.negated(bits)) == -self.value(bits),
    {
        self.lemma_units_zero();
        if self.magnitude(bits) > 0 {
            self.lemma_units_increase(0, self.magnitude(bits));
        }
    }

    /// The rounded value of a fraction with a sign.
    proof fn lemma_signed(self, negative: bool, magnitude: int)
        requires
            0 <= magnitude <= self.infinity(),
        ensures
            self.holds(self.signed(negative, magnitude)),
            self.magnitude(self.signed(negative, magnitude)) == magnitude,
            self.value(self.signed(negative, magnitude)) == if negative {
                -self.units(magnitude)
            } else {
                self.units(magnitude)
            },
    {
    }

    /// How far a sum is off.
    pub proof fn lemma_sum_error(self, a: int, b: int, k: nat)
        requires
            self.is_number(a),
            self.is_number(b),
            k <= 60,
            Format::distance(self.value(a) + self.value(b), 0) <= self.most(k),
        ensures
            self.is_number(self.sum(a, b)),
            Format::distance(self.value(self.sum(a, b)), self.value(a) + self.value(b))
                <= self.error(k),
    {
        let total = self.value(a) + self.value(b);
        self.lemma_most(k);
        self.lemma_units_zero();
        if total < 0 {
            self.lemma_rounded_error(-total, 1, k);
            self.lemma_signed(true, self.rounded(-total, 1));
        } else if total > 0 {
            self.lemma_rounded_error(total, 1, k);
            self.lemma_signed(false, self.rounded(total, 1));
        } else {
            self.lemma_signed(true, 0);
            self.lemma_signed(false, 0);
        }
    }

    /// How far a difference is off.
    pub proof fn lemma_difference_error(self, a: int, b: int, k: nat)
        requires
            self.is_number(a),
            self.is_number(b),
            k <= 60,
            Format::distance(self.value(a), self.value(b)) <= self.most(k),
        ensures
            self.is_number(self.difference(a, b)),
            Format::distance(self.value(self.difference(a, b)), self.value(a) - self.value(b))
                <= self.error(k),
    {
        self.lemma_value(b);
        self.lemma_sum_error(a, self.negated(b), k);
    }

    /// How far a product is off, times one.
    pub proof fn lemma_product_error(self, a: int, b: int, k: nat)
        requires
            self.is_number(a),
            self.is_number(b),
            k <= 60,
            Format::distance(self.value(a) * self.value(b), 0) <= self.one() * self.most(k),
        ensures
            self.is_number(self.product(a, b)),
            Format::distance(
                self.one() * self.value(self.product(a, b)),
                self.value(a) * self.value(b),
            )
                <= self.one() * self.error(k),
    {
        let one = self.one();
        let x = self.units(self.magnitude(a));
        let y = self.units(self.magnitude(b));
        let negative = self.negative(a) != self.negative(b);
        self.lemma_most(k);
        self.lemma_value(a);
        self.lemma_value(b);
        lemma_pow2_pos(self.scale());
        assert((-x) * (-y) == x * y && (-x) * y == -(x * y) && x * (-y) == -(x * y) && x * y >= 0)
            by (nonlinear_arith)
            requires
                x >= 0,
                y >= 0,
        ;
        self.lemma_rounded_error(x * y, one, k);
        let result = self.rounded(x * y, one);
        let units = self.units(result);
        self.lemma_signed(negative, result);
        assert(one * (-units) == -(one * units)) by (nonlinear_arith);
    }

    /// How far a quotient is off, times the divisor.
    pub proof fn lemma_quotient_error(self, a: int, b: int, k: nat)
        requires
            self.is_number(a),
            self.is_number(b),
            k <= 60,
            self.value(b) > 0,
            Format::distance(self.value(a) * self.one(), 0) <= self.value(b) * self.most(k),
        ensures
            self.is_number(self.quotient(a, b)),
            Format::distance(
                self.value(b) * self.value(self.quotient(a, b)),
                self.value(a) * self.one(),
            )
                <= self.value(b) * self.error(k),
    {
        let one = self.one();
        let x = self.units(self.magnitude(a));
        let y = self.units(self.magnitude(b));
        self.lemma_most(k);
        self.lemma_value(a);
        self.lemma_value(b);
        lemma_pow2_pos(self.scale());
        assert((-x) * one == -(x * one) && x * one >= 0) by (nonlinear_arith)
            requires
                x >= 0,
                one > 0,
        ;
        self.lemma_rounded_error(x * one, y, k);
        let result = self.rounded(x * one, y);
        let units = self.units(result);
        self.lemma_signed(self.negative(a), result);
        assert(y * (-units) == -(y * units)) by (nonlinear_arith);
    }
}

impl Format {
    /// The pattern of one.
    pub open spec fn one_bits(self) -> int {
        match self {
            Format::Single => SINGLE_ONE as int,
            Format::Double => DOUBLE_ONE as int,
        }
    }

    /// One in units.
    pub proof fn lemma_one_bits(self)
        ensures
            self.is_number(self.one_bits()),
            !self.negative(self.one_bits()),
            self.value(self.one_bits()) == self.one(),
            self.units(self.one_bits()) == self.one(),
            self.one() > 0,
    {
        lemma2_to64();
        lemma2_to64_rest();
        lemma_pow2_pos(self.scale());
        match self {
            Format::Single => {
                assert(SINGLE_ONE as int / 0x80_0000int == 127 && SINGLE_ONE as int % 0x80_0000int
                    == 0);
                lemma_pow2_adds(23, 126);
            },
            Format::Double => {
                assert(DOUBLE_ONE as int / 0x10_0000_0000_0000int == 1023 && DOUBLE_ONE as int
                    % 0x10_0000_0000_0000int == 0);
                lemma_pow2_adds(52, 1022);
            },
        }
    }

    /// A fraction that a number stands for is rounded to it.
    pub proof fn lemma_exact(self, num: int, den: int, magnitude: int)
        requires
            den > 0,
            0 <= magnitude < self.infinity(),
            num == den * self.units(magnitude),
        ensures
            num >= 0,
            self.rounded(num, den) == magnitude,
    {
        let units = self.units(magnitude);
        self.lemma_units_zero();
        if magnitude > 0 {
            self.lemma_units_increase(0, magnitude);
        }
        assert(num >= 0 && num * 1 == units * den) by (nonlinear_arith)
            requires
                num == den * units,
                den > 0,
                units >= 0,
        ;
        self.lemma_equal_fractions(num, den, units, 1);
        self.law_rounding_keeps_numbers(magnitude);
    }

    /// A product with one is the number itself.
    pub proof fn lemma_times_one(self, a: int)
        requires
            self.holds(a),
            !self.is_nan(a),
        ensures
            self.product(a, self.one_bits()) == a,
    {
        self.lemma_one_bits();
        let units = self.units(self.magnitude(a));
        if self.is_finite(a) {
            assert(units * self.one() == self.one() * units) by (nonlinear_arith);
            self.lemma_exact(units * self.one(), self.one(), self.magnitude(a));
        }
    }

    /// The pattern of twice a number, unless that is too large.
    pub open spec fn doubled(self, magnitude: int) -> int {
        if magnitude < self.hidden() {
            2 * magnitude
        } else {
            magnitude + self.hidden()
        }
    }

    /// Doubling is exact.
    pub proof fn lemma_doubled(self, magnitude: int)
        requires
            0 <= magnitude,
        ensures
            magnitude <= self.doubled(magnitude),
            self.units(self.doubled(magnitude)) == 2 * self.units(magnitude),
    {
        let hidden = self.hidden();
        let field = magnitude / hidden;
        let fraction = magnitude % hidden;
        lemma_fundamental_div_mod(magnitude, hidden);
        lemma_mod_bound(magnitude, hidden);
        lemma_div_pos_is_pos(magnitude, hidden);
        crate::float::round::lemma_pow2_zero_one();
        if magnitude < hidden {
            if 2 * magnitude < hidden {
                lemma_fundamental_div_mod_converse(2 * magnitude, hidden, 0, 2 * magnitude);
            } else {
                lemma_fundamental_div_mod_converse(
                    2 * magnitude,
                    hidden,
                    1,
                    2 * magnitude - hidden,
                );
                let power = pow2(0) as int;
                assert((2 * magnitude) * power == 2 * magnitude) by (nonlinear_arith)
                    requires
                        power == 1,
                ;
            }
            lemma_fundamental_div_mod_converse(magnitude, hidden, 0, magnitude);
        } else {
            assert(magnitude + hidden == (field + 1) * hidden + fraction) by (nonlinear_arith)
                requires
                    magnitude == hidden * field + fraction,
            ;
            assert(field >= 1) by (nonlinear_arith)
                requires
                    magnitude == hidden * field + fraction,
                    fraction < hidden,
                    magnitude >= hidden,
                    hidden > 0,
            ;
            lemma_fundamental_div_mod_converse(magnitude + hidden, hidden, field + 1, fraction);
            let power = pow2((field - 1) as nat) as int;
            crate::float::round::lemma_pow2_double((field - 1) as nat);
            let digits = hidden + fraction;
            assert(digits * (2 * power) == 2 * (digits * power)) by (nonlinear_arith);
            assert((field + 1 - 1) as nat == (field - 1) as nat + 1);
        }
    }
}

impl Single {
    /// The exact value, in units.
    pub open spec fn value(self) -> int {
        Format::Single.value(self.bits as int)
    }

    /// How far a sum is off.
    pub proof fn lemma_plus(self, other: Single, k: nat)
        requires
            self.is_finite(),
            other.is_finite(),
            k <= 60,
            Format::distance(self.value() + other.value(), 0) <= Format::Single.most(k),
        ensures
            self.plus(other).is_finite(),
            Format::distance(self.plus(other).value(), self.value() + other.value())
                <= Format::Single.error(k),
    {
        Format::Single.lemma_sum_error(self.bits as int, other.bits as int, k);
    }

    /// How far a difference is off.
    pub proof fn lemma_minus(self, other: Single, k: nat)
        requires
            self.is_finite(),
            other.is_finite(),
            k <= 60,
            Format::distance(self.value(), other.value()) <= Format::Single.most(k),
        ensures
            self.minus(other).is_finite(),
            Format::distance(self.minus(other).value(), self.value() - other.value())
                <= Format::Single.error(k),
    {
        Format::Single.lemma_difference_error(self.bits as int, other.bits as int, k);
    }

    /// How far a product is off, times one.
    pub proof fn lemma_times(self, other: Single, k: nat)
        requires
            self.is_finite(),
            other.is_finite(),
            k <= 60,
            Format::distance(self.value() * other.value(), 0) <= Format::Single.one()
                * Format::Single.most(k),
        ensures
            self.times(other).is_finite(),
            Format::distance(
                Format::Single.one() * self.times(other).value(),
                self.value() * other.value(),
            ) <= Format::Single.one() * Format::Single.error(k),
    {
        Format::Single.lemma_product_error(self.bits as int, other.bits as int, k);
    }

    /// How far a quotient is off, times the divisor.
    pub proof fn lemma_over(self, other: Single, k: nat)
        requires
            self.is_finite(),
            other.is_finite(),
            k <= 60,
            other.value() > 0,
            Format::distance(self.value() * Format::Single.one(), 0) <= other.value()
                * Format::Single.most(k),
        ensures
            self.over(other).is_finite(),
            Format::distance(
                other.value() * self.over(other).value(),
                self.value() * Format::Single.one(),
            ) <= other.value() * Format::Single.error(k),
    {
        Format::Single.lemma_quotient_error(self.bits as int, other.bits as int, k);
    }

    /// A product with one is the number itself.
    pub proof fn law_times_one(self)
        requires
            !self.is_nan(),
        ensures
            self.times(Single::of(SINGLE_ONE as int)) == self,
    {
        Format::Single.lemma_times_one(self.bits as int);
    }

    /// A short whole number is represented exactly.
    pub proof fn lemma_count(n: int)
        requires
            0 <= n < 2 * Format::Single.hidden(),
        ensures
            Single::of_integer(n).is_finite(),
            Single::of_integer(n).value() == n * Format::Single.one(),
            !Format::Single.negative(Single::of_integer(n).bits as int),
    {
        Format::Single.law_short_integers_are_exact(n);
    }
}

impl Double {
    /// The exact value, in units.
    pub open spec fn value(self) -> int {
        Format::Double.value(self.bits as int)
    }

    /// How far a sum is off.
    pub proof fn lemma_plus(self, other: Double, k: nat)
        requires
            self.is_finite(),
            other.is_finite(),
            k <= 60,
            Format::distance(self.value() + other.value(), 0) <= Format::Double.most(k),
        ensures
            self.plus(other).is_finite(),
            Format::distance(self.plus(other).value(), self.value() + other.value())
                <= Format::Double.error(k),
    {
        Format::Double.lemma_sum_error(self.bits as int, other.bits as int, k);
    }

    /// How far a difference is off.
    pub proof fn lemma_minus(self, other: Double, k: nat)
        requires
            self.is_finite(),
            other.is_finite(),
            k <= 60,
            Format::distance(self.value(), other.value()) <= Format::Double.most(k),
        ensures
            self.minus(other).is_finite(),
            Format::distance(self.minus(other).value(), self.value() - other.value())
                <= Format::Double.error(k),
    {
        Format::Double.lemma_difference_error(self.bits as int, other.bits as int, k);
    }

    /// How far a product is off, times one.
    pub proof fn lemma_times(self, other: Double, k: nat)
        requires
            self.is_finite(),
            other.is_finite(),
            k <= 60,
            Format::distance(self.value() * other.value(), 0) <= Format::Double.one()
                * Format::Double.most(k),
        ensures
            self.times(other).is_finite(),
            Format::distance(
                Format::Double.one() * self.times(other).value(),
                self.value() * other.value(),
            ) <= Format::Double.one() * Format::Double.error(k),
    {
        Format::Double.lemma_product_error(self.bits as int, other.bits as int, k);
    }

    /// How far a quotient is off, times the divisor.
    pub proof fn lemma_over(self, other: Double, k: nat)
        requires
            self.is_finite(),
            other.is_finite(),
            k <= 60,
            other.value() > 0,
            Format::distance(self.value() * Format::Double.one(), 0) <= other.value()
                * Format::Double.most(k),
        ensures
            self.over(other).is_finite(),
            Format::distance(
                other.value() * self.over(other).value(),
                self.value() * Format::Double.one(),
            ) <= other.value() * Format::Double.error(k),
    {
        Format::Double.lemma_quotient_error(self.bits as int, other.bits as int, k);
    }

    /// A product with one is the number itself.
    pub proof fn law_times_one(self)
        requires
            !self.is_nan(),
        ensures
            self.times(Double::of(DOUBLE_ONE as int)) == self,
    {
        Format::Double.lemma_times_one(self.bits as int);
    }

    /// A short whole number is represented exactly.
    pub proof fn lemma_count(n: int)
        requires
            0 <= n < 2 * Format::Double.hidden(),
        ensures
            Double::of_integer(n).is_finite(),
            Double::of_integer(n).value() == n * Format::Double.one(),
            !Format::Double.negative(Double::of_integer(n).bits as int),
    {
        Format::Double.law_short_integers_are_exact(n);
    }
}

impl Format {
    /// Sums keep the order of what is added to.
    pub proof fn lemma_sum_order(self, a: int, b: int, c: int)
        requires
            self.is_number(a),
            self.is_number(b),
            self.is_number(c),
            self.value(a) <= self.value(b),
        ensures
            self.holds(self.sum(a, c)),
            self.holds(self.sum(b, c)),
            !self.is_nan(self.sum(a, c)),
            !self.is_nan(self.sum(b, c)),
            self.value(self.sum(a, c)) <= self.value(self.sum(b, c)),
    {
        let low = self.value(a) + self.value(c);
        let high = self.value(b) + self.value(c);
        self.lemma_sum_parts(a, c);
        self.lemma_sum_parts(b, c);
        self.lemma_rounded_order(low, high);
        self.lemma_rounded_range(if low < 0 { -low } else { low }, 1);
        self.lemma_rounded_range(if high < 0 { -high } else { high }, 1);
    }

    /// Rounding with a sign keeps the order.
    proof fn lemma_rounded_order(self, low: int, high: int)
        requires
            low <= high,
        ensures
            (if low < 0 {
                -self.units(self.rounded(-low, 1))
            } else {
                self.units(self.rounded(low, 1))
            }) <= (if high < 0 {
                -self.units(self.rounded(-high, 1))
            } else {
                self.units(self.rounded(high, 1))
            }),
    {
        let a = if low < 0 {
            -low
        } else {
            low
        };
        let b = if high < 0 {
            -high
        } else {
            high
        };
        self.lemma_rounded_range(a, 1);
        self.lemma_rounded_range(b, 1);
        let x = self.rounded(a, 1);
        let y = self.rounded(b, 1);
        self.lemma_units_zero();
        if x > 0 {
            self.lemma_units_increase(0, x);
        }
        if y > 0 {
            self.lemma_units_increase(0, y);
        }
        if a <= b {
            self.law_rounding_keeps_order(a, 1, b, 1);
        }
        if b <= a {
            self.law_rounding_keeps_order(b, 1, a, 1);
        }
        if x < y {
            self.lemma_units_increase(x, y);
        }
        if y < x {
            self.lemma_units_increase(y, x);
        }
    }

    /// Products with what is not negative keep the order, for what is not negative.
    pub proof fn lemma_product_order(self, a: int, b: int, c: int)
        requires
            self.is_number(a),
            self.is_number(b),
            self.is_number(c),
            0 <= self.value(a) <= self.value(b),
            0 <= self.value(c),
        ensures
            self.holds(self.product(a, c)),
            self.holds(self.product(b, c)),
            !self.is_nan(self.product(a, c)),
            !self.is_nan(self.product(b, c)),
            0 <= self.value(self.product(a, c)) <= self.value(self.product(b, c)),
    {
        let one = self.one();
        let x = self.value(a);
        let y = self.value(b);
        let z = self.value(c);
        self.lemma_one_bits();
        self.lemma_value(a);
        self.lemma_value(b);
        self.lemma_value(c);
        assert(0 <= x * z && 0 <= y * z && (x * z) * one <= (y * z) * one) by (nonlinear_arith)
            requires
                0 <= x <= y,
                0 <= z,
                one > 0,
        ;
        self.law_rounding_keeps_order(x * z, one, y * z, one);
        self.lemma_rounded_range(x * z, one);
        self.lemma_rounded_range(y * z, one);
        let p = self.rounded(x * z, one);
        let q = self.rounded(y * z, one);
        self.lemma_units_zero();
        if p > 0 {
            self.lemma_units_increase(0, p);
        }
        if q > 0 {
            self.lemma_units_increase(0, q);
        }
        if p < q {
            self.lemma_units_increase(p, q);
        }
        self.lemma_rounded_zero(one);
        if x == 0 || z == 0 {
            assert(x * z == 0) by (nonlinear_arith)
                requires
                    x == 0 || z == 0,
            ;
        }
        if y == 0 || z == 0 {
            assert(y * z == 0) by (nonlinear_arith)
                requires
                    y == 0 || z == 0,
            ;
        }
    }
}

impl Double {
    /// A share from 0 to 1, in single precision.
    pub proof fn lemma_narrowed_share(self)
        requires
            self.is_finite(),
            0 <= self.value() <= Format::Double.one(),
        ensures
            self.narrowed().is_finite(),
            0 <= self.narrowed().value() <= Format::Single.one(),
            Format::distance(
                Format::Double.one() * self.narrowed().value(),
                self.value() * Format::Single.one(),
            ) <= Format::Double.one() * Format::Single.error(0),
    {
        let wide = Format::Double;
        let narrow = Format::Single;
        let big = wide.one();
        let one = narrow.one();
        let bits = self.bits as int;
        let rest = self.value();
        wide.lemma_one_bits();
        narrow.lemma_one_bits();
        wide.lemma_value(bits);
        narrow.lemma_most(0);
        narrow.lemma_units_zero();
        let num = rest * one;
        assert(0 <= num <= big * one) by (nonlinear_arith)
            requires
                num == rest * one,
                0 <= rest <= big,
                one > 0,
        ;
        narrow.lemma_rounded_error(num, big, 0);
        assert(num * 1 <= one * big) by (nonlinear_arith)
            requires
                num <= big * one,
        ;
        narrow.law_rounding_keeps_order(num, big, one, 1);
        narrow.law_rounding_keeps_numbers(narrow.one_bits());
        let result = narrow.rounded(num, big);
        if result < narrow.one_bits() {
            narrow.lemma_units_increase(result, narrow.one_bits());
        }
        if wide.negative(bits) {
            assert(rest == 0);
            assert(num == 0) by (nonlinear_arith)
                requires
                    num == rest * one,
                    rest == 0,
            ;
            narrow.lemma_rounded_zero(big);
        }
    }

    /// A share of a whole is from 0 to 1.
    pub proof fn lemma_share(self, whole: Double)
        requires
            self.is_finite(),
            whole.is_finite(),
            0 <= self.value() <= whole.value(),
            0 < whole.value(),
        ensures
            self.over(whole).is_finite(),
            0 <= self.over(whole).value() <= Format::Double.one(),
            Format::distance(
                whole.value() * self.over(whole).value(),
                self.value() * Format::Double.one(),
            ) <= whole.value() * Format::Double.error(0),
    {
        let wide = Format::Double;
        let one = wide.one();
        let x = self.value();
        let y = whole.value();
        wide.lemma_one_bits();
        wide.lemma_most(0);
        wide.lemma_value(self.bits as int);
        wide.lemma_value(whole.bits as int);
        wide.lemma_units_zero();
        assert(0 <= x * one <= y * one) by (nonlinear_arith)
            requires
                0 <= x <= y,
                one > 0,
        ;
        self.lemma_over(whole, 0);
        assert((x * one) * 1 <= one * y) by (nonlinear_arith)
            requires
                x * one <= y * one,
        ;
        wide.law_rounding_keeps_order(x * one, y, one, 1);
        wide.law_rounding_keeps_numbers(wide.one_bits());
        wide.lemma_rounded_range(x * one, y);
        let result = wide.rounded(x * one, y);
        if result < wide.one_bits() {
            wide.lemma_units_increase(result, wide.one_bits());
        }
        if result > 0 {
            wide.lemma_units_increase(0, result);
        }
        if x == 0 {
            assert(x * one == 0) by (nonlinear_arith)
                requires
                    x == 0,
            ;
            wide.lemma_rounded_zero(y);
        }
    }
}

} // verus!
