use crate::float::format::Format;
use crate::float::number::{Double, Single};
use vstd::arithmetic::div_mod::*;
use vstd::arithmetic::power2::*;
use vstd::prelude::*;

verus! {

impl Format {
    /// A rounded size with the sign of the exact one is nearest to it among all
    /// numbers of either sign.
    proof fn lemma_signed_nearest(self, num: int, den: int, other: int)
        requires
            den > 0,
            self.is_number(other),
            self.rounded(if num < 0 { -num } else { num }, den) < self.infinity(),
        ensures
            ({
                let size = self.units(self.rounded(if num < 0 { -num } else { num }, den));
                let result = if num < 0 {
                    -size
                } else {
                    size
                };
                Format::distance(den * result, num) <= Format::distance(
                    den * self.value(other),
                    num,
                )
            }),
    {
        let exact = if num < 0 {
            -num
        } else {
            num
        };
        let size = self.units(self.rounded(exact, den));
        let o = self.units(self.magnitude(other));
        self.lemma_value(other);
        self.lemma_units_zero();
        self.law_rounding_is_nearest(exact, den, self.magnitude(other));
        self.law_rounding_is_nearest(exact, den, 0);
        assert(den * (-size) == -(den * size) && den * (-o) == -(den * o) && den * 0 == 0 && den * o
            >= 0) by (nonlinear_arith)
            requires
                den > 0,
                o >= 0,
        ;
    }

    /// A sum is the number nearest to the exact sum.
    pub proof fn law_sum_is_nearest(self, a: int, b: int, other: int)
        requires
            self.is_number(a),
            self.is_number(b),
            self.is_number(other),
            self.is_finite(self.sum(a, b)),
        ensures
            Format::distance(self.value(self.sum(a, b)), self.value(a) + self.value(b))
                <= Format::distance(self.value(other), self.value(a) + self.value(b)),
    {
        let total = self.value(a) + self.value(b);
        self.lemma_sum_parts(a, b);
        self.lemma_rounded_zero(1);
        self.lemma_rounded_range(if total < 0 { -total } else { total }, 1);
        self.lemma_signed_nearest(total, 1, other);
    }

    /// A product is the number nearest to the exact product.
    pub proof fn law_product_is_nearest(self, a: int, b: int, other: int)
        requires
            self.is_number(a),
            self.is_number(b),
            self.is_number(other),
            self.is_finite(self.product(a, b)),
        ensures
            Format::distance(self.one() * self.value(self.product(a, b)), self.value(a)
                * self.value(b)) <= Format::distance(self.one() * self.value(other), self.value(
                a,
            ) * self.value(b)),
    {
        let one = self.one();
        let x = self.units(self.magnitude(a));
        let y = self.units(self.magnitude(b));
        let exact = self.value(a) * self.value(b);
        self.lemma_one_bits();
        self.lemma_value(a);
        self.lemma_value(b);
        self.lemma_units_zero();
        assert((-x) * (-y) == x * y && (-x) * y == -(x * y) && x * (-y) == -(x * y) && x * y >= 0)
            by (nonlinear_arith)
            requires
                x >= 0,
                y >= 0,
        ;
        self.lemma_rounded_range(x * y, one);
        if x * y == 0 {
            self.lemma_rounded_zero(one);
        }
        self.lemma_signed_nearest(exact, one, other);
        let size = self.units(self.rounded(x * y, one));
        assert(one * (-size) == -(one * size)) by (nonlinear_arith);
    }

    /// A quotient by a positive number is the number nearest to the exact quotient.
    pub proof fn law_quotient_is_nearest(self, a: int, b: int, other: int)
        requires
            self.is_number(a),
            self.is_number(b),
            self.is_number(other),
            self.value(b) > 0,
            self.is_finite(self.quotient(a, b)),
        ensures
            Format::distance(self.value(b) * self.value(self.quotient(a, b)), self.value(a)
                * self.one()) <= Format::distance(self.value(b) * self.value(other), self.value(
                a,
            ) * self.one()),
    {
        let one = self.one();
        let x = self.units(self.magnitude(a));
        let y = self.value(b);
        let exact = self.value(a) * one;
        self.lemma_one_bits();
        self.lemma_value(a);
        self.lemma_value(b);
        self.lemma_units_zero();
        assert((-x) * one == -(x * one) && x * one >= 0) by (nonlinear_arith)
            requires
                x >= 0,
                one > 0,
        ;
        self.lemma_rounded_range(x * one, y);
        if x * one == 0 {
            self.lemma_rounded_zero(y);
        }
        self.lemma_signed_nearest(exact, y, other);
        let size = self.units(self.rounded(x * one, y));
        assert(y * (-size) == -(y * size)) by (nonlinear_arith);
    }

    /// A number cut to a whole number: no fraction is left, and what lies outside
    /// goes to the nearer end.
    pub proof fn law_cut_to_a_whole_number(self, bits: int, max: int)
        requires
            self.is_number(bits),
            max >= 0,
        ensures
            self.value(bits) < 0 ==> self.to_integer(bits, max) == 0,
            0 <= self.value(bits) < max * self.one() ==> self.to_integer(bits, max) * self.one()
                <= self.value(bits) < (self.to_integer(bits, max) + 1) * self.one(),
            self.value(bits) >= max * self.one() ==> self.to_integer(bits, max) == max,
    {
        let one = self.one();
        let units = self.units(self.magnitude(bits));
        self.lemma_one_bits();
        self.lemma_value(bits);
        lemma_fundamental_div_mod(units, one);
        lemma_mod_bound(units, one);
        lemma_div_pos_is_pos(units, one);
        let whole = units / one;
        let part = units % one;
        assert(whole * one == one * whole && (whole + 1) * one == one * whole + one)
            by (nonlinear_arith);
        assert(0 * one == 0 && (0 + 1) * one == one) by (nonlinear_arith);
        if 0 <= self.value(bits) < max * one {
            assert(whole < max) by (nonlinear_arith)
                requires
                    one * whole <= units,
                    units < max * one,
                    one > 0,
            ;
        } else if self.value(bits) >= max * one {
            assert(whole >= max) by (nonlinear_arith)
                requires
                    units == one * whole + part,
                    part < one,
                    units >= max * one,
                    one > 0,
            ;
            if self.negative(bits) {
                assert(max == 0) by (nonlinear_arith)
                    requires
                        max * one <= 0,
                        max >= 0,
                        one > 0,
                ;
            }
        }
    }

    /// A number rounded up to a whole number.
    pub proof fn law_rounded_up_to_a_whole_number(self, bits: int, max: int)
        requires
            self.is_number(bits),
            max >= 0,
            0 <= self.value(bits) <= max * self.one(),
        ensures
            (self.ceil_to_integer(bits, max) - 1) * self.one() < self.value(bits)
                <= self.ceil_to_integer(bits, max) * self.one(),
    {
        let one = self.one();
        let units = self.units(self.magnitude(bits));
        self.lemma_one_bits();
        self.lemma_value(bits);
        lemma_fundamental_div_mod(units, one);
        lemma_mod_bound(units, one);
        lemma_div_pos_is_pos(units, one);
        let whole = units / one;
        let part = units % one;
        assert(whole * one == one * whole && (whole + 1) * one == one * whole + one && (whole - 1)
            * one == one * whole - one) by (nonlinear_arith);
        assert(0 * one == 0 && (0 - 1) * one == -one) by (nonlinear_arith);
        let above = if part == 0 {
            whole
        } else {
            whole + 1
        };
        assert(above <= max) by (nonlinear_arith)
            requires
                units == one * whole + part,
                0 <= part < one,
                above == if part == 0 {
                    whole
                } else {
                    whole + 1
                },
                units <= max * one,
                one > 0,
        ;
    }
}

impl Single {
    /// The order of numbers is that of their values.
    pub proof fn law_order_is_that_of_values(self, other: Single)
        requires
            !self.is_nan(),
            !other.is_nan(),
        ensures
            self.less(other) <==> self.value() < other.value(),
            self.at_most(other) <==> self.value() <= other.value(),
    {
    }

    /// What is not a number has no place in the order.
    pub proof fn law_no_number_has_no_order(self, other: Single)
        requires
            self.is_nan() || other.is_nan(),
        ensures
            !self.less(other),
            !self.at_most(other),
    {
    }

    /// The lesser and the greater of two numbers are these two.
    pub proof fn law_lesser_and_greater(self, other: Single)
        ensures
            !self.is_nan() && !other.is_nan() ==> {
                &&& self.lesser(other) == self || self.lesser(other) == other
                &&& self.lesser(other).at_most(self) && self.lesser(other).at_most(other)
                &&& self.greater(other) == self || self.greater(other) == other
                &&& self.at_most(self.greater(other)) && other.at_most(self.greater(other))
            },
            self.is_nan() ==> self.lesser(other) == other && self.greater(other) == other,
            !self.is_nan() && other.is_nan() ==> self.lesser(other) == self && self.greater(other)
                == self,
    {
    }
}

impl Double {
    /// The order of numbers is that of their values.
    pub proof fn law_order_is_that_of_values(self, other: Double)
        requires
            !self.is_nan(),
            !other.is_nan(),
        ensures
            self.less(other) <==> self.value() < other.value(),
            self.at_most(other) <==> self.value() <= other.value(),
    {
    }

    /// What is not a number has no place in the order.
    pub proof fn law_no_number_has_no_order(self, other: Double)
        requires
            self.is_nan() || other.is_nan(),
        ensures
            !self.less(other),
            !self.at_most(other),
    {
    }

    /// The lesser and the greater of two numbers are these two.
    pub proof fn law_lesser_and_greater(self, other: Double)
        ensures
            !self.is_nan() && !other.is_nan() ==> {
                &&& self.lesser(other) == self || self.lesser(other) == other
                &&& self.lesser(other).at_most(self) && self.lesser(other).at_most(other)
                &&& self.greater(other) == self || self.greater(other) == other
                &&& self.at_most(self.greater(other)) && other.at_most(self.greater(other))
            },
            self.is_nan() ==> self.lesser(other) == other && self.greater(other) == other,
            !self.is_nan() && other.is_nan() ==> self.lesser(other) == self && self.greater(other)
                == self,
    {
    }
}

impl Format {
    /// What has no result: a sum of opposite infinities, an infinity times zero, an
    /// infinity over an infinity, and zero over zero. Where an operand is no number
    /// the result is none.
    pub proof fn law_what_has_no_result(self, a: int, b: int)
        requires
            self.holds(a),
            self.holds(b),
        ensures
            self.is_nan(self.sum(a, b)) <==> self.is_nan(a) || self.is_nan(b) || (
            self.is_infinite(a) && self.is_infinite(b) && self.negative(a) != self.negative(b)),
            self.is_nan(self.product(a, b)) <==> self.is_nan(a) || self.is_nan(b) || (
            self.is_infinite(a) && self.is_zero(b)) || (self.is_zero(a) && self.is_infinite(b)),
            self.is_nan(self.quotient(a, b)) <==> self.is_nan(a) || self.is_nan(b) || (
            self.is_infinite(a) && self.is_infinite(b)) || (self.is_zero(a) && self.is_zero(b)),
    {
        self.lemma_all_in_range(a, b);
    }

    /// The sign of a result: like signs make a positive product or quotient, unlike
    /// ones a negative one, and a sum of zero is negative only where both parts are.
    pub proof fn law_sign_of_a_result(self, a: int, b: int)
        requires
            self.holds(a),
            self.holds(b),
        ensures
            !self.is_nan(self.product(a, b)) ==> (self.negative(self.product(a, b)) <==> (
            self.negative(a) != self.negative(b))),
            !self.is_nan(self.quotient(a, b)) ==> (self.negative(self.quotient(a, b)) <==> (
            self.negative(a) != self.negative(b))),
            self.is_finite(a) && self.is_finite(b) && self.value(a) + self.value(b) == 0 ==> (
            self.negative(self.sum(a, b)) <==> self.negative(a) && self.negative(b)),
    {
        self.lemma_all_in_range(a, b);
    }

    /// What comes of an infinity: with a finite number added it stays, times or over
    /// one it is an infinity still, and what is finite over it is zero. Over zero a
    /// number is infinite.
    pub proof fn law_infinities(self, a: int, b: int)
        requires
            self.holds(a),
            self.holds(b),
            !self.is_nan(a) && !self.is_nan(b),
        ensures
            self.is_infinite(a) && self.is_finite(b) ==> self.sum(a, b) == a && self.sum(b, a) == a,
            self.is_infinite(a) && a == b ==> self.sum(a, b) == a,
            self.is_infinite(a) && !self.is_zero(b) ==> self.is_infinite(self.product(a, b))
                && self.is_infinite(self.product(b, a)),
            self.is_infinite(a) && self.is_finite(b) ==> self.is_infinite(self.quotient(a, b))
                && self.is_zero(self.quotient(b, a)),
            self.is_finite(a) && !self.is_zero(a) && self.is_zero(b) ==> self.is_infinite(
                self.quotient(a, b),
            ),
    {
        self.lemma_all_in_range(a, b);
    }

    /// Rounded sizes are sizes of the format.
    proof fn lemma_all_in_range(self, a: int, b: int)
        requires
            self.holds(a),
            self.holds(b),
        ensures
            ({
                let total = self.value(a) + self.value(b);
                0 <= self.rounded(if total < 0 { -total } else { total }, 1) <= self.infinity()
            }),
            0 <= self.rounded(
                self.units(self.magnitude(a)) * self.units(self.magnitude(b)),
                pow2(self.scale()) as int,
            ) <= self.infinity(),
            self.is_finite(a) && self.is_finite(b) && !self.is_zero(b) ==> 0 <= self.rounded(
                self.units(self.magnitude(a)) * pow2(self.scale()),
                self.units(self.magnitude(b)),
            ) <= self.infinity(),
    {
        let total = self.value(a) + self.value(b);
        let x = self.units(self.magnitude(a));
        let y = self.units(self.magnitude(b));
        let one = pow2(self.scale()) as int;
        lemma_pow2_pos(self.scale());
        self.lemma_units_bound(self.magnitude(a));
        self.lemma_units_bound(self.magnitude(b));
        assert(x * y >= 0 && x * one >= 0) by (nonlinear_arith)
            requires
                x >= 0,
                y >= 0,
                one > 0,
        ;
        self.lemma_rounded_range(if total < 0 { -total } else { total }, 1);
        self.lemma_rounded_range(x * y, one);
        if y > 0 {
            self.lemma_rounded_range(x * one, y);
        }
    }

    /// A size is no less than zero, and more wherever its digits are.
    proof fn lemma_units_bound(self, magnitude: int)
        requires
            magnitude >= 0,
        ensures
            self.units(magnitude) >= 0,
            magnitude > 0 ==> self.units(magnitude) > 0,
    {
        let hidden = self.hidden();
        let field = magnitude / hidden;
        let fraction = magnitude % hidden;
        lemma_fundamental_div_mod(magnitude, hidden);
        lemma_mod_bound(magnitude, hidden);
        lemma_div_pos_is_pos(magnitude, hidden);
        if field > 0 {
            let power = pow2((field - 1) as nat) as int;
            lemma_pow2_pos((field - 1) as nat);
            assert((hidden + fraction) * power > 0) by (nonlinear_arith)
                requires
                    hidden + fraction > 0,
                    power > 0,
            ;
        } else {
            assert(hidden * 0 == 0) by (nonlinear_arith);
        }
    }

    /// A number of one format keeps its sign in another, an infinity stays one, and
    /// what is no number stays none.
    pub proof fn law_conversion_keeps_kind_and_sign(self, to: Format, bits: int)
        requires
            self.holds(bits),
        ensures
            to.is_nan(self.converted(to, bits)) <==> self.is_nan(bits),
            self.is_infinite(bits) ==> to.is_infinite(self.converted(to, bits)),
            !self.is_nan(bits) ==> (to.negative(self.converted(to, bits)) <==> self.negative(bits)),
    {
        let x = self.units(self.magnitude(bits));
        lemma_pow2_pos(self.scale());
        lemma_pow2_pos(to.scale());
        self.lemma_units_bound(self.magnitude(bits));
        assert(x * to.one() >= 0) by (nonlinear_arith)
            requires
                x >= 0,
                to.one() > 0,
        ;
        to.lemma_rounded_range(x * to.one(), self.one());
    }

    /// What is below zero, or no number, counts as zero where a whole number is
    /// wanted, and what is infinite as the most there is.
    pub proof fn law_whole_numbers_of_the_rest(self, bits: int, max: int)
        requires
            self.holds(bits),
        ensures
            self.is_nan(bits) || self.negative(bits) ==> self.to_integer(bits, max) == 0
                && self.ceil_to_integer(bits, max) == 0,
            self.is_infinite(bits) && !self.negative(bits) ==> self.to_integer(bits, max) == max
                && self.ceil_to_integer(bits, max) == max,
    {
    }

    /// A fraction has the sign of its number, and what is not finite has none.
    pub proof fn law_fraction_has_the_sign(self, bits: int)
        requires
            self.holds(bits),
        ensures
            self.is_finite(bits) <==> self.is_finite(self.fraction(bits)),
            self.is_finite(bits) ==> (self.negative(self.fraction(bits)) <==> self.negative(bits)),
    {
        if self.is_finite(bits) {
            let x = self.units(self.magnitude(bits));
            lemma_pow2_pos(self.scale());
            self.lemma_units_bound(self.magnitude(bits));
            lemma_mod_bound(x, self.one());
            self.law_remainder_is_exact(self.magnitude(bits));
        }
    }

    /// The opposite of a number has the other sign and the same size, and twice the
    /// opposite is the number itself.
    pub proof fn law_opposite(self, bits: int)
        requires
            self.holds(bits),
        ensures
            self.negative(self.negated(bits)) <==> !self.negative(bits),
            self.value(self.negated(bits)) == -self.value(bits),
            self.negated(self.negated(bits)) == bits,
    {
    }
}

impl Single {
    /// What is no number is not brought between bounds.
    pub proof fn law_no_number_stays_none(self, low: Single, high: Single)
        requires
            self.is_nan(),
        ensures
            self.clamped(low, high) == self,
    {
    }
}

impl Double {
    /// What is no number is not brought between bounds.
    pub proof fn law_no_number_stays_none(self, low: Double, high: Double)
        requires
            self.is_nan(),
        ensures
            self.clamped(low, high) == self,
    {
    }
}

} // verus!
