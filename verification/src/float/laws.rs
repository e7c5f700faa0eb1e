use crate::float::format::Format;
use crate::float::number::{Double, Single};
use vstd::arithmetic::div_mod::*;
use vstd::arithmetic::power2::*;
use vstd::prelude::*;

verus! {

impl Format {
    /// The nearest whole number is off by a half at most.
    pub proof fn lemma_nearest_error(num: int, den: int)
        requires
            num >= 0,
            den > 0,
        ensures
            2 * num - den <= 2 * (Format::nearest_even(num, den) * den) <= 2 * num + den,
            Format::nearest_even(num, den) >= 0,
    {
        let floor = num / den;
        lemma_fundamental_div_mod(num, den);
        lemma_mod_bound(num, den);
        lemma_div_pos_is_pos(num, den);
        assert(floor * den == den * floor && (floor + 1) * den == den * floor + den)
            by (nonlinear_arith);
    }

    /// A rounded magnitude in digits: at most one more than the precision holds,
    /// and no fewer than the precision where the spacing is more than a unit.
    pub proof fn lemma_rounded_digits(self, num: int, den: int)
        requires
            num >= 0,
            den > 0,
        ensures
            ({
                let step = self.spacing(num, den);
                let q = Format::nearest_even(num, den * pow2(step));
                &&& 0 <= q <= 2 * self.hidden()
                &&& step > 0 ==> q >= self.hidden()
                &&& step > 0 ==> num >= den * (self.hidden() * pow2(step))
                &&& num < den * (2 * self.hidden() * pow2(step))
                &&& self.rounded(num, den) < self.infinity() ==> self.units(
                    self.rounded(num, den),
                ) == q * pow2(step)
            }),
    {
        let step = self.spacing(num, den);
        let power = pow2(step) as int;
        let divisor = den * power;
        let q = Format::nearest_even(num, divisor);
        let floor = num / den;
        let hidden = self.hidden();
        lemma_pow2_pos(step);
        lemma_div_pos_is_pos(num, den);
        lemma_fundamental_div_mod(num, den);
        lemma_mod_bound(num, den);
        self.lemma_hidden_is_power();
        crate::float::round::lemma_bit_length_bounds(floor as nat);
        let length = Format::bit_length(floor as nat);
        assert(divisor > 0) by (nonlinear_arith)
            requires
                divisor == den * power,
                den > 0,
                power > 0,
        ;
        lemma_pow2_adds(self.precision(), step);
        crate::float::round::lemma_pow2_monotone(length, self.precision() + step);
        let high = 2 * hidden * power;
        assert(den * (floor + 1) == den * floor + den) by (nonlinear_arith);
        assert(num < den * high) by (nonlinear_arith)
            requires
                num < den * (floor + 1),
                floor + 1 <= high,
                den > 0,
        ;
        let whole = num / divisor;
        lemma_fundamental_div_mod(num, divisor);
        lemma_mod_bound(num, divisor);
        lemma_div_pos_is_pos(num, divisor);
        assert(whole < 2 * hidden) by (nonlinear_arith)
            requires
                divisor * whole <= num,
                num < den * high,
                high == 2 * hidden * power,
                divisor == den * power,
                divisor > 0,
        ;
        if step > 0 {
            lemma_pow2_adds((self.precision() - 1) as nat, step);
            let low = hidden * power;
            assert(low == pow2((length - 1) as nat));
            assert(num >= den * low) by (nonlinear_arith)
                requires
                    num >= den * floor,
                    floor >= low,
                    den > 0,
            ;
            assert(divisor * (whole + 1) == divisor * whole + divisor) by (nonlinear_arith);
            assert(whole >= hidden) by (nonlinear_arith)
                requires
                    num < divisor * (whole + 1),
                    num >= den * low,
                    low == hidden * power,
                    divisor == den * power,
                    divisor > 0,
            ;
        }
        if self.rounded(num, den) < self.infinity() {
            self.lemma_packed(step, q);
        }
    }

    /// The value of a magnitude put together from a spacing and digits.
    proof fn lemma_packed(self, step: nat, q: int)
        requires
            0 <= q <= 2 * self.hidden(),
            step > 0 ==> q >= self.hidden(),
        ensures
            self.units(step * self.hidden() + q) == q * pow2(step),
    {
        let hidden = self.hidden();
        let magnitude = step * hidden + q;
        crate::float::round::lemma_pow2_zero_one();
        if q < hidden {
            lemma_fundamental_div_mod_converse(magnitude, hidden, 0, q);
        } else if q < 2 * hidden {
            assert(magnitude == (step + 1) * hidden + (q - hidden)) by (nonlinear_arith)
                requires
                    magnitude == step * hidden + q,
            ;
            lemma_fundamental_div_mod_converse(magnitude, hidden, step as int + 1, q - hidden);
        } else {
            assert(magnitude == (step + 2) * hidden + 0) by (nonlinear_arith)
                requires
                    magnitude == step * hidden + q,
                    q == 2 * hidden,
            ;
            lemma_fundamental_div_mod_converse(magnitude, hidden, step as int + 2, 0);
            crate::float::round::lemma_pow2_double(step);
            let power = pow2(step) as int;
            assert(hidden * (2 * power) == (2 * hidden) * power) by (nonlinear_arith);
        }
    }

    /// Numbers of the size of a rounded one, or larger, are whole multiples of
    /// its spacing.
    pub proof fn lemma_spaced(self, magnitude: int, step: nat) -> (k: int)
        requires
            0 <= magnitude,
            self.units(magnitude) >= self.hidden() * pow2(step),
        ensures
            self.units(magnitude) == k * pow2(step),
    {
        let hidden = self.hidden();
        let field = magnitude / hidden;
        let fraction = magnitude % hidden;
        let power = pow2(step) as int;
        lemma_mod_bound(magnitude, hidden);
        lemma_div_pos_is_pos(magnitude, hidden);
        lemma_pow2_pos(step);
        if field == 0 {
            assert(hidden * power >= hidden) by (nonlinear_arith)
                requires
                    hidden > 0,
                    power >= 1,
            ;
            0
        } else {
            let exponent = (field - 1) as nat;
            if exponent < step {
                crate::float::round::lemma_pow2_double(exponent);
                crate::float::round::lemma_pow2_monotone(exponent + 1, step);
                lemma_pow2_pos(exponent);
                let small = pow2(exponent) as int;
                assert((hidden + fraction) * small < (2 * hidden) * small) by (nonlinear_arith)
                    requires
                        fraction < hidden,
                        small > 0,
                ;
                assert((2 * hidden) * small <= hidden * power) by (nonlinear_arith)
                    requires
                        hidden > 0,
                        2 * small <= power,
                ;
                0
            } else {
                let more = pow2((exponent - step) as nat) as int;
                lemma_pow2_adds((exponent - step) as nat, step);
                let k = (hidden + fraction) * more;
                assert((hidden + fraction) * (more * power) == k * power) by (nonlinear_arith)
                    requires
                        k == (hidden + fraction) * more,
                ;
                k
            }
        }
    }

    /// A number with an odd last digit is rounded to only by what is nearer to it
    /// than half of the way to the next: what lies midway goes to an even digit.
    pub proof fn law_midway_goes_to_even(self, num: int, den: int)
        requires
            num >= 0,
            den > 0,
            self.rounded(num, den) < self.infinity(),
            self.rounded(num, den) % 2 == 1,
        ensures
            ({
                let near = self.units(self.rounded(num, den));
                let next = self.units(self.rounded(num, den) + 1);
                &&& 2 * (num - den * near) < den * (next - near)
                &&& 2 * (den * near - num) < den * (next - near)
            }),
    {
        let step = self.spacing(num, den);
        let power = pow2(step) as int;
        let divisor = den * power;
        let q = Format::nearest_even(num, divisor);
        let hidden = self.hidden();
        lemma_pow2_pos(step);
        self.lemma_rounded_digits(num, den);
        assert(divisor > 0) by (nonlinear_arith)
            requires
                divisor == den * power,
                den > 0,
                power > 0,
        ;
        assert((step * hidden) % 2 == 0) by (nonlinear_arith)
            requires
                hidden == 0x80_0000 || hidden == 0x10_0000_0000_0000,
        ;
        assert(q % 2 == 1 && q < 2 * hidden);
        self.lemma_packed(step, q);
        self.lemma_packed(step, q + 1);
        let floor = num / divisor;
        lemma_fundamental_div_mod(num, divisor);
        lemma_mod_bound(num, divisor);
        assert(floor * divisor == divisor * floor && (floor + 1) * divisor == divisor * floor
            + divisor) by (nonlinear_arith);
        assert(2 * (num - q * divisor) < divisor && 2 * (q * divisor - num) < divisor);
        assert(den * (q * power) == q * divisor && den * ((q + 1) * power - q * power) == divisor)
            by (nonlinear_arith)
            requires
                divisor == den * power,
        ;
    }

    /// Rounding goes to a nearest number: no other of the format is nearer.
    pub proof fn law_rounding_is_nearest(self, num: int, den: int, other: int)
        requires
            num >= 0,
            den > 0,
            self.rounded(num, den) < self.infinity(),
            0 <= other,
        ensures
            ({
                let error = num - den * self.units(self.rounded(num, den));
                let other_error = num - den * self.units(other);
                (if error < 0 { -error } else { error }) <= (if other_error < 0 {
                    -other_error
                } else {
                    other_error
                })
            }),
    {
        let step = self.spacing(num, den);
        let power = pow2(step) as int;
        let divisor = den * power;
        let q = Format::nearest_even(num, divisor);
        let hidden = self.hidden();
        let units = self.units(other);
        lemma_pow2_pos(step);
        assert(divisor > 0) by (nonlinear_arith)
            requires
                divisor == den * power,
                den > 0,
                power > 0,
        ;
        self.lemma_rounded_digits(num, den);
        Format::lemma_nearest_error(num, divisor);
        let error = num - den * (q * power);
        assert(error == num - q * divisor) by (nonlinear_arith)
            requires
                error == num - den * (q * power),
                divisor == den * power,
        ;
        if units >= hidden * power || step == 0 {
            let k = if step == 0 {
                crate::float::round::lemma_pow2_zero_one();
                assert(units * 1 == units);
                units
            } else {
                self.lemma_spaced(other, step)
            };
            assert(den * units == k * divisor) by (nonlinear_arith)
                requires
                    units == k * power,
                    divisor == den * power,
            ;
            let gap = q - k;
            assert(q * divisor - k * divisor == gap * divisor) by (nonlinear_arith)
                requires
                    gap == q - k,
            ;
            if gap > 0 {
                assert(gap * divisor >= divisor) by (nonlinear_arith)
                    requires
                        gap >= 1,
                        divisor > 0,
                ;
            } else if gap < 0 {
                assert(gap * divisor <= -divisor) by (nonlinear_arith)
                    requires
                        gap <= -1,
                        divisor > 0,
                ;
            }
        } else {
            // A smaller number lies further off than the least of this spacing.
            let low = hidden * power;
            assert(den * units <= den * low) by (nonlinear_arith)
                requires
                    units <= low,
                    den > 0,
            ;
            assert(den * low == hidden * divisor) by (nonlinear_arith)
                requires
                    low == hidden * power,
                    divisor == den * power,
            ;
            let gap = q - hidden;
            assert(q * divisor - hidden * divisor == gap * divisor) by (nonlinear_arith)
                requires
                    gap == q - hidden,
            ;
            if gap > 0 {
                assert(gap * divisor >= divisor) by (nonlinear_arith)
                    requires
                        gap >= 1,
                        divisor > 0,
                ;
            }
        }
    }

    /// Longer numbers have no fewer digits.
    proof fn lemma_bit_length_ordered(a: nat, b: nat)
        requires
            a <= b,
        ensures
            Format::bit_length(a) <= Format::bit_length(b),
    {
        crate::float::round::lemma_bit_length_bounds(a);
        crate::float::round::lemma_bit_length_bounds(b);
        if Format::bit_length(a) > Format::bit_length(b) {
            crate::float::round::lemma_pow2_monotone(
                Format::bit_length(b),
                (Format::bit_length(a) - 1) as nat,
            );
        }
    }

    /// The whole part of the lesser of two fractions is no greater.
    proof fn lemma_floors_ordered(num: int, den: int, other_num: int, other_den: int)
        requires
            num >= 0,
            other_num >= 0,
            den > 0,
            other_den > 0,
            num * other_den <= other_num * den,
        ensures
            0 <= num / den <= other_num / other_den,
    {
        let floor = num / den;
        let other = other_num / other_den;
        lemma_fundamental_div_mod(num, den);
        lemma_mod_bound(num, den);
        lemma_div_pos_is_pos(num, den);
        lemma_fundamental_div_mod(other_num, other_den);
        lemma_mod_bound(other_num, other_den);
        if floor > other {
            let rest = other_num % other_den;
            assert(false) by (nonlinear_arith)
                requires
                    num >= den * floor,
                    other_num == other_den * other + rest,
                    rest < other_den,
                    floor >= other + 1,
                    num * other_den <= other_num * den,
                    den > 0,
                    other_den > 0,
            ;
        }
    }

    /// The whole number nearest to the lesser of two fractions is no greater.
    proof fn lemma_nearest_ordered(num: int, den: int, other_num: int, other_den: int)
        requires
            num >= 0,
            other_num >= 0,
            den > 0,
            other_den > 0,
            num * other_den <= other_num * den,
        ensures
            Format::nearest_even(num, den) <= Format::nearest_even(other_num, other_den),
    {
        let floor = num / den;
        let other = other_num / other_den;
        let rest = num % den;
        let other_rest = other_num % other_den;
        Format::lemma_floors_ordered(num, den, other_num, other_den);
        if floor == other {
            lemma_fundamental_div_mod(num, den);
            lemma_fundamental_div_mod(other_num, other_den);
            assert(rest * other_den <= other_rest * den) by (nonlinear_arith)
                requires
                    num == den * floor + rest,
                    other_num == other_den * floor + other_rest,
                    num * other_den <= other_num * den,
            ;
            if 2 * rest > den {
                assert(2 * other_rest > other_den) by (nonlinear_arith)
                    requires
                        rest * other_den <= other_rest * den,
                        2 * rest > den,
                        den > 0,
                        other_den > 0,
                ;
            } else if 2 * rest == den {
                assert(2 * other_rest >= other_den) by (nonlinear_arith)
                    requires
                        rest * other_den <= other_rest * den,
                        2 * rest == den,
                        den > 0,
                        other_den > 0,
                ;
            }
        }
    }

    /// Rounding keeps the order: of two fractions the lesser is not rounded to more.
    pub proof fn law_rounding_keeps_order(
        self,
        num: int,
        den: int,
        other_num: int,
        other_den: int,
    )
        requires
            num >= 0,
            other_num >= 0,
            den > 0,
            other_den > 0,
            num * other_den <= other_num * den,
        ensures
            self.rounded(num, den) <= self.rounded(other_num, other_den),
    {
        let step = self.spacing(num, den);
        let other_step = self.spacing(other_num, other_den);
        let hidden = self.hidden();
        Format::lemma_floors_ordered(num, den, other_num, other_den);
        Format::lemma_bit_length_ordered((num / den) as nat, (other_num / other_den) as nat);
        self.lemma_rounded_digits(num, den);
        self.lemma_rounded_digits(other_num, other_den);
        if step == other_step {
            let power = pow2(step) as int;
            lemma_pow2_pos(step);
            let cut = den * power;
            let other_cut = other_den * power;
            assert(cut > 0 && other_cut > 0 && num * other_cut <= other_num * cut)
                by (nonlinear_arith)
                requires
                    cut == den * power,
                    other_cut == other_den * power,
                    den > 0,
                    other_den > 0,
                    power > 0,
                    num * other_den <= other_num * den,
            ;
            Format::lemma_nearest_ordered(num, cut, other_num, other_cut);
        } else {
            assert(step * hidden + 2 * hidden <= other_step * hidden + hidden) by (nonlinear_arith)
                requires
                    step + 1 <= other_step,
                    hidden > 0,
            ;
        }
    }

    /// A number of the format is rounded to itself.
    pub proof fn law_rounding_keeps_numbers(self, magnitude: int)
        requires
            0 <= magnitude < self.infinity(),
        ensures
            self.rounded(self.units(magnitude), 1) == magnitude,
    {
        let hidden = self.hidden();
        let field = magnitude / hidden;
        let fraction = magnitude % hidden;
        let units = self.units(magnitude);
        lemma_fundamental_div_mod(magnitude, hidden);
        lemma_mod_bound(magnitude, hidden);
        lemma_div_pos_is_pos(magnitude, hidden);
        self.lemma_hidden_is_power();
        crate::float::round::lemma_pow2_zero_one();
        assert(units / 1 == units);
        if field == 0 {
            crate::float::round::lemma_bit_length_bounds(units as nat);
            let length = Format::bit_length(units as nat);
            if length > self.precision() {
                crate::float::round::lemma_pow2_monotone(
                    (self.precision() - 1) as nat,
                    (length - 1) as nat,
                );
            }
            assert(units % 1 == 0);
        } else {
            let step = (field - 1) as nat;
            let power = pow2(step) as int;
            let digits = hidden + fraction;
            lemma_pow2_pos(step);
            lemma_pow2_adds((self.precision() - 1) as nat, step);
            lemma_pow2_adds(self.precision(), step);
            assert(hidden * power <= digits * power < (2 * hidden) * power) by (nonlinear_arith)
                requires
                    hidden <= digits < 2 * hidden,
                    power > 0,
            ;
            crate::float::round::lemma_bit_length_unique(
                units as nat,
                self.precision() + step,
            );
            assert(1 * power == power);
            lemma_fundamental_div_mod_converse(units, power, digits, 0);
            assert(step * hidden + digits == magnitude) by (nonlinear_arith)
                requires
                    step == field - 1,
                    digits == hidden + fraction,
                    magnitude == hidden * field + fraction,
            ;
        }
    }

    /// A whole number of units with no more digits than the precision is kept.
    pub proof fn law_rounding_keeps_short_numbers(self, m: int, exponent: nat)
        requires
            0 <= m < 2 * self.hidden(),
            self.rounded(m * pow2(exponent), 1) < self.infinity(),
        ensures
            self.units(self.rounded(m * pow2(exponent), 1)) == m * pow2(exponent),
    {
        let num = m * pow2(exponent);
        lemma_pow2_pos(exponent);
        assert(num >= 0) by (nonlinear_arith)
            requires
                num == m * pow2(exponent),
                m >= 0,
                pow2(exponent) > 0,
        ;
        self.lemma_rounded_digits(num, 1);
        self.lemma_hidden_is_power();
        crate::float::round::lemma_pow2_zero_one();
        let step = self.spacing(num, 1);
        assert(num / 1 == num);
        if step > exponent {
            // Too many digits for such a spacing.
            lemma_pow2_adds(self.precision(), exponent);
            crate::float::round::lemma_pow2_monotone(
                self.precision() + exponent,
                (self.precision() + step - 1) as nat,
            );
            crate::float::round::lemma_bit_length_bounds(num as nat);
            let power = pow2(exponent) as int;
            let limit = 2 * self.hidden();
            assert(num < limit * power) by (nonlinear_arith)
                requires
                    num == m * power,
                    m < limit,
                    power > 0,
            ;
        } else {
            let more = pow2((exponent - step) as nat) as int;
            let power = pow2(step) as int;
            lemma_pow2_pos(step);
            lemma_pow2_adds((exponent - step) as nat, step);
            assert(1 * power == power);
            assert(num == (m * more) * power) by (nonlinear_arith)
                requires
                    num == m * pow2(exponent),
                    pow2(exponent) == more * power,
            ;
            lemma_fundamental_div_mod_converse(num, power, m * more, 0);
        }
    }

    /// A whole number becomes a number that is finite, not negative, and zero
    /// only for zero.
    pub proof fn law_whole_numbers_are_finite(self, n: int)
        requires
            0 <= n < 0x1_0000_0000_0000_0000,
        ensures
            0 <= self.of_integer(n) < self.infinity(),
            self.of_integer(n) == 0 <==> n == 0,
    {
        let one = self.one();
        let num = n * one;
        lemma_pow2_pos(self.scale());
        crate::float::round::lemma_pow2_zero_one();
        if n == 0 {
            self.lemma_rounded_zero(1);
            assert(num == 0);
        } else {
            assert(num > 0) by (nonlinear_arith)
                requires
                    num == n * one,
                    n > 0,
                    one > 0,
            ;
            let length = Format::bit_length(num as nat);
            let limit = 64 + self.scale();
            lemma2_to64();
            lemma_pow2_adds(64, self.scale());
            assert(num < pow2(limit)) by (nonlinear_arith)
                requires
                    num == n * one,
                    n < pow2(64),
                    one > 0,
                    pow2(limit) == pow2(64) * one,
            ;
            crate::float::round::lemma_bit_length_bounds(num as nat);
            if length > limit {
                crate::float::round::lemma_pow2_monotone(limit, (length - 1) as nat);
            }
            let step = self.spacing(num, 1);
            assert(num / 1 == num);
            let power = pow2(step) as int;
            lemma_pow2_pos(step);
            assert(1 * power == power);
            let floor = num / power;
            lemma_fundamental_div_mod(num, power);
            lemma_mod_bound(num, power);
            lemma_div_pos_is_pos(num, power);
            self.lemma_hidden_is_power();
            lemma_pow2_adds(self.precision(), step);
            crate::float::round::lemma_pow2_monotone(length, self.precision() + step);
            let digits = 2 * self.hidden();
            assert(floor < digits) by (nonlinear_arith)
                requires
                    power * floor <= num,
                    num < digits * power,
                    power > 0,
            ;
            assert(step * self.hidden() <= 1085 * self.hidden()) by (nonlinear_arith)
                requires
                    step <= 1085,
                    self.hidden() > 0,
            ;
            if step == 0 {
                assert(num % 1 == 0);
            } else {
                assert(step * self.hidden() > 0) by (nonlinear_arith)
                    requires
                        step > 0,
                        self.hidden() > 0,
                ;
            }
        }
    }

    /// Numbers of a moderate size are rounded to finite ones.
    pub proof fn lemma_rounded_finite(self, num: int, den: int)
        requires
            num >= 0,
            den > 0,
            num < den * pow2(64 + self.scale()),
        ensures
            0 <= self.rounded(num, den) < self.infinity(),
    {
        let step = self.spacing(num, den);
        let limit = 64 + self.scale();
        let high = pow2(limit) as int;
        let floor = num / den;
        lemma_pow2_pos(limit);
        lemma_fundamental_div_mod(num, den);
        lemma_mod_bound(num, den);
        lemma_div_pos_is_pos(num, den);
        assert(floor < high) by (nonlinear_arith)
            requires
                den * floor <= num,
                num < den * high,
                den > 0,
        ;
        crate::float::round::lemma_bit_length_bounds(floor as nat);
        let length = Format::bit_length(floor as nat);
        if length > limit {
            crate::float::round::lemma_pow2_monotone(limit, (length - 1) as nat);
        }
        self.lemma_rounded_digits(num, den);
        let most = 64 + self.scale() - self.precision();
        assert(step * self.hidden() <= most * self.hidden()) by (nonlinear_arith)
            requires
                step <= most,
                self.hidden() > 0,
        ;
        assert(0 <= step * self.hidden()) by (nonlinear_arith)
            requires
                step >= 0,
                self.hidden() > 0,
        ;
    }

    /// A whole number with no more digits than the precision is represented
    /// exactly.
    pub proof fn law_short_integers_are_exact(self, n: int)
        requires
            0 <= n < 2 * self.hidden(),
        ensures
            0 <= self.of_integer(n) < self.infinity(),
            self.units(self.of_integer(n)) == n * self.one(),
    {
        self.law_whole_numbers_are_finite(n);
        self.law_rounding_keeps_short_numbers(n, self.scale());
    }

    /// The remainder of a division by one is represented exactly, and lies below
    /// one by as much as the largest number under one does.
    pub proof fn law_remainder_is_exact(self, magnitude: int)
        requires
            0 <= magnitude < self.infinity(),
        ensures
            ({
                let rest = self.units(magnitude) % self.one();
                &&& 0 <= self.rounded(rest, 1) < self.infinity()
                &&& self.units(self.rounded(rest, 1)) == rest
                &&& 0 <= rest <= self.one() - pow2((self.scale() - self.precision()) as nat)
            }),
    {
        let one = self.one();
        let scale = self.scale();
        let hidden = self.hidden();
        let gap_digits = (scale - self.precision()) as nat;
        let gap = pow2(gap_digits) as int;
        let units = self.units(magnitude);
        let field = magnitude / hidden;
        let m = if field == 0 {
            magnitude % hidden
        } else {
            hidden + magnitude % hidden
        };
        let exponent = if field == 0 {
            0nat
        } else {
            (field - 1) as nat
        };
        let power = pow2(exponent) as int;
        lemma_mod_bound(magnitude, hidden);
        lemma_div_pos_is_pos(magnitude, hidden);
        lemma_pow2_pos(scale);
        lemma_pow2_pos(exponent);
        lemma_pow2_pos(gap_digits);
        self.lemma_hidden_is_power();
        crate::float::round::lemma_pow2_zero_one();
        if field == 0 {
            assert(m * power == m) by (nonlinear_arith)
                requires
                    power == 1,
            ;
        }
        assert(units == m * power);
        lemma_pow2_adds(self.precision(), gap_digits);
        assert(one == 2 * hidden * gap);
        assert(gap <= one) by (nonlinear_arith)
            requires
                one == 2 * hidden * gap,
                hidden > 0,
                gap > 0,
        ;
        let rest = units % one;
        if exponent >= scale {
            let more = pow2((exponent - scale) as nat) as int;
            lemma_pow2_adds((exponent - scale) as nat, scale);
            assert(units == (m * more) * one + 0) by (nonlinear_arith)
                requires
                    units == m * power,
                    power == more * one,
            ;
            lemma_fundamental_div_mod_converse(units, one, m * more, 0);
            self.lemma_rounded_zero(1);
            self.lemma_units_zero();
        } else {
            let more = pow2((scale - exponent) as nat) as int;
            lemma_pow2_pos((scale - exponent) as nat);
            lemma_pow2_adds((scale - exponent) as nat, exponent);
            let short = m % more;
            let whole = m / more;
            lemma_fundamental_div_mod(m, more);
            lemma_mod_bound(m, more);
            lemma_div_pos_is_pos(m, more);
            assert(units == whole * one + short * power) by (nonlinear_arith)
                requires
                    units == m * power,
                    one == more * power,
                    m == more * whole + short,
            ;
            assert(0 <= short * power < one) by (nonlinear_arith)
                requires
                    0 <= short < more,
                    one == more * power,
                    power > 0,
            ;
            lemma_fundamental_div_mod_converse(units, one, whole, short * power);
            assert(short <= m) by (nonlinear_arith)
                requires
                    m == more * whole + short,
                    more > 0,
                    whole >= 0,
            ;
            lemma_pow2_adds(64, scale);
            lemma_pow2_pos(64);
            assert(one <= pow2(64 + scale)) by (nonlinear_arith)
                requires
                    pow2(64 + scale) == pow2(64) * one,
                    pow2(64) >= 1,
                    one > 0,
            ;
            self.lemma_rounded_finite(rest, 1);
            self.law_rounding_keeps_short_numbers(short, exponent);
            if exponent >= gap_digits {
                crate::float::round::lemma_pow2_monotone(gap_digits, exponent);
                assert(one - short * power >= power) by (nonlinear_arith)
                    requires
                        one == more * power,
                        short + 1 <= more,
                        power > 0,
                ;
            } else {
                let lift = pow2((gap_digits - exponent) as nat) as int;
                lemma_pow2_pos((gap_digits - exponent) as nat);
                lemma_pow2_adds((gap_digits - exponent) as nat, exponent);
                let top = 2 * hidden - 1;
                assert(one - gap == top * gap) by (nonlinear_arith)
                    requires
                        one == 2 * hidden * gap,
                        top == 2 * hidden - 1,
                ;
                assert(short * power <= top * power) by (nonlinear_arith)
                    requires
                        short <= top,
                        power > 0,
                ;
                assert(top * power <= top * gap) by (nonlinear_arith)
                    requires
                        gap == lift * power,
                        lift >= 1,
                        power > 0,
                        top >= 0,
                ;
            }
        }
    }
}

impl Double {
    /// A whole number becomes a finite number that is not negative, and zero only
    /// for zero.
    pub proof fn law_of_integer(n: int)
        requires
            0 <= n < 0x1_0000_0000_0000_0000,
        ensures
            Double::of_integer(n).is_finite(),
            !Double::of_integer(n).is_nan(),
            Double::of(0).at_most(Double::of_integer(n)),
            Double::of_integer(n) == Double::of(0) <==> n == 0,
    {
        Format::Double.law_whole_numbers_are_finite(n);
        let bits = Format::Double.of_integer(n);
        Format::Double.lemma_units_zero();
        if bits > 0 {
            Format::Double.lemma_units_increase(0, bits);
        }
    }

    /// A number kept between two bounds lies between them.
    pub proof fn law_clamped(self, low: Double, high: Double)
        requires
            low.at_most(high),
            !self.is_nan(),
        ensures
            low.at_most(self.clamped(low, high)),
            self.clamped(low, high).at_most(high),
    {
    }
}

impl Single {
    /// A number kept between two bounds lies between them.
    pub proof fn law_clamped(self, low: Single, high: Single)
        requires
            low.at_most(high),
            !self.is_nan(),
        ensures
            low.at_most(self.clamped(low, high)),
            self.clamped(low, high).at_most(high),
    {
    }
}

} // verus!
