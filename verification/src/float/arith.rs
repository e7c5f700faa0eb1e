use crate::float::format::Format;
use crate::float::round::{bit_length, split_low, widen};
use vstd::arithmetic::div_mod::*;
use vstd::arithmetic::power2::*;
use vstd::bits::*;
use vstd::prelude::*;

verus! {

impl Format {
    pub(crate) fn sign_weight(self) -> (r: u64)
        ensures
            r == self.sign_bit(),
    {
        match self {
            Format::Single => 0x8000_0000,
            Format::Double => 0x8000_0000_0000_0000,
        }
    }

    pub(crate) fn quiet_nan_bits(self) -> (r: u64)
        ensures
            r == self.quiet_nan(),
    {
        match self {
            Format::Single => 0x7fc0_0000,
            Format::Double => 0x7ff8_0000_0000_0000,
        }
    }

    pub(crate) fn scale_digits(self) -> (r: i32)
        ensures
            r == self.scale(),
    {
        match self {
            Format::Single => 149,
            Format::Double => 1074,
        }
    }

    /// Takes a bit pattern apart into its sign and its magnitude.
    pub fn split_sign(self, bits: u64) -> (r: (bool, u64))
        requires
            self.holds(bits as int),
        ensures
            r.0 == self.negative(bits as int),
            r.1 == self.magnitude(bits as int),
            r.1 < self.sign_bit(),
    {
        let weight: u64 = self.sign_weight();
        if bits >= weight {
            (true, bits - weight)
        } else {
            (false, bits)
        }
    }

    pub fn with_sign(self, negative: bool, magnitude: u64) -> (r: u64)
        requires
            magnitude < self.sign_bit(),
        ensures
            r == self.signed(negative, magnitude as int),
            self.holds(r as int),
    {
        if negative {
            self.sign_weight() + magnitude
        } else {
            magnitude
        }
    }

    pub proof fn lemma_rounded_range(self, num: int, den: int)
        requires
            num >= 0,
            den > 0,
        ensures
            0 <= self.rounded(num, den) <= self.infinity(),
    {
        let step = self.spacing(num, den);
        lemma_pow2_pos(step);
        let divisor = den * pow2(step);
        assert(divisor > 0) by (nonlinear_arith)
            requires
                divisor == den * pow2(step),
                den > 0,
                pow2(step) > 0,
        ;
        lemma_div_pos_is_pos(num, divisor);
        assert(step * self.hidden() >= 0) by (nonlinear_arith)
            requires
                self.hidden() > 0,
        ;
    }

    /// Takes a magnitude apart into digits and a power of two.
    pub fn digits(self, magnitude: u64) -> (r: (u64, i32))
        requires
            magnitude <= self.infinity(),
        ensures
            self.units(magnitude as int) == r.0 * pow2(r.1 as nat),
            r.0 < 2 * self.hidden(),
            0 <= r.1 <= 2046,
            r.1 > 0 ==> r.0 >= self.hidden(),
            r.0 == 0 <==> magnitude == 0,
    {
        let hidden: u64 = self.hidden_bit();
        let places: u64 = match self {
            Format::Single => 23,
            Format::Double => 52,
        };
        let field: u64 = magnitude >> places;
        proof {
            lemma_u64_shr_is_div(magnitude, places);
            self.lemma_hidden_is_power();
            lemma_fundamental_div_mod(magnitude as int, hidden as int);
            lemma_mod_bound(magnitude as int, hidden as int);
            assert(hidden * field == field * hidden) by (nonlinear_arith);
            crate::float::round::lemma_pow2_zero_one();
        }
        assert(field <= 2047) by (nonlinear_arith)
            requires
                field * hidden <= 2047 * hidden,
                hidden > 0,
        ;
        let fraction: u64 = magnitude - field * hidden;
        assert(fraction == magnitude as int % self.hidden());
        assert(field == magnitude as int / self.hidden());
        assert(fraction * pow2(0) == fraction) by (nonlinear_arith)
            requires
                pow2(0) == 1,
        ;
        if field == 0 {
            (fraction, 0)
        } else {
            (hidden + fraction, (field - 1) as i32)
        }
    }

    /// The order of the units is the order of the magnitudes.
    pub proof fn lemma_units_increase(self, a: int, b: int)
        requires
            0 <= a < b,
        ensures
            0 <= self.units(a) < self.units(b),
    {
        let hidden = self.hidden();
        let field_a = a / hidden;
        let field_b = b / hidden;
        lemma_fundamental_div_mod(a, hidden);
        lemma_fundamental_div_mod(b, hidden);
        lemma_mod_bound(a, hidden);
        lemma_mod_bound(b, hidden);
        lemma_div_is_ordered(a, b, hidden);
        lemma_div_pos_is_pos(a, hidden);
        let low_a = a % hidden;
        let low_b = b % hidden;
        if field_a == field_b {
            assert(low_a < low_b);
            if field_a > 0 {
                lemma_pow2_pos((field_a - 1) as nat);
                let power = pow2((field_a - 1) as nat) as int;
                assert(0 <= (hidden + low_a) * power < (hidden + low_b) * power)
                    by (nonlinear_arith)
                    requires
                        0 <= low_a < low_b,
                        hidden > 0,
                        power > 0,
                ;
            }
        } else {
            let power_b = pow2((field_b - 1) as nat) as int;
            lemma_pow2_pos((field_b - 1) as nat);
            assert((hidden + low_b) * power_b >= hidden * power_b) by (nonlinear_arith)
                requires
                    low_b >= 0,
                    power_b > 0,
            ;
            if field_a == 0 {
                assert(hidden * power_b >= hidden) by (nonlinear_arith)
                    requires
                        hidden > 0,
                        power_b >= 1,
                ;
            } else {
                let power_a = pow2((field_a - 1) as nat) as int;
                lemma_pow2_pos((field_a - 1) as nat);
                crate::float::round::lemma_pow2_double((field_a - 1) as nat);
                crate::float::round::lemma_pow2_monotone(field_a as nat, (field_b - 1) as nat);
                assert(2 * power_a <= power_b);
                assert(0 <= (hidden + low_a) * power_a < hidden * power_b) by (nonlinear_arith)
                    requires
                        0 <= low_a < hidden,
                        power_a > 0,
                        2 * power_a <= power_b,
                ;
            }
        }
    }

    pub proof fn lemma_units_zero(self)
        ensures
            self.units(0) == 0,
    {
    }

    /// Compares two numbers: whether `a` is less than `b`.
    pub fn less_than(self, a: u64, b: u64) -> (r: bool)
        requires
            self.holds(a as int),
            self.holds(b as int),
        ensures
            r == self.less(a as int, b as int),
    {
        let infinity: u64 = self.infinity_bits();
        let (negative_a, size_a) = self.split_sign(a);
        let (negative_b, size_b) = self.split_sign(b);
        if size_a > infinity || size_b > infinity {
            return false;
        }
        proof {
            if size_a < size_b {
                self.lemma_units_increase(size_a as int, size_b as int);
            }
            if size_b < size_a {
                self.lemma_units_increase(size_b as int, size_a as int);
            }
            if size_a > 0 {
                self.lemma_units_increase(0, size_a as int);
            }
            if size_b > 0 {
                self.lemma_units_increase(0, size_b as int);
            }
            self.lemma_units_zero();
        }
        if negative_a {
            if negative_b {
                size_b < size_a
            } else {
                size_a > 0 || size_b > 0
            }
        } else {
            !negative_b && size_a < size_b
        }
    }

    /// Compares two numbers: whether `a` is at most `b`.
    pub fn at_most(self, a: u64, b: u64) -> (r: bool)
        requires
            self.holds(a as int),
            self.holds(b as int),
        ensures
            r == self.less_equal(a as int, b as int),
    {
        let infinity: u64 = self.infinity_bits();
        let (_, size_a) = self.split_sign(a);
        let (_, size_b) = self.split_sign(b);
        if size_a > infinity || size_b > infinity {
            return false;
        }
        !self.less_than(b, a)
    }

    pub fn negate(self, a: u64) -> (r: u64)
        requires
            self.holds(a as int),
        ensures
            r == self.negated(a as int),
            self.holds(r as int),
    {
        let (negative, size) = self.split_sign(a);
        self.with_sign(!negative, size)
    }

    /// `a * b`.
    pub fn multiply(self, a: u64, b: u64) -> (r: u64)
        requires
            self.holds(a as int),
            self.holds(b as int),
        ensures
            r == self.product(a as int, b as int),
            self.holds(r as int),
    {
        let infinity: u64 = self.infinity_bits();
        let (negative_a, size_a) = self.split_sign(a);
        let (negative_b, size_b) = self.split_sign(b);
        let negative: bool = negative_a != negative_b;
        if size_a > infinity || size_b > infinity {
            return self.quiet_nan_bits();
        }
        if size_a == infinity || size_b == infinity {
            if size_a == 0 || size_b == 0 {
                return self.quiet_nan_bits();
            }
            return self.with_sign(negative, infinity);
        }
        let (digits_a, power_a) = self.digits(size_a);
        let (digits_b, power_b) = self.digits(size_b);
        let ghost num = self.units(size_a as int) * self.units(size_b as int);
        let ghost den = pow2(self.scale()) as int;
        assert(digits_a * digits_b < 0x8000_0000_0000_0000_0000_0000_0000_0000)
            by (nonlinear_arith)
            requires
                0 <= digits_a < 0x20_0000_0000_0000,
                0 <= digits_b < 0x20_0000_0000_0000,
        ;
        let m: u128 = (digits_a as u128) * (digits_b as u128);
        let e: i32 = power_a + power_b - self.scale_digits();
        proof {
            let up = crate::float::round::scale_up(e as int);
            let down = crate::float::round::scale_up(-(e as int));
            let pa = pow2(power_a as nat) as int;
            let pb = pow2(power_b as nat) as int;
            lemma_pow2_adds(power_a as nat, power_b as nat);
            lemma_pow2_pos(self.scale());
            if e > 0 {
                lemma_pow2_adds(self.scale(), e as nat);
            } else if e < 0 {
                lemma_pow2_adds((power_a + power_b) as nat, (-e) as nat);
            }
            assert(pa * pb * down == den * up);
            assert(num * down == den * up * m) by (nonlinear_arith)
                requires
                    num == (digits_a * pa) * (digits_b * pb),
                    m == digits_a * digits_b,
                    pa * pb * down == den * up,
            ;
            if e != 0 {
                lemma_pow2_pos(if e > 0 { e as nat } else { (-e) as nat });
            }
            assert(den * up > 0) by (nonlinear_arith)
                requires
                    den > 0,
                    up > 0,
            ;
            assert(den * up * (m + 1) > den * up * m) by (nonlinear_arith)
                requires
                    den * up > 0,
            ;
            assert(num >= 0) by (nonlinear_arith)
                requires
                    num == (digits_a * pa) * (digits_b * pb),
                    digits_a >= 0,
                    digits_b >= 0,
                    pa >= 0,
                    pb >= 0,
            ;
        }
        let magnitude: u64 = self.round_magnitude(m, e, false, Ghost(num), Ghost(den));
        proof {
            self.lemma_rounded_range(num, den);
        }
        self.with_sign(negative, magnitude)
    }

    /// `a / b`.
    pub fn divide(self, a: u64, b: u64) -> (r: u64)
        requires
            self.holds(a as int),
            self.holds(b as int),
        ensures
            r == self.quotient(a as int, b as int),
            self.holds(r as int),
    {
        let infinity: u64 = self.infinity_bits();
        let (negative_a, size_a) = self.split_sign(a);
        let (negative_b, size_b) = self.split_sign(b);
        let negative: bool = negative_a != negative_b;
        if size_a > infinity || size_b > infinity {
            return self.quiet_nan_bits();
        }
        if size_a == infinity {
            if size_b == infinity {
                return self.quiet_nan_bits();
            }
            return self.with_sign(negative, infinity);
        }
        if size_b == infinity {
            return self.with_sign(negative, 0);
        }
        if size_b == 0 {
            if size_a == 0 {
                return self.quiet_nan_bits();
            }
            return self.with_sign(negative, infinity);
        }
        let magnitude: u64 = self.divide_sizes(size_a, size_b);
        proof {
            lemma_pow2_pos(self.scale());
            self.lemma_units_zero();
            self.lemma_units_increase(0, size_b as int);
            if size_a > 0 {
                self.lemma_units_increase(0, size_a as int);
            }
            assert(self.units(size_a as int) * pow2(self.scale()) >= 0) by (nonlinear_arith)
                requires
                    self.units(size_a as int) >= 0,
                    pow2(self.scale()) >= 0,
            ;
            self.lemma_rounded_range(
                self.units(size_a as int) * pow2(self.scale()),
                self.units(size_b as int),
            );
        }
        self.with_sign(negative, magnitude)
    }

    fn divide_sizes(self, size_a: u64, size_b: u64) -> (r: u64)
        requires
            size_a < self.infinity(),
            0 < size_b < self.infinity(),
        ensures
            r == self.rounded(
                self.units(size_a as int) * pow2(self.scale()),
                self.units(size_b as int),
            ),
    {
        let (digits_a, power_a) = self.digits(size_a);
        let (digits_b, power_b) = self.digits(size_b);
        let ghost num = self.units(size_a as int) * pow2(self.scale());
        let ghost den = self.units(size_b as int);
        proof {
            self.lemma_units_zero();
            self.lemma_units_increase(0, size_b as int);
            crate::float::round::lemma_pow2_zero_one();
        }
        if size_a == 0 {
            assert(num == 0) by (nonlinear_arith)
                requires
                    num == self.units(size_a as int) * pow2(self.scale()),
                    self.units(size_a as int) == 0,
            ;
            assert(den * 1 * 0 == 0);
            assert(den * 1 * 1 > 0);
            return self.round_magnitude(0, 0, false, Ghost(num), Ghost(den));
        }
        let length: u32 = bit_length(digits_a as u128);
        proof {
            lemma2_to64();
            if length > 64 {
                crate::float::round::lemma_pow2_monotone(64, (length - 1) as nat);
            }
        }
        let shift: u32 = 127 - length;
        let ghost spread = pow2(shift as nat) as int;
        proof {
            // The dividend is moved up until it has 127 digits.
            crate::float::round::lemma_pow2_127();
            lemma2_to64();
            lemma2_to64_rest();
            lemma_pow2_adds(length as nat, shift as nat);
            lemma_pow2_adds((length - 1) as nat, shift as nat);
            lemma_pow2_adds(63, 63);
            lemma_pow2_pos(shift as nat);
            assert(digits_a * spread < pow2(length as nat) * spread) by (nonlinear_arith)
                requires
                    digits_a < pow2(length as nat),
                    spread > 0,
            ;
            assert(digits_a * spread >= pow2((length - 1) as nat) * spread) by (nonlinear_arith)
                requires
                    digits_a >= pow2((length - 1) as nat),
                    spread > 0,
            ;
        }
        let dividend: u128 = widen(digits_a as u128, shift);
        let divisor: u128 = digits_b as u128;
        let q: u128 = dividend / divisor;
        let rest: u128 = dividend % divisor;
        let e: i32 = power_a - (shift as i32) + self.scale_digits() - power_b;
        proof {
            lemma_fundamental_div_mod(dividend as int, divisor as int);
            lemma_mod_bound(dividend as int, divisor as int);
            assert(q >= 0x20_0000_0000_0000) by (nonlinear_arith)
                requires
                    dividend == divisor * q + rest,
                    rest < divisor,
                    divisor < 0x20_0000_0000_0000,
                    dividend >= 0x4000_0000_0000_0000_0000_0000_0000_0000,
            ;
            assert(q <= dividend) by (nonlinear_arith)
                requires
                    dividend == divisor * q + rest,
                    rest >= 0,
                    divisor >= 1,
                    q >= 0,
            ;
            let up = crate::float::round::scale_up(e as int);
            let down = crate::float::round::scale_up(-(e as int));
            let pa = pow2(power_a as nat) as int;
            let pb = pow2(power_b as nat) as int;
            let one = pow2(self.scale()) as int;
            let weight = pb * up;
            lemma_pow2_pos(power_b as nat);
            lemma_pow2_adds(power_a as nat, self.scale());
            lemma_pow2_adds(power_b as nat, shift as nat);
            if e > 0 {
                lemma_pow2_pos(e as nat);
                lemma_pow2_adds((power_b + shift) as nat, e as nat);
            } else if e < 0 {
                lemma_pow2_pos((-e) as nat);
                lemma_pow2_adds((power_a + self.scale()) as nat, (-e) as nat);
            }
            let level = pow2((power_b + shift) as nat) as int;
            let target = pow2((power_a + self.scale()) as nat) as int;
            assert(pb * spread == level);
            assert(pa * one == target);
            assert(level * up == target * down) by {
                if e > 0 {
                    assert(down == 1 && up == pow2(e as nat));
                    assert((power_b + shift) as nat + e as nat == (power_a + self.scale()) as nat);
                    assert(target * down == target) by (nonlinear_arith)
                        requires
                            down == 1,
                    ;
                } else {
                    assert(up == 1);
                    assert(level * up == level) by (nonlinear_arith)
                        requires
                            up == 1,
                    ;
                    if e < 0 {
                        assert(down == pow2((-e) as nat));
                        assert((power_a + self.scale()) as nat + (-e) as nat == (power_b
                            + shift) as nat);
                    } else {
                        assert(down == 1);
                        assert(target * down == target) by (nonlinear_arith)
                            requires
                                down == 1,
                        ;
                    }
                }
            }
            assert(pb * spread * up == pa * one * down);
            assert(weight > 0) by (nonlinear_arith)
                requires
                    weight == pb * up,
                    pb > 0,
                    up > 0,
            ;
            assert(num * down == dividend * weight) by (nonlinear_arith)
                requires
                    num == (digits_a * pa) * one,
                    dividend == digits_a * spread,
                    weight == pb * up,
                    pb * spread * up == pa * one * down,
            ;
            assert(den * up == divisor * weight) by (nonlinear_arith)
                requires
                    den == digits_b * pb,
                    divisor == digits_b,
                    weight == pb * up,
            ;
            let base = den * up;
            assert(num * down - base * q == rest * weight) by (nonlinear_arith)
                requires
                    num * down == dividend * weight,
                    base == divisor * weight,
                    dividend == divisor * q + rest,
            ;
            assert(0 <= rest * weight < base) by (nonlinear_arith)
                requires
                    0 <= rest < divisor,
                    weight > 0,
                    base == divisor * weight,
            ;
            assert(rest * weight == 0 <==> rest == 0) by (nonlinear_arith)
                requires
                    weight > 0,
            ;
            assert(base * (q + 1) == base * q + base) by (nonlinear_arith);
            assert(num >= 0) by (nonlinear_arith)
                requires
                    num == (digits_a * pa) * one,
                    digits_a >= 0,
                    pa >= 0,
                    one >= 0,
            ;
        }
        self.round_magnitude(q, e, rest != 0, Ghost(num), Ghost(den))
    }

    /// `a + b`.
    pub fn sum_bits(self, a: u64, b: u64) -> (r: u64)
        requires
            self.holds(a as int),
            self.holds(b as int),
        ensures
            r == self.sum(a as int, b as int),
            self.holds(r as int),
    {
        let infinity: u64 = self.infinity_bits();
        let (negative_a, size_a) = self.split_sign(a);
        let (negative_b, size_b) = self.split_sign(b);
        if size_a > infinity || size_b > infinity {
            return self.quiet_nan_bits();
        }
        if size_a == infinity && size_b == infinity {
            if a == b {
                return a;
            }
            return self.quiet_nan_bits();
        }
        if size_a == infinity {
            return a;
        }
        if size_b == infinity {
            return b;
        }
        if size_b <= size_a {
            self.sum_ordered(negative_a, size_a, negative_b, size_b)
        } else {
            self.sum_ordered(negative_b, size_b, negative_a, size_a)
        }
    }

    /// The sum of two finite numbers, the larger magnitude first.
    fn sum_ordered(self, negative_a: bool, size_a: u64, negative_b: bool, size_b: u64) -> (r: u64)
        requires
            size_b <= size_a < self.infinity(),
        ensures
            r == self.rounded_value(
                (if negative_a {
                    -self.units(size_a as int)
                } else {
                    self.units(size_a as int)
                }) + (if negative_b {
                    -self.units(size_b as int)
                } else {
                    self.units(size_b as int)
                }),
                1,
                negative_a && negative_b,
            ),
            self.holds(r as int),
    {
        let (digits_a, power_a) = self.digits(size_a);
        let (digits_b, power_b) = self.digits(size_b);
        let ghost units_a = self.units(size_a as int);
        let ghost units_b = self.units(size_b as int);
        proof {
            self.lemma_units_zero();
            if size_b < size_a {
                self.lemma_units_increase(size_b as int, size_a as int);
            }
            if size_b > 0 {
                self.lemma_units_increase(0, size_b as int);
            }
        }
        let (high_a, high_b, cut, e) = self.align(
            digits_a,
            power_a,
            digits_b,
            power_b,
            Ghost(units_a),
            Ghost(units_b),
        );
        let ghost weight = pow2(e as nat) as int;
        proof {
            lemma_pow2_pos(e as nat);
        }
        if negative_a == negative_b {
            let m: u128 = high_a + high_b;
            proof {
                let num = units_a + units_b;
                assert(weight * m <= num < weight * (m + 1)) by (nonlinear_arith)
                    requires
                        num == units_a + units_b,
                        units_a == high_a * weight,
                        high_b * weight <= units_b < (high_b + 1) * weight,
                        m == high_a + high_b,
                ;
                assert(cut <==> num != weight * m) by (nonlinear_arith)
                    requires
                        num == units_a + units_b,
                        units_a == high_a * weight,
                        cut <==> units_b != high_b * weight,
                        m == high_a + high_b,
                ;
                self.lemma_rounded_range(num, 1);
            }
            let magnitude: u64 = self.round_whole(m, e, cut, Ghost(units_a + units_b));
            proof {
                if units_a + units_b == 0 {
                    self.lemma_rounded_zero(1);
                }
            }
            self.with_sign(negative_a, magnitude)
        } else {
            let m: u128 = if cut {
                high_a - high_b - 1
            } else {
                proof {
                    assert(high_a >= high_b) by (nonlinear_arith)
                        requires
                            high_a * weight >= high_b * weight,
                            weight > 0,
                    ;
                }
                high_a - high_b
            };
            let ghost num = units_a - units_b;
            proof {
                assert(weight * m <= num < weight * (m + 1)) by (nonlinear_arith)
                    requires
                        num == units_a - units_b,
                        units_a == high_a * weight,
                        high_b * weight <= units_b < (high_b + 1) * weight,
                        cut <==> units_b != high_b * weight,
                        m == high_a - high_b - (if cut {
                            1int
                        } else {
                            0int
                        }),
                        weight > 0,
                ;
                assert(cut <==> num != weight * m) by (nonlinear_arith)
                    requires
                        num == units_a - units_b,
                        units_a == high_a * weight,
                        high_b * weight <= units_b < (high_b + 1) * weight,
                        cut <==> units_b != high_b * weight,
                        m == high_a - high_b - (if cut {
                            1int
                        } else {
                            0int
                        }),
                        weight > 0,
                ;
                self.lemma_rounded_range(num, 1);
            }
            let magnitude: u64 = self.round_whole(m, e, cut, Ghost(num));
            if m == 0 && !cut {
                proof {
                    assert(num == 0) by (nonlinear_arith)
                        requires
                            num == weight * m,
                            m == 0,
                    ;
                }
                return 0;
            }
            proof {
                assert(num > 0) by (nonlinear_arith)
                    requires
                        weight * m <= num,
                        weight > 0,
                        m > 0 || num != weight * m,
                        m >= 0,
                ;
            }
            self.with_sign(negative_a, magnitude)
        }
    }

    pub proof fn lemma_rounded_zero(self, den: int)
        requires
            den > 0,
        ensures
            self.rounded(0, den) == 0,
    {
        crate::float::round::lemma_pow2_zero_one();
        lemma_basic_div(0, den);
        assert(den * 1 == den);
    }

    /// Rounds a whole number of units.
    pub(crate) fn round_whole(
        self,
        m: u128,
        e: i32,
        sticky: bool,
        Ghost(num): Ghost<int>,
    ) -> (r: u64)
        requires
            num >= 0,
            0 <= e <= 5000,
            m < 0x8000_0000_0000_0000_0000_0000_0000_0000,
            pow2(e as nat) * m <= num < pow2(e as nat) * (m + 1),
            sticky <==> num != pow2(e as nat) * m,
            sticky ==> m >= 2 * self.hidden(),
        ensures
            r == self.rounded(num, 1),
    {
        proof {
            crate::float::round::lemma_pow2_zero_one();
            assert(num * 1 == num);
            assert(crate::float::round::scale_up(e as int) == pow2(e as nat));
            assert(1 * pow2(e as nat) == pow2(e as nat));
        }
        self.round_magnitude(m, e, sticky, Ghost(num), Ghost(1))
    }

    /// Writes two magnitudes over one power of two: the first in full, the
    /// second as far as it reaches, and whether some of the second was cut off.
    fn align(
        self,
        digits_a: u64,
        power_a: i32,
        digits_b: u64,
        power_b: i32,
        Ghost(units_a): Ghost<int>,
        Ghost(units_b): Ghost<int>,
    ) -> (r: (u128, u128, bool, i32))
        requires
            units_a == digits_a * pow2(power_a as nat),
            units_b == digits_b * pow2(power_b as nat),
            digits_a < 2 * self.hidden(),
            digits_b < 2 * self.hidden(),
            0 <= power_a <= 2046,
            0 <= power_b <= 2046,
            power_a > 0 ==> digits_a >= self.hidden(),
            power_b > 0 ==> digits_b >= self.hidden(),
            units_b <= units_a,
        ensures
            0 <= r.3 <= 2046,
            units_a == r.0 * pow2(r.3 as nat),
            r.1 * pow2(r.3 as nat) <= units_b < (r.1 + 1) * pow2(r.3 as nat),
            r.2 <==> units_b != r.1 * pow2(r.3 as nat),
            r.2 ==> r.0 >= 0x10_0000_0000_0000_0000_0000,
            r.0 < 0x4000_0000_0000_0000_0000_0000_0000_0000,
            r.1 < 0x20_0000_0000_0000,
    {
        proof {
            if power_a < power_b {
                // The larger magnitude has the larger power.
                let low = pow2(power_a as nat) as int;
                let high = pow2(power_b as nat) as int;
                crate::float::round::lemma_pow2_double(power_a as nat);
                crate::float::round::lemma_pow2_monotone((power_a + 1) as nat, power_b as nat);
                lemma_pow2_pos(power_a as nat);
                let hidden = self.hidden();
                assert(digits_a * low < digits_b * high) by (nonlinear_arith)
                    requires
                        digits_a < 2 * hidden,
                        digits_b >= hidden,
                        2 * low <= high,
                        low > 0,
                        hidden > 0,
                ;
            }
        }
        let apart: i32 = power_a - power_b;
        let moved: i32 = if apart <= 72 {
            apart
        } else {
            72
        };
        let e: i32 = power_a - moved;
        let ghost weight = pow2(e as nat) as int;
        proof {
            lemma_pow2_pos(e as nat);
            lemma_pow2_pos(moved as nat);
            lemma_pow2_adds(moved as nat, e as nat);
            crate::float::round::lemma_pow2_monotone(moved as nat, 72);
            lemma2_to64();
            lemma_pow2_adds(64, 8);
            let spread = pow2(moved as nat) as int;
            assert(digits_a * spread < 0x4000_0000_0000_0000_0000_0000_0000_0000)
                by (nonlinear_arith)
                requires
                    0 <= digits_a < 0x20_0000_0000_0000,
                    0 < spread <= 0x100_0000_0000_0000_0000,
            ;
            assert(units_a == (digits_a * spread) * weight) by (nonlinear_arith)
                requires
                    units_a == digits_a * pow2(power_a as nat),
                    pow2(power_a as nat) == spread * weight,
            ;
        }
        let high_a: u128 = widen(digits_a as u128, moved as u32);
        if apart <= 72 {
            assert((digits_b + 1) * weight > digits_b * weight) by (nonlinear_arith)
                requires
                    weight > 0,
            ;
            return (high_a, digits_b as u128, false, e);
        }
        assert(high_a >= 0x10_0000_0000_0000_0000_0000) by (nonlinear_arith)
            requires
                high_a == digits_a * 0x100_0000_0000_0000_0000,
                digits_a >= 0x80_0000,
        ;
        let below: i32 = apart - 72;
        if below < 64 {
            let (high_b, low_b) = split_low(digits_b as u128, below as u32);
            proof {
                lemma_pow2_pos(below as nat);
                lemma_pow2_pos(power_b as nat);
                lemma_pow2_adds(below as nat, power_b as nat);
                let step = pow2(below as nat) as int;
                let least = pow2(power_b as nat) as int;
                assert(units_b == high_b * weight + low_b * least) by (nonlinear_arith)
                    requires
                        units_b == digits_b * least,
                        digits_b == high_b * step + low_b,
                        weight == step * least,
                ;
                assert(0 <= low_b * least < weight) by (nonlinear_arith)
                    requires
                        0 <= low_b < step,
                        least > 0,
                        weight == step * least,
                ;
                assert(low_b * least == 0 <==> low_b == 0) by (nonlinear_arith)
                    requires
                        least > 0,
                ;
                assert((high_b + 1) * weight == high_b * weight + weight) by (nonlinear_arith);
                assert(high_b <= digits_b) by (nonlinear_arith)
                    requires
                        digits_b == high_b * step + low_b,
                        step >= 1,
                        low_b >= 0,
                        high_b >= 0,
                ;
            }
            (high_a, high_b, low_b != 0, e)
        } else {
            proof {
                lemma_pow2_pos(power_b as nat);
                crate::float::round::lemma_pow2_monotone(64, below as nat);
                lemma_pow2_adds(below as nat, power_b as nat);
                let least = pow2(power_b as nat) as int;
                let step = pow2(below as nat) as int;
                assert(0 <= units_b < weight) by (nonlinear_arith)
                    requires
                        units_b == digits_b * least,
                        0 <= digits_b < step,
                        least > 0,
                        weight == step * least,
                ;
                assert(units_b == 0 <==> digits_b == 0) by (nonlinear_arith)
                    requires
                        units_b == digits_b * least,
                        least > 0,
                ;
            }
            let high_b: u128 = 0;
            assert(high_b * weight == 0) by (nonlinear_arith)
                requires
                    high_b == 0,
            ;
            assert((high_b + 1) * weight == weight) by (nonlinear_arith)
                requires
                    high_b == 0,
            ;
            (high_a, high_b, digits_b != 0, e)
        }
    }
}

} // verus!
