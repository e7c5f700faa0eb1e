use crate::float::format::Format;
use crate::float::round::{bit_length, split_low, widen};
use vstd::arithmetic::div_mod::*;
use vstd::arithmetic::power2::*;
use vstd::prelude::*;

verus! {

impl Format {
    /// One, in units.
    pub open spec fn one(self) -> int {
        pow2(self.scale()) as int
    }

    /// The number nearest to a whole number.
    pub open spec fn of_integer(self, n: int) -> int {
        self.rounded(n * self.one(), 1)
    }

    /// The number of format `to` nearest to a number of this format.
    pub open spec fn converted(self, to: Format, bits: int) -> int {
        if self.is_nan(bits) {
            to.quiet_nan()
        } else if self.is_infinite(bits) {
            to.signed(self.negative(bits), to.infinity())
        } else {
            to.signed(
                self.negative(bits),
                to.rounded(self.units(self.magnitude(bits)) * to.one(), self.one()),
            )
        }
    }

    /// A number cut to a whole number from 0 to `max`: the fraction is dropped,
    /// what lies outside goes to the nearest end, and what is not a number to 0.
    pub open spec fn to_integer(self, bits: int, max: int) -> int {
        if self.is_nan(bits) || self.negative(bits) {
            0
        } else if self.is_infinite(bits) {
            max
        } else {
            let whole = self.units(self.magnitude(bits)) / self.one();
            if whole < max {
                whole
            } else {
                max
            }
        }
    }

    /// As `to_integer`, but a fraction is rounded up.
    pub open spec fn ceil_to_integer(self, bits: int, max: int) -> int {
        if self.is_nan(bits) || self.negative(bits) {
            0
        } else if self.is_infinite(bits) {
            max
        } else {
            let units = self.units(self.magnitude(bits));
            let whole = if units % self.one() == 0 {
                units / self.one()
            } else {
                units / self.one() + 1
            };
            if whole < max {
                whole
            } else {
                max
            }
        }
    }

    /// The remainder of a division by one, with the sign of the dividend.
    pub open spec fn fraction(self, bits: int) -> int {
        if self.is_finite(bits) {
            self.signed(
                self.negative(bits),
                self.rounded(self.units(self.magnitude(bits)) % self.one(), 1),
            )
        } else {
            self.quiet_nan()
        }
    }

    pub fn from_integer(self, n: u64) -> (r: u64)
        ensures
            r == self.of_integer(n as int),
            r <= self.infinity(),
    {
        let e: i32 = match self {
            Format::Single => 149,
            Format::Double => 1074,
        };
        let ghost num = n * self.one();
        proof {
            lemma_pow2_pos(self.scale());
            let one = self.one();
            assert(one * n == num && one * (n + 1) > num) by (nonlinear_arith)
                requires
                    one > 0,
                    num == n * one,
            ;
            self.lemma_rounded_range(num, 1);
        }
        self.round_whole(n as u128, e, false, Ghost(num))
    }

    /// Converts a number to format `to`.
    pub fn convert(self, to: Format, bits: u64) -> (r: u64)
        requires
            self.holds(bits as int),
        ensures
            r == self.converted(to, bits as int),
            to.holds(r as int),
    {
        let (negative, size) = self.split_sign(bits);
        if size > self.infinity_bits() {
            return to.quiet_nan_bits();
        }
        if size == self.infinity_bits() {
            return to.with_sign(negative, to.infinity_bits());
        }
        let (digits, power) = self.digits(size);
        let e: i32 = power + to.scale_digits() - self.scale_digits();
        let ghost num = self.units(size as int) * to.one();
        let ghost den = self.one();
        proof {
            let up = crate::float::round::scale_up(e as int);
            let down = crate::float::round::scale_up(-(e as int));
            let p = pow2(power as nat) as int;
            let target = to.one();
            lemma_pow2_pos(power as nat);
            lemma_pow2_pos(to.scale());
            lemma_pow2_pos(self.scale());
            lemma_pow2_adds(power as nat, to.scale());
            if e > 0 {
                lemma_pow2_pos(e as nat);
                lemma_pow2_adds(self.scale(), e as nat);
            } else if e < 0 {
                lemma_pow2_pos((-e) as nat);
                lemma_pow2_adds((power + to.scale()) as nat, (-e) as nat);
            }
            let level = pow2((power + to.scale()) as nat) as int;
            assert(p * target == level);
            assert(level * down == den * up);
            assert(num * down == den * up * digits) by (nonlinear_arith)
                requires
                    num == (digits * p) * target,
                    p * target == level,
                    level * down == den * up,
            ;
            assert(den * up > 0) by (nonlinear_arith)
                requires
                    den > 0,
                    up > 0,
            ;
            assert(den * up * (digits + 1) > den * up * digits) by (nonlinear_arith)
                requires
                    den * up > 0,
            ;
            assert(num >= 0) by (nonlinear_arith)
                requires
                    num == (digits * p) * target,
                    p >= 0,
                    target >= 0,
            ;
        }
        let magnitude: u64 = to.round_magnitude(digits as u128, e, false, Ghost(num), Ghost(den));
        proof {
            to.lemma_rounded_range(num, den);
        }
        to.with_sign(negative, magnitude)
    }

    /// Takes a finite magnitude apart at the point: the whole part, unless it is
    /// too large, and the digits and power of two of the rest.
    fn split_whole(self, size: u64) -> (r: (Option<u64>, u64, i32))
        requires
            size < self.infinity(),
        ensures
            match r.0 {
                Some(whole) => whole == self.units(size as int) / self.one(),
                None => self.units(size as int) / self.one() > u64::MAX,
            },
            0 <= r.2 <= 2046,
            self.units(size as int) % self.one() == r.1 * pow2(r.2 as nat),
    {
        let (digits, power) = self.digits(size);
        let scale: i32 = self.scale_digits();
        let ghost units = self.units(size as int);
        let ghost one = self.one();
        proof {
            lemma_pow2_pos(self.scale());
            lemma_pow2_pos(power as nat);
        }
        if power >= scale {
            let shift: u32 = (power - scale) as u32;
            let ghost spread = pow2(shift as nat) as int;
            let length: u32 = bit_length(digits as u128);
            proof {
                lemma_pow2_adds(self.scale(), shift as nat);
                lemma_pow2_pos(shift as nat);
                assert(units == (digits * spread) * one) by (nonlinear_arith)
                    requires
                        units == digits * pow2(power as nat),
                        pow2(power as nat) == one * spread,
                ;
                lemma_fundamental_div_mod_converse(units, one, digits * spread, 0);
                assert(0 * pow2(power as nat) == 0);
                lemma2_to64();
                crate::float::round::lemma_pow2_zero_one();
                if power > 0 {
                    assert(digits > 0);
                }
            }
            if length + shift <= 64 {
                proof {
                    lemma_pow2_adds(length as nat, shift as nat);
                    crate::float::round::lemma_pow2_monotone((length + shift) as nat, 64);
                    assert(digits * spread < pow2(length as nat) * spread) by (nonlinear_arith)
                        requires
                            digits < pow2(length as nat),
                            spread > 0,
                    ;
                }
                (Some(widen(digits as u128, shift) as u64), 0, 0)
            } else {
                proof {
                    lemma_pow2_adds((length - 1) as nat, shift as nat);
                    crate::float::round::lemma_pow2_monotone(64, (length - 1 + shift) as nat);
                    assert(digits * spread >= pow2((length - 1) as nat) * spread)
                        by (nonlinear_arith)
                        requires
                            digits >= pow2((length - 1) as nat),
                            spread > 0,
                    ;
                }
                (None, 0, 0)
            }
        } else {
            let below: i32 = scale - power;
            let ghost step = pow2(below as nat) as int;
            let ghost least = pow2(power as nat) as int;
            proof {
                lemma_pow2_adds(power as nat, below as nat);
                lemma_pow2_pos(below as nat);
            }
            if below < 64 {
                let (high, low) = split_low(digits as u128, below as u32);
                proof {
                    assert(units == high * one + low * least) by (nonlinear_arith)
                        requires
                            units == digits * least,
                            digits == high * step + low,
                            one == least * step,
                    ;
                    assert(0 <= low * least < one) by (nonlinear_arith)
                        requires
                            0 <= low < step,
                            least > 0,
                            one == least * step,
                    ;
                    lemma_fundamental_div_mod_converse(units, one, high as int, low * least);
                    assert(high <= digits) by (nonlinear_arith)
                        requires
                            digits == high * step + low,
                            step >= 1,
                            low >= 0,
                            high >= 0,
                    ;
                    assert(low <= digits) by (nonlinear_arith)
                        requires
                            digits == high * step + low,
                            step >= 1,
                            high >= 0,
                    ;
                }
                (Some(high as u64), low as u64, power)
            } else {
                proof {
                    lemma2_to64();
                    crate::float::round::lemma_pow2_monotone(64, below as nat);
                    assert(0 <= units < one) by (nonlinear_arith)
                        requires
                            units == digits * least,
                            0 <= digits < step,
                            least > 0,
                            one == least * step,
                    ;
                    lemma_fundamental_div_mod_converse(units, one, 0, units);
                }
                (Some(0), digits, power)
            }
        }
    }

    /// Cuts a number to a whole number from 0 to `max`.
    pub fn truncate(self, bits: u64, max: u64) -> (r: u64)
        requires
            self.holds(bits as int),
        ensures
            r == self.to_integer(bits as int, max as int),
    {
        let (negative, size) = self.split_sign(bits);
        if negative || size > self.infinity_bits() {
            return 0;
        }
        if size == self.infinity_bits() {
            return max;
        }
        let (whole, _, _) = self.split_whole(size);
        match whole {
            Some(n) => if n < max {
                n
            } else {
                max
            },
            None => max,
        }
    }

    /// Rounds a number up to a whole number from 0 to `max`.
    pub fn round_up(self, bits: u64, max: u64) -> (r: u64)
        requires
            self.holds(bits as int),
        ensures
            r == self.ceil_to_integer(bits as int, max as int),
    {
        let (negative, size) = self.split_sign(bits);
        if negative || size > self.infinity_bits() {
            return 0;
        }
        if size == self.infinity_bits() {
            return max;
        }
        let (whole, low, power) = self.split_whole(size);
        proof {
            lemma_pow2_pos(power as nat);
            assert(low * pow2(power as nat) == 0 <==> low == 0) by (nonlinear_arith)
                requires
                    pow2(power as nat) > 0,
            ;
        }
        match whole {
            Some(n) => if n < max {
                if low == 0 {
                    n
                } else {
                    n + 1
                }
            } else {
                max
            },
            None => max,
        }
    }

    /// The remainder of a division by one.
    pub fn remainder_of_one(self, bits: u64) -> (r: u64)
        requires
            self.holds(bits as int),
        ensures
            r == self.fraction(bits as int),
            self.holds(r as int),
    {
        let (negative, size) = self.split_sign(bits);
        if size >= self.infinity_bits() {
            return self.quiet_nan_bits();
        }
        let (_, low, power) = self.split_whole(size);
        let ghost num = low * pow2(power as nat);
        proof {
            let p = pow2(power as nat) as int;
            lemma_pow2_pos(power as nat);
            assert(p * low == num && p * (low + 1) > num && num >= 0) by (nonlinear_arith)
                requires
                    p > 0,
                    num == low * p,
            ;
            self.lemma_rounded_range(num, 1);
        }
        let magnitude: u64 = self.round_whole(low as u128, power, false, Ghost(num));
        self.with_sign(negative, magnitude)
    }
}

} // verus!
