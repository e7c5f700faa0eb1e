use crate::float::number::{Double, DOUBLE_TEN};
use crate::text::{decimal_text, two_digit_text};
use crate::float::format::Format;
use vstd::arithmetic::div_mod::*;
use vstd::arithmetic::power2::*;
use vstd::prelude::*;
use vstd::string::*;

verus! {

/// Tenths of the second that has begun.
pub open spec fn tenths(secs: Double) -> nat {
    secs.fraction().times(Double::of(DOUBLE_TEN as int)).whole(u32::MAX as int) as nat
}

/// A time in minutes, seconds and tenths; zero for what is no time.
pub open spec fn clock_text(secs: Double) -> Seq<char> {
    if !secs.is_finite() || secs.less(Double::of(0)) {
        "0:00.0"@
    } else {
        let whole = secs.whole(u64::MAX as int) as nat;
        crate::text::decimal(whole / 60) + ":"@ + crate::text::two_digits(whole % 60) + "."@
            + crate::text::decimal(tenths(secs))
    }
}

/// The tenths are a single digit: however near a time is to the next second, ten
/// times its fraction is not rounded up to ten.
pub proof fn law_tenths_are_one_digit(secs: Double)
    requires
        secs.is_finite(),
    ensures
        tenths(secs) < 10,
{
    let format = Format::Double;
    let bits = secs.bits as int;
    let magnitude = format.magnitude(bits);
    let one = format.one();
    let rest = format.units(magnitude) % one;
    format.law_remainder_is_exact(magnitude);
    lemma_ten();
    lemma_pow2_pos(1074);
    let num = rest * (10 * one);
    assert(num == (10 * rest) * one) by (nonlinear_arith)
        requires
            num == rest * (10 * one),
    ;
    lemma_below_ten(rest);
    let product = format.rounded(num, one);
    let units = format.units(product);
    assert(units / one < 10) by {
        lemma_fundamental_div_mod(units, one);
        lemma_mod_bound(units, one);
        let whole = units / one;
        assert(whole < 10) by (nonlinear_arith)
            requires
                one * whole <= units,
                units < 10 * one,
                one > 0,
        ;
    }
}

/// A time ends in two digits for the seconds, a dot and one digit for the tenths.
pub proof fn law_clock_ends_in_seconds_and_tenths(secs: Double)
    requires
        secs.is_finite(),
    ensures
        clock_text(secs).len() >= 6,
        clock_text(secs)[clock_text(secs).len() - 2] == '.',
        clock_text(secs)[clock_text(secs).len() - 5] == ':',
{
    reveal_strlit("0:00.0");
    reveal_strlit(":");
    reveal_strlit(".");
    if !secs.less(Double::of(0)) {
        let whole = secs.whole(u64::MAX as int) as nat;
        law_tenths_are_one_digit(secs);
        reveal_with_fuel(crate::text::decimal, 2);
        assert(crate::text::decimal(tenths(secs)).len() == 1);
        assert(crate::text::two_digits(whole % 60).len() == 2);
        assert(crate::text::decimal(whole / 60).len() >= 1);
    }
}

/// Ten in units.
proof fn lemma_ten()
    ensures
        Format::Double.units(DOUBLE_TEN as int) == 10 * Format::Double.one(),
{
    let quarter = 0x4_0000_0000_0000int;
    lemma2_to64();
    lemma2_to64_rest();
    assert(DOUBLE_TEN as int / 0x10_0000_0000_0000int == 1026 && DOUBLE_TEN as int
        % 0x10_0000_0000_0000int == quarter);
    lemma_pow2_adds(49, 1025);
    let power = pow2(1025) as int;
    let small = pow2(49) as int;
    assert(pow2(49) == 0x2_0000_0000_0000);
    assert((0x10_0000_0000_0000int + quarter) * power == 10 * (small * power)) by (nonlinear_arith)
        requires
            quarter == 0x4_0000_0000_0000,
            small == 0x2_0000_0000_0000,
    ;
}

/// Ten times a remainder of a division by one is rounded to less than ten.
proof fn lemma_below_ten(rest: int)
    requires
        0 <= rest <= Format::Double.one() - pow2(1021),
    ensures
        ({
            let one = Format::Double.one();
            let product = Format::Double.rounded((10 * rest) * one, one);
            &&& 0 <= product < Format::Double.infinity()
            &&& Format::Double.units(product) < 10 * one
        }),
{
    let format = Format::Double;
    let one = format.one();
    let num = (10 * rest) * one;
    lemma_pow2_pos(1074);
    lemma_pow2_pos(1021);
    assert(num >= 0) by (nonlinear_arith)
        requires
            num == (10 * rest) * one,
            rest >= 0,
            one > 0,
    ;
    lemma2_to64();
    lemma2_to64_rest();
    lemma_pow2_adds(64, 1074);
    lemma_pow2_adds(4, 1074);
    lemma_pow2_adds(4, 1021);
    let high = pow2(1138) as int;
    assert(10 * rest < high) by (nonlinear_arith)
        requires
            rest < one,
            high == pow2(64) * one,
            pow2(64) > 10,
            one > 0,
    ;
    assert(num < one * high) by (nonlinear_arith)
        requires
            num == (10 * rest) * one,
            10 * rest < high,
            one > 0,
    ;
    format.lemma_rounded_finite(num, one);
    format.lemma_rounded_digits(num, one);
    let step = format.spacing(num, one);
    let power = pow2(step) as int;
    let divisor = one * power;
    let q = Format::nearest_even(num, divisor);
    lemma_pow2_pos(step);
    if step >= 1026 {
        lemma_pow2_adds(52, step);
        crate::float::round::lemma_pow2_monotone(1078, 52 + step);
        let low = format.hidden() * power;
        assert(10 * rest >= low) by (nonlinear_arith)
            requires
                (10 * rest) * one >= one * low,
                one > 0,
        ;
        assert(false);
    }
    crate::float::round::lemma_pow2_monotone(step, 1025);
    assert(divisor > 0) by (nonlinear_arith)
        requires
            divisor == one * power,
            one > 0,
            power > 0,
    ;
    Format::lemma_nearest_error(num, divisor);
    let units = q * power;
    assert(2 * units <= 20 * rest + power) by (nonlinear_arith)
        requires
            2 * (q * divisor) <= 2 * num + divisor,
            num == (10 * rest) * one,
            divisor == one * power,
            units == q * power,
            one > 0,
    ;
}

/// Writes a time in minutes, seconds and tenths.
pub fn format_duration(secs: Double) -> (r: String)
    ensures
        r@ == clock_text(secs),
{
    if !secs.finite() || secs.lt(Double { bits: 0 }) {
        return "0:00.0".to_owned();
    }
    let total: u64 = secs.to_u64();
    let part: u32 = secs.rem_one().mul(Double { bits: DOUBLE_TEN }).to_u32();
    let mut text: String = decimal_text(total / 60);
    text.append(":");
    text.append(two_digit_text(total % 60).as_str());
    text.append(".");
    text.append(decimal_text(part as u64).as_str());
    text
}

/// A time is told in whole minutes, the whole seconds that are left, and the tenths
/// that have begun, up to rounding near a tenth. What is no time is told as zero.
pub proof fn law_clock_tells_the_time(secs: Double)
    ensures
        !secs.is_finite() || secs.value() < 0 ==> clock_text(secs) == "0:00.0"@,
        secs.is_finite() && 0 <= secs.value() < u64::MAX * Format::Double.one() ==> ({
            let one = Format::Double.one();
            let whole = secs.value() / one;
            let rest = secs.value() % one;
            let tenth = tenths(secs);
            &&& clock_text(secs) == crate::text::decimal((whole / 60) as nat) + ":"@
                + crate::text::two_digits((whole % 60) as nat) + "."@ + crate::text::decimal(
                tenth,
            )
            &&& tenth < 10
            &&& tenth * one <= 10 * rest + Format::Double.error(4)
            &&& 10 * rest - Format::Double.error(4) < (tenth + 1) * one
        }),
{
    let format = Format::Double;
    let one = format.one();
    let bits = secs.bits as int;
    format.lemma_one_bits();
    format.lemma_units_zero();
    if secs.is_finite() && 0 <= secs.value() < u64::MAX * one {
        format.lemma_value(bits);
        let magnitude = format.magnitude(bits);
        let units = format.units(magnitude);
        assert(units == secs.value());
        let whole = units / one;
        let rest = units % one;
        lemma_fundamental_div_mod(units, one);
        lemma_mod_bound(units, one);
        lemma_div_pos_is_pos(units, one);
        assert(whole < u64::MAX) by (nonlinear_arith)
            requires
                one * whole <= units,
                units < u64::MAX * one,
                one > 0,
        ;
        if format.negative(bits) {
            assert(units == 0);
            assert(whole == 0) by (nonlinear_arith)
                requires
                    one * whole <= units,
                    units == 0,
                    whole >= 0,
                    one > 0,
            ;
            assert(rest == 0);
        }
        assert(secs.whole(u64::MAX as int) == whole);
        law_tenths_are_one_digit(secs);
        format.law_remainder_is_exact(magnitude);
        lemma_ten();
        format.lemma_most(0);
        format.lemma_most(1);
        format.lemma_most(2);
        format.lemma_most(3);
        format.lemma_most(4);
        let num = rest * (10 * one);
        assert(num == (10 * rest) * one && 0 <= num <= one * (16 * one)) by (nonlinear_arith)
            requires
                num == rest * (10 * one),
                0 <= rest < one,
        ;
        format.lemma_rounded_error(num, one, 4);
        let product = format.rounded(num, one);
        let tens = format.units(product);
        let error = format.error(4);
        assert(Format::distance(tens, 10 * rest) <= error) by (nonlinear_arith)
            requires
                Format::distance(one * tens, (10 * rest) * one) <= one * error,
                one > 0,
        ;
        lemma_fundamental_div_mod(tens, one);
        lemma_mod_bound(tens, one);
        lemma_div_pos_is_pos(tens, one);
        let tenth = tens / one;
        lemma_below_ten(rest);
        assert(tenth < 10) by (nonlinear_arith)
            requires
                one * tenth <= tens,
                tens < 10 * one,
                one > 0,
        ;
        assert(tenth * one == one * tenth && (tenth + 1) * one == one * tenth + one)
            by (nonlinear_arith);
        if !format.negative(bits) {
            assert(tenths(secs) == tenth);
        } else {
            assert(tenths(secs) == 0);
            assert(0 * one == 0 && (0 + 1) * one == one);
        }
    }
}

} // verus!
