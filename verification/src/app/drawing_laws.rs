use crate::app::state::{App, LoopControl};
use crate::app::waveform::{
    Canvas, Notice, Point, Shape, CONTROLS_HEIGHT, CORNER, LEAST_HEIGHT, NOTICE_SIZE, PEAK_SHARE,
};
use crate::audio::peaks::Peak;
use crate::float::format::Format;
use crate::float::number::{Double, Single, SINGLE_HALF, SINGLE_ONE, SINGLE_TWO};
use crate::theme::Theme;
use vstd::arithmetic::div_mod::*;
use vstd::arithmetic::power2::*;
use vstd::prelude::*;

verus! {

/// Whether a measure is a number no larger than two to the power `k`.
pub open spec fn fits(a: Single, k: nat) -> bool {
    a.is_finite() && Format::distance(a.value(), 0) <= Format::Single.most(k)
}

/// A value kept from 0 to 1, in units.
pub open spec fn kept_from_zero_to_one(value: int) -> int {
    if value < 0 {
        0
    } else if value > Format::Single.one() {
        Format::Single.one()
    } else {
        value
    }
}

/// The share of the height that a full peak takes is 0.44.
proof fn lemma_share_of_height()
    ensures
        Single::of(PEAK_SHARE as int).is_finite(),
        0 < Single::of(PEAK_SHARE as int).value() < Format::Single.one(),
        Format::distance(
            25 * Single::of(PEAK_SHARE as int).value(),
            11 * Format::Single.one(),
        ) <= Format::Single.error(0),
{
    assert(PEAK_SHARE as int / 0x80_0000int == 125 && PEAK_SHARE as int % 0x80_0000int
        == 0x61_47ae);
    lemma2_to64();
    lemma_pow2_adds(25, 124);
    lemma_pow2_adds(1, 124);
    lemma_pow2_pos(124);
    let power = pow2(124) as int;
    assert((0x80_0000 + 0x61_47ae) * power == 0xe1_47ae * power) by (nonlinear_arith);
}

/// How far a peak reaches from the centre line.
proof fn lemma_reach(height: Single, k: nat)
    requires
        fits(height, k),
        height.value() >= 0,
        k <= 40,
    ensures
        ({
            let reach = height.times(Single::of(PEAK_SHARE as int));
            &&& reach.is_finite()
            &&& 0 <= reach.value() <= Format::Single.most(k)
            &&& Format::distance(25 * reach.value(), 11 * height.value()) <= 26
                * Format::Single.error(k)
        }),
{
    let format = Format::Single;
    let one = format.one();
    let most = format.most(k);
    let error = format.error(k);
    let small = format.error(0);
    let share = Single::of(PEAK_SHARE as int);
    let p = share.value();
    let h = height.value();
    format.lemma_one_bits();
    format.lemma_most(0);
    format.lemma_most(k);
    lemma_share_of_height();
    lemma_scaled(k);
    let times = pow2(k) as int;
    assert(0 <= h * p <= one * most) by (nonlinear_arith)
        requires
            0 <= h <= most,
            0 < p < one,
    ;
    height.lemma_times(share, k);
    let reach = height.times(share);
    let r = reach.value();
    format.lemma_units_zero();
    format.lemma_product_order(0, height.bits as int, share.bits as int);
    let off = 25 * p - 11 * one;
    assert(Format::distance(h * off, 0) <= most * small) by (nonlinear_arith)
        requires
            0 <= h <= most,
            -small <= off <= small,
    ;
    assert(most * small == one * error) by (nonlinear_arith)
        requires
            most == times * one,
            error == times * small,
    ;
    assert(25 * (h * p) == one * (11 * h) + h * off) by (nonlinear_arith)
        requires
            off == 25 * p - 11 * one,
    ;
    assert(25 * (one * r) == one * (25 * r)) by (nonlinear_arith);
    assert(Format::distance(one * (25 * r), one * (11 * h)) <= one * (26 * error))
        by (nonlinear_arith)
        requires
            Format::distance(one * r, h * p) <= one * error,
            25 * (h * p) == one * (11 * h) + h * off,
            Format::distance(h * off, 0) <= one * error,
    ;
    assert(Format::distance(25 * r, 11 * h) <= 26 * error) by (nonlinear_arith)
        requires
            Format::distance(one * (25 * r), one * (11 * h)) <= one * (26 * error),
            one > 0,
    ;
}

/// Sizes and errors scale with the power of two.
proof fn lemma_scaled(k: nat)
    ensures
        pow2(k) > 0,
        Format::Single.most(k) == pow2(k) * Format::Single.one(),
        Format::Single.error(k) == pow2(k) * Format::Single.error(0),
{
    lemma_pow2_adds(k, 149);
    lemma_pow2_adds(k, 125);
    lemma_pow2_pos(k);
}

/// The height of one end of a column, above or below the centre line.
proof fn lemma_height(end: Single, height: Single, k: nat)
    requires
        !end.is_nan(),
        fits(height, k),
        height.value() >= 0,
        k <= 40,
    ensures
        ({
            let one = Format::Single.one();
            let drawn = end.clamped(Single::of(0), Single::of(SINGLE_ONE as int)).times(
                height.times(Single::of(PEAK_SHARE as int)),
            );
            let kept = kept_from_zero_to_one(end.value());
            &&& drawn.is_finite()
            &&& 0 <= drawn.value() <= 2 * Format::Single.most(k)
            &&& Format::distance(25 * (one * drawn.value()), 11 * (kept * height.value())) <= 51
                * (one * Format::Single.error(k))
        }),
{
    let format = Format::Single;
    let one = format.one();
    let most = format.most(k);
    let error = format.error(k);
    format.lemma_one_bits();
    format.lemma_units_zero();
    format.lemma_most(k);
    let full = Single::of(SINGLE_ONE as int);
    let inside = end.clamped(Single::of(0), full);
    let kept = kept_from_zero_to_one(end.value());
    lemma_inside(end);
    lemma_reach(height, k);
    let reach = height.times(Single::of(PEAK_SHARE as int));
    let r = reach.value();
    let h = height.value();
    assert(0 <= kept * r <= one * most) by (nonlinear_arith)
        requires
            0 <= kept <= one,
            0 <= r <= most,
    ;
    inside.lemma_times(reach, k);
    let t = inside.times(reach).value();
    format.lemma_product_order(0, inside.bits as int, reach.bits as int);
    assert(t <= 2 * most) by (nonlinear_arith)
        requires
            Format::distance(one * t, kept * r) <= one * error,
            kept * r <= one * most,
            error <= most,
            one > 0,
    ;
    assert(Format::distance(kept * (25 * r), kept * (11 * h)) <= one * (26 * error))
        by (nonlinear_arith)
        requires
            Format::distance(25 * r, 11 * h) <= 26 * error,
            0 <= kept <= one,
    ;
    assert(kept * (25 * r) == 25 * (kept * r) && kept * (11 * h) == 11 * (kept * h))
        by (nonlinear_arith);
    assert(one * (26 * error) == 26 * (one * error)) by (nonlinear_arith);
}

/// A column rises above the centre line by 0.44 of the height times the upper end of
/// its peak, kept from 0 to 1, up to roundings; only the top of the area cuts it
/// off. `k` bounds the measures of the area.
pub proof fn law_column_rises_to_scale(
    theme: Theme,
    peaks: Seq<Peak>,
    canvas: Canvas,
    column: int,
    k: nat,
)
    requires
        !crate::app::waveform::column_peak(peaks, canvas, column).max.is_nan(),
        fits(canvas.center.y, k),
        fits(canvas.height, k),
        canvas.height.value() >= 0,
        canvas.area.top.is_finite(),
        k <= 40,
    ensures
        ({
            let shape = crate::app::waveform::column_shape(theme, peaks, canvas, column);
            let one = Format::Single.one();
            let top: Point = shape->Line_from;
            let rise = canvas.center.y.value() - top.y.value();
            let upper = kept_from_zero_to_one(
                crate::app::waveform::column_peak(peaks, canvas, column).max.value(),
            );
            let exact = 11 * (upper * canvas.height.value());
            let slack = 160 * (one * Format::Single.error(k));
            &&& shape is Line
            &&& top.y.is_finite()
            &&& canvas.area.top.value() <= top.y.value()
            &&& 25 * (one * rise) <= exact + slack
            &&& top.y == canvas.area.top || exact - slack <= 25 * (one * rise)
        }),
{
    let format = Format::Single;
    let one = format.one();
    let error = format.error(k);
    let peak = crate::app::waveform::column_peak(peaks, canvas, column);
    format.lemma_one_bits();
    format.lemma_most(k);
    format.lemma_most(k + 1);
    format.lemma_most(k + 2);
    lemma_height(peak.max, canvas.height, k);
    let drawn = peak.max.clamped(Single::of(0), Single::of(SINGLE_ONE as int)).times(
        canvas.height.times(Single::of(PEAK_SHARE as int)),
    );
    let center = canvas.center.y;
    center.lemma_minus(drawn, k + 2);
    let line = center.minus(drawn);
    let c = center.value();
    let t = drawn.value();
    let l = line.value();
    assert(Format::distance(one * (c - l), one * t) <= 4 * (one * error)) by (nonlinear_arith)
        requires
            Format::distance(l, c - t) <= 4 * error,
            one > 0,
    ;
    let top = canvas.area.top.value();
    if l < top {
        assert(one * (c - top) <= one * (c - l)) by (nonlinear_arith)
            requires
                l < top,
                one > 0,
        ;
    }
    assert(one * error > 0) by (nonlinear_arith)
        requires
            one > 0,
            error > 0,
    ;
}

/// A column falls below the centre line by 0.44 of the height times the lower end of
/// its peak, kept from -1 to 0, up to roundings; only the bottom of the area cuts it
/// off.
pub proof fn law_column_falls_to_scale(
    theme: Theme,
    peaks: Seq<Peak>,
    canvas: Canvas,
    column: int,
    k: nat,
)
    requires
        !crate::app::waveform::column_peak(peaks, canvas, column).min.is_nan(),
        fits(canvas.center.y, k),
        fits(canvas.height, k),
        canvas.height.value() >= 0,
        canvas.area.bottom.is_finite(),
        k <= 40,
    ensures
        ({
            let shape = crate::app::waveform::column_shape(theme, peaks, canvas, column);
            let one = Format::Single.one();
            let bottom: Point = shape->Line_to;
            let fall = bottom.y.value() - canvas.center.y.value();
            let lower = kept_from_zero_to_one(
                -crate::app::waveform::column_peak(peaks, canvas, column).min.value(),
            );
            let exact = 11 * (lower * canvas.height.value());
            let slack = 160 * (one * Format::Single.error(k));
            &&& shape is Line
            &&& bottom.y.is_finite()
            &&& bottom.y.value() <= canvas.area.bottom.value()
            &&& 25 * (one * fall) <= exact + slack
            &&& bottom.y == canvas.area.bottom || exact - slack <= 25 * (one * fall)
        }),
{
    let format = Format::Single;
    let one = format.one();
    let error = format.error(k);
    let peak = crate::app::waveform::column_peak(peaks, canvas, column);
    format.lemma_one_bits();
    format.lemma_most(k);
    format.lemma_most(k + 1);
    format.lemma_most(k + 2);
    format.lemma_value(peak.min.bits as int);
    let end = peak.min.opposite();
    assert(!end.is_nan() && end.value() == -peak.min.value());
    lemma_height(end, canvas.height, k);
    let drawn = end.clamped(Single::of(0), Single::of(SINGLE_ONE as int)).times(
        canvas.height.times(Single::of(PEAK_SHARE as int)),
    );
    let center = canvas.center.y;
    center.lemma_plus(drawn, k + 2);
    let line = center.plus(drawn);
    let c = center.value();
    let t = drawn.value();
    let l = line.value();
    assert(Format::distance(one * (l - c), one * t) <= 4 * (one * error)) by (nonlinear_arith)
        requires
            Format::distance(l, c + t) <= 4 * error,
            one > 0,
    ;
    let bottom = canvas.area.bottom.value();
    if bottom < l {
        assert(one * (bottom - c) <= one * (l - c)) by (nonlinear_arith)
            requires
                bottom < l,
                one > 0,
        ;
    }
    assert(one * error > 0) by (nonlinear_arith)
        requires
            one > 0,
            error > 0,
    ;
}

/// Of two peaks the one that reaches higher is never drawn lower, in any column of
/// one area.
pub proof fn law_higher_peaks_are_drawn_no_lower(
    theme: Theme,
    peaks: Seq<Peak>,
    higher: Seq<Peak>,
    canvas: Canvas,
    column: int,
    k: nat,
)
    requires
        ({
            let low = crate::app::waveform::column_peak(peaks, canvas, column).max;
            let high = crate::app::waveform::column_peak(higher, canvas, column).max;
            low.at_most(high)
        }),
        fits(canvas.center.y, k),
        fits(canvas.height, k),
        canvas.height.value() >= 0,
        canvas.area.top.is_finite(),
        k <= 40,
    ensures
        ({
            let low: Point = crate::app::waveform::column_shape(
                theme,
                peaks,
                canvas,
                column,
            )->Line_from;
            let high: Point = crate::app::waveform::column_shape(
                theme,
                higher,
                canvas,
                column,
            )->Line_from;
            high.y.at_most(low.y)
        }),
{
    let low = crate::app::waveform::column_peak(peaks, canvas, column).max;
    let high = crate::app::waveform::column_peak(higher, canvas, column).max;
    lemma_line_order(low, high, canvas.height, canvas.center.y, k);
}

/// The line for the higher of two peaks stands no lower.
proof fn lemma_line_order(low: Single, high: Single, height: Single, center: Single, k: nat)
    requires
        low.at_most(high),
        fits(center, k),
        fits(height, k),
        height.value() >= 0,
        k <= 40,
    ensures
        ({
            let zero = Single::of(0);
            let full = Single::of(SINGLE_ONE as int);
            let reach = height.times(Single::of(PEAK_SHARE as int));
            center.minus(high.clamped(zero, full).times(reach)).at_most(
                center.minus(low.clamped(zero, full).times(reach)),
            )
        }),
{
    let format = Format::Single;
    let zero = Single::of(0);
    let full = Single::of(SINGLE_ONE as int);
    let reach = height.times(Single::of(PEAK_SHARE as int));
    let a = low.clamped(zero, full);
    let b = high.clamped(zero, full);
    lemma_reach(height, k);
    lemma_height(low, height, k);
    lemma_height(high, height, k);
    lemma_inside(low);
    lemma_inside(high);
    format.lemma_product_order(a.bits as int, b.bits as int, reach.bits as int);
    let p = a.times(reach);
    let q = b.times(reach);
    format.lemma_value(p.bits as int);
    format.lemma_value(q.bits as int);
    let p_bits = format.negated(p.bits as int);
    let q_bits = format.negated(q.bits as int);
    lemma_sum_swaps(center.bits as int, p_bits);
    lemma_sum_swaps(center.bits as int, q_bits);
    format.lemma_sum_order(q_bits, p_bits, center.bits as int);
    lemma_difference_bits(center, p);
    lemma_difference_bits(center, q);
}

/// A difference is the sum with the opposite, pattern for pattern.
proof fn lemma_difference_bits(a: Single, b: Single)
    requires
        a.is_finite(),
        b.is_finite(),
    ensures
        a.minus(b).bits == Format::Single.sum(
            a.bits as int,
            Format::Single.negated(b.bits as int),
        ),
{
    let format = Format::Single;
    let other = format.negated(b.bits as int);
    let total = format.value(a.bits as int) + format.value(other);
    format.lemma_rounded_range(if total < 0 { -total } else { total }, 1);
}

/// What is kept from 0 to 1.
proof fn lemma_inside(end: Single)
    requires
        !end.is_nan(),
    ensures
        end.clamped(Single::of(0), Single::of(SINGLE_ONE as int)).is_finite(),
        end.clamped(Single::of(0), Single::of(SINGLE_ONE as int)).value()
            == kept_from_zero_to_one(end.value()),
{
    let format = Format::Single;
    format.lemma_one_bits();
    format.lemma_units_zero();
    format.lemma_units_increase(SINGLE_ONE as int, format.infinity());
    format.lemma_value(end.bits as int);
}

/// A sum does not depend on the order, as a number.
proof fn lemma_sum_swaps(a: int, b: int)
    requires
        Format::Single.is_number(a),
        Format::Single.is_number(b),
    ensures
        Format::Single.value(Format::Single.sum(a, b)) == Format::Single.value(
            Format::Single.sum(b, a),
        ),
        !Format::Single.is_nan(Format::Single.sum(a, b)),
{
    let format = Format::Single;
    format.lemma_sum_parts(a, b);
    format.lemma_sum_parts(b, a);
    format.lemma_sum_order(a, a, b);
}

/// Columns stand side by side, one unit apart: the middle of each lies half a unit
/// from its left edge.
pub proof fn law_columns_stand_side_by_side(
    theme: Theme,
    peaks: Seq<Peak>,
    canvas: Canvas,
    column: int,
    k: nat,
)
    requires
        fits(canvas.area.left, k),
        0 <= column < 0x100_0000,
        column * Format::Single.one() <= Format::Single.most(k),
        k <= 40,
    ensures
        ({
            let shape = crate::app::waveform::column_shape(theme, peaks, canvas, column);
            let top: Point = shape->Line_from;
            let bottom: Point = shape->Line_to;
            &&& top.x == bottom.x
            &&& top.x.is_finite()
            &&& Format::distance(
                2 * top.x.value(),
                2 * canvas.area.left.value() + (2 * column + 1) * Format::Single.one(),
            ) <= 16 * Format::Single.error(k)
        }),
{
    let format = Format::Single;
    let one = format.one();
    format.lemma_one_bits();
    format.lemma_most(k);
    format.lemma_most(k + 1);
    format.lemma_most(k + 2);
    Single::lemma_count(column);
    assert(column * one >= 0) by (nonlinear_arith)
        requires
            column >= 0,
            one > 0,
    ;
    assert(SINGLE_HALF as int / 0x80_0000int == 126 && SINGLE_HALF as int % 0x80_0000int == 0);
    lemma2_to64();
    lemma_pow2_adds(23, 125);
    lemma_pow2_adds(1, 148);
    lemma_pow2_pos(148);
    let half = Single::of(SINGLE_HALF as int);
    assert(half.is_finite() && 2 * half.value() == one);
    canvas.area.left.lemma_plus(Single::of_integer(column), k + 1);
    let x = canvas.area.left.plus(Single::of_integer(column));
    x.lemma_plus(half, k + 2);
    assert((2 * column + 1) * one == 2 * (column * one) + one) by (nonlinear_arith);
}

/// There is one column per unit of width, and at least one.
pub proof fn law_one_column_per_unit(canvas: Canvas)
    requires
        canvas.width.is_finite(),
        canvas.width.value() < usize::MAX * Format::Single.one(),
    ensures
        canvas.columns() >= 1,
        canvas.width.value() >= Format::Single.one() ==> canvas.columns() * Format::Single.one()
            <= canvas.width.value() < (canvas.columns() + 1) * Format::Single.one(),
        canvas.width.value() < Format::Single.one() ==> canvas.columns() == 1,
{
    let format = Format::Single;
    let one = format.one();
    let units = format.units(format.magnitude(canvas.width.bits as int));
    format.lemma_one_bits();
    format.lemma_value(canvas.width.bits as int);
    lemma_fundamental_div_mod(units, one);
    lemma_mod_bound(units, one);
    let whole = units / one;
    let part = units % one;
    assert(whole * one == one * whole && (whole + 1) * one == one * whole + one)
        by (nonlinear_arith);
    if canvas.width.value() >= one {
        assert(whole >= 1) by (nonlinear_arith)
            requires
                units == one * whole + part,
                part < one,
                units >= one,
                one > 0,
        ;
        assert(whole < usize::MAX) by (nonlinear_arith)
            requires
                one * whole <= units,
                units < usize::MAX * one,
                one > 0,
        ;
    } else if canvas.width.value() == units {
        assert(whole <= 0) by (nonlinear_arith)
            requires
                units == one * whole + part,
                0 <= part,
                units < one,
                one > 0,
        ;
    }
}

/// Columns show the peaks in proportion: the column at a share of the width shows
/// the peak at that share of the list, up to roundings. `k` bounds the number of
/// peaks.
pub proof fn law_columns_show_peaks_in_proportion(
    peaks: Seq<Peak>,
    canvas: Canvas,
    column: int,
    k: nat,
)
    requires
        0 < peaks.len() < 0x100_0000,
        0 <= column < canvas.columns() < 0x100_0000,
        peaks.len() * Format::Single.one() <= Format::Single.most(k),
        k <= 40,
        peaks.len() <= usize::MAX,
    ensures
        exists|index: int|
            {
                let one = Format::Single.one();
                let slack = 2 * (canvas.columns() * Format::Single.error(k));
                &&& 0 <= index < peaks.len()
                &&& crate::app::waveform::column_peak(peaks, canvas, column)
                    == #[trigger] peaks[index]
                &&& canvas.columns() * (index * one) <= column * (peaks.len() * one) + slack
                &&& index == peaks.len() - 1 || column * (peaks.len() * one) - slack
                    < canvas.columns() * ((index + 1) * one)
            },
{
    let format = Format::Single;
    let one = format.one();
    let most = format.most(k);
    let error = format.error(k);
    let small = format.error(0);
    let n = peaks.len() as int;
    let count = canvas.columns();
    format.lemma_one_bits();
    format.lemma_most(0);
    format.lemma_most(k);
    lemma_scaled(k);
    let times = pow2(k) as int;
    Single::lemma_count(column);
    Single::lemma_count(count);
    Single::lemma_count(n);
    let col = Single::of_integer(column);
    let cols = Single::of_integer(count);
    let all = Single::of_integer(n);
    assert(count * one > 0 && 0 <= (column * one) * one <= (count * one) * one) by (nonlinear_arith)
        requires
            0 <= column < count,
            one > 0,
    ;
    col.lemma_over(cols, 0);
    let share = col.over(cols);
    let s = share.value();
    assert(Format::distance(count * s, column * one) <= count * small) by (nonlinear_arith)
        requires
            Format::distance((count * one) * s, (column * one) * one) <= (count * one) * small,
            one > 0,
    ;
    lemma_share_below_one(column, count);
    assert(0 <= s * (n * one) <= one * most) by (nonlinear_arith)
        requires
            0 <= s <= one,
            n * one <= most,
            n > 0,
    ;
    share.lemma_times(all, k);
    let place = share.times(all);
    let x = place.value();
    assert(Format::distance(x, s * n) <= error) by (nonlinear_arith)
        requires
            Format::distance(one * x, s * (n * one)) <= one * error,
            one > 0,
    ;
    // The two roundings together.
    assert(n <= times) by (nonlinear_arith)
        requires
            n * one <= times * one,
            one > 0,
    ;
    assert(Format::distance(n * (count * s), n * (column * one)) <= count * error)
        by (nonlinear_arith)
        requires
            Format::distance(count * s, column * one) <= count * small,
            0 < n <= times,
            error == times * small,
            small > 0,
            count > 0,
    ;
    assert(Format::distance(count * x, count * (s * n)) <= count * error) by (nonlinear_arith)
        requires
            Format::distance(x, s * n) <= error,
            count > 0,
    ;
    assert(count * (s * n) == n * (count * s) && n * (column * one) == column * (n * one))
        by (nonlinear_arith);
    assert(Format::distance(count * x, column * (n * one)) <= 2 * (count * error));
    // The whole part of the place.
    let bits = place.bits as int;
    format.lemma_value(bits);
    format.lemma_units_zero();
    format.lemma_product_order(0, share.bits as int, all.bits as int);
    let units = format.units(format.magnitude(bits));
    assert(units == x);
    lemma_fundamental_div_mod(units, one);
    lemma_mod_bound(units, one);
    lemma_div_pos_is_pos(units, one);
    let whole = units / one;
    let found = place.whole(usize::MAX as int);
    let index = if found < n - 1 {
        found
    } else {
        n - 1
    };
    assert(found >= index && found <= whole);
    if format.negative(bits) {
        assert(units == 0);
        assert(found == 0);
    }
    assert(found >= 0);
    assert(index * one <= x) by (nonlinear_arith)
        requires
            index <= whole,
            one * whole <= x,
            one > 0,
    ;
    assert(count * (index * one) <= count * x) by (nonlinear_arith)
        requires
            index * one <= x,
            count > 0,
    ;
    if index != n - 1 {
        assert(index == found && found == whole) by {
            if format.negative(bits) {
                assert(whole == 0) by (nonlinear_arith)
                    requires
                        units == 0,
                        one * whole <= units,
                        whole >= 0,
                        one > 0,
                ;
            }
        }
        assert(x < (index + 1) * one) by (nonlinear_arith)
            requires
                x == one * index + units % one,
                units % one < one,
        ;
        assert(count * x < count * ((index + 1) * one)) by (nonlinear_arith)
            requires
                x < (index + 1) * one,
                count > 0,
        ;
    }
    assert(crate::app::waveform::column_peak(peaks, canvas, column) == peaks[index]);
}

/// A column's share of the width is from 0 to 1.
proof fn lemma_share_below_one(column: int, count: int)
    requires
        0 <= column < count < 0x100_0000,
    ensures
        Single::of_integer(column).over(Single::of_integer(count)).is_finite(),
        0 <= Single::of_integer(column).over(Single::of_integer(count)).value()
            <= Format::Single.one(),
{
    let format = Format::Single;
    let one = format.one();
    format.lemma_one_bits();
    format.lemma_most(0);
    Single::lemma_count(column);
    Single::lemma_count(count);
    let col = Single::of_integer(column);
    let cols = Single::of_integer(count);
    let x = column * one;
    let y = count * one;
    format.lemma_value(col.bits as int);
    format.lemma_value(cols.bits as int);
    format.lemma_units_zero();
    assert(y > 0 && 0 <= x * one <= y * one && (x * one) * 1 <= one * y) by (nonlinear_arith)
        requires
            x == column * one,
            y == count * one,
            0 <= column < count,
            one > 0,
    ;
    col.lemma_over(cols, 0);
    format.law_rounding_keeps_order(x * one, y, one, 1);
    format.law_rounding_keeps_numbers(format.one_bits());
    format.lemma_rounded_range(x * one, y);
    let result = format.rounded(x * one, y);
    if result < format.one_bits() {
        format.lemma_units_increase(result, format.one_bits());
    }
    if result > 0 {
        format.lemma_units_increase(0, result);
    }
}

/// A share of the width is drawn at that share of the way across, up to roundings.
pub proof fn law_shares_are_drawn_to_scale(canvas: Canvas, share: Single, k: nat)
    requires
        fits(canvas.area.left, k),
        fits(canvas.width, k),
        canvas.width.value() >= 0,
        share.is_finite(),
        0 <= share.value() <= Format::Single.one(),
        k <= 40,
    ensures
        canvas.across(share).is_finite(),
        Format::distance(
            Format::Single.one() * (canvas.across(share).value() - canvas.area.left.value()),
            share.value() * canvas.width.value(),
        ) <= 5 * (Format::Single.one() * Format::Single.error(k)),
{
    let format = Format::Single;
    let one = format.one();
    let most = format.most(k);
    let error = format.error(k);
    let w = canvas.width.value();
    let s = share.value();
    let left = canvas.area.left.value();
    format.lemma_one_bits();
    format.lemma_most(k);
    format.lemma_most(k + 1);
    format.lemma_most(k + 2);
    assert(0 <= s * w <= one * most) by (nonlinear_arith)
        requires
            0 <= s <= one,
            0 <= w <= most,
    ;
    share.lemma_times(canvas.width, k);
    let t = share.times(canvas.width).value();
    assert(Format::distance(t, 0) <= 2 * most) by (nonlinear_arith)
        requires
            Format::distance(one * t, s * w) <= one * error,
            0 <= s * w <= one * most,
            error <= most,
            one > 0,
    ;
    canvas.area.left.lemma_plus(share.times(canvas.width), k + 2);
    let x = canvas.across(share).value();
    assert(Format::distance(one * (x - left), one * t) <= 4 * (one * error)) by (nonlinear_arith)
        requires
            Format::distance(x, left + t) <= 4 * error,
            one > 0,
    ;
}

/// A time of a file is drawn at its share of the duration, across the width: the
/// edges of the loop, and the playhead. Up to roundings.
pub proof fn law_times_are_drawn_to_scale(
    canvas: Canvas,
    secs: Double,
    duration: Double,
    k: nat,
)
    requires
        fits(canvas.area.left, k),
        fits(canvas.width, k),
        canvas.width.value() >= 0,
        secs.is_finite(),
        duration.is_finite(),
        0 <= secs.value() <= duration.value(),
        0 < duration.value(),
        k <= 40,
    ensures
        canvas.at_time(secs, duration).is_finite(),
        Format::distance(
            duration.value() * (canvas.at_time(secs, duration).value()
                - canvas.area.left.value()),
            secs.value() * canvas.width.value(),
        ) <= 7 * (duration.value() * Format::Single.error(k)),
{
    let narrow = Format::Single;
    let wide = Format::Double;
    let one = narrow.one();
    let big = wide.one();
    let most = narrow.most(k);
    let error = narrow.error(k);
    let small = narrow.error(0);
    narrow.lemma_one_bits();
    wide.lemma_one_bits();
    narrow.lemma_most(0);
    narrow.lemma_most(k);
    wide.lemma_most(0);
    lemma_scaled(k);
    let times = pow2(k) as int;
    secs.lemma_share(duration);
    let quotient = secs.over(duration);
    quotient.lemma_narrowed_share();
    let share = quotient.narrowed();
    law_shares_are_drawn_to_scale(canvas, share, k);
    let q = quotient.value();
    let f = share.value();
    let s = secs.value();
    let d = duration.value();
    let w = canvas.width.value();
    let moved = canvas.at_time(secs, duration).value() - canvas.area.left.value();
    let tiny = wide.error(0);
    // In steps: the quotient, the share, the place.
    let unit = d * (one * (big * error));
    assert(unit > 0) by (nonlinear_arith)
        requires
            unit == d * (one * (big * error)),
            d > 0,
            one > 0,
            big > 0,
            error > 0,
    ;
    assert(Format::distance((w * one) * (d * q), (w * one) * (s * big)) <= unit) by {
        assert(most * tiny <= big * error) by {
            // The error of a double is far less than that of a single.
            lemma_pow2_adds(29, 1021);
            lemma_pow2_adds(24, 1050);
            lemma2_to64();
            lemma_pow2_pos(1021);
            assert(most == 0x100_0000 * error);
            assert(big == 0x100_0000 * pow2(1050));
            let wide_step = pow2(1050) as int;
            assert(tiny <= wide_step);
            assert(most * tiny <= big * error) by (nonlinear_arith)
                requires
                    most == 0x100_0000 * error,
                    big == 0x100_0000 * wide_step,
                    tiny <= wide_step,
                    error > 0,
            ;
        }
        let gap = d * q - s * big;
        assert(Format::distance(gap, 0) <= d * tiny);
        assert(Format::distance(w * gap, 0) <= most * (d * tiny)) by (nonlinear_arith)
            requires
                0 <= w <= most,
                Format::distance(gap, 0) <= d * tiny,
        ;
        assert(most * (d * tiny) <= d * (big * error)) by (nonlinear_arith)
            requires
                most * tiny <= big * error,
                d > 0,
        ;
        assert((w * one) * (d * q) - (w * one) * (s * big) == one * (w * gap)) by (nonlinear_arith)
            requires
                gap == d * q - s * big,
        ;
        assert(Format::distance(one * (w * gap), 0) <= one * (d * (big * error)))
            by (nonlinear_arith)
            requires
                Format::distance(w * gap, 0) <= d * (big * error),
                one > 0,
        ;
        assert(one * (d * (big * error)) == unit) by (nonlinear_arith)
            requires
                unit == d * (one * (big * error)),
        ;
    }
    assert(Format::distance((d * w) * (big * f), (d * w) * (q * one)) <= unit) by {
        let gap = big * f - q * one;
        assert(most * small == one * error) by (nonlinear_arith)
            requires
                most == times * one,
                error == times * small,
        ;
        assert(Format::distance(w * gap, 0) <= most * (big * small)) by (nonlinear_arith)
            requires
                0 <= w <= most,
                Format::distance(gap, 0) <= big * small,
        ;
        assert(most * (big * small) == one * (big * error)) by (nonlinear_arith)
            requires
                most * small == one * error,
        ;
        assert((d * w) * (big * f) - (d * w) * (q * one) == d * (w * gap)) by (nonlinear_arith)
            requires
                gap == big * f - q * one,
        ;
        assert(Format::distance(d * (w * gap), 0) <= unit) by (nonlinear_arith)
            requires
                Format::distance(w * gap, 0) <= one * (big * error),
                unit == d * (one * (big * error)),
                d > 0,
        ;
    }
    assert(Format::distance((d * big) * (one * moved), (d * big) * (f * w)) <= 5 * unit) by {
        let gap = one * moved - f * w;
        assert((d * big) * (one * moved) - (d * big) * (f * w) == (d * big) * gap)
            by (nonlinear_arith)
            requires
                gap == one * moved - f * w,
        ;
        assert(d * big > 0) by (nonlinear_arith)
            requires
                d > 0,
                big > 0,
        ;
        let base = d * big;
        assert(Format::distance(base * gap, 0) <= base * (5 * (one * error))) by (nonlinear_arith)
            requires
                Format::distance(gap, 0) <= 5 * (one * error),
                base > 0,
        ;
        assert(base * (5 * (one * error)) == 5 * unit) by (nonlinear_arith)
            requires
                base == d * big,
                unit == d * (one * (big * error)),
        ;
    }
    assert((d * big) * (f * w) == (d * w) * (big * f)) by (nonlinear_arith);
    assert((d * w) * (q * one) == (w * one) * (d * q)) by (nonlinear_arith);
    let scale = one * big;
    assert(scale > 0) by (nonlinear_arith)
        requires
            scale == one * big,
            one > 0,
            big > 0,
    ;
    assert((d * big) * (one * moved) == scale * (d * moved) && (w * one) * (s * big) == scale * (s
        * w) && 7 * unit == scale * (7 * (d * error))) by (nonlinear_arith)
        requires
            scale == one * big,
            unit == d * (one * (big * error)),
    ;
    assert(Format::distance(d * moved, s * w) <= 7 * (d * error)) by (nonlinear_arith)
        requires
            Format::distance(scale * (d * moved), scale * (s * w)) <= scale * (7 * (d * error)),
            scale > 0,
    ;
}

/// The playhead stands at the position, as times are drawn.
pub proof fn law_playhead_stands_at_the_position(
    theme: Theme,
    canvas: Canvas,
    secs: Double,
    duration: Double,
)
    requires
        secs.is_finite(),
        duration.is_finite(),
        0 <= secs.value() <= duration.value(),
        0 < duration.value(),
    ensures
        ({
            let shapes = crate::app::waveform::playhead_shapes(theme, secs, duration, canvas);
            &&& shapes.len() == 1
            &&& shapes[0] is Line
            &&& shapes[0]->Line_from.x == canvas.at_time(secs, duration)
            &&& shapes[0]->Line_to.x == canvas.at_time(secs, duration)
            &&& shapes[0]->Line_from.y == canvas.area.top
            &&& shapes[0]->Line_to.y == canvas.area.bottom
        }),
{
    Format::Double.lemma_one_bits();
    Format::Double.lemma_units_zero();
    secs.lemma_share(duration);
}

/// An active loop is drawn from edge to edge of its region, over the whole height;
/// a loop that is off, or has no length, is not drawn.
pub proof fn law_loop_is_drawn_while_it_is_on(
    theme: Theme,
    control: LoopControl,
    duration: Double,
    canvas: Canvas,
)
    requires
        !control.loop_start_secs.is_nan(),
        !control.loop_end_secs.is_nan(),
    ensures
        ({
            let shapes = crate::app::waveform::loop_shapes(theme, control, duration, canvas);
            let x0 = canvas.at_time(control.loop_start_secs, duration);
            let x1 = canvas.at_time(control.loop_end_secs, duration);
            let drawn = control.loop_enabled && control.loop_start_secs.value()
                < control.loop_end_secs.value();
            &&& !drawn ==> shapes.len() == 0
            &&& drawn ==> {
                &&& shapes.len() == 3
                &&& shapes[0] is Fill
                &&& shapes[0]->Fill_area.left == x0
                &&& shapes[0]->Fill_area.right == x1
                &&& shapes[0]->Fill_area.top == canvas.area.top
                &&& shapes[0]->Fill_area.bottom == canvas.area.bottom
                &&& shapes[1] is Line
                &&& shapes[1]->Line_from == (Point { x: x0, y: canvas.area.top })
                &&& shapes[1]->Line_to == (Point { x: x0, y: canvas.area.bottom })
                &&& shapes[2] is Line
                &&& shapes[2]->Line_from == (Point { x: x1, y: canvas.area.top })
                &&& shapes[2]->Line_to == (Point { x: x1, y: canvas.area.bottom })
            }
        }),
{
}

/// A selection is drawn between the two places of a drag, over the whole height,
/// and nothing without a drag.
pub proof fn law_selection_is_drawn_while_dragged(
    theme: Theme,
    control: LoopControl,
    canvas: Canvas,
)
    ensures
        ({
            let shapes = crate::app::waveform::drag_shapes(theme, control, canvas);
            match (control.drag_start, control.drag_current) {
                (Some(a), Some(b)) => {
                    &&& shapes.len() == 1
                    &&& shapes[0] is Fill
                    &&& shapes[0]->Fill_area.top == canvas.area.top
                    &&& shapes[0]->Fill_area.bottom == canvas.area.bottom
                    &&& a.at_most(b) ==> shapes[0]->Fill_area.left == canvas.across(a)
                    &&& a.less(b) ==> shapes[0]->Fill_area.right == canvas.across(b)
                    &&& b.less(a) ==> shapes[0]->Fill_area.left == canvas.across(b)
                    &&& b.at_most(a) ==> shapes[0]->Fill_area.right == canvas.across(a)
                },
                _ => shapes.len() == 0,
            }
        }),
{
}

/// What a waveform consists of, from bottom to top: the background, the loop while
/// it is on, the selection while dragged, a column for each unit of width with the
/// centre line, the playhead, and the border.
pub proof fn law_scene_has_its_layers(app: App, canvas: Canvas)
    requires
        Double::of(0).less(app.audio_duration),
    ensures
        ({
            let scene = app.scene(canvas);
            let loops = crate::app::waveform::loop_shapes(
                app.theme,
                app.control,
                app.audio_duration,
                canvas,
            );
            let drags = crate::app::waveform::drag_shapes(app.theme, app.control, canvas);
            let heads = crate::app::waveform::playhead_shapes(
                app.theme,
                app.audio.position_secs(),
                app.audio_duration,
                canvas,
            );
            let before = 1 + loops.len() as int + drags.len() as int;
            let columns = if app.waveform_peaks@.len() == 0 {
                0
            } else {
                canvas.columns() + 1
            };
            &&& scene.len() == before + columns + 2
            &&& scene[0] is Fill && scene[0]->Fill_area == canvas.area
            &&& forall|i: int| 0 <= i < loops.len() ==> scene[1 + i] == #[trigger] loops[i]
            &&& forall|i: int|
                0 <= i < drags.len() ==> scene[1 + loops.len() + i] == #[trigger] drags[i]
            &&& app.waveform_peaks@.len() > 0 ==> forall|column: int|
                0 <= column < canvas.columns() ==> scene[before + column]
                    == #[trigger] crate::app::waveform::column_shape(
                    app.theme,
                    app.waveform_peaks@,
                    canvas,
                    column,
                )
            &&& app.waveform_peaks@.len() > 0 ==> ({
                let line = scene[before + canvas.columns()];
                &&& line is Line
                &&& line->Line_from == (Point { x: canvas.area.left, y: canvas.center.y })
                &&& line->Line_to == (Point { x: canvas.area.right, y: canvas.center.y })
            })
            &&& heads.len() == 1
            &&& scene[before + columns] == heads[0]
            &&& scene.last() is Outline && scene.last()->Outline_area == canvas.area
        }),
{
    let front = seq![crate::app::waveform::background(app.theme, canvas)];
    let loops = crate::app::waveform::loop_shapes(
        app.theme,
        app.control,
        app.audio_duration,
        canvas,
    );
    let drags = crate::app::waveform::drag_shapes(app.theme, app.control, canvas);
    let peaks = crate::app::waveform::peak_shapes(app.theme, app.waveform_peaks@, canvas);
    let heads = crate::app::waveform::playhead_shapes(
        app.theme,
        app.audio.position_secs(),
        app.audio_duration,
        canvas,
    );
    let back = seq![crate::app::waveform::outline(app.theme, canvas)];
    let scene = app.scene(canvas);
    assert(scene == front + loops + drags + peaks + heads + back);
    lemma_layers(front, loops, drags, peaks, heads, back);
    let before = 1 + loops.len() + drags.len();
    if app.waveform_peaks@.len() > 0 {
        assert(peaks.len() == canvas.columns() + 1);
        assert forall|column: int| 0 <= column < canvas.columns() implies scene[before + column]
            == #[trigger] crate::app::waveform::column_shape(
            app.theme,
            app.waveform_peaks@,
            canvas,
            column,
        ) by {
            assert(scene[before + column] == peaks[column]);
        }
        assert(scene[before + canvas.columns()] == peaks[canvas.columns()]);
    }
    assert(scene[0] == front[0]);
    assert(scene.last() == back[0]);
}

/// Where the parts of six lists are in the list of all.
proof fn lemma_layers(
    front: Seq<Shape>,
    a: Seq<Shape>,
    b: Seq<Shape>,
    c: Seq<Shape>,
    d: Seq<Shape>,
    back: Seq<Shape>,
)
    requires
        front.len() == 1,
        back.len() == 1,
    ensures
        ({
            let all = front + a + b + c + d + back;
            &&& all.len() == 2 + a.len() + b.len() + c.len() + d.len()
            &&& all[0] == front[0]
            &&& all.last() == back[0]
            &&& forall|i: int| 0 <= i < a.len() ==> all[1 + i] == #[trigger] a[i]
            &&& forall|i: int| 0 <= i < b.len() ==> all[1 + a.len() + i] == #[trigger] b[i]
            &&& forall|i: int|
                0 <= i < c.len() ==> all[1 + a.len() + b.len() + i] == #[trigger] c[i]
            &&& forall|i: int|
                0 <= i < d.len() ==> all[1 + a.len() + b.len() + c.len() + i] == #[trigger] d[i]
        }),
{
}

/// The waveform takes what the controls leave of the height, which is 160 less, and
/// never less than 120. Up to one rounding; `k` bounds the height.
pub proof fn law_waveform_takes_what_is_left(available: Single, k: nat)
    requires
        fits(available, k),
        10 <= k <= 40,
    ensures
        ({
            let one = Format::Single.one();
            let height = crate::app::waveform::height_in(available);
            let left = available.value() - 160 * one;
            let exact = if left < 120 * one {
                120 * one
            } else {
                left
            };
            &&& height.is_finite()
            &&& 120 * one <= height.value()
            &&& Format::distance(height.value(), exact) <= 2 * Format::Single.error(k)
        }),
{
    let format = Format::Single;
    let one = format.one();
    format.lemma_one_bits();
    format.lemma_most(k);
    format.lemma_most(k + 1);
    assert(CONTROLS_HEIGHT as int / 0x80_0000int == 134 && CONTROLS_HEIGHT as int % 0x80_0000int
        == 0x20_0000);
    assert(LEAST_HEIGHT as int / 0x80_0000int == 133 && LEAST_HEIGHT as int % 0x80_0000int
        == 0x70_0000);
    lemma2_to64();
    lemma_pow2_adds(16, 133);
    lemma_pow2_adds(17, 132);
    lemma_pow2_adds(10, 149);
    lemma_pow2_pos(132);
    lemma_pow2_pos(133);
    let a = pow2(133) as int;
    let b = pow2(132) as int;
    assert((0x80_0000 + 0x20_0000) * a == 0xa0_0000 * a && (0x80_0000 + 0x70_0000) * b == 0xf0_0000
        * b) by (nonlinear_arith);
    let controls = Single::of(CONTROLS_HEIGHT as int);
    let least = Single::of(LEAST_HEIGHT as int);
    assert(controls.is_finite() && controls.value() == 160 * one);
    assert(least.is_finite() && least.value() == 120 * one);
    crate::float::round::lemma_pow2_monotone(159, 149 + k);
    available.lemma_minus(controls, k + 1);
}


/// While nothing is loaded the waveform holds a notice in its middle, which says
/// whether something is being loaded.
pub proof fn law_empty_waveform_says_why(app: App, canvas: Canvas)
    requires
        app.audio_duration.at_most(Double::of(0)),
    ensures
        ({
            let scene = app.scene(canvas);
            &&& scene.len() == 3
            &&& scene[0] is Fill && scene[0]->Fill_area == canvas.area
            &&& scene[1] is Message && scene[1]->at == canvas.center
            &&& app.is_loading ==> scene[1]->notice == Notice::Loading
            &&& !app.is_loading ==> scene[1]->notice == Notice::NoFile
            &&& scene[2] is Outline && scene[2]->Outline_area == canvas.area
        }),
{
}

/// The sizes that lines and corners are drawn with.
proof fn lemma_sizes()
    ensures
        Single::of(SINGLE_ONE as int).value() == Format::Single.one(),
        Single::of(SINGLE_TWO as int).value() == 2 * Format::Single.one(),
        Single::of(CORNER as int).value() == 4 * Format::Single.one(),
        Single::of(NOTICE_SIZE as int).value() == 15 * Format::Single.one(),
{
    Format::Single.lemma_one_bits();
    assert(SINGLE_TWO as int / 0x80_0000int == 128 && SINGLE_TWO as int % 0x80_0000int == 0);
    assert(CORNER as int / 0x80_0000int == 129 && CORNER as int % 0x80_0000int == 0);
    assert(NOTICE_SIZE as int / 0x80_0000int == 130 && NOTICE_SIZE as int % 0x80_0000int
        == 0x70_0000);
    lemma2_to64();
    lemma_pow2_adds(22, 127);
    lemma_pow2_adds(21, 128);
    lemma_pow2_adds(20, 129);
    let a = pow2(127) as int;
    let b = pow2(128) as int;
    let c = pow2(129) as int;
    assert((0x80_0000 + 0) * a == 2 * (0x40_0000 * a) && (0x80_0000 + 0) * b == 4 * (0x20_0000 * b)
        && (0x80_0000 + 0x70_0000) * c == 15 * (0x10_0000 * c)) by (nonlinear_arith);
}

/// How wide lines are and how round corners: the edges of the loop and the playhead
/// are two units wide and columns one, the waveform has corners of four units, and
/// what is laid over it has none. Every upright line goes from top to bottom.
pub proof fn law_lines_and_corners(app: App, canvas: Canvas, column: int)
    ensures
        ({
            let one = Format::Single.one();
            let loops = crate::app::waveform::loop_shapes(
                app.theme,
                app.control,
                app.audio_duration,
                canvas,
            );
            let drags = crate::app::waveform::drag_shapes(app.theme, app.control, canvas);
            let heads = crate::app::waveform::playhead_shapes(
                app.theme,
                app.audio.position_secs(),
                app.audio_duration,
                canvas,
            );
            let line = crate::app::waveform::column_shape(
                app.theme,
                app.waveform_peaks@,
                canvas,
                column,
            );
            let back = crate::app::waveform::background(app.theme, canvas);
            let border = crate::app::waveform::outline(app.theme, canvas);
            &&& loops.len() > 0 ==> loops[0]->Fill_rounding.value() == 0
                && loops[1]->Line_stroke.width.value() == 2 * one
                && loops[2]->Line_stroke.width.value() == 2 * one
            &&& drags.len() > 0 ==> drags[0]->Fill_rounding.value() == 0
            &&& heads.len() > 0 ==> heads[0]->Line_stroke.width.value() == 2 * one
                && heads[0]->Line_from.y == canvas.area.top && heads[0]->Line_to.y
                == canvas.area.bottom
            &&& line->Line_stroke.width.value() == one
            &&& back->Fill_rounding.value() == 4 * one
            &&& border->Outline_rounding.value() == 4 * one
            &&& border->Outline_stroke.width.value() == one
        }),
{
    lemma_sizes();
    Format::Single.lemma_units_zero();
}

/// The notice in an empty waveform is fifteen units high, at its centre.
pub proof fn law_notice_stands_in_the_centre(app: App, canvas: Canvas)
    requires
        app.audio_duration.at_most(Double::of(0)),
    ensures
        app.scene(canvas).len() == 3,
        app.scene(canvas)[1] is Message,
        app.scene(canvas)[1]->Message_at == canvas.center,
        app.scene(canvas)[1]->Message_size.value() == 15 * Format::Single.one(),
{
    lemma_sizes();
}

} // verus!
