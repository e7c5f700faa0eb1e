use crate::audio::callback::Transport;
use crate::audio::engine::{BufferInfo, PlaybackAtomics, NO_SEEK};
use crate::float::format::Format;
use crate::float::number::{Double, Single, DOUBLE_ONE, SINGLE_ONE, SINGLE_TWO};
use vstd::arithmetic::div_mod::*;
use vstd::arithmetic::power2::*;
use vstd::prelude::*;

verus! {

/// The volume scales what is played: at every position and channel, the sample at
/// a volume is the sample at volume one times that volume, rounded once.
pub proof fn law_volume_scales_what_is_played(
    transport: Transport,
    info: BufferInfo,
    position: Double,
    channel: int,
)
    ensures
        transport.mixed(info, position, channel) == (Transport {
            volume: Single::of(SINGLE_ONE as int),
            ..transport
        }).mixed(info, position, channel).times(transport.volume),
{
    let plain = Transport { volume: Single::of(SINGLE_ONE as int), ..transport };
    let x = plain.unscaled(info, position, channel);
    Format::Single.lemma_one_bits();
    if !x.is_nan() {
        x.law_times_one();
    }
}

impl Transport {
    /// The two nearest frames weighted, before the volume.
    spec fn unscaled(self, info: BufferInfo, position: Double, channel: int) -> Single {
        let first = position.whole(usize::MAX as int);
        let part = position.minus(Double::of_integer(first)).narrowed();
        let source = channel % info.channels as int;
        let near = crate::audio::callback::sample_at(info, first * info.channels + source);
        let far = crate::audio::callback::sample_at(info, (first + 1) * info.channels + source);
        near.times(Single::of(SINGLE_ONE as int).minus(part)).plus(far.times(part))
    }
}

/// The stored sample of a frame and channel; silence past the end.
pub open spec fn stored(info: BufferInfo, frame: int, channel: int) -> Single {
    let index = frame * info.channels + channel % info.channels as int;
    if index < info.samples@.len() {
        info.samples@[index]
    } else {
        Single { bits: 0 }
    }
}

/// Whether a stored sample is a number no larger than two to the power `k`.
pub open spec fn is_moderate(sample: Single, k: nat) -> bool {
    sample.is_finite() && Format::distance(sample.value(), 0) <= Format::Single.most(k)
}

/// What a position comes to: its whole frame and what is left, exactly.
proof fn lemma_position(position: Double, frame: int, rest: int)
    requires
        position.is_finite(),
        0 <= frame < 0x20_0000_0000_0000,
        frame <= usize::MAX,
        position.value() == frame * Format::Double.one() + rest,
        0 <= rest < Format::Double.one(),
    ensures
        position.whole(usize::MAX as int) == frame,
        position.minus(Double::of_integer(frame)).is_finite(),
        position.minus(Double::of_integer(frame)).value() == rest,
{
    let format = Format::Double;
    let one = format.one();
    let bits = position.bits as int;
    let magnitude = format.magnitude(bits);
    let units = format.units(magnitude);
    lemma_pow2_pos(1074);
    format.lemma_value(bits);
    assert(frame * one >= 0) by (nonlinear_arith)
        requires
            frame >= 0,
            one > 0,
    ;
    assert(units == frame * one + rest) by {
        if format.value(bits) != units {
            assert(units == 0);
        }
    }
    lemma_fundamental_div_mod_converse(units, one, frame, rest);
    if format.negative(bits) {
        assert(units == 0);
        assert(frame == 0) by (nonlinear_arith)
            requires
                frame * one + rest == 0,
                frame >= 0,
                rest >= 0,
                one > 0,
        ;
    }
    Double::lemma_count(frame);
    let whole = Double::of_integer(frame).bits as int;
    format.lemma_value(whole);
    format.law_remainder_is_exact(magnitude);
    assert(format.value(bits) + format.value(format.negated(whole)) == rest);
    format.lemma_units_zero();
}

/// Bounds of a product of bounded factors.
proof fn lemma_product_bound(a: int, b: int, x: int, y: int)
    requires
        Format::distance(a, 0) <= x,
        Format::distance(b, 0) <= y,
    ensures
        Format::distance(a * b, 0) <= x * y,
{
    assert(Format::distance(a * b, 0) <= x * y) by (nonlinear_arith)
        requires
            -x <= a <= x,
            -y <= b <= y,
    ;
}

/// Two samples weighted by a part of a frame: linear between them, up to rounding.
proof fn lemma_weighted(near: Single, far: Single, part: Single, k: nat)
    requires
        k <= 40,
        is_moderate(near, k),
        is_moderate(far, k),
        part.is_finite(),
        0 <= part.value() <= Format::Single.one(),
    ensures
        ({
            let one = Format::Single.one();
            let result = near.times(Single::of(SINGLE_ONE as int).minus(part)).plus(
                far.times(part),
            );
            &&& result.is_finite()
            &&& Format::distance(
                one * result.value(),
                near.value() * (one - part.value()) + far.value() * part.value(),
            ) <= 8 * (one * Format::Single.error(k))
        }),
{
    let format = Format::Single;
    let one = format.one();
    let most = format.most(k);
    let error = format.error(k);
    let small = format.error(0);
    format.lemma_one_bits();
    format.lemma_most(0);
    format.lemma_most(k);
    format.lemma_most(k + 1);
    format.lemma_most(k + 2);
    let full = Single::of(SINGLE_ONE as int);
    let f = part.value();
    let n = near.value();
    let m = far.value();
    full.lemma_minus(part, 0);
    let weight = full.minus(part);
    let w = weight.value();
    assert(small <= one);
    assert(-one <= w <= 2 * one);
    // most(k) / one == error(k) / error(0)
    lemma_pow2_adds(k, 149);
    lemma_pow2_adds(k, 125);
    lemma_pow2_pos(k);
    let times = pow2(k) as int;
    assert(most == times * one && error == times * small);
    lemma_product_bound(n, w, most, 2 * one);
    assert(most * (2 * one) == one * (2 * most)) by (nonlinear_arith);
    near.lemma_times(weight, k + 1);
    let a = near.times(weight).value();
    lemma_product_bound(m, f, most, one);
    assert(most * one == one * most) by (nonlinear_arith);
    far.lemma_times(part, k);
    let b = far.times(part).value();
    assert(Format::distance(a, 0) <= 2 * most + 2 * error) by (nonlinear_arith)
        requires
            Format::distance(one * a, n * w) <= one * (2 * error),
            Format::distance(n * w, 0) <= one * (2 * most),
            one > 0,
    ;
    assert(Format::distance(b, 0) <= most + error) by (nonlinear_arith)
        requires
            Format::distance(one * b, m * f) <= one * error,
            Format::distance(m * f, 0) <= one * most,
            one > 0,
    ;
    assert(4 * error <= most);
    near.times(weight).lemma_plus(far.times(part), k + 2);
    let r = near.times(weight).plus(far.times(part)).value();
    assert(Format::distance(one * r, one * (a + b)) <= 4 * (one * error)) by (nonlinear_arith)
        requires
            Format::distance(r, a + b) <= 4 * error,
            one > 0,
    ;
    assert(one * (a + b) == one * a + one * b) by (nonlinear_arith);
    let off = w - (one - f);
    assert(n * w == n * (one - f) + n * off) by (nonlinear_arith)
        requires
            off == w - (one - f),
    ;
    lemma_product_bound(n, off, most, small);
    assert(most * small == one * error) by (nonlinear_arith)
        requires
            most == times * one,
            error == times * small,
    ;
    assert(one * (2 * error) == 2 * (one * error)) by (nonlinear_arith);
}

/// Between two frames the sample goes from one to the other in a straight line:
/// what is played at volume one is off the exact weighted mean of the two stored
/// samples by no more than the rounding of a number sixteen times as large. `k`
/// bounds the samples; for samples from -1 to 1 it is 0.
pub proof fn law_samples_are_interpolated(
    transport: Transport,
    info: BufferInfo,
    position: Double,
    channel: int,
    frame: int,
    rest: int,
    k: nat,
)
    requires
        transport.volume == Single::of(SINGLE_ONE as int),
        info.channels > 0,
        k <= 40,
        channel >= 0,
        position.is_finite(),
        0 <= frame < 0x20_0000_0000_0000,
        frame <= usize::MAX,
        position.value() == frame * Format::Double.one() + rest,
        0 <= rest < Format::Double.one(),
        is_moderate(stored(info, frame, channel), k),
        is_moderate(stored(info, frame + 1, channel), k),
    ensures
        transport.mixed(info, position, channel).is_finite(),
        Format::distance(
            Format::Double.one() * transport.mixed(info, position, channel).value(),
            stored(info, frame, channel).value() * (Format::Double.one() - rest) + stored(
                info,
                frame + 1,
                channel,
            ).value() * rest,
        ) <= 16 * (Format::Double.one() * Format::Single.error(k)),
{
    let format = Format::Single;
    let big = Format::Double.one();
    let one = format.one();
    let error = format.error(k);
    let small = format.error(0);
    let most = format.most(k);
    let near = stored(info, frame, channel);
    let far = stored(info, frame + 1, channel);
    lemma_pow2_pos(1074);
    format.lemma_one_bits();
    format.lemma_most(0);
    format.lemma_most(k);
    lemma_indices(info, frame, channel);
    lemma_indices(info, frame + 1, channel);
    lemma_position(position, frame, rest);
    let left = position.minus(Double::of_integer(frame));
    left.lemma_narrowed_share();
    let part = left.narrowed();
    lemma_weighted(near, far, part, k);
    let result = transport.unscaled(info, position, channel);
    result.law_times_one();
    assert(transport.mixed(info, position, channel) == result);
    let r = result.value();
    let f = part.value();
    let n = near.value();
    let m = far.value();
    lemma_pow2_adds(k, 149);
    lemma_pow2_adds(k, 125);
    lemma_pow2_pos(k);
    let times = pow2(k) as int;
    // The part is a rounded share of a frame.
    let off = big * f - rest * one;
    lemma_product_bound(m - n, off, 2 * most, big * small);
    assert((2 * most) * (big * small) == 2 * (one * (big * error))) by (nonlinear_arith)
        requires
            most == times * one,
            error == times * small,
    ;
    let here = n * (one - f) + m * f;
    let there = n * (big - rest) + m * rest;
    let d = m - n;
    assert(here == n * one + d * f && there == n * big + d * rest) by (nonlinear_arith)
        requires
            here == n * (one - f) + m * f,
            there == n * (big - rest) + m * rest,
            d == m - n,
    ;
    assert(big * here == big * (n * one) + big * (d * f)) by (nonlinear_arith)
        requires
            here == n * one + d * f,
    ;
    assert(one * there == one * (n * big) + one * (d * rest)) by (nonlinear_arith)
        requires
            there == n * big + d * rest,
    ;
    assert(big * (n * one) == one * (n * big)) by (nonlinear_arith);
    assert(big * (d * f) - one * (d * rest) == d * off) by (nonlinear_arith)
        requires
            off == big * f - rest * one,
    ;
    assert(Format::distance(big * (one * r), big * here) <= 8 * (one * (big * error)))
        by (nonlinear_arith)
        requires
            Format::distance(one * r, here) <= 8 * (one * error),
            big > 0,
    ;
    assert(big * (one * r) == one * (big * r)) by (nonlinear_arith);
    assert(one * (big * error) > 0) by (nonlinear_arith)
        requires
            one > 0,
            big > 0,
            error > 0,
    ;
    assert(Format::distance(one * (big * r), one * there) <= 16 * (one * (big * error)));
    assert(Format::distance(big * r, there) <= 16 * (big * error)) by (nonlinear_arith)
        requires
            Format::distance(one * (big * r), one * there) <= 16 * (one * (big * error)),
            one > 0,
    ;
}

proof fn lemma_indices(info: BufferInfo, frame: int, channel: int)
    requires
        info.channels > 0,
        frame >= 0,
        channel >= 0,
    ensures
        crate::audio::callback::sample_at(
            info,
            frame * info.channels + channel % info.channels as int,
        ) == stored(info, frame, channel),
{
    lemma_mod_bound(channel, info.channels as int);
    assert(frame * info.channels >= 0) by (nonlinear_arith)
        requires
            frame >= 0,
            info.channels >= 0,
    ;
}

/// At a whole frame the stored sample is played, times the volume and rounded once.
/// The next frame must be a finite number, for it is added with no weight.
pub proof fn law_whole_frames_play_as_stored(
    transport: Transport,
    info: BufferInfo,
    position: Double,
    channel: int,
    frame: int,
)
    requires
        info.channels > 0,
        channel >= 0,
        position.is_finite(),
        0 <= frame < 0x20_0000_0000_0000,
        frame <= usize::MAX,
        position.value() == frame * Format::Double.one(),
        stored(info, frame, channel).is_finite(),
        stored(info, frame + 1, channel).is_finite(),
        transport.volume.is_finite(),
    ensures
        transport.mixed(info, position, channel).value() == stored(info, frame, channel).times(
            transport.volume,
        ).value(),
        !transport.mixed(info, position, channel).is_nan(),
{
    let format = Format::Single;
    let one = format.one();
    let near = stored(info, frame, channel);
    let far = stored(info, frame + 1, channel);
    lemma_pow2_pos(1074);
    format.lemma_one_bits();
    format.lemma_units_zero();
    lemma_indices(info, frame, channel);
    lemma_indices(info, frame + 1, channel);
    lemma_position(position, frame, 0);
    let left = position.minus(Double::of_integer(frame));
    Format::Double.lemma_value(left.bits as int);
    let part = left.narrowed();
    assert(part.is_finite() && part.value() == 0) by {
        assert(0 * format.one() == 0);
        format.lemma_rounded_zero(Format::Double.one());
    }
    format.lemma_value(part.bits as int);
    // One less nothing is one.
    let full = Single::of(SINGLE_ONE as int);
    format.law_rounding_keeps_numbers(format.one_bits());
    assert(full.minus(part) == full);
    near.law_times_one();
    // The next frame counts for nothing.
    let none = far.times(part);
    format.lemma_value(far.bits as int);
    let size = format.units(format.magnitude(far.bits as int));
    assert(size * 0 == 0);
    format.lemma_rounded_zero(one);
    assert(none.is_finite() && none.value() == 0);
    let sum = near.plus(none);
    format.lemma_value(near.bits as int);
    format.lemma_value(none.bits as int);
    format.law_rounding_keeps_numbers(format.magnitude(near.bits as int));
    assert(!sum.is_nan() && sum.value() == near.value() && sum.is_finite());
    lemma_same_factor(sum, near, transport.volume);
}

/// Equal numbers have equal products.
proof fn lemma_same_factor(a: Single, b: Single, volume: Single)
    requires
        a.is_finite(),
        b.is_finite(),
        volume.is_finite(),
        a.value() == b.value(),
    ensures
        a.times(volume).value() == b.times(volume).value(),
        !a.times(volume).is_nan(),
{
    let format = Format::Single;
    format.lemma_one_bits();
    format.lemma_units_zero();
    format.lemma_value(a.bits as int);
    format.lemma_value(b.bits as int);
    format.lemma_value(volume.bits as int);
    let x = format.units(format.magnitude(a.bits as int));
    let y = format.units(format.magnitude(volume.bits as int));
    assert(x * y >= 0) by (nonlinear_arith)
        requires
            x >= 0,
            y >= 0,
    ;
    format.lemma_rounded_range(x * y, format.one());
    if x == 0 {
        assert(x * y == 0) by (nonlinear_arith)
            requires
                x == 0,
        ;
        format.lemma_rounded_zero(format.one());
    }
}

/// Volume two plays a whole frame twice as loud, exactly, unless that is too large
/// for a number.
pub proof fn law_volume_two_doubles(
    transport: Transport,
    info: BufferInfo,
    position: Double,
    channel: int,
    frame: int,
)
    requires
        info.channels > 0,
        channel >= 0,
        position.is_finite(),
        0 <= frame < 0x20_0000_0000_0000,
        frame <= usize::MAX,
        position.value() == frame * Format::Double.one(),
        stored(info, frame, channel).is_finite(),
        stored(info, frame + 1, channel).is_finite(),
        transport.volume == Single::of(SINGLE_TWO as int),
        Format::distance(2 * stored(info, frame, channel).value(), 0) < Format::Single.units(
            Format::Single.infinity(),
        ),
    ensures
        transport.mixed(info, position, channel).value() == 2 * stored(
            info,
            frame,
            channel,
        ).value(),
{
    let format = Format::Single;
    let one = format.one();
    let near = stored(info, frame, channel);
    format.lemma_one_bits();
    format.lemma_units_zero();
    format.lemma_value(near.bits as int);
    let magnitude = format.magnitude(near.bits as int);
    format.lemma_doubled(magnitude);
    let double = format.doubled(magnitude);
    format.lemma_doubled(format.one_bits());
    assert(format.doubled(format.one_bits()) == SINGLE_TWO);
    assert(double < format.infinity()) by {
        if double > format.infinity() {
            format.lemma_units_increase(format.infinity(), double);
        }
    }
    law_whole_frames_play_as_stored(transport, info, position, channel, frame);
    let x = format.units(magnitude);
    assert(x * (2 * one) == one * (2 * x)) by (nonlinear_arith);
    format.lemma_exact(x * (2 * one), one, double);
}

/// What the cells say of the movement: the volume is the one in its cell, the loop
/// is on where its cell is and its start lies before its end, and then its end is
/// the end; otherwise the end is that of the file.
pub proof fn law_movement_follows_the_cells(
    atomics: PlaybackAtomics,
    info: BufferInfo,
    out_sr: u32,
)
    requires
        info.total_frames < 0x20_0000_0000_0000,
    ensures
        ({
            let transport = Transport::of(atomics, info, out_sr);
            let start = Double::of(atomics.loop_start as int);
            let end = Double::of(atomics.loop_end as int);
            &&& transport.volume.bits == atomics.volume
            &&& transport.looping <==> atomics.loop_enabled && !start.is_nan() && !end.is_nan()
                && start.value() < end.value()
            &&& transport.looping ==> transport.end.bits == atomics.loop_end
                && transport.loop_start.bits == atomics.loop_start
            &&& !transport.looping ==> transport.end.value() == info.total_frames
                * Format::Double.one()
        }),
{
    Double::lemma_count(info.total_frames as int);
}

/// At normal speed a file with the sample rate of the output moves on by one frame
/// per frame of output.
pub proof fn law_normal_speed_moves_by_one(
    atomics: PlaybackAtomics,
    info: BufferInfo,
    out_sr: u32,
)
    requires
        atomics.speed == SINGLE_ONE,
        info.sample_rate == out_sr,
        out_sr > 0,
    ensures
        Transport::of(atomics, info, out_sr).rate.bits == DOUBLE_ONE,
{
    let wide = Format::Double;
    let one = wide.one();
    let speed = Single::of(SINGLE_ONE as int).widened();
    Format::Single.lemma_one_bits();
    Format::Single.lemma_most(60);
    wide.lemma_one_bits();
    lemma_widened(Single::of(SINGLE_ONE as int));
    Double::lemma_count(out_sr as int);
    wide.lemma_exact(
        Format::Single.one() * one,
        Format::Single.one(),
        wide.one_bits(),
    );
    assert(speed.bits == DOUBLE_ONE);
    let rate = wide.of_integer(out_sr as int);
    let units = wide.units(rate);
    wide.law_whole_numbers_are_finite(out_sr as int);
    wide.lemma_units_zero();
    wide.lemma_units_increase(0, rate);
    assert(one * units == units * one) by (nonlinear_arith);
    wide.lemma_exact(one * units, one, rate);
    assert(speed.times(info.rate()) == info.rate());
    wide.lemma_exact(units * one, units, wide.one_bits());
}

/// A number in single precision is the same number in double precision.
pub proof fn lemma_widened(a: Single)
    requires
        a.is_finite(),
        Format::distance(a.value(), 0) <= Format::Single.most(60),
    ensures
        a.widened().is_finite(),
        Format::Single.one() * a.widened().value() == a.value() * Format::Double.one(),
{
    let narrow = Format::Single;
    let wide = Format::Double;
    let small = narrow.one();
    let one = wide.one();
    let bits = a.bits as int;
    let magnitude = narrow.magnitude(bits);
    let hidden = narrow.hidden();
    let units = narrow.units(magnitude);
    narrow.lemma_one_bits();
    wide.lemma_one_bits();
    narrow.lemma_value(bits);
    let field = magnitude / hidden;
    let digits = if field == 0 {
        magnitude % hidden
    } else {
        hidden + magnitude % hidden
    };
    let exponent = if field == 0 {
        0nat
    } else {
        (field - 1) as nat
    };
    lemma_mod_bound(magnitude, hidden);
    lemma_div_pos_is_pos(magnitude, hidden);
    crate::float::round::lemma_pow2_zero_one();
    let power = pow2(exponent) as int;
    if field == 0 {
        assert(digits * power == digits) by (nonlinear_arith)
            requires
                power == 1,
        ;
    }
    assert(units == digits * power);
    // One in double precision is this many times one in single precision.
    let more = pow2(925) as int;
    lemma_pow2_adds(925, 149);
    lemma_pow2_adds(exponent, 925);
    lemma_pow2_pos(925);
    lemma_pow2_pos(exponent);
    let exact = digits * pow2(exponent + 925);
    assert(exact == units * more && exact >= 0) by (nonlinear_arith)
        requires
            exact == digits * pow2(exponent + 925),
            pow2(exponent + 925) == power * more,
            units == digits * power,
            units >= 0,
            more > 0,
    ;
    assert(units * one == small * exact && (units * one) * 1 == exact * small && units * one >= 0)
        by (nonlinear_arith)
        requires
            exact == units * more,
            one == more * small,
            units >= 0,
            one > 0,
    ;
    wide.lemma_equal_fractions(units * one, small, exact, 1);
    narrow.lemma_most(60);
    wide.lemma_most(60);
    lemma_pow2_adds(925, 209);
    let most = narrow.most(60);
    assert(exact <= 1 * wide.most(60)) by (nonlinear_arith)
        requires
            exact == units * more,
            units <= most,
            wide.most(60) == more * most,
            more > 0,
    ;
    wide.lemma_rounded_error(exact, 1, 60);
    wide.law_rounding_keeps_short_numbers(digits, exponent + 925);
    let result = wide.rounded(exact, 1);
    assert(small * (-exact) == -(small * exact) && (-units) * one == -(units * one))
        by (nonlinear_arith);
    assert(a.widened().value() == if narrow.negative(bits) {
        -exact
    } else {
        exact
    });
}

/// How fast the position moves: speed times the sample rate of the file over that
/// of the output, up to two roundings. `k` bounds twice the sample rate of the file.
pub proof fn law_rate_is_speed_times_the_ratio(
    atomics: PlaybackAtomics,
    info: BufferInfo,
    out_sr: u32,
    k: nat,
)
    requires
        ({
            let speed = Single::of(atomics.speed as int);
            speed.is_finite() && 0 <= speed.value() <= 2 * Format::Single.one()
        }),
        out_sr > 0,
        k <= 59,
        2 * info.sample_rate * Format::Double.one() <= Format::Double.most(k),
    ensures
        Transport::of(atomics, info, out_sr).rate.is_finite(),
        Format::distance(
            Format::Single.one() * (out_sr * Transport::of(atomics, info, out_sr).rate.value()),
            Single::of(atomics.speed as int).value() * (info.sample_rate
                * Format::Double.one()),
        ) <= Format::Single.one() * ((2 * out_sr + 1) * Format::Double.error(k)),
{
    let narrow = Format::Single;
    let wide = Format::Double;
    let small = narrow.one();
    let one = wide.one();
    let most = wide.most(k);
    let error = wide.error(k);
    let speed = Single::of(atomics.speed as int);
    let s = speed.value();
    let wide_speed = speed.widened();
    narrow.lemma_one_bits();
    wide.lemma_one_bits();
    narrow.lemma_most(60);
    narrow.lemma_most(0);
    narrow.lemma_most(1);
    crate::float::round::lemma_pow2_monotone(150, 209);
    lemma_widened(speed);
    let v = wide_speed.value();
    assert(0 <= v <= 2 * one) by (nonlinear_arith)
        requires
            small * v == s * one,
            0 <= s <= 2 * small,
            small > 0,
            one > 0,
    ;
    wide.lemma_most(k);
    Double::lemma_count(info.sample_rate as int);
    Double::lemma_count(out_sr as int);
    let sr = info.sample_rate as int;
    let out = out_sr as int;
    assert(0 <= v * (sr * one) <= one * most) by (nonlinear_arith)
        requires
            0 <= v <= 2 * one,
            2 * sr * one <= most,
            sr >= 0,
            one > 0,
    ;
    wide_speed.lemma_times(info.rate(), k);
    let moved = wide_speed.times(info.rate());
    let m = moved.value();
    assert(Format::distance(m, v * sr) <= error) by (nonlinear_arith)
        requires
            Format::distance(one * m, v * (sr * one)) <= one * error,
            one > 0,
    ;
    assert(0 <= v * sr <= most) by (nonlinear_arith)
        requires
            0 <= v <= 2 * one,
            2 * sr * one <= most,
            sr >= 0,
    ;
    wide.lemma_most(k + 1);
    // Rounded down from at most `most`, the product is no more than twice that.
    assert(Format::distance(m, 0) <= 2 * most) by {
        assert(error <= most);
    }
    assert(Format::distance(m * one, 0) <= (out * one) * (2 * most)) by (nonlinear_arith)
        requires
            Format::distance(m, 0) <= 2 * most,
            out >= 1,
            one > 0,
            most > 0,
    ;
    assert(out * one > 0) by (nonlinear_arith)
        requires
            out >= 1,
            one > 0,
    ;
    moved.lemma_over(Double::of_integer(out), k + 1);
    let r = moved.over(Double::of_integer(out)).value();
    assert(Format::distance(out * r, m) <= out * (2 * error)) by (nonlinear_arith)
        requires
            Format::distance((out * one) * r, m * one) <= (out * one) * (2 * error),
            one > 0,
    ;
    assert(out * (2 * error) + error == (2 * out + 1) * error) by (nonlinear_arith);
    let bound = (2 * out + 1) * error;
    assert(Format::distance(small * (out * r), small * (v * sr)) <= small * bound)
        by (nonlinear_arith)
        requires
            Format::distance(out * r, v * sr) <= bound,
            small > 0,
    ;
    assert(small * (v * sr) == s * (sr * one)) by (nonlinear_arith)
        requires
            small * v == s * one,
    ;
}

/// The position moves by the rate: each next position is the number nearest to the
/// exact sum, from where the frame was played.
pub proof fn law_position_moves_by_the_rate(
    transport: Transport,
    start: Double,
    i: nat,
    other: Double,
)
    requires
        transport.settled(transport.position_at(start, i)).is_finite(),
        transport.rate.is_finite(),
        transport.position_at(start, i + 1).is_finite(),
        other.is_finite(),
    ensures
        transport.position_at(start, 0) == start,
        ({
            let exact = transport.settled(transport.position_at(start, i)).value()
                + transport.rate.value();
            Format::distance(transport.position_at(start, i + 1).value(), exact)
                <= Format::distance(other.value(), exact)
        }),
{
    let format = Format::Double;
    let here = transport.settled(transport.position_at(start, i));
    let exact = here.value() + transport.rate.value();
    reveal_with_fuel(Transport::position_at, 2);
    assert(transport.position_at(start, i + 1) == here.plus(transport.rate));
    format.lemma_units_zero();
    format.lemma_value(other.bits as int);
    let size = format.magnitude(other.bits as int);
    if exact > 0 {
        format.lemma_rounded_range(exact, 1);
        format.law_rounding_is_nearest(exact, 1, size);
        format.law_rounding_is_nearest(exact, 1, 0);
    } else if exact < 0 {
        format.lemma_rounded_range(-exact, 1);
        format.law_rounding_is_nearest(-exact, 1, size);
        format.law_rounding_is_nearest(-exact, 1, 0);
    }
}

/// A position is played from where it is, except at the end of a loop or past it,
/// which leads back to the start of the loop.
pub proof fn law_only_the_end_of_a_loop_leads_back(transport: Transport, position: Double)
    requires
        !position.is_nan(),
        !transport.end.is_nan(),
    ensures
        transport.looping && transport.end.value() <= position.value()
            ==> transport.settled(position) == transport.loop_start,
        !transport.looping || position.value() < transport.end.value()
            ==> transport.settled(position) == position,
{
}

/// A file that is not looped is played up to its last frame and no further: a frame
/// of output is played while the position lies before the number of frames.
pub proof fn law_file_plays_up_to_its_end(
    atomics: PlaybackAtomics,
    info: BufferInfo,
    out_sr: u32,
    start: Double,
    frames: nat,
)
    requires
        !Transport::of(atomics, info, out_sr).looping,
        info.total_frames < 0x20_0000_0000_0000,
    ensures
        ({
            let transport = Transport::of(atomics, info, out_sr);
            let played = transport.played(start, frames);
            let end = info.total_frames * Format::Double.one();
            &&& played <= frames
            &&& forall|i: nat|
                i < played && !(#[trigger] transport.position_at(start, i)).is_nan()
                    ==> transport.position_at(start, i).value() < end
            &&& played < frames ==> !transport.position_at(start, played).is_nan() && end
                <= transport.position_at(start, played).value()
        }),
{
    let transport = Transport::of(atomics, info, out_sr);
    Double::lemma_count(info.total_frames as int);
    transport.lemma_played(start, frames);
}

/// A buffer starts at the position in its cell, or at the pending seek.
pub proof fn law_buffer_starts_where_the_cells_say(atomics: PlaybackAtomics)
    ensures
        crate::audio::callback::start_position(atomics).bits == if atomics.seek_to == NO_SEEK {
            atomics.position
        } else {
            atomics.seek_to
        },
{
}

/// A file with the sample rate of the output is played frame by frame at normal
/// speed.
pub proof fn law_normal_speed_plays_every_frame(
    transport: Transport,
    start: Double,
    first: int,
    i: nat,
)
    requires
        transport.rate.bits == DOUBLE_ONE,
        !transport.looping,
        start.is_finite(),
        start.value() == first * Format::Double.one(),
        0 <= first,
        first + i < 0x20_0000_0000_0000,
    ensures
        transport.position_at(start, i).is_finite(),
        transport.position_at(start, i).value() == (first + i) * Format::Double.one(),
    decreases i,
{
    if i > 0 {
        let format = Format::Double;
        let one = format.one();
        law_normal_speed_plays_every_frame(transport, start, first, (i - 1) as nat);
        format.lemma_one_bits();
        let before = transport.position_at(start, (i - 1) as nat);
        format.law_short_integers_are_exact(first + i);
        let next = format.of_integer(first + i);
        let exact = (first + i - 1) * one + one;
        assert(exact == (first + i) * one && exact > 0) by (nonlinear_arith)
            requires
                exact == (first + i - 1) * one + one,
                first + i >= 1,
                one > 0,
        ;
        format.law_rounding_keeps_numbers(next);
        assert(before.value() + transport.rate.value() == exact);
    }
}

/// A buffer holds the played frames one after the other, with the channels of each
/// side by side, and each frame is played from the position it came to.
pub proof fn law_buffer_holds_frame_after_frame(
    transport: Transport,
    info: BufferInfo,
    start: Double,
    out_channels: int,
    frames: nat,
    before: Single,
    frame: nat,
    channel: int,
)
    requires
        frame < transport.played(start, frames),
        0 <= channel < out_channels,
    ensures
        transport.filled_at(
            info,
            start,
            out_channels,
            frames,
            before,
            frame * out_channels + channel,
        ) == transport.mixed(
            info,
            transport.settled(transport.position_at(start, frame)),
            channel,
        ),
{
    let played = transport.played(start, frames) as int;
    let j = frame * out_channels + channel;
    assert(j < played * out_channels) by (nonlinear_arith)
        requires
            j == frame * out_channels + channel,
            0 <= channel < out_channels,
            frame + 1 <= played,
    ;
    lemma_fundamental_div_mod_converse(j, out_channels, frame as int, channel);
}

/// Behind the played frames a buffer is silent once the file is over; while it is
/// not, what is left of a buffer is as it was.
pub proof fn law_rest_of_a_buffer(
    transport: Transport,
    info: BufferInfo,
    start: Double,
    out_channels: int,
    frames: nat,
    before: Single,
    j: int,
)
    requires
        j >= transport.played(start, frames) * out_channels,
    ensures
        transport.played(start, frames) < frames ==> transport.filled_at(
            info,
            start,
            out_channels,
            frames,
            before,
            j,
        ).bits == 0,
        transport.played(start, frames) >= frames ==> transport.filled_at(
            info,
            start,
            out_channels,
            frames,
            before,
            j,
        ) == before,
{
}

/// What a buffer leaves in the cells: the position it came to while playback goes
/// on, and the start with playback off once the file is over. No seek is pending
/// any more, and nothing else changes.
pub proof fn law_buffer_moves_the_cells(
    atomics: PlaybackAtomics,
    transport: Transport,
    start: Double,
    frames: nat,
)
    ensures
        ({
            let played = transport.played(start, frames);
            let cells = atomics.after(
                crate::audio::callback::seek_stores(atomics) + transport.end_stores(
                    start,
                    frames,
                ),
            );
            &&& played >= frames ==> cells == (PlaybackAtomics {
                position: transport.position_at(start, played).bits,
                seek_to: NO_SEEK,
                ..atomics
            })
            &&& played < frames ==> cells == (PlaybackAtomics {
                position: 0,
                playing: false,
                seek_to: NO_SEEK,
                ..atomics
            })
        }),
{
    let reached = transport.position_at(start, transport.played(start, frames)).bits;
    crate::audio::laws::law_end_of_file_rewinds(atomics, reached);
    crate::audio::laws::law_playing_moves_position(atomics, reached);
}

/// While playback is off, or without audio at hand, the output is silent and no
/// cell moves but by a pending seek, which is carried out.
pub proof fn law_silence_without_playback(
    atomics: PlaybackAtomics,
    info: Option<BufferInfo>,
    out_sr: u32,
    out_channels: nat,
    len: nat,
    before: Single,
    j: int,
)
    requires
        !atomics.playing || info is None,
    ensures
        crate::audio::callback::output_at(
            atomics,
            info,
            out_sr,
            out_channels,
            len,
            before,
            j,
        ).bits == 0,
        ({
            let cells = atomics.after(
                crate::audio::callback::callback_stores(atomics, info, out_sr, out_channels, len),
            );
            &&& atomics.seek_to == NO_SEEK ==> cells == atomics
            &&& atomics.seek_to != NO_SEEK ==> cells == (PlaybackAtomics {
                position: atomics.seek_to,
                seek_to: NO_SEEK,
                ..atomics
            })
        }),
{
    if atomics.seek_to == NO_SEEK {
        crate::audio::laws::law_silence_leaves_cells(atomics);
    } else {
        crate::audio::laws::law_callback_carries_out_seek(atomics);
    }
}

/// While playback is on, every channel of every frame that is played is heard: its
/// sample is the mix at the position that the frame came to from where the cells
/// say that playback is.
pub proof fn law_playback_is_heard(
    atomics: PlaybackAtomics,
    info: BufferInfo,
    out_sr: u32,
    out_channels: nat,
    len: nat,
    before: Single,
    frame: nat,
    channel: int,
)
    requires
        atomics.playing,
        frame < crate::audio::callback::frames_played(
            atomics,
            info,
            out_sr,
            len / out_channels,
        ),
        0 <= channel < out_channels,
    ensures
        ({
            let transport = Transport::of(atomics, info, out_sr);
            let start = crate::audio::callback::start_position(atomics);
            crate::audio::callback::output_at(
                atomics,
                Some(info),
                out_sr,
                out_channels,
                len,
                before,
                frame * out_channels + channel,
            ) == transport.mixed(
                info,
                transport.settled(transport.position_at(start, frame)),
                channel,
            )
        }),
{
    law_buffer_holds_frame_after_frame(
        Transport::of(atomics, info, out_sr),
        info,
        crate::audio::callback::start_position(atomics),
        out_channels as int,
        len / out_channels,
        before,
        frame,
        channel,
    );
}

/// After a buffer that was played the cells say where it came to, or that playback
/// is off and at the start once the file is over.
pub proof fn law_playback_moves_on(
    atomics: PlaybackAtomics,
    info: BufferInfo,
    out_sr: u32,
    out_channels: nat,
    len: nat,
)
    requires
        atomics.playing,
    ensures
        ({
            let frames = len / out_channels;
            let transport = Transport::of(atomics, info, out_sr);
            let start = crate::audio::callback::start_position(atomics);
            let played = transport.played(start, frames);
            let cells = atomics.after(
                crate::audio::callback::callback_stores(
                    atomics,
                    Some(info),
                    out_sr,
                    out_channels,
                    len,
                ),
            );
            &&& cells.seek_to == NO_SEEK
            &&& cells.playing <==> played >= frames
            &&& played >= frames ==> cells.position == transport.position_at(start, frames).bits
            &&& played < frames ==> cells.position == 0
            &&& cells.volume == atomics.volume && cells.speed == atomics.speed
            &&& cells.loop_enabled == atomics.loop_enabled
            &&& cells.loop_start == atomics.loop_start && cells.loop_end == atomics.loop_end
        }),
{
    let frames = len / out_channels;
    let transport = Transport::of(atomics, info, out_sr);
    let start = crate::audio::callback::start_position(atomics);
    lemma_played_at_most(transport, start, frames);
    law_buffer_moves_the_cells(atomics, transport, start, frames);
}

proof fn lemma_played_at_most(transport: Transport, start: Double, frames: nat)
    ensures
        transport.played(start, frames) <= frames,
    decreases frames,
{
    if frames > 0 {
        lemma_played_at_most(transport, start, (frames - 1) as nat);
    }
}

} // verus!
