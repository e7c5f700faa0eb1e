use crate::audio::peaks::Peak;
use crate::float::format::Format;
use crate::float::number::{Single, SINGLE_INFINITY, SINGLE_NEG_INFINITY, SINGLE_ONE};
use vstd::arithmetic::div_mod::*;
use vstd::arithmetic::power2::*;
use vstd::prelude::*;

verus! {

/// Whether two numbers differ in their sign alone, as numbers: a zero mirrors
/// either zero.
pub open spec fn mirrors(a: Single, b: Single) -> bool {
    &&& !a.is_nan()
    &&& !b.is_nan()
    &&& Format::Single.value(a.bits as int) == -Format::Single.value(b.bits as int)
}

/// Whether a sample is from -1 to 1.
pub open spec fn in_range(sample: Single) -> bool {
    &&& Single::of(SINGLE_ONE as int).opposite().at_most(sample)
    &&& sample.at_most(Single::of(SINGLE_ONE as int))
}

/// The samples with their signs changed.
pub open spec fn inverted(samples: Seq<Single>) -> Seq<Single> {
    Seq::new(samples.len(), |i: int| samples[i].opposite())
}

/// The size of a number in units.
spec fn size(a: Single) -> int {
    Format::Single.units(Format::Single.magnitude(a.bits as int))
}

/// Two to the power 25, in units: no sum of samples grows beyond it, since what is
/// added there is lost in rounding.
spec fn ceiling() -> int {
    pow2(174) as int
}

proof fn lemma_size(a: Single)
    ensures
        size(a) >= 0,
        Format::Single.value(a.bits as int) == size(a) || Format::Single.value(a.bits as int)
            == -size(a),
        Format::Single.magnitude(a.bits as int) > 0 ==> size(a) > 0,
{
    let magnitude = Format::Single.magnitude(a.bits as int);
    Format::Single.lemma_units_zero();
    if magnitude > 0 {
        Format::Single.lemma_units_increase(0, magnitude);
    }
}

/// One in units.
proof fn lemma_one()
    ensures
        Format::Single.units(SINGLE_ONE as int) == Format::Single.one(),
        Format::Single.one() > 0,
{
    assert(SINGLE_ONE as int / 0x80_0000int == 127 && SINGLE_ONE as int % 0x80_0000int == 0);
    lemma2_to64();
    lemma_pow2_adds(23, 126);
    lemma_pow2_pos(149);
}

/// A sample from -1 to 1 is finite and no larger than one.
proof fn lemma_sample(sample: Single)
    requires
        in_range(sample),
    ensures
        sample.is_finite(),
        size(sample) <= Format::Single.one(),
        mirrors(sample.opposite(), sample),
        sample.opposite().is_finite(),
        size(sample.opposite()) == size(sample),
{
    lemma_one();
    lemma_size(sample);
    Format::Single.lemma_units_increase(SINGLE_ONE as int, Format::Single.infinity());
    Format::Single.lemma_units_zero();
    lemma_size(Single::of(SINGLE_ONE as int));
}

/// Rounding does not lead over the ceiling from one unit above it.
proof fn lemma_rounded_below(num: int)
    requires
        0 <= num <= ceiling() + Format::Single.one(),
    ensures
        0 <= Format::Single.rounded(num, 1) < Format::Single.infinity(),
        Format::Single.units(Format::Single.rounded(num, 1)) <= ceiling(),
{
    let format = Format::Single;
    let one = format.one();
    lemma2_to64();
    lemma_pow2_pos(149);
    lemma_pow2_adds(25, 149);
    lemma_pow2_adds(64, 149);
    assert(ceiling() == 0x200_0000 * one);
    assert(num < pow2(213)) by (nonlinear_arith)
        requires
            num <= 0x200_0000 * one + one,
            pow2(213) == pow2(64) * one,
            pow2(64) == 0x1_0000_0000_0000_0000,
            one > 0,
    ;
    format.lemma_rounded_finite(num, 1);
    let result = format.rounded(num, 1);
    let units = format.units(result);
    // The pattern of the ceiling itself.
    let top = 152 * 0x80_0000int;
    assert(top / 0x80_0000int == 152 && top % 0x80_0000int == 0);
    lemma_pow2_adds(23, 151);
    lemma_pow2_adds(2, 149);
    assert(format.units(top) == ceiling());
    format.law_rounding_is_nearest(num, 1, top);
    if units > ceiling() {
        let k = format.lemma_spaced(result, 151);
        let step = pow2(151) as int;
        assert(step == 4 * one);
        assert(k >= 0x80_0001) by (nonlinear_arith)
            requires
                k * step > 0x80_0000 * step,
                step > 0,
        ;
        assert(k * step >= 0x80_0000 * step + step) by (nonlinear_arith)
            requires
                k >= 0x80_0001,
                step > 0,
        ;
    }
}

/// Mirrored sums of mirrored numbers, with the sums kept below the ceiling.
proof fn lemma_sum(a: Single, b: Single, x: Single, y: Single)
    requires
        mirrors(a, b),
        mirrors(x, y),
        a.is_finite(),
        b.is_finite(),
        x.is_finite(),
        y.is_finite(),
        size(b) <= ceiling(),
        size(y) <= Format::Single.one(),
    ensures
        mirrors(a.plus(x), b.plus(y)),
        a.plus(x).is_finite(),
        b.plus(y).is_finite(),
        size(b.plus(y)) <= ceiling(),
{
    let format = Format::Single;
    lemma_size(b);
    lemma_size(y);
    lemma_pow2_pos(174);
    format.lemma_units_zero();
    let total = format.value(b.bits as int) + format.value(y.bits as int);
    if total < 0 {
        lemma_rounded_below(-total);
    } else if total > 0 {
        lemma_rounded_below(total);
    }
}

/// The channels of a frame, added up, mirror those of the inverted frame.
proof fn lemma_channel_sum(samples: Seq<Single>, channels: int, frame: int, upto: nat)
    requires
        forall|i: int| 0 <= i < samples.len() ==> in_range(#[trigger] samples[i]),
        0 <= frame,
        upto <= channels,
        (frame + 1) * channels <= samples.len(),
    ensures
        ({
            let sum = crate::audio::peaks::channel_sum(samples, channels, frame, upto);
            let other = crate::audio::peaks::channel_sum(
                inverted(samples),
                channels,
                frame,
                upto,
            );
            &&& mirrors(other, sum)
            &&& sum.is_finite()
            &&& other.is_finite()
            &&& size(sum) <= ceiling()
        }),
    decreases upto,
{
    Format::Single.lemma_units_zero();
    lemma_pow2_pos(174);
    if upto > 0 {
        lemma_channel_sum(samples, channels, frame, (upto - 1) as nat);
        let at = frame * channels + upto - 1;
        assert(0 <= at < samples.len()) by (nonlinear_arith)
            requires
                at == frame * channels + upto - 1,
                1 <= upto <= channels,
                0 <= frame,
                (frame + 1) * channels <= samples.len(),
        ;
        lemma_sample(samples[at]);
        assert(inverted(samples)[at] == samples[at].opposite());
        lemma_sum(
            crate::audio::peaks::channel_sum(
                inverted(samples),
                channels,
                frame,
                (upto - 1) as nat,
            ),
            crate::audio::peaks::channel_sum(samples, channels, frame, (upto - 1) as nat),
            samples[at].opposite(),
            samples[at],
        );
    }
}

/// A count that is not zero is at least one.
proof fn lemma_count(n: int)
    requires
        0 < n < 0x1_0000_0000_0000_0000,
    ensures
        0 < Format::Single.of_integer(n) < Format::Single.infinity(),
        Format::Single.units(Format::Single.of_integer(n)) >= Format::Single.one(),
{
    let format = Format::Single;
    let one = format.one();
    lemma_one();
    format.law_whole_numbers_are_finite(n);
    assert(n * one >= one) by (nonlinear_arith)
        requires
            n >= 1,
            one > 0,
    ;
    format.law_rounding_is_nearest(n * one, 1, SINGLE_ONE as int);
}

/// Mirrored means of mirrored sums.
proof fn lemma_mean(a: Single, b: Single, channels: int)
    requires
        mirrors(a, b),
        a.is_finite(),
        b.is_finite(),
        size(b) <= ceiling(),
        0 < channels < 0x1_0000_0000_0000_0000,
    ensures
        mirrors(
            a.over(Single::of_integer(channels)),
            b.over(Single::of_integer(channels)),
        ),
        a.over(Single::of_integer(channels)).is_finite(),
        b.over(Single::of_integer(channels)).is_finite(),
{
    let format = Format::Single;
    let one = format.one();
    lemma_size(a);
    lemma_size(b);
    lemma_one();
    lemma_count(channels);
    let den = format.units(format.of_integer(channels));
    let num = size(b) * pow2(149);
    lemma2_to64();
    lemma_pow2_adds(25, 149);
    lemma_pow2_adds(64, 149);
    format.lemma_units_zero();
    assert(0 <= num < den * pow2(213)) by (nonlinear_arith)
        requires
            num == size(b) * one,
            0 <= size(b) <= 0x200_0000 * one,
            den >= one,
            pow2(213) == pow2(64) * one,
            pow2(64) == 0x1_0000_0000_0000_0000,
            one > 0,
    ;
    format.lemma_rounded_finite(num, den);
    if size(b) == 0 {
        assert(num == 0) by (nonlinear_arith)
            requires
                num == size(b) * pow2(149),
                size(b) == 0,
        ;
        format.lemma_rounded_zero(den);
    }
}

/// A mixed frame mirrors the mixed inverted frame.
proof fn lemma_mono(samples: Seq<Single>, channels: int, frame: int)
    requires
        forall|i: int| 0 <= i < samples.len() ==> in_range(#[trigger] samples[i]),
        0 < channels < 0x1_0000_0000_0000_0000,
        0 <= frame,
        (frame + 1) * channels <= samples.len(),
    ensures
        mirrors(
            crate::audio::peaks::mono(inverted(samples), channels, frame),
            crate::audio::peaks::mono(samples, channels, frame),
        ),
        crate::audio::peaks::mono(samples, channels, frame).is_finite(),
        crate::audio::peaks::mono(inverted(samples), channels, frame).is_finite(),
{
    lemma_channel_sum(samples, channels, frame, channels as nat);
    lemma_mean(
        crate::audio::peaks::channel_sum(inverted(samples), channels, frame, channels as nat),
        crate::audio::peaks::channel_sum(samples, channels, frame, channels as nat),
        channels,
    );
}

/// The least of the inverted frames mirrors the greatest of the frames, and the
/// other way round.
proof fn lemma_range(samples: Seq<Single>, channels: int, start: int, end: int)
    requires
        forall|i: int| 0 <= i < samples.len() ==> in_range(#[trigger] samples[i]),
        0 < channels < 0x1_0000_0000_0000_0000,
        0 <= start,
        end * channels <= samples.len(),
    ensures
        ({
            let low = crate::audio::peaks::lowest(samples, channels, start, end);
            let high = crate::audio::peaks::highest(samples, channels, start, end);
            let other_low = crate::audio::peaks::lowest(inverted(samples), channels, start, end);
            let other_high = crate::audio::peaks::highest(inverted(samples), channels, start, end);
            &&& mirrors(other_low, high)
            &&& mirrors(other_high, low)
            &&& start < end ==> low.is_finite() && other_low.is_finite()
        }),
    decreases end - start,
{
    let format = Format::Single;
    if start < end {
        assert((end - 1) * channels <= end * channels) by (nonlinear_arith)
            requires
                channels > 0,
        ;
        lemma_range(samples, channels, start, end - 1);
        lemma_mono(samples, channels, end - 1);
        let mixed = crate::audio::peaks::mono(samples, channels, end - 1);
        let other = crate::audio::peaks::mono(inverted(samples), channels, end - 1);
        lemma_below_infinity(mixed);
        lemma_below_infinity(other);
    }
}

/// A finite number lies below infinity.
proof fn lemma_below_infinity(a: Single)
    requires
        a.is_finite(),
    ensures
        a.less(Single::of(SINGLE_INFINITY as int)),
        Single::of(SINGLE_NEG_INFINITY as int).less(a),
{
    lemma_size(a);
    Format::Single.lemma_units_increase(
        Format::Single.magnitude(a.bits as int),
        Format::Single.infinity(),
    );
}

/// Changing the sign of every sample exchanges the ends of each peak and changes
/// their signs: the waveform is turned upside down. It holds of samples from -1 to
/// 1, and of peaks as numbers.
pub proof fn law_inverted_samples_turn_peaks_over(
    samples: Seq<Single>,
    channels: usize,
    num_peaks: int,
    i: int,
)
    requires
        forall|j: int| 0 <= j < samples.len() ==> in_range(#[trigger] samples[j]),
        0 <= i < num_peaks,
    ensures
        ({
            let peak: Peak = crate::audio::peaks::peak_at(samples, channels as int, num_peaks, i);
            let turned: Peak = crate::audio::peaks::peak_at(
                inverted(samples),
                channels as int,
                num_peaks,
                i,
            );
            mirrors(turned.min, peak.max) && mirrors(turned.max, peak.min)
        }),
{
    let count = channels as int;
    Format::Single.lemma_units_zero();
    if samples.len() > 0 && count != 0 {
        let total = samples.len() as int / count;
        let share = crate::audio::peaks::frames_per_peak(total, num_peaks);
        let start = i * share;
        let end = if (i + 1) * share < total {
            (i + 1) * share
        } else {
            total
        };
        lemma_fundamental_div_mod(samples.len() as int, count);
        lemma_mod_bound(samples.len() as int, count);
        assert(start >= 0 && start < (i + 1) * share) by (nonlinear_arith)
            requires
                start == i * share,
                i >= 0,
                share >= 1,
        ;
        assert(end * count <= samples.len()) by (nonlinear_arith)
            requires
                end <= total,
                count * total <= samples.len(),
                count > 0,
        ;
        lemma_range(samples, count, start, end);
    }
}

/// Whether a number is what some frame from `start` up to `end` is mixed to.
pub open spec fn is_mixed(
    samples: Seq<Single>,
    channels: int,
    start: int,
    end: int,
    value: Single,
) -> bool {
    exists|frame: int|
        start <= frame < end && value == #[trigger] crate::audio::peaks::mono(
            samples,
            channels,
            frame,
        )
}

proof fn lemma_mixed_longer(
    samples: Seq<Single>,
    channels: int,
    start: int,
    end: int,
    value: Single,
)
    requires
        is_mixed(samples, channels, start, end, value),
    ensures
        is_mixed(samples, channels, start, end + 1, value),
{
    let frame = choose|frame: int|
        start <= frame < end && value == #[trigger] crate::audio::peaks::mono(
            samples,
            channels,
            frame,
        );
    assert(value == crate::audio::peaks::mono(samples, channels, frame));
}

/// The least and the greatest of some frames: all that are numbers lie between
/// them, and each is a mixed frame unless none came below or above.
proof fn lemma_extremes(samples: Seq<Single>, channels: int, start: int, end: int)
    ensures
        ({
            let low = crate::audio::peaks::lowest(samples, channels, start, end);
            let high = crate::audio::peaks::highest(samples, channels, start, end);
            &&& !low.is_nan()
            &&& !high.is_nan()
            &&& low == Single::of(SINGLE_INFINITY as int) || is_mixed(
                samples,
                channels,
                start,
                end,
                low,
            )
            &&& high == Single::of(SINGLE_NEG_INFINITY as int) || is_mixed(
                samples,
                channels,
                start,
                end,
                high,
            )
            &&& forall|frame: int|
                start <= frame < end && !(#[trigger] crate::audio::peaks::mono(
                    samples,
                    channels,
                    frame,
                )).is_nan() ==> low.at_most(
                    crate::audio::peaks::mono(samples, channels, frame),
                ) && crate::audio::peaks::mono(samples, channels, frame).at_most(high)
        }),
    decreases end - start,
{
    if start < end {
        lemma_extremes(samples, channels, start, end - 1);
        let low = crate::audio::peaks::lowest(samples, channels, start, end - 1);
        let high = crate::audio::peaks::highest(samples, channels, start, end - 1);
        if low != Single::of(SINGLE_INFINITY as int) {
            lemma_mixed_longer(samples, channels, start, end - 1, low);
        }
        if high != Single::of(SINGLE_NEG_INFINITY as int) {
            lemma_mixed_longer(samples, channels, start, end - 1, high);
        }
        let mixed = crate::audio::peaks::mono(samples, channels, end - 1);
        assert(is_mixed(samples, channels, start, end, mixed));
    }
}

/// A peak is the range of its stretch, whatever the samples: every frame that is a
/// number lies between the two ends, and both ends are such frames. Frames that are
/// no numbers are passed over; `witness` is one that is and lies below infinity,
/// without which there is nothing to show.
pub proof fn law_peak_spans_all_numbers(
    samples: Seq<Single>,
    channels: usize,
    num_peaks: int,
    i: int,
    frame: int,
    witness: int,
)
    requires
        channels > 0,
        0 <= i < num_peaks,
        ({
            let total = samples.len() as int / channels as int;
            let share = crate::audio::peaks::frames_per_peak(total, num_peaks);
            &&& i * share <= frame < (i + 1) * share
            &&& frame < total
            &&& i * share <= witness < (i + 1) * share
            &&& witness < total
        }),
        !crate::audio::peaks::mono(samples, channels as int, frame).is_nan(),
        crate::audio::peaks::mono(samples, channels as int, witness).less(
            Single::of(SINGLE_INFINITY as int),
        ),
    ensures
        ({
            let total = samples.len() as int / channels as int;
            let share = crate::audio::peaks::frames_per_peak(total, num_peaks);
            let end = if (i + 1) * share < total {
                (i + 1) * share
            } else {
                total
            };
            let peak: Peak = crate::audio::peaks::peak_at(samples, channels as int, num_peaks, i);
            let mixed = crate::audio::peaks::mono(samples, channels as int, frame);
            &&& peak.min.at_most(mixed)
            &&& mixed.at_most(peak.max)
            &&& is_mixed(samples, channels as int, i * share, end, peak.min)
            &&& is_mixed(samples, channels as int, i * share, end, peak.max)
        }),
{
    let count = channels as int;
    let total = samples.len() as int / count;
    let share = crate::audio::peaks::frames_per_peak(total, num_peaks);
    let start = i * share;
    let end = if (i + 1) * share < total {
        (i + 1) * share
    } else {
        total
    };
    if samples.len() == 0 {
        assert(total == 0) by (nonlinear_arith)
            requires
                total == 0int / count,
                count > 0,
        ;
        assert(i * share >= 0) by (nonlinear_arith)
            requires
                i >= 0,
                share >= 1,
        ;
    }
    lemma_extremes(samples, count, start, end);
    let other = crate::audio::peaks::mono(samples, count, witness);
    let low = crate::audio::peaks::lowest(samples, count, start, end);
    let high = crate::audio::peaks::highest(samples, count, start, end);
    assert(low != Single::of(SINGLE_INFINITY as int));
    if high == Single::of(SINGLE_NEG_INFINITY as int) {
        // Then all frames are negative infinity, the witness among them.
        lemma_lowest_number(other);
        assert(other == high);
    }
}

/// A peak is the range of its stretch: for samples from -1 to 1 every frame of the
/// stretch, mixed to one channel, lies between the two ends, and both ends are such
/// frames.
pub proof fn law_peak_spans_its_frames(
    samples: Seq<Single>,
    channels: usize,
    num_peaks: int,
    i: int,
    frame: int,
)
    requires
        forall|j: int| 0 <= j < samples.len() ==> in_range(#[trigger] samples[j]),
        channels > 0,
        0 <= i < num_peaks,
        ({
            let total = samples.len() as int / channels as int;
            let share = crate::audio::peaks::frames_per_peak(total, num_peaks);
            i * share <= frame < (i + 1) * share && frame < total
        }),
    ensures
        ({
            let total = samples.len() as int / channels as int;
            let share = crate::audio::peaks::frames_per_peak(total, num_peaks);
            let end = if (i + 1) * share < total {
                (i + 1) * share
            } else {
                total
            };
            let peak: Peak = crate::audio::peaks::peak_at(samples, channels as int, num_peaks, i);
            let mixed = crate::audio::peaks::mono(samples, channels as int, frame);
            &&& peak.min.at_most(mixed)
            &&& mixed.at_most(peak.max)
            &&& is_mixed(samples, channels as int, i * share, end, peak.min)
            &&& is_mixed(samples, channels as int, i * share, end, peak.max)
        }),
{
    let count = channels as int;
    let total = samples.len() as int / count;
    let share = crate::audio::peaks::frames_per_peak(total, num_peaks);
    lemma_fundamental_div_mod(samples.len() as int, count);
    lemma_mod_bound(samples.len() as int, count);
    assert(frame >= 0) by (nonlinear_arith)
        requires
            i * share <= frame,
            i >= 0,
            share >= 1,
    ;
    assert((frame + 1) * count <= samples.len()) by (nonlinear_arith)
        requires
            frame + 1 <= total,
            count * total <= samples.len(),
            count > 0,
    ;
    lemma_mono(samples, count, frame);
    lemma_below_infinity(crate::audio::peaks::mono(samples, count, frame));
    law_peak_spans_all_numbers(samples, channels, num_peaks, i, frame, frame);
}

/// Nothing but negative infinity itself lies no higher than it.
proof fn lemma_lowest_number(a: Single)
    requires
        a.at_most(Single::of(SINGLE_NEG_INFINITY as int)),
    ensures
        a == Single::of(SINGLE_NEG_INFINITY as int),
{
    if a.is_finite() {
        lemma_below_infinity(a);
    }
    Format::Single.lemma_units_zero();
    Format::Single.lemma_units_increase(0, Format::Single.infinity());
}

/// Peaks whose stretch would start at the end of the file or later are silent, and
/// so are all where there is nothing to show.
pub proof fn law_peaks_past_the_end_are_silent(
    samples: Seq<Single>,
    channels: usize,
    num_peaks: int,
    i: int,
)
    requires
        samples.len() == 0 || channels == 0 || i * crate::audio::peaks::frames_per_peak(
            samples.len() as int / channels as int,
            num_peaks,
        ) >= samples.len() as int / channels as int,
    ensures
        ({
            let peak: Peak = crate::audio::peaks::peak_at(samples, channels as int, num_peaks, i);
            peak.min.bits == 0 && peak.max.bits == 0
        }),
{
}

/// The rounded quotient of two counts is no more than a whole number that the exact
/// one is no more than.
proof fn lemma_share_is_no_more(total: int, n: int, most: int)
    requires
        0 <= total < 0x20_0000_0000_0000,
        0 < n < 0x1_0000_0000_0000_0000,
        0 < most < 0x20_0000_0000_0000,
        total <= n * most,
    ensures
        ({
            let format = Format::Double;
            let frames = format.units(format.of_integer(total));
            let peaks = format.units(format.of_integer(n));
            let quotient = format.rounded(frames * format.one(), peaks);
            &&& peaks > 0
            &&& 0 <= quotient < format.infinity()
            &&& format.units(quotient) <= most * format.one()
        }),
{
    let format = Format::Double;
    let one = format.one();
    lemma_pow2_pos(1074);
    format.law_whole_numbers_are_finite(n);
    format.lemma_units_increase(0, format.of_integer(n));
    format.lemma_units_zero();
    format.law_short_integers_are_exact(total);
    format.law_short_integers_are_exact(most);
    let frames = format.units(format.of_integer(total));
    let peaks = format.units(format.of_integer(n));
    let num = frames * one;
    assert(num >= 0 && most * one > 0) by (nonlinear_arith)
        requires
            num == frames * one,
            frames == total * one,
            total >= 0,
            most > 0,
            one > 0,
    ;
    assert(num * 1 <= (most * one) * peaks) by {
        if n < 0x20_0000_0000_0000 {
            format.law_short_integers_are_exact(n);
            assert(num * 1 <= (most * one) * peaks) by (nonlinear_arith)
                requires
                    num == frames * one,
                    frames == total * one,
                    peaks == n * one,
                    total <= n * most,
                    one > 0,
            ;
        } else {
            assert(total * one >= 0 && n * one >= 0 && (total * one) * 1 <= (n * one) * 1)
                by (nonlinear_arith)
                requires
                    0 <= total <= n,
                    one > 0,
            ;
            format.law_rounding_keeps_order(total * one, 1, n * one, 1);
            if format.of_integer(total) < format.of_integer(n) {
                format.lemma_units_increase(format.of_integer(total), format.of_integer(n));
            }
            assert(num * 1 <= (most * one) * peaks) by (nonlinear_arith)
                requires
                    num == frames * one,
                    0 <= frames <= peaks,
                    most >= 1,
                    one > 0,
            ;
        }
    }
    format.law_rounding_keeps_order(num, peaks, most * one, 1);
    format.lemma_rounded_range(num, peaks);
    let quotient = format.rounded(num, peaks);
    if quotient < format.of_integer(most) {
        format.lemma_units_increase(quotient, format.of_integer(most));
    }
}

/// How many frames go into one peak: the frames divided by the peaks, rounded up,
/// and at least one. It holds up to the number of frames that a double counts
/// exactly.
pub proof fn law_share_is_rounded_up(total: int, num_peaks: int)
    requires
        0 <= total < 0x20_0000_0000_0000,
        total <= usize::MAX,
        0 < num_peaks <= usize::MAX,
    ensures
        crate::audio::peaks::frames_per_peak(total, num_peaks) == if total == 0 {
            1
        } else {
            (total + num_peaks - 1) / num_peaks
        },
{
    let format = Format::Double;
    let one = format.one();
    let share = crate::audio::peaks::frames_per_peak(total, num_peaks);
    let above = if total == 0 {
        1
    } else {
        (total + num_peaks - 1) / num_peaks
    };
    lemma_pow2_pos(1074);
    lemma_fundamental_div_mod(total + num_peaks - 1, num_peaks);
    lemma_mod_bound(total + num_peaks - 1, num_peaks);
    let rest = (total + num_peaks - 1) % num_peaks;
    if total > 0 {
        assert(above >= 1 && total <= num_peaks * above && num_peaks * (above - 1) < total
            && above <= total) by (nonlinear_arith)
            requires
                total + num_peaks - 1 == num_peaks * above + rest,
                0 <= rest < num_peaks,
                total >= 1,
                num_peaks >= 1,
        ;
    }
    lemma_share_is_no_more(total, num_peaks, above);
    format.law_whole_numbers_are_finite(total);
    format.law_whole_numbers_are_finite(num_peaks);
    let quotient = format.rounded(
        format.units(format.of_integer(total)) * one,
        format.units(format.of_integer(num_peaks)),
    );
    let units = format.units(quotient);
    lemma_fundamental_div_mod(units, one);
    lemma_mod_bound(units, one);
    let whole = units / one;
    let part = units % one;
    assert((if part == 0 {
        whole
    } else {
        whole + 1
    }) <= above) by (nonlinear_arith)
        requires
            units == one * whole + part,
            0 <= part < one,
            units <= above * one,
            one > 0,
    ;
    crate::audio::laws::law_peaks_cover_every_frame(total, num_peaks);
    if total > 0 {
        assert(share >= above) by (nonlinear_arith)
            requires
                num_peaks * share >= total,
                num_peaks * (above - 1) < total,
                num_peaks > 0,
        ;
    }
}

/// The exact sum of the first `upto` channels of a frame.
pub open spec fn exact_sum(samples: Seq<Single>, channels: int, frame: int, upto: nat) -> int
    decreases upto,
{
    if upto == 0 {
        0
    } else {
        exact_sum(samples, channels, frame, (upto - 1) as nat) + samples[frame * channels + upto
            - 1].value()
    }
}

/// Whether the channels of a frame are numbers no larger than two to the power `k`.
pub open spec fn frame_is_moderate(
    samples: Seq<Single>,
    channels: int,
    frame: int,
    k: nat,
) -> bool {
    forall|c: int|
        0 <= c < channels ==> (#[trigger] samples[frame * channels + c]).is_finite()
            && Format::distance(samples[frame * channels + c].value(), 0)
            <= Format::Single.most(k)
}

/// How far the sum of channels is off the exact one.
proof fn lemma_sum_off(samples: Seq<Single>, channels: int, frame: int, upto: nat, k: nat)
    requires
        frame_is_moderate(samples, channels, frame, k),
        k <= 40,
        upto <= channels <= 1024,
    ensures
        ({
            let sum = crate::audio::peaks::channel_sum(samples, channels, frame, upto);
            let exact = exact_sum(samples, channels, frame, upto);
            &&& sum.is_finite()
            &&& Format::distance(sum.value(), exact) <= 2 * (upto * upto)
                * Format::Single.error(k)
            &&& Format::distance(exact, 0) <= upto * Format::Single.most(k)
        }),
    decreases upto,
{
    let format = Format::Single;
    let most = format.most(k);
    let error = format.error(k);
    format.lemma_units_zero();
    format.lemma_most(k);
    if upto > 0 {
        let j = upto as int;
        lemma_sum_off(samples, channels, frame, (upto - 1) as nat, k);
        let before = crate::audio::peaks::channel_sum(samples, channels, frame, (upto - 1) as nat);
        let sample = samples[frame * channels + (upto - 1)];
        assert(sample == samples[frame * channels + upto - 1]);
        let sum = before.plus(sample);
        let exact = exact_sum(samples, channels, frame, upto);
        let total = before.value() + sample.value();
        let square = (j - 1) * (j - 1);
        assert(0 <= square <= 0x10_0000) by (nonlinear_arith)
            requires
                square == (j - 1) * (j - 1),
                1 <= j <= 1024,
        ;
        let off = Format::distance(
            before.value(),
            exact_sum(samples, channels, frame, (upto - 1) as nat),
        );
        assert(off <= 2 * square * error);
        assert(most == 0x100_0000 * error);
        assert(8 * off <= most) by (nonlinear_arith)
            requires
                off <= 2 * square * error,
                square <= 0x10_0000,
                most == 0x100_0000 * error,
                error > 0,
        ;
        assert(j * most == (j - 1) * most + most) by (nonlinear_arith);
        assert(Format::distance(exact, 0) <= j * most);
        let size = Format::distance(total, 0);
        assert(size <= j * most + off);
        // No sum of so few channels is too large.
        lemma_pow2_adds(11, 149 + k);
        lemma2_to64();
        let room = format.most(k + 11);
        assert(room == 2048 * most);
        assert(size <= room) by (nonlinear_arith)
            requires
                size <= j * most + off,
                off <= most,
                j <= 1024,
                room == 2048 * most,
                most > 0,
        ;
        before.lemma_plus(sample, k + 11);
        format.lemma_rounded_error(size, 1, k + 11);
        format.lemma_rounded_relative(size);
        let result = format.units(format.rounded(size, 1));
        format.lemma_sum_parts(before.bits as int, sample.bits as int);
        assert(Format::distance(sum.value(), total) == Format::distance(result, size));
        let slip = Format::distance(sum.value(), total);
        assert(0x100_0000 * slip <= size);
        assert(slip <= (j + 1) * error) by (nonlinear_arith)
            requires
                0x100_0000 * slip <= j * most + off,
                off <= most,
                most == 0x100_0000 * error,
                error > 0,
        ;
        assert(2 * square * error + (j + 1) * error <= 2 * (j * j) * error) by (nonlinear_arith)
            requires
                square == (j - 1) * (j - 1),
                j >= 1,
                error > 0,
        ;
    }
}

/// The mono value of a frame is the mean of its channels: times their number it is
/// the exact sum, up to roundings. `k` bounds the samples; for samples from -1 to 1
/// it is 0.
pub proof fn law_mono_is_the_mean(samples: Seq<Single>, channels: int, frame: int, k: nat)
    requires
        frame_is_moderate(samples, channels, frame, k),
        k <= 40,
        0 < channels <= 1024,
    ensures
        crate::audio::peaks::mono(samples, channels, frame).is_finite(),
        Format::distance(
            channels * crate::audio::peaks::mono(samples, channels, frame).value(),
            exact_sum(samples, channels, frame, channels as nat),
        ) <= 4 * (channels * channels) * Format::Single.error(k),
{
    let format = Format::Single;
    let one = format.one();
    let most = format.most(k);
    let error = format.error(k);
    let c = channels;
    format.lemma_one_bits();
    format.lemma_most(k);
    format.lemma_most(k + 1);
    lemma_sum_off(samples, c, frame, c as nat, k);
    let sum = crate::audio::peaks::channel_sum(samples, c, frame, c as nat);
    let exact = exact_sum(samples, c, frame, c as nat);
    let s = sum.value();
    Single::lemma_count(c);
    let square = c * c;
    assert(c <= square <= 1024 * c) by (nonlinear_arith)
        requires
            square == c * c,
            1 <= c <= 1024,
    ;
    assert(most == 0x100_0000 * error);
    assert(2 * square * error <= c * most) by (nonlinear_arith)
        requires
            square <= 1024 * c,
            most == 0x100_0000 * error,
            error > 0,
            c > 0,
    ;
    assert(Format::distance(s, 0) <= 2 * (c * most));
    assert(c * one > 0 && Format::distance(s * one, 0) <= (c * one) * (2 * most))
        by (nonlinear_arith)
        requires
            Format::distance(s, 0) <= 2 * (c * most),
            c > 0,
            one > 0,
    ;
    sum.lemma_over(Single::of_integer(c), k + 1);
    let m = sum.over(Single::of_integer(c)).value();
    assert(Format::distance(c * m, s) <= c * (2 * error)) by (nonlinear_arith)
        requires
            Format::distance((c * one) * m, s * one) <= (c * one) * (2 * error),
            one > 0,
    ;
    assert(c * (2 * error) + 2 * square * error <= 4 * square * error) by (nonlinear_arith)
        requires
            c <= square,
            error > 0,
    ;
}

/// The mono value of a frame lies between the least and the greatest of its
/// channels, up to roundings.
pub proof fn law_mono_lies_between(
    samples: Seq<Single>,
    channels: int,
    frame: int,
    low: int,
    high: int,
    k: nat,
)
    requires
        frame_is_moderate(samples, channels, frame, k),
        k <= 40,
        0 < channels <= 1024,
        forall|c: int|
            0 <= c < channels ==> low <= (#[trigger] samples[frame * channels + c]).value()
                <= high,
    ensures
        low - 4 * channels * Format::Single.error(k) <= crate::audio::peaks::mono(
            samples,
            channels,
            frame,
        ).value() <= high + 4 * channels * Format::Single.error(k),
{
    let c = channels;
    let error = Format::Single.error(k);
    law_mono_is_the_mean(samples, c, frame, k);
    lemma_sum_between(samples, c, frame, c as nat, low, high);
    let mean = crate::audio::peaks::mono(samples, c, frame).value();
    let exact = exact_sum(samples, c, frame, c as nat);
    let slack = 4 * c * error;
    assert(low - slack <= mean <= high + slack) by (nonlinear_arith)
        requires
            Format::distance(c * mean, exact) <= 4 * (c * c) * error,
            c * low <= exact <= c * high,
            slack == 4 * c * error,
            c > 0,
    ;
}

proof fn lemma_sum_between(
    samples: Seq<Single>,
    channels: int,
    frame: int,
    upto: nat,
    low: int,
    high: int,
)
    requires
        upto <= channels,
        forall|c: int|
            0 <= c < channels ==> low <= (#[trigger] samples[frame * channels + c]).value()
                <= high,
    ensures
        upto * low <= exact_sum(samples, channels, frame, upto) <= upto * high,
    decreases upto,
{
    if upto > 0 {
        lemma_sum_between(samples, channels, frame, (upto - 1) as nat, low, high);
        let sample = samples[frame * channels + (upto - 1)];
        assert(sample == samples[frame * channels + upto - 1]);
        assert(upto * low == (upto - 1) * low + low && upto * high == (upto - 1) * high + high)
            by (nonlinear_arith);
    } else {
        assert(0 * low == 0 && 0 * high == 0);
    }
}

/// One channel is shown as it is, and so are two that hold the same, unless their
/// sum is too large for a number.
pub proof fn law_equal_channels_are_shown_as_they_are(
    samples: Seq<Single>,
    channels: int,
    frame: int,
)
    requires
        channels == 1 || channels == 2,
        samples[frame * channels].is_finite(),
        channels == 2 ==> samples[frame * 2 + 1] == samples[frame * 2] && Format::distance(
            2 * samples[frame * 2].value(),
            0,
        ) < Format::Single.units(Format::Single.infinity()),
    ensures
        crate::audio::peaks::mono(samples, channels, frame).is_finite(),
        crate::audio::peaks::mono(samples, channels, frame).value()
            == samples[frame * channels].value(),
{
    let format = Format::Single;
    let one = format.one();
    let sample = samples[frame * channels];
    let bits = sample.bits as int;
    let magnitude = format.magnitude(bits);
    let units = format.units(magnitude);
    format.lemma_one_bits();
    format.lemma_units_zero();
    format.lemma_value(bits);
    reveal_with_fuel(crate::audio::peaks::channel_sum, 3);
    let first = Single::of(0).plus(sample);
    format.lemma_sum_exact(0, bits, magnitude);
    Single::lemma_count(channels);
    if channels == 1 {
        assert(samples[frame * 1 + 1 - 1] == sample);
        format.lemma_value(first.bits as int);
        assert(format.units(format.magnitude(first.bits as int)) == units);
        assert(units * one == one * units) by (nonlinear_arith);
        format.lemma_quotient_exact(
            first.bits as int,
            Single::of_integer(1).bits as int,
            magnitude,
        );
    } else {
        assert(samples[frame * 2 + 1 - 1] == sample);
        assert(samples[frame * 2 + 2 - 1] == sample);
        format.lemma_doubled(magnitude);
        let double = format.doubled(magnitude);
        if double >= format.infinity() {
            if double > format.infinity() {
                format.lemma_units_increase(format.infinity(), double);
            }
        }
        format.lemma_sum_exact(first.bits as int, bits, double);
        let sum = first.plus(sample);
        format.lemma_value(sum.bits as int);
        assert(format.units(format.magnitude(sum.bits as int)) == 2 * units);
        assert((2 * units) * one == (2 * one) * units) by (nonlinear_arith);
        format.lemma_quotient_exact(
            sum.bits as int,
            Single::of_integer(2).bits as int,
            magnitude,
        );
    }
}

} // verus!
