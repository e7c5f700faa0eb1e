use crate::audio::callback::Transport;
use crate::audio::engine::{AtomicStore, AudioEngine, BufferInfo, PlaybackAtomics, NO_SEEK};
use crate::audio::peaks::Peak;
use crate::float::format::Format;
use crate::float::number::{
    Double, Single, SINGLE_INFINITY, SINGLE_NEG_INFINITY, SINGLE_QUARTER, SINGLE_TWO,
};
use vstd::arithmetic::div_mod::*;
use vstd::arithmetic::power2::*;
use vstd::prelude::*;

verus! {

/// A requested seek goes to a frame of the file, whatever time is asked for:
/// from the start up to the end, and never to what is not a number.
pub proof fn law_seek_stays_in_file(info: BufferInfo, secs: Double)
    ensures
        !AudioEngine::seek_frame(info, secs).is_nan(),
        Double::of(0).at_most(AudioEngine::seek_frame(info, secs)),
        AudioEngine::seek_frame(info, secs).at_most(info.end()),
{
    Double::law_of_integer(info.total_frames as int);
}

/// A requested seek is pending: no frame is written like the absence of one.
pub proof fn law_seek_is_pending(info: BufferInfo, secs: Double)
    ensures
        AudioEngine::seek_frame(info, secs).bits != NO_SEEK,
{
    law_seek_stays_in_file(info, secs);
}

/// Both edges of a loop lie in the file, for every time that is a number of
/// frames at all.
pub proof fn law_loop_stays_in_file(info: BufferInfo, secs: Double)
    requires
        !secs.times(info.rate()).is_nan(),
    ensures
        Double::of(0).at_most(AudioEngine::loop_frame(info, secs)),
        AudioEngine::loop_frame(info, secs).at_most(info.end()),
{
    Double::law_of_integer(info.total_frames as int);
    secs.times(info.rate()).law_clamped(Double::of(0), info.end());
}

/// A seek to the start of a loop goes to the very frame that the loop starts at.
pub proof fn law_seek_meets_loop_start(info: BufferInfo, secs: Double)
    requires
        !secs.times(info.rate()).is_nan(),
    ensures
        AudioEngine::seek_frame(info, secs) == AudioEngine::loop_frame(info, secs),
{
    Double::law_of_integer(info.total_frames as int);
}

/// Times in order stand for products with the sample rate in order.
proof fn lemma_product_keeps_order(a: Double, b: Double, rate: Double)
    requires
        a.at_most(b),
        a.is_finite(),
        b.is_finite(),
        rate.is_finite(),
        !Format::Double.negative(rate.bits as int),
    ensures
        a.times(rate).at_most(b.times(rate)),
{
    let format = Format::Double;
    let one = format.one();
    let first = format.magnitude(a.bits as int);
    let second = format.magnitude(b.bits as int);
    let factor = format.units(rate.bits as int);
    let units = format.units(first);
    let other = format.units(second);
    lemma_pow2_pos(1074);
    format.lemma_units_zero();
    lemma_units_not_negative(first);
    lemma_units_not_negative(second);
    lemma_units_not_negative(rate.bits as int);
    let num = units * factor;
    let other_num = other * factor;
    assert(num >= 0 && other_num >= 0) by (nonlinear_arith)
        requires
            num == units * factor,
            other_num == other * factor,
            units >= 0,
            other >= 0,
            factor >= 0,
    ;
    format.lemma_rounded_range(num, one);
    format.lemma_rounded_range(other_num, one);
    let result = format.rounded(num, one);
    let other_result = format.rounded(other_num, one);
    lemma_units_not_negative(result);
    lemma_units_not_negative(other_result);
    if units <= other {
        assert(num * one <= other_num * one) by (nonlinear_arith)
            requires
                num == units * factor,
                other_num == other * factor,
                units <= other,
                factor >= 0,
                one > 0,
        ;
        format.law_rounding_keeps_order(num, one, other_num, one);
        if result < other_result {
            format.lemma_units_increase(result, other_result);
        }
    }
    if other <= units {
        assert(other_num * one <= num * one) by (nonlinear_arith)
            requires
                num == units * factor,
                other_num == other * factor,
                other <= units,
                factor >= 0,
                one > 0,
        ;
        format.law_rounding_keeps_order(other_num, one, num, one);
        if other_result < result {
            format.lemma_units_increase(other_result, result);
        }
    }
    format.lemma_rounded_zero(one);
    if units == 0 {
        assert(num == 0) by (nonlinear_arith)
            requires
                num == units * factor,
                units == 0,
        ;
    }
    if other == 0 {
        assert(other_num == 0) by (nonlinear_arith)
            requires
                other_num == other * factor,
                other == 0,
        ;
    }
}

/// The edges of a loop keep their order: a loop whose start is not after its end
/// in seconds is one in frames too.
pub proof fn law_loop_keeps_order(info: BufferInfo, start_secs: Double, end_secs: Double)
    requires
        start_secs.at_most(end_secs),
        start_secs.is_finite(),
        end_secs.is_finite(),
    ensures
        AudioEngine::loop_frame(info, start_secs).at_most(
            AudioEngine::loop_frame(info, end_secs),
        ),
{
    Double::law_of_integer(info.total_frames as int);
    Double::law_of_integer(info.sample_rate as int);
    Format::Double.law_whole_numbers_are_finite(info.sample_rate as int);
    lemma_product_keeps_order(start_secs, end_secs, info.rate());
}

/// The volume stays from 0 to 2.
pub proof fn law_volume_in_range(vol: Single)
    requires
        !vol.is_nan(),
    ensures
        Single::of(0).at_most(AudioEngine::kept_volume(vol)),
        AudioEngine::kept_volume(vol).at_most(Single::of(SINGLE_TWO as int)),
{
    Format::Single.lemma_units_zero();
    Format::Single.lemma_units_increase(0, SINGLE_TWO as int);
    vol.law_clamped(Single::of(0), Single::of(SINGLE_TWO as int));
}

/// The speed stays from 0.25 to 2.
pub proof fn law_speed_in_range(speed: Single)
    requires
        !speed.is_nan(),
    ensures
        Single::of(SINGLE_QUARTER as int).at_most(AudioEngine::kept_speed(speed)),
        AudioEngine::kept_speed(speed).at_most(Single::of(SINGLE_TWO as int)),
{
    Format::Single.lemma_units_increase(SINGLE_QUARTER as int, SINGLE_TWO as int);
    speed.law_clamped(Single::of(SINGLE_QUARTER as int), Single::of(SINGLE_TWO as int));
}

/// The audio callback carries out a pending seek, playing or not: the position
/// is the frame asked for, no seek is pending any more, and nothing else changes.
pub proof fn law_callback_carries_out_seek(atomics: PlaybackAtomics)
    requires
        atomics.seek_to != NO_SEEK,
    ensures
        crate::audio::callback::start_position(atomics).bits == atomics.seek_to,
        atomics.after(crate::audio::callback::seek_stores(atomics)) == (PlaybackAtomics {
            position: atomics.seek_to,
            seek_to: NO_SEEK,
            ..atomics
        }),
{
    reveal_with_fuel(PlaybackAtomics::after, 3);
    let stores = crate::audio::callback::seek_stores(atomics);
    assert(stores.drop_last() =~= seq![AtomicStore::Position(atomics.seek_to)]);
    assert(stores.drop_last().drop_last() =~= Seq::<AtomicStore>::empty());
}

/// A seek may be carried out ahead of the buffer: the buffer starts at the same
/// place, and finds no seek pending.
pub proof fn law_seek_may_be_taken_first(atomics: PlaybackAtomics, info: BufferInfo, out_sr: u32)
    ensures
        ({
            let taken = atomics.after(crate::audio::callback::seek_stores(atomics));
            &&& crate::audio::callback::start_position(taken)
                == crate::audio::callback::start_position(atomics)
            &&& crate::audio::callback::seek_stores(taken) == Seq::<AtomicStore>::empty()
            &&& taken.playing == atomics.playing
            &&& Transport::of(taken, info, out_sr) == Transport::of(atomics, info, out_sr)
        }),
{
    if atomics.seek_to != NO_SEEK {
        law_callback_carries_out_seek(atomics);
    } else {
        law_silence_leaves_cells(atomics);
    }
}

/// A seek asked of the engine is where the next buffer starts.
pub proof fn law_seek_reaches_next_buffer(
    atomics: PlaybackAtomics,
    info: BufferInfo,
    secs: Double,
)
    ensures
        crate::audio::callback::start_position(
            atomics.after(AudioEngine::seek_writes(Some(info), secs)),
        ) == AudioEngine::seek_frame(info, secs),
{
    law_seek_is_pending(info, secs);
    reveal_with_fuel(PlaybackAtomics::after, 2);
}

/// Without a pending seek the callback writes nothing while it is silent.
pub proof fn law_silence_leaves_cells(atomics: PlaybackAtomics)
    requires
        atomics.seek_to == NO_SEEK,
    ensures
        atomics.after(crate::audio::callback::seek_stores(atomics)) == atomics,
{
    reveal_with_fuel(PlaybackAtomics::after, 1);
}

/// Every frame that is played, is played from before the end: of the loop, or of
/// the file.
pub proof fn law_played_frames_lie_before_end(
    atomics: PlaybackAtomics,
    info: BufferInfo,
    out_sr: u32,
    start: Double,
    frames: nat,
    i: nat,
)
    requires
        i < Transport::of(atomics, info, out_sr).played(start, frames),
    ensures
        ({
            let transport = Transport::of(atomics, info, out_sr);
            !transport.end.at_most(transport.settled(transport.position_at(start, i)))
        }),
{
    Transport::of(atomics, info, out_sr).lemma_played(start, frames);
}

/// A loop plays on: no frame is ever left out.
pub proof fn law_loop_never_ends(transport: Transport, start: Double, frames: nat)
    requires
        transport.looping,
    ensures
        transport.played(start, frames) == frames,
    decreases frames,
{
    if frames > 0 {
        law_loop_never_ends(transport, start, (frames - 1) as nat);
    }
}

/// At the end of a loop the next frame is its first.
pub proof fn law_loop_starts_over(
    atomics: PlaybackAtomics,
    info: BufferInfo,
    out_sr: u32,
    position: Double,
)
    requires
        atomics.loop_enabled,
        Double::of(atomics.loop_start as int).less(Double::of(atomics.loop_end as int)),
        Double::of(atomics.loop_end as int).at_most(position),
    ensures
        Transport::of(atomics, info, out_sr).settled(position).bits == atomics.loop_start,
{
}

/// Adding what is not negative gives no less. Negative and positive infinity have
/// no sum.
proof fn lemma_sum_is_no_less(a: Double, b: Double)
    requires
        !a.is_nan(),
        Double::of(0).at_most(b),
        a.is_finite() || b.is_finite() || Double::of(0).at_most(a),
    ensures
        a.at_most(a.plus(b)),
{
    let format = Format::Double;
    let first = a.bits as int;
    let second = b.bits as int;
    let infinity = format.infinity();
    let size = format.magnitude(first);
    format.lemma_units_zero();
    format.lemma_units_increase(0, infinity);
    if size < infinity {
        format.lemma_units_increase(size, infinity);
    }
    lemma_not_negative(second);
    lemma_units_not_negative(size);
    if format.is_finite(first) && format.is_finite(second) {
        let total = format.value(first) + format.value(second);
        let units = format.units(size);
        format.law_rounding_keeps_numbers(size);
        if total > 0 {
            format.lemma_rounded_range(total, 1);
            let result = format.rounded(total, 1);
            lemma_units_not_negative(result);
            if format.value(first) > 0 {
                format.law_rounding_keeps_order(units, 1, total, 1);
                if size < result {
                    format.lemma_units_increase(size, result);
                }
            }
        } else if total < 0 {
            format.lemma_rounded_range(-total, 1);
            let result = format.rounded(-total, 1);
            format.law_rounding_keeps_order(-total, 1, units, 1);
            if result < size {
                format.lemma_units_increase(result, size);
            }
        }
    }
}

/// A pattern of a number that is not below zero has no sign, or is a zero.
proof fn lemma_not_negative(bits: int)
    requires
        0 <= bits < 0x1_0000_0000_0000_0000,
        !Format::Double.is_nan(bits),
        Format::Double.value(bits) >= 0,
    ensures
        Format::Double.negative(bits) ==> Format::Double.magnitude(bits) == 0,
        Format::Double.value(bits) == Format::Double.units(Format::Double.magnitude(bits)),
{
    let format = Format::Double;
    format.lemma_units_zero();
    if format.magnitude(bits) > 0 {
        format.lemma_units_increase(0, format.magnitude(bits));
    }
}

/// What is not below a finite number is finite or positive.
proof fn lemma_above_finite(low: Double, a: Double)
    requires
        low.is_finite(),
        low.at_most(a),
    ensures
        a.is_finite() || Double::of(0).at_most(a),
{
    let format = Format::Double;
    let size = format.magnitude(low.bits as int);
    format.lemma_units_zero();
    format.lemma_units_increase(size, format.infinity());
    lemma_units_not_negative(size);
}

/// While a loop plays, every frame comes from inside it: once the position is not
/// before the start of the loop, all frames are played from the start on and from
/// before the end. A loop from negative infinity at an infinite rate has no next
/// position.
pub proof fn law_loop_plays_its_region(
    atomics: PlaybackAtomics,
    info: BufferInfo,
    out_sr: u32,
    start: Double,
    i: nat,
)
    requires
        Transport::of(atomics, info, out_sr).looping,
        Double::of(0).at_most(Transport::of(atomics, info, out_sr).rate),
        Transport::of(atomics, info, out_sr).loop_start.is_finite() || Transport::of(
            atomics,
            info,
            out_sr,
        ).rate.is_finite(),
        Transport::of(atomics, info, out_sr).loop_start.at_most(start),
    ensures
        ({
            let transport = Transport::of(atomics, info, out_sr);
            let played = transport.settled(transport.position_at(start, i));
            &&& transport.loop_start.at_most(transport.position_at(start, i))
            &&& transport.loop_start.at_most(played)
            &&& played.less(transport.end)
        }),
    decreases i,
{
    let transport = Transport::of(atomics, info, out_sr);
    if i > 0 {
        law_loop_plays_its_region(atomics, info, out_sr, start, (i - 1) as nat);
        let before = transport.settled(transport.position_at(start, (i - 1) as nat));
        if transport.loop_start.is_finite() {
            lemma_above_finite(transport.loop_start, before);
        }
        lemma_sum_is_no_less(before, transport.rate);
    }
}

/// The position never moves backwards, at every speed that can be set.
pub proof fn law_rate_is_not_negative(atomics: PlaybackAtomics, info: BufferInfo, out_sr: u32)
    requires
        Single::of(SINGLE_QUARTER as int).at_most(Single::of(atomics.speed as int)),
        Single::of(atomics.speed as int).at_most(Single::of(SINGLE_TWO as int)),
        out_sr > 0,
    ensures
        Double::of(0).at_most(Transport::of(atomics, info, out_sr).rate),
{
    let wide = Format::Double;
    let narrow = Format::Single;
    let bits = atomics.speed as int;
    let size = narrow.magnitude(bits);
    narrow.lemma_units_zero();
    wide.lemma_units_zero();
    lemma_pow2_pos(149);
    lemma_pow2_pos(1074);
    narrow.lemma_units_increase(0, SINGLE_QUARTER as int);
    narrow.lemma_units_increase(SINGLE_TWO as int, narrow.infinity());
    if size > 0 {
        narrow.lemma_units_increase(0, size);
    }
    let scaled = narrow.units(size) * wide.one();
    assert(scaled >= 0) by (nonlinear_arith)
        requires
            scaled == narrow.units(size) * wide.one(),
            narrow.units(size) >= 0,
            wide.one() > 0,
    ;
    lemma_speed_fits(size);
    let speed = wide.rounded(scaled, narrow.one());
    wide.law_whole_numbers_are_finite(info.sample_rate as int);
    wide.law_whole_numbers_are_finite(out_sr as int);
    let file_rate = wide.of_integer(info.sample_rate as int);
    let out_rate = wide.of_integer(out_sr as int);
    lemma_units_not_negative(speed);
    lemma_units_not_negative(file_rate);
    wide.lemma_units_increase(0, out_rate);
    let product = wide.units(speed) * wide.units(file_rate);
    assert(product >= 0) by (nonlinear_arith)
        requires
            product == wide.units(speed) * wide.units(file_rate),
            wide.units(speed) >= 0,
            wide.units(file_rate) >= 0,
    ;
    wide.lemma_rounded_range(product, wide.one());
    let moved = wide.rounded(product, wide.one());
    lemma_units_not_negative(moved);
    let num = wide.units(moved) * pow2(1074);
    assert(num >= 0) by (nonlinear_arith)
        requires
            num == wide.units(moved) * pow2(1074),
            wide.units(moved) >= 0,
            pow2(1074) > 0,
    ;
    wide.lemma_rounded_range(num, wide.units(out_rate));
    lemma_units_not_negative(wide.rounded(num, wide.units(out_rate)));
    lemma_units_not_negative(wide.infinity());
    assert(!narrow.negative(bits));
    assert(Single::of(bits).widened().bits == speed);
    assert(Single::of(bits).widened().times(info.rate()).bits == moved);
}

/// A speed up to two is a finite number in double precision too.
proof fn lemma_speed_fits(size: int)
    requires
        0 <= size,
        0 <= Format::Single.units(size) <= Format::Single.units(SINGLE_TWO as int),
    ensures
        0 <= Format::Double.rounded(
            Format::Single.units(size) * Format::Double.one(),
            Format::Single.one(),
        ) < Format::Double.infinity(),
{
    let units = Format::Single.units(size);
    let one = Format::Double.one();
    let small = Format::Single.one();
    let high = pow2(1138) as int;
    assert(SINGLE_TWO as int / 0x80_0000int == 128 && SINGLE_TWO as int % 0x80_0000int == 0);
    lemma2_to64();
    lemma_pow2_adds(23, 127);
    lemma_pow2_adds(1, 149);
    lemma_pow2_adds(64, 1074);
    lemma_pow2_pos(149);
    lemma_pow2_pos(1074);
    let num = units * one;
    assert(0 <= num < small * high) by (nonlinear_arith)
        requires
            num == units * one,
            0 <= units <= 2 * small,
            high == pow2(64) * one,
            pow2(64) > 2,
            small > 0,
            one > 0,
    ;
    Format::Double.lemma_rounded_finite(num, small);
}

proof fn lemma_units_not_negative(magnitude: int)
    requires
        0 <= magnitude,
    ensures
        Format::Double.units(magnitude) >= 0,
{
    Format::Double.lemma_units_zero();
    if magnitude > 0 {
        Format::Double.lemma_units_increase(0, magnitude);
    }
}

/// When the file is over, playback is off and back at the start.
pub proof fn law_end_of_file_rewinds(atomics: PlaybackAtomics, reached: u64)
    ensures
        atomics.after(
            crate::audio::callback::seek_stores(atomics) + seq![
                AtomicStore::Position(reached),
                AtomicStore::Playing(false),
                AtomicStore::Position(0),
            ],
        ) == (PlaybackAtomics { position: 0, playing: false, seek_to: NO_SEEK, ..atomics }),
{
    let ending = seq![
        AtomicStore::Position(reached),
        AtomicStore::Playing(false),
        AtomicStore::Position(0),
    ];
    atomics.lemma_after_concat(crate::audio::callback::seek_stores(atomics), ending);
    if atomics.seek_to != NO_SEEK {
        law_callback_carries_out_seek(atomics);
    } else {
        law_silence_leaves_cells(atomics);
    }
    reveal_with_fuel(PlaybackAtomics::after, 4);
    assert(ending.drop_last() =~= ending.take(2));
    assert(ending.take(2).drop_last() =~= ending.take(1));
    assert(ending.take(1).drop_last() =~= ending.take(0));
}

/// While frames last, the position moves to where the buffer ended and nothing
/// else changes.
pub proof fn law_playing_moves_position(atomics: PlaybackAtomics, reached: u64)
    ensures
        atomics.after(
            crate::audio::callback::seek_stores(atomics) + seq![AtomicStore::Position(reached)],
        ) == (PlaybackAtomics { position: reached, seek_to: NO_SEEK, ..atomics }),
{
    let ending = seq![AtomicStore::Position(reached)];
    atomics.lemma_after_concat(crate::audio::callback::seek_stores(atomics), ending);
    if atomics.seek_to != NO_SEEK {
        law_callback_carries_out_seek(atomics);
    } else {
        law_silence_leaves_cells(atomics);
    }
    reveal_with_fuel(PlaybackAtomics::after, 2);
    assert(ending.drop_last() =~= Seq::<AtomicStore>::empty());
}

/// The start is zero seconds, for every sample rate but zero.
pub proof fn law_start_is_zero_seconds(sample_rate: u32)
    requires
        sample_rate > 0,
    ensures
        Double::of(0).over(Double::of_integer(sample_rate as int)) == Double::of(0),
{
    Format::Double.law_whole_numbers_are_finite(sample_rate as int);
    let rate = Format::Double.of_integer(sample_rate as int);
    Format::Double.lemma_units_zero();
    Format::Double.lemma_units_increase(0, rate);
    let den = Format::Double.units(rate);
    Format::Double.lemma_rounded_zero(den);
    let num = Format::Double.units(0) * pow2(Format::Double.scale());
    assert(num == 0) by (nonlinear_arith)
        requires
            num == Format::Double.units(0) * pow2(Format::Double.scale()),
            Format::Double.units(0) == 0,
    ;
}

/// Least and greatest of a stretch of frames: untouched, or in order.
proof fn lemma_range_in_order(samples: Seq<Single>, channels: int, start: int, end: int)
    ensures
        ({
            let low = crate::audio::peaks::lowest(samples, channels, start, end);
            let high = crate::audio::peaks::highest(samples, channels, start, end);
            &&& !low.is_nan()
            &&& !high.is_nan()
            &&& (low.bits == SINGLE_INFINITY && high.bits == SINGLE_NEG_INFINITY) || low.at_most(
                high,
            )
        }),
    decreases end - start,
{
    if start < end {
        lemma_range_in_order(samples, channels, start, end - 1);
        let mono = crate::audio::peaks::mono(samples, channels, end - 1);
        let infinity = SINGLE_INFINITY as int;
        let size = Format::Single.magnitude(mono.bits as int);
        if !mono.is_nan() {
            Format::Single.lemma_units_zero();
            Format::Single.lemma_units_increase(0, infinity);
            if size < infinity {
                Format::Single.lemma_units_increase(size, infinity);
            }
            if size > 0 {
                Format::Single.lemma_units_increase(0, size);
            }
        }
    }
}

/// The lower end of a peak is not above its upper end.
pub proof fn law_peak_is_a_range(samples: Seq<Single>, channels: int, num_peaks: int, i: int)
    ensures
        ({
            let peak: Peak = crate::audio::peaks::peak_at(samples, channels, num_peaks, i);
            peak.min.at_most(peak.max)
        }),
{
    if samples.len() > 0 && channels != 0 {
        let total = samples.len() as int / channels;
        let share = crate::audio::peaks::frames_per_peak(total, num_peaks);
        let start = i * share;
        let end = if (i + 1) * share < total {
            (i + 1) * share
        } else {
            total
        };
        lemma_range_in_order(samples, channels, start, end);
    }
}

/// The length of a file that tells a sample rate is a time: a number that is not
/// negative.
pub proof fn law_duration_is_a_time(total_frames: u64, sample_rate: u32)
    requires
        sample_rate > 0,
    ensures
        ({
            let duration = Double::of_integer(total_frames as int).over(
                Double::of_integer(sample_rate as int),
            );
            !duration.is_nan() && Double::of(0).at_most(duration)
        }),
{
    let format = Format::Double;
    Double::law_of_integer(total_frames as int);
    Double::law_of_integer(sample_rate as int);
    format.law_whole_numbers_are_finite(total_frames as int);
    format.law_whole_numbers_are_finite(sample_rate as int);
    let frames = format.of_integer(total_frames as int);
    let rate = format.of_integer(sample_rate as int);
    format.lemma_units_zero();
    format.lemma_units_increase(0, rate);
    if frames > 0 {
        format.lemma_units_increase(0, frames);
    }
    let one = pow2(1074) as int;
    lemma_pow2_pos(1074);
    let num = format.units(frames) * one;
    assert(num >= 0) by (nonlinear_arith)
        requires
            num == format.units(frames) * one,
            format.units(frames) >= 0,
            one > 0,
    ;
    format.lemma_rounded_range(num, format.units(rate));
    let quotient = format.rounded(num, format.units(rate));
    if quotient > 0 {
        format.lemma_units_increase(0, quotient);
    }
}

/// The peaks leave no frame out, up to the number of frames that a double counts
/// exactly.
pub proof fn law_peaks_cover_every_frame(total: int, num_peaks: int)
    requires
        0 <= total < 0x20_0000_0000_0000,
        total <= usize::MAX,
        0 < num_peaks <= usize::MAX,
    ensures
        num_peaks * crate::audio::peaks::frames_per_peak(total, num_peaks) >= total,
{
    let share = crate::audio::peaks::frames_per_peak(total, num_peaks);
    let format = Format::Double;
    let one = format.one();
    lemma_pow2_pos(1074);
    if num_peaks >= total {
        assert(num_peaks * share >= num_peaks) by (nonlinear_arith)
            requires
                share >= 1,
                num_peaks > 0,
        ;
    } else {
        format.law_short_integers_are_exact(total);
        format.law_short_integers_are_exact(num_peaks);
        lemma_share_is_enough(total, num_peaks);
        let k = total / num_peaks;
        let rest = total % num_peaks;
        lemma_fundamental_div_mod(total, num_peaks);
        lemma_mod_bound(total, num_peaks);
        lemma_div_pos_is_pos(total, num_peaks);
        format.law_whole_numbers_are_finite(total);
        format.law_whole_numbers_are_finite(num_peaks);
        let quotient = format.rounded((total * one) * one, num_peaks * one);
        let units = format.units(quotient);
        lemma_fundamental_div_mod(units, one);
        lemma_mod_bound(units, one);
        let whole = units / one;
        let above = if units % one == 0 {
            whole
        } else {
            whole + 1
        };
        assert(above >= k) by (nonlinear_arith)
            requires
                units == one * whole + units % one,
                0 <= units % one < one,
                above == if units % one == 0 {
                    whole
                } else {
                    whole + 1
                },
                units >= k * one,
                one > 0,
        ;
        if rest > 0 {
            assert(above >= k + 1) by (nonlinear_arith)
                requires
                    units == one * whole + units % one,
                    0 <= units % one < one,
                    above == if units % one == 0 {
                        whole
                    } else {
                        whole + 1
                    },
                    units > k * one,
                    one > 0,
            ;
        }
        if above < usize::MAX {
            assert(num_peaks * share >= total) by (nonlinear_arith)
                requires
                    share >= above,
                    above >= k + (if rest > 0 {
                        1int
                    } else {
                        0
                    }),
                    total == num_peaks * k + rest,
                    0 <= rest < num_peaks,
            ;
        } else {
            assert(num_peaks * share >= total) by (nonlinear_arith)
                requires
                    share >= total,
                    num_peaks >= 1,
                    total >= 0,
            ;
        }
    }
}

/// The rounded quotient of two counts is no less than the whole part of the exact
/// one, and more where the exact one has a fraction.
proof fn lemma_share_is_enough(total: int, n: int)
    requires
        0 < n <= total < 0x20_0000_0000_0000,
    ensures
        ({
            let one = Format::Double.one();
            let quotient = Format::Double.rounded((total * one) * one, n * one);
            &&& 0 <= quotient < Format::Double.infinity()
            &&& Format::Double.units(quotient) >= (total / n) * one
            &&& total % n > 0 ==> Format::Double.units(quotient) > (total / n) * one
        }),
{
    let format = Format::Double;
    let one = format.one();
    let hidden = format.hidden();
    let num = (total * one) * one;
    let den = n * one;
    lemma_pow2_pos(1074);
    lemma2_to64();
    lemma_pow2_adds(64, 1074);
    let high = pow2(1138) as int;
    assert(den > 0 && num >= 0) by (nonlinear_arith)
        requires
            num == (total * one) * one,
            den == n * one,
            n > 0,
            total >= 0,
            one > 0,
    ;
    assert(num < den * high) by (nonlinear_arith)
        requires
            num == (total * one) * one,
            den == n * one,
            n >= 1,
            total < pow2(64),
            high == pow2(64) * one,
            one > 0,
    ;
    format.lemma_rounded_finite(num, den);
    format.lemma_rounded_digits(num, den);
    let step = format.spacing(num, den);
    let power = pow2(step) as int;
    let divisor = den * power;
    let q = Format::nearest_even(num, divisor);
    lemma_pow2_pos(step);
    assert(divisor > 0) by (nonlinear_arith)
        requires
            divisor == den * power,
            den > 0,
            power > 0,
    ;
    Format::lemma_nearest_error(num, divisor);
    let units = q * power;
    let exact = total * one;
    let share = n * power;
    assert(divisor == share * one && num == exact * one && q * divisor == (n * units) * one)
        by (nonlinear_arith)
        requires
            num == (total * one) * one,
            exact == total * one,
            share == n * power,
            units == q * power,
            divisor == den * power,
            den == n * one,
    ;
    assert(2 * (n * units) >= 2 * exact - share) by (nonlinear_arith)
        requires
            2 * ((n * units) * one) >= 2 * (exact * one) - share * one,
            one > 0,
    ;
    // The spacing is small against the exact quotient.
    assert(share < 2 * one) by {
        if step == 0 {
            crate::float::round::lemma_pow2_zero_one();
            crate::float::round::lemma_pow2_monotone(64, 1074);
            assert(n * power == n) by (nonlinear_arith)
                requires
                    power == 1,
            ;
        } else {
            let low = hidden * power;
            assert(exact >= n * low) by (nonlinear_arith)
                requires
                    exact * one >= (n * one) * low,
                    one > 0,
            ;
            assert(n * low == hidden * share) by (nonlinear_arith)
                requires
                    low == hidden * power,
                    share == n * power,
            ;
            assert(share < 2 * one) by (nonlinear_arith)
                requires
                    exact >= hidden * share,
                    exact == total * one,
                    total < 2 * hidden,
                    one > 0,
                    hidden > 0,
            ;
        }
    }
    assert(power <= share) by (nonlinear_arith)
        requires
            share == n * power,
            n >= 1,
            power > 0,
    ;
    if step > 1074 {
        crate::float::round::lemma_pow2_double(1074);
        crate::float::round::lemma_pow2_monotone(1075, step);
    }
    let k = total / n;
    let rest = total % n;
    lemma_fundamental_div_mod(total, n);
    lemma_mod_bound(total, n);
    let more = pow2((1074 - step) as nat) as int;
    lemma_pow2_adds((1074 - step) as nat, step);
    let d = q - k * more;
    assert(units - k * one == d * power) by (nonlinear_arith)
        requires
            units == q * power,
            one == more * power,
            d == q - k * more,
    ;
    assert(n * units - exact + rest * one == share * d) by (nonlinear_arith)
        requires
            units - k * one == d * power,
            exact == total * one,
            total == n * k + rest,
            share == n * power,
    ;
    assert(2 * (share * d) >= 2 * (rest * one) - share);
    if rest > 0 {
        assert(rest * one >= one) by (nonlinear_arith)
            requires
                rest >= 1,
                one > 0,
        ;
        assert(d >= 1) by (nonlinear_arith)
            requires
                share * d > 0,
                share > 0,
        ;
        assert(d * power > 0) by (nonlinear_arith)
            requires
                d >= 1,
                power > 0,
        ;
    } else {
        assert(rest * one == 0) by (nonlinear_arith)
            requires
                rest == 0,
        ;
        assert(d >= 0) by (nonlinear_arith)
            requires
                2 * (share * d) >= -share,
                share > 0,
        ;
        assert(d * power >= 0) by (nonlinear_arith)
            requires
                d >= 0,
                power > 0,
        ;
    }
}

} // verus!
