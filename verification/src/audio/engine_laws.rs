use crate::audio::engine::{AtomicStore, AudioEngine, BufferInfo, PlaybackAtomics, NO_SEEK};
use crate::float::format::Format;
use crate::float::number::{Double, Single, SINGLE_QUARTER, SINGLE_TWO};
use vstd::arithmetic::power2::*;
use vstd::prelude::*;

verus! {

/// A speed from 0.25 to 2 is taken as it is; a lower one becomes 0.25 and a higher
/// one 2.
pub proof fn law_speed_is_taken_as_it_is(speed: Single)
    ensures
        Single::of(SINGLE_QUARTER as int).at_most(speed) && speed.at_most(
            Single::of(SINGLE_TWO as int),
        ) ==> AudioEngine::kept_speed(speed) == speed,
        speed.less(Single::of(SINGLE_QUARTER as int)) ==> AudioEngine::kept_speed(speed).bits
            == SINGLE_QUARTER,
        Single::of(SINGLE_TWO as int).less(speed) ==> AudioEngine::kept_speed(speed).bits
            == SINGLE_TWO,
{
    Format::Single.lemma_units_increase(SINGLE_QUARTER as int, SINGLE_TWO as int);
}

/// A volume from 0 to 2 is taken as it is; a lower one becomes 0 and a higher one 2.
pub proof fn law_volume_is_taken_as_it_is(vol: Single)
    ensures
        Single::of(0).at_most(vol) && vol.at_most(Single::of(SINGLE_TWO as int))
            ==> AudioEngine::kept_volume(vol) == vol,
        vol.less(Single::of(0)) ==> AudioEngine::kept_volume(vol).bits == 0,
        Single::of(SINGLE_TWO as int).less(vol) ==> AudioEngine::kept_volume(vol).bits
            == SINGLE_TWO,
{
    Format::Single.lemma_units_increase(0, SINGLE_TWO as int);
}

/// A seek goes to the frame at the time asked for: seconds times sample rate, up to
/// one rounding.
pub proof fn law_seek_goes_to_the_time(info: BufferInfo, secs: Double, k: nat)
    requires
        secs.is_finite(),
        k <= 60,
        info.total_frames < 0x20_0000_0000_0000,
        0 <= secs.value() * info.sample_rate <= Format::Double.most(k),
        secs.value() * info.sample_rate <= info.total_frames * Format::Double.one(),
    ensures
        Format::distance(
            AudioEngine::seek_frame(info, secs).value(),
            secs.value() * info.sample_rate,
        ) <= Format::Double.error(k),
{
    let one = Format::Double.one();
    let exact = secs.value() * info.sample_rate;
    lemma_pow2_pos(1074);
    Double::lemma_count(info.sample_rate as int);
    Double::lemma_count(info.total_frames as int);
    Format::Double.lemma_most(k);
    Format::Double.lemma_units_zero();
    assert(secs.value() * (info.sample_rate * one) == exact * one && 0 <= exact * one <= one
        * Format::Double.most(k)) by (nonlinear_arith)
        requires
            exact == secs.value() * info.sample_rate,
            0 <= exact <= Format::Double.most(k),
            one > 0,
    ;
    secs.lemma_times(info.rate(), k);
    let product = secs.times(info.rate()).value();
    let error = Format::Double.error(k);
    assert(Format::distance(product, exact) <= error) by (nonlinear_arith)
        requires
            Format::distance(one * product, exact * one) <= one * error,
            one > 0,
    ;
}

/// A seek to before the start goes to the start.
pub proof fn law_seek_before_the_start(info: BufferInfo, secs: Double)
    requires
        secs.less(Double::of(0)),
        secs.is_finite(),
    ensures
        AudioEngine::seek_frame(info, secs).value() == 0,
{
    let format = Format::Double;
    let one = format.one();
    Double::lemma_count(info.sample_rate as int);
    Double::law_of_integer(info.total_frames as int);
    format.lemma_one_bits();
    format.lemma_value(secs.bits as int);
    format.lemma_value(info.rate().bits as int);
    format.lemma_units_zero();
    let x = format.units(format.magnitude(secs.bits as int));
    let y = format.units(format.magnitude(info.rate().bits as int));
    assert(x * y >= 0) by (nonlinear_arith)
        requires
            x >= 0,
            y >= 0,
    ;
    format.lemma_rounded_range(x * y, one);
    let magnitude = format.rounded(x * y, one);
    if magnitude > 0 {
        format.lemma_units_increase(0, magnitude);
    }
}

/// A seek to the end or beyond goes to the end.
pub proof fn law_seek_beyond_the_end(info: BufferInfo, secs: Double)
    requires
        secs.is_finite(),
        Double::of(0).at_most(secs),
        info.total_frames < 0x20_0000_0000_0000,
        secs.value() * info.sample_rate >= info.total_frames * Format::Double.one(),
    ensures
        AudioEngine::seek_frame(info, secs).value() == info.total_frames * Format::Double.one(),
{
    let format = Format::Double;
    let one = format.one();
    let total = info.total_frames as int;
    Double::lemma_count(info.sample_rate as int);
    Double::lemma_count(total);
    format.lemma_one_bits();
    format.lemma_value(secs.bits as int);
    format.lemma_value(info.rate().bits as int);
    format.lemma_units_zero();
    let x = format.units(format.magnitude(secs.bits as int));
    let y = format.units(format.magnitude(info.rate().bits as int));
    let end = format.of_integer(total);
    format.law_short_integers_are_exact(total);
    assert(x * y >= 0 && (total * one) * one >= 0 && ((total * one) * one) * one <= (x * y) * one)
        by (nonlinear_arith)
        requires
            x >= 0,
            y == info.sample_rate * one,
            x * info.sample_rate >= total * one,
            total >= 0,
            one > 0,
    ;
    format.law_rounding_keeps_order((total * one) * one, one, x * y, one);
    assert((total * one) * one == one * (total * one)) by (nonlinear_arith);
    format.lemma_exact((total * one) * one, one, end);
    format.lemma_rounded_range(x * y, one);
    let magnitude = format.rounded(x * y, one);
    if end < magnitude {
        format.lemma_units_increase(end, magnitude);
    }
}

/// An edge of a loop stands at the frame of its time: seconds times sample rate, up
/// to one rounding.
pub proof fn law_loop_edge_stands_at_its_time(info: BufferInfo, secs: Double, k: nat)
    requires
        secs.is_finite(),
        k <= 60,
        info.total_frames < 0x20_0000_0000_0000,
        0 <= secs.value() * info.sample_rate <= Format::Double.most(k),
        secs.value() * info.sample_rate <= info.total_frames * Format::Double.one(),
    ensures
        Format::distance(
            AudioEngine::loop_frame(info, secs).value(),
            secs.value() * info.sample_rate,
        ) <= Format::Double.error(k),
{
    lemma_number_of_frames(info, secs);
    crate::audio::laws::law_seek_meets_loop_start(info, secs);
    law_seek_goes_to_the_time(info, secs, k);
}

/// An edge of a loop outside the file stands at its start or its end.
pub proof fn law_loop_edge_outside_the_file(info: BufferInfo, secs: Double)
    requires
        secs.is_finite(),
        info.total_frames < 0x20_0000_0000_0000,
    ensures
        secs.less(Double::of(0)) ==> AudioEngine::loop_frame(info, secs).value() == 0,
        Double::of(0).at_most(secs) && secs.value() * info.sample_rate >= info.total_frames
            * Format::Double.one() ==> AudioEngine::loop_frame(info, secs).value()
            == info.total_frames * Format::Double.one(),
{
    lemma_number_of_frames(info, secs);
    crate::audio::laws::law_seek_meets_loop_start(info, secs);
    if secs.less(Double::of(0)) {
        law_seek_before_the_start(info, secs);
    } else if secs.value() * info.sample_rate >= info.total_frames * Format::Double.one() {
        law_seek_beyond_the_end(info, secs);
    }
}

proof fn lemma_number_of_frames(info: BufferInfo, secs: Double)
    requires
        secs.is_finite(),
    ensures
        !secs.times(info.rate()).is_nan(),
{
    let format = Format::Double;
    Double::lemma_count(info.sample_rate as int);
    format.lemma_one_bits();
    format.lemma_value(secs.bits as int);
    format.lemma_value(info.rate().bits as int);
    let x = format.units(format.magnitude(secs.bits as int));
    let y = format.units(format.magnitude(info.rate().bits as int));
    assert(x * y >= 0) by (nonlinear_arith)
        requires
            x >= 0,
            y >= 0,
    ;
    format.lemma_rounded_range(x * y, format.one());
}

/// The position is told in seconds: the frame divided by the sample rate of what is
/// loaded, or by 44100 while nothing is, up to one rounding.
pub proof fn law_position_is_told_in_seconds(engine: AudioEngine, rate: int, k: nat)
    requires
        rate == match engine.buffer {
            Some(info) => info.sample_rate as int,
            None => 44100,
        },
        rate > 0,
        k <= 60,
        Double::of(engine.atomics.position as int).is_finite(),
        0 <= Double::of(engine.atomics.position as int).value() <= rate * Format::Double.most(k),
    ensures
        engine.position_secs().is_finite(),
        Format::distance(
            rate * engine.position_secs().value(),
            Double::of(engine.atomics.position as int).value(),
        ) <= rate * Format::Double.error(k),
{
    let one = Format::Double.one();
    let most = Format::Double.most(k);
    let error = Format::Double.error(k);
    let position = Double::of(engine.atomics.position as int);
    let frame = position.value();
    Double::lemma_count(rate);
    lemma_pow2_pos(1074);
    Format::Double.lemma_most(k);
    assert(rate * one > 0 && 0 <= frame * one <= (rate * one) * most) by (nonlinear_arith)
        requires
            0 <= frame <= rate * most,
            rate > 0,
            one > 0,
    ;
    position.lemma_over(Double::of_integer(rate), k);
    let secs = position.over(Double::of_integer(rate)).value();
    assert(Format::distance(rate * secs, frame) <= rate * error) by (nonlinear_arith)
        requires
            Format::distance((rate * one) * secs, frame * one) <= (rate * one) * error,
            one > 0,
    ;
}

/// Loading a file leaves playback stopped at its start, without a seek, and the
/// loop off and over the whole file. Volume and speed stay.
pub proof fn law_loading_starts_afresh(atomics: PlaybackAtomics, total_frames: u64)
    requires
        total_frames < 0x20_0000_0000_0000,
    ensures
        ({
            let loaded = atomics.after(AudioEngine::load_writes(total_frames));
            &&& !loaded.playing
            &&& !loaded.loop_enabled
            &&& Double::of(loaded.position as int).value() == 0
            &&& Double::of(loaded.loop_start as int).value() == 0
            &&& Double::of(loaded.loop_end as int).value() == total_frames * Format::Double.one()
            &&& loaded.seek_to == NO_SEEK
            &&& loaded.volume == atomics.volume
            &&& loaded.speed == atomics.speed
        }),
{
    let writes = AudioEngine::load_writes(total_frames);
    let a = writes.drop_last();
    let b = a.drop_last();
    let c = b.drop_last();
    let d = c.drop_last();
    let e = d.drop_last();
    assert(e.drop_last() =~= Seq::empty());
    reveal_with_fuel(PlaybackAtomics::after, 7);
    Double::lemma_count(total_frames as int);
    Format::Double.lemma_units_zero();
}

/// A write changes the cell it names and no other. Taking a seek clears it where it
/// is still the one that was taken.
pub proof fn law_writes_change_their_own_cell(
    atomics: PlaybackAtomics,
    bits: u64,
    part: u32,
    on: bool,
)
    ensures
        atomics.stored(AtomicStore::Position(bits)) == (PlaybackAtomics {
            position: bits,
            ..atomics
        }),
        atomics.stored(AtomicStore::Playing(on)) == (PlaybackAtomics { playing: on, ..atomics }),
        atomics.stored(AtomicStore::LoopEnabled(on)) == (PlaybackAtomics {
            loop_enabled: on,
            ..atomics
        }),
        atomics.stored(AtomicStore::LoopStart(bits)) == (PlaybackAtomics {
            loop_start: bits,
            ..atomics
        }),
        atomics.stored(AtomicStore::LoopEnd(bits)) == (PlaybackAtomics {
            loop_end: bits,
            ..atomics
        }),
        atomics.stored(AtomicStore::Volume(part)) == (PlaybackAtomics { volume: part, ..atomics }),
        atomics.stored(AtomicStore::Speed(part)) == (PlaybackAtomics { speed: part, ..atomics }),
        atomics.stored(AtomicStore::SeekTo(bits)) == (PlaybackAtomics { seek_to: bits, ..atomics }),
        atomics.stored(AtomicStore::TakeSeek(bits)) == (PlaybackAtomics {
            seek_to: if atomics.seek_to == bits {
                NO_SEEK
            } else {
                atomics.seek_to
            },
            ..atomics
        }),
{
}

/// Writes are carried out in order.
pub proof fn law_writes_are_carried_out_in_order(
    atomics: PlaybackAtomics,
    stores: Seq<AtomicStore>,
    last: AtomicStore,
)
    ensures
        atomics.after(Seq::empty()) == atomics,
        atomics.after(stores.push(last)) == atomics.after(stores).stored(last),
{
    assert(stores.push(last).drop_last() =~= stores);
}

/// While nothing is loaded there is nowhere to seek and nothing to loop.
pub proof fn law_without_a_file_nothing_is_written(enabled: bool, start: Double, end: Double)
    ensures
        AudioEngine::seek_writes(None, start).len() == 0,
        AudioEngine::loop_writes(None, enabled, start, end).len() == 0,
{
}

/// The bounds of speed and volume as numbers.
proof fn lemma_bounds()
    ensures
        4 * Single::of(SINGLE_QUARTER as int).value() == Format::Single.one(),
        Single::of(SINGLE_TWO as int).value() == 2 * Format::Single.one(),
        Single::of(0).value() == 0,
        Single::of(SINGLE_QUARTER as int).is_finite(),
        Single::of(SINGLE_TWO as int).is_finite(),
        Single::of(0).is_finite(),
        Format::Single.one() > 0,
{
    Format::Single.lemma_one_bits();
    Format::Single.lemma_units_zero();
    assert(SINGLE_QUARTER as int / 0x80_0000int == 125 && SINGLE_QUARTER as int % 0x80_0000int
        == 0);
    assert(SINGLE_TWO as int / 0x80_0000int == 128 && SINGLE_TWO as int % 0x80_0000int == 0);
    lemma2_to64();
    lemma_pow2_adds(25, 124);
    lemma_pow2_adds(22, 127);
    let a = pow2(124) as int;
    let b = pow2(127) as int;
    assert(4 * ((0x80_0000 + 0) * a) == 0x200_0000 * a && (0x80_0000 + 0) * b == 2 * (0x40_0000
        * b)) by (nonlinear_arith);
}

/// In numbers: a speed from a quarter to two is kept, one below becomes a quarter,
/// and one above becomes two.
pub proof fn law_speed_is_kept_from_a_quarter_to_two(speed: Single)
    requires
        speed.is_finite(),
    ensures
        ({
            let one = Format::Single.one();
            let kept = AudioEngine::kept_speed(speed);
            &&& one <= 4 * speed.value() && speed.value() <= 2 * one ==> kept == speed
            &&& 4 * speed.value() < one ==> 4 * kept.value() == one
            &&& speed.value() > 2 * one ==> kept.value() == 2 * one
        }),
{
    lemma_bounds();
}

/// In numbers: a volume from nothing to two is kept, one below becomes nothing, and
/// one above becomes two.
pub proof fn law_volume_is_kept_from_zero_to_two(vol: Single)
    requires
        vol.is_finite(),
    ensures
        ({
            let one = Format::Single.one();
            let kept = AudioEngine::kept_volume(vol);
            &&& 0 <= vol.value() <= 2 * one ==> kept == vol
            &&& vol.value() < 0 ==> kept.value() == 0
            &&& vol.value() > 2 * one ==> kept.value() == 2 * one
        }),
{
    lemma_bounds();
}

} // verus!
