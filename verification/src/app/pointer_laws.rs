use crate::app::controls::Button;
use crate::app::pointer::{Pointer, LEAST_LOOP_SECS};
use crate::app::state::{App, LoopControl};
use crate::app::waveform::Canvas;
use crate::audio::engine::{AtomicStore, AudioEngine, BufferInfo, PlaybackAtomics};
use crate::float::format::Format;
use crate::float::number::{Double, Single};
use vstd::arithmetic::power2::*;
use vstd::prelude::*;

verus! {

/// The time of a file at a share of the width.
pub open spec fn time_at(share: Single, duration: Double) -> Double {
    share.widened().times(duration)
}

/// A pointer that did nothing.
pub open spec fn still(x: Option<Single>) -> Pointer {
    Pointer {
        drag_started: false,
        dragged: false,
        drag_stopped: false,
        clicked: false,
        secondary_clicked: false,
        x,
    }
}

/// What a seek leaves in the cells.
proof fn lemma_seek_written(atomics: PlaybackAtomics, info: BufferInfo, secs: Double)
    ensures
        atomics.after(AudioEngine::seek_writes(Some(info), secs)) == (PlaybackAtomics {
            seek_to: AudioEngine::seek_frame(info, secs).bits,
            ..atomics
        }),
{
    let writes = AudioEngine::seek_writes(Some(info), secs);
    assert(writes.drop_last() =~= Seq::empty());
    reveal_with_fuel(PlaybackAtomics::after, 2);
}

/// What setting the loop leaves in the cells.
proof fn lemma_loop_written(
    atomics: PlaybackAtomics,
    info: BufferInfo,
    enabled: bool,
    start: Double,
    end: Double,
)
    ensures
        atomics.after(AudioEngine::loop_writes(Some(info), enabled, start, end)) == (
        PlaybackAtomics {
            loop_enabled: enabled,
            loop_start: AudioEngine::loop_frame(info, start).bits,
            loop_end: AudioEngine::loop_frame(info, end).bits,
            ..atomics
        }),
{
    let writes = AudioEngine::loop_writes(Some(info), enabled, start, end);
    let two = writes.drop_last();
    let one = two.drop_last();
    assert(one.drop_last() =~= Seq::empty());
    reveal_with_fuel(PlaybackAtomics::after, 4);
}

/// A click before an active loop, or at its end or later, switches the loop off, in
/// the control and in the cells, and keeps its region. The time clicked is sought.
pub proof fn law_click_outside_the_loop_leaves_it(
    control: LoopControl,
    atomics: PlaybackAtomics,
    info: BufferInfo,
    duration: Double,
    canvas: Canvas,
    x: Single,
    secs: Double,
)
    requires
        !duration.at_most(Double::of(0)),
        secs == time_at(crate::app::pointer::pointer_share(canvas, x), duration),
        control.loop_enabled,
        secs.less(control.loop_start_secs) || control.loop_end_secs.at_most(secs),
    ensures
        ({
            let outcome = crate::app::pointer::pointer_outcome(
                control,
                Some(info),
                duration,
                canvas,
                Pointer { clicked: true, ..still(Some(x)) },
            );
            let cells = atomics.after(outcome.1);
            &&& outcome.0 == (LoopControl { loop_enabled: false, ..control })
            &&& cells == (PlaybackAtomics {
                loop_enabled: false,
                loop_start: AudioEngine::loop_frame(info, control.loop_start_secs).bits,
                loop_end: AudioEngine::loop_frame(info, control.loop_end_secs).bits,
                seek_to: AudioEngine::seek_frame(info, secs).bits,
                ..atomics
            })
        }),
{
    let off = AudioEngine::loop_writes(
        Some(info),
        false,
        control.loop_start_secs,
        control.loop_end_secs,
    );
    let seek = AudioEngine::seek_writes(Some(info), secs);
    let outcome = crate::app::pointer::pointer_outcome(
        control,
        Some(info),
        duration,
        canvas,
        Pointer { clicked: true, ..still(Some(x)) },
    );
    assert(outcome.1 =~= off + seek);
    atomics.lemma_after_concat(off, seek);
    lemma_loop_written(atomics, info, false, control.loop_start_secs, control.loop_end_secs);
    lemma_seek_written(atomics.after(off), info, secs);
}

/// A click from the start of an active loop up to its end, without the end, leaves
/// the loop on, and so does one while it is off leave it off: only the time clicked
/// is sought.
pub proof fn law_click_inside_the_loop_keeps_it(
    control: LoopControl,
    atomics: PlaybackAtomics,
    info: BufferInfo,
    duration: Double,
    canvas: Canvas,
    x: Single,
    secs: Double,
)
    requires
        !duration.at_most(Double::of(0)),
        secs == time_at(crate::app::pointer::pointer_share(canvas, x), duration),
        !control.loop_enabled || (control.loop_start_secs.at_most(secs) && secs.less(
            control.loop_end_secs,
        )),
    ensures
        ({
            let outcome = crate::app::pointer::pointer_outcome(
                control,
                Some(info),
                duration,
                canvas,
                Pointer { clicked: true, ..still(Some(x)) },
            );
            let cells = atomics.after(outcome.1);
            &&& outcome.0 == control
            &&& cells == (PlaybackAtomics {
                seek_to: AudioEngine::seek_frame(info, secs).bits,
                ..atomics
            })
        }),
{
    let seek = AudioEngine::seek_writes(Some(info), secs);
    let outcome = crate::app::pointer::pointer_outcome(
        control,
        Some(info),
        duration,
        canvas,
        Pointer { clicked: true, ..still(Some(x)) },
    );
    assert(outcome.1 =~= seek);
    lemma_seek_written(atomics, info, secs);
}

/// The other button switches the loop off and lets the cells hold the whole file.
/// The control keeps the region.
pub proof fn law_other_button_clears_the_loop(
    control: LoopControl,
    atomics: PlaybackAtomics,
    info: BufferInfo,
    duration: Double,
    canvas: Canvas,
    x: Option<Single>,
)
    requires
        !duration.at_most(Double::of(0)),
    ensures
        ({
            let outcome = crate::app::pointer::pointer_outcome(
                control,
                Some(info),
                duration,
                canvas,
                Pointer { secondary_clicked: true, ..still(x) },
            );
            &&& outcome.0 == (LoopControl { loop_enabled: false, ..control })
            &&& atomics.after(outcome.1) == (PlaybackAtomics {
                loop_enabled: false,
                loop_start: AudioEngine::loop_frame(info, Double::of(0)).bits,
                loop_end: AudioEngine::loop_frame(info, duration).bits,
                ..atomics
            })
        }),
{
    let off = AudioEngine::loop_writes(Some(info), false, Double::of(0), duration);
    let outcome = crate::app::pointer::pointer_outcome(
        control,
        Some(info),
        duration,
        canvas,
        Pointer { secondary_clicked: true, ..still(x) },
    );
    assert(outcome.1 =~= off);
    lemma_loop_written(atomics, info, false, Double::of(0), duration);
}

/// A drag begins where the pointer is and follows it; nothing is written meanwhile.
pub proof fn law_drag_follows_the_pointer(
    control: LoopControl,
    buffer: Option<BufferInfo>,
    duration: Double,
    canvas: Canvas,
    x: Single,
)
    requires
        !duration.at_most(Double::of(0)),
    ensures
        ({
            let share = crate::app::pointer::pointer_share(canvas, x);
            let begun = crate::app::pointer::pointer_outcome(
                control,
                buffer,
                duration,
                canvas,
                Pointer { drag_started: true, ..still(Some(x)) },
            );
            let moved = crate::app::pointer::pointer_outcome(
                control,
                buffer,
                duration,
                canvas,
                Pointer { dragged: true, ..still(Some(x)) },
            );
            &&& begun.0 == (LoopControl {
                drag_start: Some(share),
                drag_current: Some(share),
                ..control
            })
            &&& begun.1.len() == 0
            &&& moved.0 == (LoopControl { drag_current: Some(share), ..control })
            &&& moved.1.len() == 0
        }),
{
}

/// The end of a drag that is long enough makes its stretch the loop, from the lesser
/// of the two places to the greater, and seeks to the start. One that is not leaves
/// the loop as it was. Either way the drag is over.
pub proof fn law_end_of_a_drag_makes_a_loop(
    control: LoopControl,
    atomics: PlaybackAtomics,
    info: BufferInfo,
    duration: Double,
    canvas: Canvas,
    from: Single,
    to: Single,
    low: Single,
    high: Single,
)
    requires
        !duration.at_most(Double::of(0)),
        control.drag_start == Some(from),
        control.drag_current == Some(to),
        from.at_most(to) && low == from && high == to && (from.less(to) || from == to)
            || to.less(from) && low == to && high == from,
    ensures
        ({
            let outcome = crate::app::pointer::pointer_outcome(
                control,
                Some(info),
                duration,
                canvas,
                Pointer { drag_stopped: true, ..still(None) },
            );
            let start = time_at(low, duration);
            let end = time_at(high, duration);
            let over = LoopControl { drag_start: None, drag_current: None, ..control };
            &&& LoopControl::long_enough(start, end) ==> {
                &&& outcome.0 == (LoopControl {
                    loop_enabled: true,
                    loop_start_secs: start,
                    loop_end_secs: end,
                    ..over
                })
                &&& atomics.after(outcome.1) == (PlaybackAtomics {
                    loop_enabled: true,
                    loop_start: AudioEngine::loop_frame(info, start).bits,
                    loop_end: AudioEngine::loop_frame(info, end).bits,
                    seek_to: AudioEngine::seek_frame(info, start).bits,
                    ..atomics
                })
            }
            &&& !LoopControl::long_enough(start, end) ==> outcome.0 == over && outcome.1.len()
                == 0
        }),
{
    let start = time_at(low, duration);
    let end = time_at(high, duration);
    let outcome = crate::app::pointer::pointer_outcome(
        control,
        Some(info),
        duration,
        canvas,
        Pointer { drag_stopped: true, ..still(None) },
    );
    assert(LoopControl::selected_start(from, to, duration) == start);
    assert(LoopControl::selected_end(from, to, duration) == end);
    if LoopControl::long_enough(start, end) {
        let on = AudioEngine::loop_writes(Some(info), true, start, end);
        let seek = AudioEngine::seek_writes(Some(info), start);
        assert(outcome.1 =~= on + seek);
        atomics.lemma_after_concat(on, seek);
        lemma_loop_written(atomics, info, true, start, end);
        lemma_seek_written(atomics.after(on), info, start);
    }
}

/// A selection becomes a loop where it is longer than a twentieth of a second: one
/// of that length or less does not, and one longer by the least difference does.
pub proof fn law_selection_needs_a_twentieth_of_a_second(start: Double, end: Double)
    requires
        start.is_finite(),
        end.is_finite(),
    ensures
        Format::distance(
            20 * Double::of(LEAST_LOOP_SECS as int).value(),
            Format::Double.one(),
        ) <= Format::Double.error(0),
        end.value() - start.value() <= Double::of(LEAST_LOOP_SECS as int).value()
            ==> !LoopControl::long_enough(start, end),
        end.value() - start.value() >= Double::of(LEAST_LOOP_SECS as int + 1).value()
            ==> LoopControl::long_enough(start, end),
{
    let format = Format::Double;
    let least = LEAST_LOOP_SECS as int;
    lemma_twentieth();
    format.lemma_value(start.bits as int);
    let opposite = format.negated(start.bits as int);
    let total = format.value(end.bits as int) + format.value(opposite);
    format.lemma_units_zero();
    format.lemma_units_increase(0, least);
    format.lemma_units_increase(least, least + 1);
    format.lemma_sum_parts(end.bits as int, opposite);
    format.lemma_sum_order(end.bits as int, end.bits as int, opposite);
    if total > 0 {
        format.law_rounding_keeps_numbers(least);
        format.law_rounding_keeps_numbers(least + 1);
        format.lemma_rounded_range(total, 1);
        let result = format.rounded(total, 1);
        if total <= format.units(least) {
            format.law_rounding_keeps_order(total, 1, format.units(least), 1);
            if result < least {
                format.lemma_units_increase(result, least);
            }
        }
        if total >= format.units(least + 1) {
            format.law_rounding_keeps_order(format.units(least + 1), 1, total, 1);
            if least + 1 < result {
                format.lemma_units_increase(least + 1, result);
            }
        }
    } else if total < 0 {
        format.lemma_rounded_range(-total, 1);
        let result = format.rounded(-total, 1);
        if result > 0 {
            format.lemma_units_increase(0, result);
        }
    }
}

/// The least length of a loop is a twentieth of a second.
proof fn lemma_twentieth()
    ensures
        Format::distance(
            20 * Double::of(LEAST_LOOP_SECS as int).value(),
            Format::Double.one(),
        ) <= Format::Double.error(0),
{
    assert(LEAST_LOOP_SECS as int / 0x10_0000_0000_0000int == 1018 && LEAST_LOOP_SECS as int
        % 0x10_0000_0000_0000int == 0x9_9999_9999_999aint);
    lemma2_to64();
    lemma2_to64_rest();
    lemma_pow2_adds(57, 1017);
    lemma_pow2_adds(4, 1017);
    lemma_pow2_pos(1017);
    let power = pow2(1017) as int;
    assert((0x10_0000_0000_0000int + 0x9_9999_9999_999aint) * power == 0x19_9999_9999_999aint
        * power) by (nonlinear_arith);
    assert(pow2(57) == 0x200_0000_0000_0000);
    assert(pow2(4) == 16);
}

/// While nothing is loaded the pointer does nothing.
pub proof fn law_pointer_needs_a_file(
    control: LoopControl,
    buffer: Option<BufferInfo>,
    duration: Double,
    canvas: Canvas,
    pointer: Pointer,
)
    requires
        duration.at_most(Double::of(0)),
    ensures
        ({
            let outcome = crate::app::pointer::pointer_outcome(
                control,
                buffer,
                duration,
                canvas,
                pointer,
            );
            outcome.0 == control && outcome.1.len() == 0
        }),
{
}

/// The pointer stands for its share of the width: how far it is from the left edge,
/// divided by the width, up to roundings. `k` bounds the measures.
pub proof fn law_pointer_share_is_to_scale(canvas: Canvas, x: Single, k: nat)
    requires
        x.is_finite(),
        canvas.area.left.is_finite(),
        canvas.width.is_finite(),
        k <= 40,
        canvas.width.value() <= Format::Single.most(k),
        canvas.width.value() >= 2 * Format::Single.error(k),
        0 <= x.value() - canvas.area.left.value() <= canvas.width.value(),
    ensures
        ({
            let share = crate::app::pointer::pointer_share(canvas, x);
            let one = Format::Single.one();
            &&& share.is_finite()
            &&& 0 <= share.value() <= one
            &&& Format::distance(
                canvas.width.value() * share.value(),
                (x.value() - canvas.area.left.value()) * one,
            ) <= 4 * (one * Format::Single.error(k))
        }),
{
    let format = Format::Single;
    let one = format.one();
    let most = format.most(k);
    let error = format.error(k);
    let small = format.error(0);
    let w = canvas.width.value();
    let exact = x.value() - canvas.area.left.value();
    format.lemma_one_bits();
    format.lemma_units_zero();
    format.lemma_most(0);
    format.lemma_most(1);
    format.lemma_most(k);
    lemma_pow2_adds(k, 149);
    lemma_pow2_adds(k, 125);
    lemma_pow2_pos(k);
    let times = pow2(k) as int;
    x.lemma_minus(canvas.area.left, k);
    let gap = x.minus(canvas.area.left);
    let d = gap.value();
    assert(Format::distance(d * one, 0) <= w * (2 * one)) by (nonlinear_arith)
        requires
            Format::distance(d, exact) <= error,
            0 <= exact <= w,
            2 * error <= w,
            one > 0,
    ;
    gap.lemma_over(canvas.width, 1);
    let place = gap.over(canvas.width);
    let q = place.value();
    assert(w * small <= one * error) by (nonlinear_arith)
        requires
            w <= times * one,
            error == times * small,
            small > 0,
    ;
    assert(Format::distance(d * one, exact * one) <= one * error) by (nonlinear_arith)
        requires
            Format::distance(d, exact) <= error,
            one > 0,
    ;
    assert(w * (2 * small) == 2 * (w * small)) by (nonlinear_arith);
    let share = crate::app::pointer::pointer_share(canvas, x);
    // Keeping it from 0 to 1 brings it nearer.
    assert(0 <= exact * one <= w * one) by (nonlinear_arith)
        requires
            0 <= exact <= w,
            one > 0,
    ;
    if q < 0 {
        assert(w * q <= 0 && w * 0 == 0) by (nonlinear_arith)
            requires
                w > 0,
                q < 0,
        ;
    } else if q > one {
        assert(w * one <= w * q) by (nonlinear_arith)
            requires
                w > 0,
                q > one,
        ;
    }
}

/// Left of the area the pointer stands for 0, and right of it for 1.
pub proof fn law_pointer_outside_stands_for_the_edge(canvas: Canvas, x: Single, k: nat)
    requires
        x.is_finite(),
        canvas.area.left.is_finite(),
        canvas.width.is_finite(),
        canvas.width.value() > 0,
        k <= 40,
        Format::distance(x.value(), canvas.area.left.value()) <= Format::Single.most(k),
    ensures
        x.value() <= canvas.area.left.value() ==> crate::app::pointer::pointer_share(
            canvas,
            x,
        ).value() == 0,
        x.value() - canvas.area.left.value() >= canvas.width.value()
            ==> crate::app::pointer::pointer_share(canvas, x).value() == Format::Single.one(),
{
    let format = Format::Single;
    let one = format.one();
    let w = canvas.width.value();
    let exact = x.value() - canvas.area.left.value();
    let left = canvas.area.left.bits as int;
    format.lemma_one_bits();
    format.lemma_units_zero();
    format.lemma_value(left);
    format.lemma_value(canvas.width.bits as int);
    x.lemma_minus(canvas.area.left, k);
    let gap = x.minus(canvas.area.left);
    let d = gap.value();
    format.lemma_sum_parts(x.bits as int, format.negated(left));
    let size = format.magnitude(gap.bits as int);
    format.lemma_value(gap.bits as int);
    let place = gap.over(canvas.width);
    let num = format.units(size) * one;
    assert(num >= 0) by (nonlinear_arith)
        requires
            num == format.units(size) * one,
            format.units(size) >= 0,
            one > 0,
    ;
    format.lemma_rounded_range(num, w);
    let result = format.rounded(num, w);
    if result > 0 {
        format.lemma_units_increase(0, result);
    }
    if exact <= 0 {
        format.lemma_rounded_range(-exact, 1);
        let below = format.rounded(-exact, 1);
        if below > 0 {
            format.lemma_units_increase(0, below);
        }
        format.lemma_rounded_zero(1);
        assert(d <= 0);
        if d == 0 {
            assert(num == 0) by (nonlinear_arith)
                requires
                    num == format.units(size) * one,
                    format.units(size) == 0,
            ;
            format.lemma_rounded_zero(w);
        }
        assert(place.value() <= 0);
    } else if exact >= w {
        format.law_rounding_keeps_numbers(format.magnitude(canvas.width.bits as int));
        format.law_rounding_keeps_order(w, 1, exact, 1);
        format.lemma_rounded_range(exact, 1);
        let moved = format.rounded(exact, 1);
        let width = format.magnitude(canvas.width.bits as int);
        if width < moved {
            format.lemma_units_increase(width, moved);
        }
        assert(d >= w);
        assert(one * w <= num * 1) by (nonlinear_arith)
            requires
                num == d * one,
                d >= w,
                one > 0,
        ;
        format.law_rounding_keeps_numbers(format.one_bits());
        format.law_rounding_keeps_order(one, 1, num, w);
        if format.one_bits() < result {
            format.lemma_units_increase(format.one_bits(), result);
        }
        assert(place.value() >= one);
    }
}

/// The time at a share of the width is that share of the duration, up to one
/// rounding. `k` bounds the duration.
pub proof fn law_time_is_its_share_of_the_duration(share: Single, duration: Double, k: nat)
    requires
        share.is_finite(),
        0 <= share.value() <= Format::Single.one(),
        duration.is_finite(),
        0 <= duration.value() <= Format::Double.most(k),
        k <= 60,
    ensures
        time_at(share, duration).is_finite(),
        Format::distance(
            Format::Single.one() * time_at(share, duration).value(),
            share.value() * duration.value(),
        ) <= Format::Single.one() * Format::Double.error(k),
{
    let one = Format::Single.one();
    let big = Format::Double.one();
    let most = Format::Double.most(k);
    let error = Format::Double.error(k);
    Format::Single.lemma_one_bits();
    Format::Single.lemma_most(60);
    Format::Double.lemma_one_bits();
    Format::Double.lemma_most(k);
    crate::audio::playback_laws::lemma_widened(share);
    let s = share.value();
    let v = share.widened().value();
    let d = duration.value();
    assert(0 <= v <= big) by (nonlinear_arith)
        requires
            one * v == s * big,
            0 <= s <= one,
            one > 0,
            big > 0,
    ;
    assert(0 <= v * d <= big * most) by (nonlinear_arith)
        requires
            0 <= v <= big,
            0 <= d <= most,
    ;
    share.widened().lemma_times(duration, k);
    let t = time_at(share, duration).value();
    assert(one * (v * d) == big * (s * d)) by (nonlinear_arith)
        requires
            one * v == s * big,
    ;
    assert(Format::distance(one * (big * t), one * (v * d)) <= one * (big * error))
        by (nonlinear_arith)
        requires
            Format::distance(big * t, v * d) <= big * error,
            one > 0,
    ;
    assert(one * (big * t) == big * (one * t) && one * (big * error) == big * (one * error))
        by (nonlinear_arith);
    assert(Format::distance(one * t, s * d) <= one * error) by (nonlinear_arith)
        requires
            Format::distance(big * (one * t), big * (s * d)) <= big * (one * error),
            big > 0,
    ;
}

/// What the buttons do to the cells: the first plays what is paused and pauses what
/// plays, without moving; the second stops and goes back to the start; the third
/// switches the loop and puts its region in.
pub proof fn law_buttons_do_what_they_say(
    app: App,
    atomics: PlaybackAtomics,
    info: BufferInfo,
    was_playing: bool,
)
    requires
        app.audio.buffer == Some(info),
    ensures
        atomics.after(app.button_writes(Button::PlayPause, was_playing)) == (PlaybackAtomics {
            playing: !was_playing,
            ..atomics
        }),
        atomics.after(app.button_writes(Button::Stop, was_playing)) == (PlaybackAtomics {
            playing: false,
            position: 0,
            ..atomics
        }),
        atomics.after(app.button_writes(Button::Loop, was_playing)) == (PlaybackAtomics {
            loop_enabled: !app.control.loop_enabled,
            loop_start: AudioEngine::loop_frame(info, app.control.loop_start_secs).bits,
            loop_end: AudioEngine::loop_frame(info, app.control.loop_end_secs).bits,
            ..atomics
        }),
        app.control.toggled() == (LoopControl {
            loop_enabled: !app.control.loop_enabled,
            ..app.control
        }),
{
    reveal_with_fuel(PlaybackAtomics::after, 3);
    let play = app.button_writes(Button::PlayPause, was_playing);
    assert(play.drop_last() =~= Seq::<AtomicStore>::empty());
    let stop = app.button_writes(Button::Stop, was_playing);
    assert(stop.drop_last().drop_last() =~= Seq::<AtomicStore>::empty());
    lemma_loop_written(
        atomics,
        info,
        !app.control.loop_enabled,
        app.control.loop_start_secs,
        app.control.loop_end_secs,
    );
}

/// The buttons can be pressed while a file with some length is loaded and no other
/// is being loaded.
pub proof fn law_buttons_need_a_file(app: App)
    requires
        !app.audio_duration.is_nan(),
    ensures
        app.playable() <==> app.audio_duration.value() > 0 && !app.is_loading,
{
    Format::Double.lemma_units_zero();
}

/// Events that come together are handled one after the other: the beginning of a
/// drag, its movement, its end, a click, and a click with the other button.
pub proof fn law_events_are_handled_in_turn(
    control: LoopControl,
    buffer: Option<BufferInfo>,
    duration: Double,
    canvas: Canvas,
    pointer: Pointer,
)
    ensures
        ({
            let quiet = still(pointer.x);
            let a = crate::app::pointer::pointer_outcome(
                control,
                buffer,
                duration,
                canvas,
                Pointer { drag_started: pointer.drag_started, ..quiet },
            );
            let b = crate::app::pointer::pointer_outcome(
                a.0,
                buffer,
                duration,
                canvas,
                Pointer { dragged: pointer.dragged, ..quiet },
            );
            let c = crate::app::pointer::pointer_outcome(
                b.0,
                buffer,
                duration,
                canvas,
                Pointer { drag_stopped: pointer.drag_stopped, ..quiet },
            );
            let d = crate::app::pointer::pointer_outcome(
                c.0,
                buffer,
                duration,
                canvas,
                Pointer { clicked: pointer.clicked, ..quiet },
            );
            let e = crate::app::pointer::pointer_outcome(
                d.0,
                buffer,
                duration,
                canvas,
                Pointer { secondary_clicked: pointer.secondary_clicked, ..quiet },
            );
            let all = crate::app::pointer::pointer_outcome(
                control,
                buffer,
                duration,
                canvas,
                pointer,
            );
            &&& all.0 == e.0
            &&& all.1 == a.1 + b.1 + c.1 + d.1 + e.1
        }),
{
    let quiet = still(pointer.x);
    let a = crate::app::pointer::pointer_outcome(
        control,
        buffer,
        duration,
        canvas,
        Pointer { drag_started: pointer.drag_started, ..quiet },
    );
    let b = crate::app::pointer::pointer_outcome(
        a.0,
        buffer,
        duration,
        canvas,
        Pointer { dragged: pointer.dragged, ..quiet },
    );
    let c = crate::app::pointer::pointer_outcome(
        b.0,
        buffer,
        duration,
        canvas,
        Pointer { drag_stopped: pointer.drag_stopped, ..quiet },
    );
    let d = crate::app::pointer::pointer_outcome(
        c.0,
        buffer,
        duration,
        canvas,
        Pointer { clicked: pointer.clicked, ..quiet },
    );
    let e = crate::app::pointer::pointer_outcome(
        d.0,
        buffer,
        duration,
        canvas,
        Pointer { secondary_clicked: pointer.secondary_clicked, ..quiet },
    );
    let all = crate::app::pointer::pointer_outcome(control, buffer, duration, canvas, pointer);
    assert(all.1 =~= a.1 + b.1 + c.1 + d.1 + e.1);
}

/// A pointer that did nothing changes nothing, and neither does a drag or a click
/// whose place is not known.
pub proof fn law_pointer_at_rest_changes_nothing(
    control: LoopControl,
    buffer: Option<BufferInfo>,
    duration: Double,
    canvas: Canvas,
    pointer: Pointer,
)
    requires
        !pointer.drag_stopped,
        !pointer.secondary_clicked,
        pointer.x is None || !pointer.drag_started && !pointer.dragged && !pointer.clicked,
    ensures
        ({
            let outcome = crate::app::pointer::pointer_outcome(
                control,
                buffer,
                duration,
                canvas,
                pointer,
            );
            outcome.0 == control && outcome.1.len() == 0
        }),
{
}

} // verus!
