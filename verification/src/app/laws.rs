use crate::app::pointer::{Pointer, LEAST_LOOP_SECS};
use crate::app::state::{App, LoopControl};
use crate::app::waveform::{Canvas, Shape};
use crate::audio::engine::{AudioEngine, BufferInfo, PlaybackAtomics};
use crate::audio::peaks::Peak;
use crate::float::format::Format;
use crate::float::number::{Double, Single, SINGLE_ONE};
use crate::theme::{Color, Theme};
use vstd::arithmetic::power2::*;
use vstd::prelude::*;

verus! {

/// A click outside the loop switches it off and keeps its region, so that the
/// loop button brings it back as it was.
pub proof fn law_loop_button_undoes_click_outside(control: LoopControl, secs: Double)
    requires
        control.leaves_loop(secs),
    ensures
        !control.with_click(secs).loop_enabled,
        control.with_click(secs).toggled() == control,
{
}

/// The cells follow: after a click outside the loop it is off, and the loop
/// button puts the same region back.
pub proof fn law_loop_button_restores_cells(
    control: LoopControl,
    atomics: PlaybackAtomics,
    info: BufferInfo,
    secs: Double,
)
    requires
        control.leaves_loop(secs),
    ensures
        ({
            let buffer = Some(info);
            let clicked = atomics.after(control.click_writes(buffer, secs));
            let toggled = clicked.after(
                AudioEngine::loop_writes(
                    buffer,
                    true,
                    control.loop_start_secs,
                    control.loop_end_secs,
                ),
            );
            &&& !clicked.loop_enabled
            &&& clicked.seek_to == AudioEngine::seek_frame(info, secs).bits
            &&& toggled == (PlaybackAtomics {
                loop_enabled: true,
                loop_start: AudioEngine::loop_frame(info, control.loop_start_secs).bits,
                loop_end: AudioEngine::loop_frame(info, control.loop_end_secs).bits,
                seek_to: clicked.seek_to,
                ..atomics
            })
        }),
{
    let buffer = Some(info);
    let off = AudioEngine::loop_writes(
        buffer,
        false,
        control.loop_start_secs,
        control.loop_end_secs,
    );
    let seek = AudioEngine::seek_writes(buffer, secs);
    let clicked = atomics.after(off + seek);
    atomics.lemma_after_concat(off, seek);
    lemma_loop_written(atomics, info, false, control.loop_start_secs, control.loop_end_secs);
    reveal_with_fuel(PlaybackAtomics::after, 2);
    assert(seek.drop_last() =~= Seq::empty());
    lemma_loop_written(clicked, info, true, control.loop_start_secs, control.loop_end_secs);
}

/// What setting the loop leaves in the cells.
proof fn lemma_loop_written(
    atomics: PlaybackAtomics,
    info: BufferInfo,
    enabled: bool,
    start: Double,
    end: Double,
)
    ensures
        atomics.after(AudioEngine::loop_writes(Some(info), enabled, start, end)) == (
        PlaybackAtomics {
            loop_enabled: enabled,
            loop_start: AudioEngine::loop_frame(info, start).bits,
            loop_end: AudioEngine::loop_frame(info, end).bits,
            ..atomics
        }),
{
    let writes = AudioEngine::loop_writes(Some(info), enabled, start, end);
    let two = writes.drop_last();
    let one = two.drop_last();
    assert(one.drop_last() =~= Seq::empty());
    reveal_with_fuel(PlaybackAtomics::after, 4);
}

/// A click inside the loop, or while it is off, changes nothing but the position.
pub proof fn law_click_inside_keeps_loop(
    control: LoopControl,
    buffer: Option<BufferInfo>,
    secs: Double,
)
    requires
        !control.leaves_loop(secs),
    ensures
        control.with_click(secs) == control,
        control.click_writes(buffer, secs) == AudioEngine::seek_writes(buffer, secs),
{
}

/// Pressing the loop button twice leaves the loop as it was.
pub proof fn law_toggling_twice_changes_nothing(control: LoopControl)
    ensures
        control.toggled().toggled() == control,
{
}

/// A drag from left to right selects what one from right to left does. The two
/// ends differ as numbers or are the same one.
pub proof fn law_drag_direction_does_not_matter(
    control: LoopControl,
    buffer: Option<BufferInfo>,
    from: Single,
    to: Single,
    duration: Double,
)
    requires
        from.less(to) || to.less(from) || from == to,
    ensures
        ({
            let right = LoopControl {
                drag_start: Some(from),
                drag_current: Some(to),
                ..control
            };
            let left = LoopControl { drag_start: Some(to), drag_current: Some(from), ..control };
            &&& right.with_drag_stopped(duration) == left.with_drag_stopped(duration)
            &&& right.drag_stop_writes(buffer, duration) == left.drag_stop_writes(
                buffer,
                duration,
            )
        }),
{
}

/// After a drag nothing is being dragged, and the loop is either what it was or a
/// region whose start lies before its end.
pub proof fn law_selected_loop_is_not_empty(control: LoopControl, duration: Double)
    ensures
        ({
            let ended = control.with_drag_stopped(duration);
            &&& ended.drag_start is None && ended.drag_current is None
            &&& ended == (LoopControl { drag_start: None, drag_current: None, ..control })
                || ended.loop_enabled && ended.loop_start_secs.less(ended.loop_end_secs)
        }),
{
    match (control.drag_start, control.drag_current) {
        (Some(from), Some(to)) => {
            let start = LoopControl::selected_start(from, to, duration);
            let end = LoopControl::selected_end(from, to, duration);
            if LoopControl::long_enough(start, end) {
                lemma_long_is_positive(start, end);
            }
        },
        _ => {},
    }
}

proof fn lemma_long_is_positive(start: Double, end: Double)
    requires
        LoopControl::long_enough(start, end),
    ensures
        start.less(end),
{
    let format = Format::Double;
    let a = end.bits as int;
    let b = format.negated(start.bits as int);
    format.lemma_units_zero();
    format.lemma_units_increase(0, LEAST_LOOP_SECS as int);
    assert(format.value(b) == -format.value(start.bits as int));
    let sum = format.value(a) + format.value(b);
    if format.is_finite(a) && format.is_finite(b) {
        if sum < 0 {
            format.lemma_rounded_range(-sum, 1);
            let magnitude = format.rounded(-sum, 1);
            if magnitude > 0 {
                format.lemma_units_increase(0, magnitude);
            }
        }
    } else {
        let first = format.magnitude(a);
        let second = format.magnitude(start.bits as int);
        format.lemma_units_increase(0, format.infinity());
        if first < format.infinity() {
            format.lemma_units_increase(first, format.infinity());
        }
        if second < format.infinity() {
            format.lemma_units_increase(second, format.infinity());
        }
    }
}

/// Whether a place of a drag is none or from 0 at the left edge to 1 at the right.
pub open spec fn is_share(place: Option<Single>) -> bool {
    match place {
        Some(share) => Single::of(0).at_most(share) && share.at_most(
            Single::of(SINGLE_ONE as int),
        ),
        None => true,
    }
}

/// Whether both places of a drag are none or from 0 to 1.
pub open spec fn is_normalized(control: LoopControl) -> bool {
    is_share(control.drag_start) && is_share(control.drag_current)
}

/// A drag stays from 0 to 1, wherever the pointer is: what it left behind does, if
/// what it found did. The one exception is a pointer whose place is no number.
pub proof fn law_drag_stays_normalized(
    control: LoopControl,
    buffer: Option<BufferInfo>,
    duration: Double,
    canvas: Canvas,
    pointer: Pointer,
)
    requires
        is_normalized(control),
        pointer.x matches Some(x) ==> !x.minus(canvas.area.left).over(canvas.width).is_nan(),
    ensures
        is_normalized(
            crate::app::pointer::pointer_outcome(control, buffer, duration, canvas, pointer).0,
        ),
{
    Format::Single.lemma_units_zero();
    Format::Single.lemma_units_increase(0, SINGLE_ONE as int);
    if let Some(x) = pointer.x {
        x.minus(canvas.area.left).over(canvas.width).law_clamped(
            Single::of(0),
            Single::of(SINGLE_ONE as int),
        );
    }
}

/// A pointer at a finite place over a finite area with some width has a place in
/// it that is a number.
pub proof fn law_finite_places_are_numbers(canvas: Canvas, x: Single)
    requires
        x.is_finite(),
        canvas.area.left.is_finite(),
        canvas.width.is_finite(),
        Single::of(0).less(canvas.width),
    ensures
        !x.minus(canvas.area.left).over(canvas.width).is_nan(),
{
    let format = Format::Single;
    let a = x.bits as int;
    let b = format.negated(canvas.area.left.bits as int);
    let width = canvas.width.bits as int;
    let sum = format.value(a) + format.value(b);
    format.lemma_units_zero();
    if format.magnitude(width) > 0 {
        format.lemma_units_increase(0, format.magnitude(width));
    }
    if sum < 0 {
        format.lemma_rounded_range(-sum, 1);
    } else {
        format.lemma_rounded_range(sum, 1);
    }
    let place = format.sum(a, b);
    let units = format.units(format.magnitude(place));
    if format.magnitude(place) > 0 {
        format.lemma_units_increase(0, format.magnitude(place));
    }
    let num = units * pow2(149);
    lemma_pow2_pos(149);
    assert(num >= 0) by (nonlinear_arith)
        requires
            num == units * pow2(149),
            units >= 0,
            pow2(149) > 0,
    ;
    format.lemma_rounded_range(num, format.units(format.magnitude(width)));
}

/// The colour of a shape.
pub open spec fn shape_color(shape: Shape) -> Color {
    match shape {
        Shape::Fill { color, .. } => color,
        Shape::Line { stroke, .. } => stroke.color,
        Shape::Outline { stroke, .. } => stroke.color,
        Shape::Message { color, .. } => color,
    }
}

/// Whether a colour is one of a theme.
pub open spec fn has_color(theme: Theme, color: Color) -> bool {
    ||| color == theme.surface
    ||| color == theme.border
    ||| color == theme.text
    ||| color == theme.text_dim
    ||| color == theme.accent
    ||| color == theme.waveform
    ||| color == theme.zero_line
    ||| color == theme.loop_fill
    ||| color == theme.drag_fill
}

/// Everything in the waveform is drawn in a colour of the theme.
pub proof fn law_scene_takes_its_colors_from_the_theme(app: App, canvas: Canvas, i: int)
    requires
        0 <= i < app.scene(canvas).len(),
    ensures
        has_color(app.theme, shape_color(app.scene(canvas)[i])),
{
    if app.audio_duration.at_most(Double::of(0)) {
        lemma_notice_colors(app, canvas, i);
    } else {
        let front = seq![crate::app::waveform::background(app.theme, canvas)];
        let loops = crate::app::waveform::loop_shapes(
            app.theme,
            app.control,
            app.audio_duration,
            canvas,
        );
        let drags = crate::app::waveform::drag_shapes(app.theme, app.control, canvas);
        let peaks = crate::app::waveform::peak_shapes(app.theme, app.waveform_peaks@, canvas);
        let heads = crate::app::waveform::playhead_shapes(
            app.theme,
            app.audio.position_secs(),
            app.audio_duration,
            canvas,
        );
        let back = seq![crate::app::waveform::outline(app.theme, canvas)];
        lemma_loop_colors(app.theme, app.control, app.audio_duration, canvas);
        lemma_drag_colors(app.theme, app.control, canvas);
        lemma_peak_colors(app.theme, app.waveform_peaks@, canvas);
        lemma_head_colors(app.theme, app.audio.position_secs(), app.audio_duration, canvas);
        assert(all_have_colors(app.theme, front));
        assert(all_have_colors(app.theme, back));
        lemma_joined_colors(app.theme, front, loops);
        lemma_joined_colors(app.theme, front + loops, drags);
        lemma_joined_colors(app.theme, front + loops + drags, peaks);
        lemma_joined_colors(app.theme, front + loops + drags + peaks, heads);
        lemma_joined_colors(app.theme, front + loops + drags + peaks + heads, back);
    }
}

/// Whether all shapes have colours of a theme.
spec fn all_have_colors(theme: Theme, shapes: Seq<Shape>) -> bool {
    forall|i: int| 0 <= i < shapes.len() ==> has_color(theme, shape_color(#[trigger] shapes[i]))
}

proof fn lemma_joined_colors(theme: Theme, a: Seq<Shape>, b: Seq<Shape>)
    requires
        all_have_colors(theme, a),
        all_have_colors(theme, b),
    ensures
        all_have_colors(theme, a + b),
{
    assert forall|i: int| 0 <= i < (a + b).len() implies has_color(
        theme,
        shape_color(#[trigger] (a + b)[i]),
    ) by {
        if i < a.len() {
            assert((a + b)[i] == a[i]);
        } else {
            assert((a + b)[i] == b[i - a.len()]);
        }
    }
}

proof fn lemma_notice_colors(app: App, canvas: Canvas, i: int)
    requires
        app.audio_duration.at_most(Double::of(0)),
        0 <= i < app.scene(canvas).len(),
    ensures
        has_color(app.theme, shape_color(app.scene(canvas)[i])),
{
}

proof fn lemma_loop_colors(theme: Theme, control: LoopControl, duration: Double, canvas: Canvas)
    ensures
        all_have_colors(
            theme,
            crate::app::waveform::loop_shapes(theme, control, duration, canvas),
        ),
{
}

proof fn lemma_drag_colors(theme: Theme, control: LoopControl, canvas: Canvas)
    ensures
        all_have_colors(theme, crate::app::waveform::drag_shapes(theme, control, canvas)),
{
}

proof fn lemma_head_colors(theme: Theme, secs: Double, duration: Double, canvas: Canvas)
    ensures
        all_have_colors(
            theme,
            crate::app::waveform::playhead_shapes(theme, secs, duration, canvas),
        ),
{
}

/// The columns and the centre line have colours of the theme.
proof fn lemma_peak_colors(theme: Theme, peaks: Seq<Peak>, canvas: Canvas)
    ensures
        all_have_colors(theme, crate::app::waveform::peak_shapes(theme, peaks, canvas)),
{
    let shapes = crate::app::waveform::peak_shapes(theme, peaks, canvas);
    assert forall|i: int| 0 <= i < shapes.len() implies has_color(
        theme,
        shape_color(#[trigger] shapes[i]),
    ) by {
        if i < canvas.columns() {
            assert(shapes[i] == crate::app::waveform::column_shape(theme, peaks, canvas, i));
        }
    }
}

/// A waveform is drawn from two thousand peaks of the file.
pub proof fn law_waveform_has_two_thousand_peaks(samples: Seq<Single>, channels: int, i: int)
    requires
        0 <= i < 2000,
    ensures
        crate::app::state::drawn_peaks(samples, channels).len() == 2000,
        crate::app::state::drawn_peaks(samples, channels)[i] == crate::audio::peaks::peak_at(
            samples,
            channels,
            2000,
            i,
        ),
{
}

/// What the texts of the window say: the region of a loop by its two times, a line
/// of the browser by a picture and its name, a file being loaded by its name, and a
/// loaded one by its name, duration, sample rate and channels.
pub proof fn law_texts_say_what_they_show(
    control: LoopControl,
    name: Seq<char>,
    duration: Double,
    sample_rate: nat,
    channels: nat,
)
    ensures
        crate::app::controls::region_text(control) == crate::clock::clock_text(
            control.loop_start_secs,
        ) + "  –  "@ + crate::clock::clock_text(control.loop_end_secs),
        crate::app::listing::row_label(name, true) == "📁 "@ + name,
        crate::app::listing::row_label(name, false) == "🎵 "@ + name,
        crate::app::state::loading_text(name) == "Loading "@ + name + "…"@,
        crate::app::state::loaded_text(name, duration, sample_rate, channels) == name
            + "  •  "@ + crate::clock::clock_text(duration) + "  •  "@ + crate::text::decimal(
            sample_rate,
        ) + " Hz  •  "@ + crate::text::decimal(channels) + " ch"@,
{
}

/// The name shown for a file is the one its path ends in, and nothing where it ends
/// in none.
pub proof fn law_shown_name_is_the_file_name(path: Seq<u8>)
    ensures
        match crate::path::file_name(path) {
            Some(name) => crate::path::shown_name(path) == crate::text::shown(name),
            None => crate::path::shown_name(path).len() == 0,
        },
{
}

/// A line of the browser is selected where the selected file has the same
/// components.
pub proof fn law_selection_goes_by_components(app: App, path: Seq<u8>)
    ensures
        match app.selected_file {
            Some(selected) => app.is_selected(path) <==> crate::path::components(selected@)
                == crate::path::components(path),
            None => !app.is_selected(path),
        },
{
}

} // verus!
