use crate::app::state::{App, LoopControl};
use crate::audio::peaks::Peak;
use crate::float::number::{Double, Single, DOUBLE_ONE, SINGLE_HALF, SINGLE_ONE, SINGLE_TWO};
use crate::theme::{Color, Stroke, Theme};
use vstd::prelude::*;

verus! {

/// The height left for the controls below the waveform: 160.
pub const CONTROLS_HEIGHT: u32 = 0x4320_0000;

/// The least height of the waveform: 120.
pub const LEAST_HEIGHT: u32 = 0x42f0_0000;

/// How much the corners of the waveform are rounded: 4.
pub const CORNER: u32 = 0x4080_0000;

/// The size of the text in an empty waveform: 15.
pub const NOTICE_SIZE: u32 = 0x4170_0000;

/// The share of the height that a full peak takes on each side: 0.44.
pub const PEAK_SHARE: u32 = 0x3ee1_47ae;

#[derive(Clone, Copy, Debug, PartialEq, Eq, Structural)]
pub struct Point {
    pub x: Single,
    pub y: Single,
}

#[derive(Clone, Copy, Debug, PartialEq, Eq, Structural)]
pub struct Area {
    pub left: Single,
    pub top: Single,
    pub right: Single,
    pub bottom: Single,
}

/// Where the waveform is drawn: an area and its measures.
#[derive(Clone, Copy, Debug, PartialEq, Eq, Structural)]
pub struct Canvas {
    pub area: Area,
    pub width: Single,
    pub height: Single,
    pub center: Point,
}

/// What is written in an empty waveform.
#[derive(Clone, Copy, Debug, PartialEq, Eq, Structural)]
pub enum Notice {
    Loading,
    NoFile,
}

impl Notice {
    pub fn text(self) -> (r: String)
        ensures
            r@ == match self {
                Notice::Loading => "Loading…"@,
                Notice::NoFile => "No file loaded"@,
            },
    {
        match self {
            Notice::Loading => "Loading…".to_owned(),
            Notice::NoFile => "No file loaded".to_owned(),
        }
    }
}

/// Something to draw.
#[derive(Clone, Copy, Debug, PartialEq, Eq, Structural)]
pub enum Shape {
    Fill { area: Area, rounding: Single, color: Color },
    Line { from: Point, to: Point, stroke: Stroke },
    Outline { area: Area, rounding: Single, stroke: Stroke },
    Message { at: Point, notice: Notice, size: Single, color: Color },
}

impl Canvas {
    /// The place across of a share of the width.
    pub open spec fn across(self, share: Single) -> Single {
        self.area.left.plus(share.times(self.width))
    }

    /// The place across of a time.
    pub open spec fn at_time(self, secs: Double, duration: Double) -> Single {
        self.across(secs.over(duration).narrowed())
    }

    /// A line from top to bottom.
    pub open spec fn upright(self, x: Single, stroke: Stroke) -> Shape {
        Shape::Line {
            from: Point { x, y: self.area.top },
            to: Point { x, y: self.area.bottom },
            stroke,
        }
    }

    /// A stretch from top to bottom.
    pub open spec fn band(self, x0: Single, x1: Single, color: Color) -> Shape {
        Shape::Fill {
            area: Area { left: x0, top: self.area.top, right: x1, bottom: self.area.bottom },
            rounding: Single::of(0),
            color,
        }
    }

    /// How many columns the waveform has: one per unit of width.
    pub open spec fn columns(self) -> int {
        let whole = self.width.whole(usize::MAX as int);
        if whole < 1 {
            1
        } else {
            whole
        }
    }

    fn place(&self, share: Single) -> (r: Single)
        ensures
            r == self.across(share),
    {
        self.area.left.add(share.mul(self.width))
    }

    fn upright_line(&self, x: Single, stroke: Stroke) -> (r: Shape)
        ensures
            r == self.upright(x, stroke),
    {
        Shape::Line {
            from: Point { x, y: self.area.top },
            to: Point { x, y: self.area.bottom },
            stroke,
        }
    }

    fn full_band(&self, x0: Single, x1: Single, color: Color) -> (r: Shape)
        ensures
            r == self.band(x0, x1, color),
    {
        Shape::Fill {
            area: Area { left: x0, top: self.area.top, right: x1, bottom: self.area.bottom },
            rounding: Single { bits: 0 },
            color,
        }
    }
}

/// The background of the waveform.
pub open spec fn background(theme: Theme, canvas: Canvas) -> Shape {
    Shape::Fill {
        area: canvas.area,
        rounding: Single::of(CORNER as int),
        color: theme.surface,
    }
}

/// The border of the waveform.
pub open spec fn outline(theme: Theme, canvas: Canvas) -> Shape {
    Shape::Outline {
        area: canvas.area,
        rounding: Single::of(CORNER as int),
        stroke: Stroke::thin(theme.border),
    }
}

/// The loop region and its two edges.
pub open spec fn loop_shapes(
    theme: Theme,
    control: LoopControl,
    duration: Double,
    canvas: Canvas,
) -> Seq<Shape> {
    if control.loop_enabled && control.loop_start_secs.less(control.loop_end_secs) {
        let x0 = canvas.at_time(control.loop_start_secs, duration);
        let x1 = canvas.at_time(control.loop_end_secs, duration);
        let edge = Stroke { width: Single::of(SINGLE_TWO as int), color: theme.accent };
        seq![
            canvas.band(x0, x1, theme.loop_fill),
            canvas.upright(x0, edge),
            canvas.upright(x1, edge),
        ]
    } else {
        seq![]
    }
}

/// The selection being dragged.
pub open spec fn drag_shapes(theme: Theme, control: LoopControl, canvas: Canvas) -> Seq<Shape> {
    match (control.drag_start, control.drag_current) {
        (Some(start), Some(current)) => seq![
            canvas.band(
                canvas.across(start.lesser(current)),
                canvas.across(start.greater(current)),
                theme.drag_fill,
            ),
        ],
        _ => seq![],
    }
}

/// Which peak a column shows.
pub open spec fn column_peak(peaks: Seq<Peak>, canvas: Canvas, column: int) -> Peak {
    let share = Single::of_integer(column).over(Single::of_integer(canvas.columns()));
    let index = share.times(Single::of_integer(peaks.len() as int)).whole(usize::MAX as int);
    peaks[if index < peaks.len() - 1 { index } else { peaks.len() - 1 }]
}

/// One column of the waveform.
pub open spec fn column_shape(
    theme: Theme,
    peaks: Seq<Peak>,
    canvas: Canvas,
    column: int,
) -> Shape {
    let peak = column_peak(peaks, canvas, column);
    let zero = Single::of(0);
    let one = Single::of(SINGLE_ONE as int);
    let reach = canvas.height.times(Single::of(PEAK_SHARE as int));
    let x = canvas.area.left.plus(Single::of_integer(column)).plus(Single::of(SINGLE_HALF as int));
    Shape::Line {
        from: Point {
            x,
            y: canvas.center.y.minus(peak.max.clamped(zero, one).times(reach)).greater(
                canvas.area.top,
            ),
        },
        to: Point {
            x,
            y: canvas.center.y.plus(peak.min.opposite().clamped(zero, one).times(reach)).lesser(
                canvas.area.bottom,
            ),
        },
        stroke: Stroke::thin(theme.waveform),
    }
}

/// The columns of the waveform and the line through its middle.
pub open spec fn peak_shapes(theme: Theme, peaks: Seq<Peak>, canvas: Canvas) -> Seq<Shape> {
    if peaks.len() == 0 {
        seq![]
    } else {
        Seq::new(
            canvas.columns() as nat,
            |column: int| column_shape(theme, peaks, canvas, column),
        ).push(
            Shape::Line {
                from: Point { x: canvas.area.left, y: canvas.center.y },
                to: Point { x: canvas.area.right, y: canvas.center.y },
                stroke: Stroke::thin(theme.zero_line),
            },
        )
    }
}

/// The line at the current position.
pub open spec fn playhead_shapes(
    theme: Theme,
    position_secs: Double,
    duration: Double,
    canvas: Canvas,
) -> Seq<Shape> {
    if Double::of(0).less(duration) {
        let share = position_secs.over(duration).clamped(
            Double::of(0),
            Double::of(DOUBLE_ONE as int),
        ).narrowed();
        seq![
            canvas.upright(
                canvas.across(share),
                Stroke { width: Single::of(SINGLE_TWO as int), color: theme.text },
            ),
        ]
    } else {
        seq![]
    }
}

/// The height that the waveform takes of a given height.
pub open spec fn height_in(available: Single) -> Single {
    available.minus(Single::of(CONTROLS_HEIGHT as int)).greater(Single::of(LEAST_HEIGHT as int))
}

/// The height of the waveform in a given height.
pub fn waveform_height(available: Single) -> (r: Single)
    ensures
        r == height_in(available),
{
    available.sub(Single { bits: CONTROLS_HEIGHT }).max(Single { bits: LEAST_HEIGHT })
}

fn column_line(
    theme: &Theme,
    peaks: &Vec<Peak>,
    canvas: &Canvas,
    column: usize,
    columns: usize,
) -> (r: Shape)
    requires
        peaks@.len() > 0,
        columns == canvas.columns(),
    ensures
        r == column_shape(*theme, peaks@, *canvas, column as int),
{
    let zero: Single = Single { bits: 0 };
    let one: Single = Single { bits: SINGLE_ONE };
    let n: usize = peaks.len();
    let share: Single = Single::from_integer(column as u64).div(
        Single::from_integer(columns as u64),
    );
    let found: usize = share.mul(Single::from_integer(n as u64)).to_usize();
    let index: usize = if found < n - 1 {
        found
    } else {
        n - 1
    };
    let peak: Peak = peaks[index];
    let reach: Single = canvas.height.mul(Single { bits: PEAK_SHARE });
    let x: Single = canvas.area.left.add(Single::from_integer(column as u64)).add(
        Single { bits: SINGLE_HALF },
    );
    let high: Single = canvas.center.y.sub(peak.max.clamp(zero, one).mul(reach)).max(
        canvas.area.top,
    );
    let low: Single = canvas.center.y.add(peak.min.neg().clamp(zero, one).mul(reach)).min(
        canvas.area.bottom,
    );
    Shape::Line {
        from: Point { x, y: high },
        to: Point { x, y: low },
        stroke: Stroke::one_wide(theme.waveform),
    }
}

fn push_peaks(shapes: &mut Vec<Shape>, theme: &Theme, peaks: &Vec<Peak>, canvas: &Canvas)
    ensures
        final(shapes)@ == old(shapes)@ + peak_shapes(*theme, peaks@, *canvas),
{
    let ghost before = shapes@;
    if peaks.len() == 0 {
        assert(shapes@ =~= before + peak_shapes(*theme, peaks@, *canvas));
        return;
    }
    let whole: usize = canvas.width.to_usize();
    let columns: usize = if whole < 1 {
        1
    } else {
        whole
    };
    let ghost drawn = Seq::new(
        columns as nat,
        |column: int| column_shape(*theme, peaks@, *canvas, column),
    );
    let mut column: usize = 0;
    assert(shapes@ =~= before + drawn.take(0));
    while column < columns
        invariant
            peaks@.len() > 0,
            column <= columns,
            columns == canvas.columns(),
            drawn == Seq::new(
                columns as nat,
                |column: int| column_shape(*theme, peaks@, *canvas, column),
            ),
            shapes@ == before + drawn.take(column as int),
        decreases columns - column,
    {
        shapes.push(column_line(theme, peaks, canvas, column, columns));
        assert(shapes@ =~= before + drawn.take(column + 1));
        column = column + 1;
    }
    assert(drawn.take(columns as int) =~= drawn);
    shapes.push(
        Shape::Line {
            from: Point { x: canvas.area.left, y: canvas.center.y },
            to: Point { x: canvas.area.right, y: canvas.center.y },
            stroke: Stroke::one_wide(theme.zero_line),
        },
    );
    assert(shapes@ =~= before + peak_shapes(*theme, peaks@, *canvas));
}

fn push_loop(
    shapes: &mut Vec<Shape>,
    theme: &Theme,
    control: &LoopControl,
    duration: Double,
    canvas: &Canvas,
)
    ensures
        final(shapes)@ == old(shapes)@ + loop_shapes(*theme, *control, duration, *canvas),
{
    let ghost before = shapes@;
    if control.loop_enabled && control.loop_start_secs.lt(control.loop_end_secs) {
        let x0: Single = canvas.place(control.loop_start_secs.div(duration).to_single());
        let x1: Single = canvas.place(control.loop_end_secs.div(duration).to_single());
        let edge: Stroke = Stroke { width: Single { bits: SINGLE_TWO }, color: theme.accent };
        shapes.push(canvas.full_band(x0, x1, theme.loop_fill));
        shapes.push(canvas.upright_line(x0, edge));
        shapes.push(canvas.upright_line(x1, edge));
    }
    assert(shapes@ =~= before + loop_shapes(*theme, *control, duration, *canvas));
}

fn push_drag(shapes: &mut Vec<Shape>, theme: &Theme, control: &LoopControl, canvas: &Canvas)
    ensures
        final(shapes)@ == old(shapes)@ + drag_shapes(*theme, *control, *canvas),
{
    let ghost before = shapes@;
    if let (Some(start), Some(current)) = (control.drag_start, control.drag_current) {
        let x0: Single = canvas.place(start.min(current));
        let x1: Single = canvas.place(start.max(current));
        shapes.push(canvas.full_band(x0, x1, theme.drag_fill));
    }
    assert(shapes@ =~= before + drag_shapes(*theme, *control, *canvas));
}

fn push_playhead(
    shapes: &mut Vec<Shape>,
    theme: &Theme,
    position_secs: Double,
    duration: Double,
    canvas: &Canvas,
)
    ensures
        final(shapes)@ == old(shapes)@ + playhead_shapes(*theme, position_secs, duration, *canvas),
{
    let ghost before = shapes@;
    let zero: Double = Double { bits: 0 };
    if zero.lt(duration) {
        let share: Single = position_secs.div(duration).clamp(
            zero,
            Double { bits: DOUBLE_ONE },
        ).to_single();
        let stroke: Stroke = Stroke { width: Single { bits: SINGLE_TWO }, color: theme.text };
        shapes.push(canvas.upright_line(canvas.place(share), stroke));
    }
    assert(shapes@ =~= before + playhead_shapes(*theme, position_secs, duration, *canvas));
}

impl App {
    /// The waveform as drawn: a notice while nothing is loaded, otherwise the
    /// loop region, a selection being dragged, the peaks and the playhead. Every
    /// colour is one of the theme.
    pub open spec fn scene(self, canvas: Canvas) -> Seq<Shape> {
        let duration = self.audio_duration;
        if duration.at_most(Double::of(0)) {
            seq![
                background(self.theme, canvas),
                Shape::Message {
                    at: canvas.center,
                    notice: if self.is_loading {
                        Notice::Loading
                    } else {
                        Notice::NoFile
                    },
                    size: Single::of(NOTICE_SIZE as int),
                    color: self.theme.text_dim,
                },
                outline(self.theme, canvas),
            ]
        } else {
            let position_secs = self.audio.position_secs();
            seq![background(self.theme, canvas)] + loop_shapes(
                self.theme,
                self.control,
                duration,
                canvas,
            ) + drag_shapes(self.theme, self.control, canvas) + peak_shapes(
                self.theme,
                self.waveform_peaks@,
                canvas,
            ) + playhead_shapes(
                self.theme,
                position_secs,
                duration,
                canvas,
            ) + seq![outline(self.theme, canvas)]
        }
    }

    /// What to draw for the waveform, in order.
    pub fn draw_waveform(&self, canvas: &Canvas) -> (r: Vec<Shape>)
        ensures
            r@ == self.scene(*canvas),
    {
        let mut shapes: Vec<Shape> = Vec::new();
        let corner: Single = Single { bits: CORNER };
        shapes.push(
            Shape::Fill { area: canvas.area, rounding: corner, color: self.theme.surface },
        );
        assert(shapes@ =~= seq![background(self.theme, *canvas)]);
        let duration: Double = self.audio_duration;
        if duration.le(Double { bits: 0 }) {
            let notice: Notice = if self.is_loading {
                Notice::Loading
            } else {
                Notice::NoFile
            };
            shapes.push(
                Shape::Message {
                    at: canvas.center,
                    notice,
                    size: Single { bits: NOTICE_SIZE },
                    color: self.theme.text_dim,
                },
            );
            shapes.push(
                Shape::Outline {
                    area: canvas.area,
                    rounding: corner,
                    stroke: Stroke::one_wide(self.theme.border),
                },
            );
            assert(shapes@ =~= self.scene(*canvas));
            return shapes;
        }
        push_loop(&mut shapes, &self.theme, &self.control, duration, canvas);
        push_drag(&mut shapes, &self.theme, &self.control, canvas);
        push_peaks(&mut shapes, &self.theme, &self.waveform_peaks, canvas);
        push_playhead(&mut shapes, &self.theme, self.audio.state().position_secs, duration, canvas);
        shapes.push(
            Shape::Outline {
                area: canvas.area,
                rounding: corner,
                stroke: Stroke::one_wide(self.theme.border),
            },
        );
        assert(shapes@ =~= self.scene(*canvas));
        shapes
    }
}

} // verus!
