use crate::float::number::{Single, SINGLE_ONE};
use vstd::prelude::*;

verus! {

/// A colour: red, green, blue and opacity, the first three not multiplied by the
/// last.
#[derive(Clone, Copy, Debug, PartialEq, Eq, Structural)]
pub struct Color {
    pub r: u8,
    pub g: u8,
    pub b: u8,
    pub a: u8,
}

impl Color {
    pub open spec fn opaque(r: u8, g: u8, b: u8) -> Color {
        Color { r, g, b, a: 255 }
    }

    pub open spec fn translucent(r: u8, g: u8, b: u8, a: u8) -> Color {
        Color { r, g, b, a }
    }

    /// A colour that lets nothing through.
    pub fn rgb(r: u8, g: u8, b: u8) -> (c: Color)
        ensures
            c == Color::opaque(r, g, b),
    {
        Color { r, g, b, a: 255 }
    }

    /// A colour that covers what is below it in part.
    pub fn rgba(r: u8, g: u8, b: u8, a: u8) -> (c: Color)
        ensures
            c == Color::translucent(r, g, b, a),
    {
        Color { r, g, b, a }
    }
}

/// All colours used by the application in one place.
///
/// To create a new colour scheme, add a constructor like `teenage_engineering` and
/// change the call in `App::new`.
#[derive(Clone, Copy, Debug, PartialEq, Eq, Structural)]
pub struct Theme {
    /// Panel and window background.
    pub bg: Color,
    /// Widget background, one step lighter than `bg`.
    pub surface: Color,
    /// Borders of widgets and panels.
    pub border: Color,
    pub text: Color,
    /// Disabled and placeholder text.
    pub text_dim: Color,
    /// Solid accent: waveform, hover, active borders.
    pub accent: Color,
    /// Translucent accent: background of a selection.
    pub accent_dim: Color,
    /// Peak lines.
    pub waveform: Color,
    /// Centre line.
    pub zero_line: Color,
    /// Fill of the loop region.
    pub loop_fill: Color,
    /// Fill of a selection being dragged.
    pub drag_fill: Color,
}

/// A line of a given width and colour.
#[derive(Clone, Copy, Debug, PartialEq, Eq, Structural)]
pub struct Stroke {
    pub width: Single,
    pub color: Color,
}

/// How widgets in one state look.
#[derive(Clone, Copy, Debug, PartialEq, Eq, Structural)]
pub struct WidgetLook {
    pub bg_fill: Color,
    pub bg_stroke: Stroke,
    pub fg_stroke: Stroke,
}

/// What a theme sets on top of the toolkit's dark look.
#[derive(Clone, Copy, Debug, PartialEq, Eq, Structural)]
pub struct ThemeVisuals {
    pub panel_fill: Color,
    pub window_fill: Color,
    pub faint_bg_color: Color,
    pub extreme_bg_color: Color,
    pub override_text_color: Option<Color>,
    pub window_stroke: Stroke,
    pub slider_trailing_fill: bool,
    pub noninteractive: WidgetLook,
    pub inactive: WidgetLook,
    pub hovered: WidgetLook,
    pub active: WidgetLook,
    pub open_bg_fill: Color,
    pub selection_bg_fill: Color,
    pub selection_stroke: Stroke,
}

impl Stroke {
    /// A line one unit wide.
    pub open spec fn thin(color: Color) -> Stroke {
        Stroke { width: Single::of(SINGLE_ONE as int), color }
    }

    pub fn one_wide(color: Color) -> (r: Stroke)
        ensures
            r == Stroke::thin(color),
    {
        Stroke { width: Single { bits: SINGLE_ONE }, color }
    }
}

impl WidgetLook {
    pub open spec fn of(fill: Color, border: Color, mark: Color) -> WidgetLook {
        WidgetLook {
            bg_fill: fill,
            bg_stroke: Stroke::thin(border),
            fg_stroke: Stroke::thin(mark),
        }
    }

    fn new(fill: Color, border: Color, mark: Color) -> (r: WidgetLook)
        ensures
            r == WidgetLook::of(fill, border, mark),
    {
        WidgetLook {
            bg_fill: fill,
            bg_stroke: Stroke::one_wide(border),
            fg_stroke: Stroke::one_wide(mark),
        }
    }
}

impl Theme {
    /// A near-black base with an orange accent.
    pub open spec fn orange() -> Theme {
        Theme {
            bg: Color::opaque(10, 10, 10),
            surface: Color::opaque(20, 20, 20),
            border: Color::opaque(42, 42, 42),
            text: Color::opaque(224, 224, 224),
            text_dim: Color::opaque(64, 64, 64),
            accent: Color::opaque(255, 102, 0),
            accent_dim: Color::translucent(255, 102, 0, 30),
            waveform: Color::opaque(255, 102, 0),
            zero_line: Color::translucent(255, 255, 255, 12),
            loop_fill: Color::translucent(255, 102, 0, 28),
            drag_fill: Color::translucent(255, 153, 0, 45),
        }
    }

    /// What the theme sets on top of the toolkit's dark look.
    pub open spec fn look(self) -> ThemeVisuals {
        ThemeVisuals {
            panel_fill: self.bg,
            window_fill: self.bg,
            faint_bg_color: self.surface,
            extreme_bg_color: Color::opaque(6, 6, 6),
            override_text_color: Some(self.text),
            window_stroke: Stroke::thin(self.border),
            slider_trailing_fill: true,
            noninteractive: WidgetLook::of(self.surface, self.border, self.text_dim),
            inactive: WidgetLook::of(self.surface, self.border, self.text),
            hovered: WidgetLook::of(Color::opaque(30, 30, 30), self.accent, self.accent),
            active: WidgetLook::of(Color::opaque(38, 18, 4), self.accent, self.accent),
            open_bg_fill: self.surface,
            selection_bg_fill: self.accent_dim,
            selection_stroke: Stroke::thin(self.accent),
        }
    }

    /// A near-black base with an orange accent, after Teenage Engineering.
    pub fn teenage_engineering() -> (r: Theme)
        ensures
            r == Theme::orange(),
    {
        let accent: Color = Color::rgb(255, 102, 0);
        Theme {
            bg: Color::rgb(10, 10, 10),
            surface: Color::rgb(20, 20, 20),
            border: Color::rgb(42, 42, 42),
            text: Color::rgb(224, 224, 224),
            text_dim: Color::rgb(64, 64, 64),
            accent,
            accent_dim: Color::rgba(255, 102, 0, 30),
            waveform: accent,
            zero_line: Color::rgba(255, 255, 255, 12),
            loop_fill: Color::rgba(255, 102, 0, 28),
            drag_fill: Color::rgba(255, 153, 0, 45),
        }
    }

    /// What the theme sets on top of the toolkit's dark look.
    pub fn apply_visuals(&self) -> (r: ThemeVisuals)
        ensures
            r == self.look(),
    {
        ThemeVisuals {
            panel_fill: self.bg,
            window_fill: self.bg,
            faint_bg_color: self.surface,
            extreme_bg_color: Color::rgb(6, 6, 6),
            override_text_color: Some(self.text),
            window_stroke: Stroke::one_wide(self.border),
            slider_trailing_fill: true,
            noninteractive: WidgetLook::new(self.surface, self.border, self.text_dim),
            inactive: WidgetLook::new(self.surface, self.border, self.text),
            hovered: WidgetLook::new(Color::rgb(30, 30, 30), self.accent, self.accent),
            active: WidgetLook::new(Color::rgb(38, 18, 4), self.accent, self.accent),
            open_bg_fill: self.surface,
            selection_bg_fill: self.accent_dim,
            selection_stroke: Stroke::one_wide(self.accent),
        }
    }
}

/// What a theme is used for: its background for panels and windows, its surface for
/// widgets at rest, its border around them, its text on them, dimmed where they do
/// nothing, and its accent where the pointer is, and for what is selected.
pub proof fn law_look_shows_the_theme(theme: Theme)
    ensures
        ({
            let look = theme.look();
            &&& look.panel_fill == theme.bg && look.window_fill == theme.bg
            &&& look.faint_bg_color == theme.surface && look.open_bg_fill == theme.surface
            &&& look.noninteractive.bg_fill == theme.surface
            &&& look.inactive.bg_fill == theme.surface
            &&& look.window_stroke.color == theme.border
            &&& look.noninteractive.bg_stroke.color == theme.border
            &&& look.inactive.bg_stroke.color == theme.border
            &&& look.override_text_color == Some(theme.text)
            &&& look.inactive.fg_stroke.color == theme.text
            &&& look.noninteractive.fg_stroke.color == theme.text_dim
            &&& look.hovered.bg_stroke.color == theme.accent
            &&& look.hovered.fg_stroke.color == theme.accent
            &&& look.active.bg_stroke.color == theme.accent
            &&& look.active.fg_stroke.color == theme.accent
            &&& look.selection_stroke.color == theme.accent
            &&& look.selection_bg_fill == theme.accent_dim
            &&& look.slider_trailing_fill
        }),
        ({
            let look = theme.look();
            &&& look.extreme_bg_color == Color::opaque(6, 6, 6)
            &&& look.hovered.bg_fill == Color::opaque(30, 30, 30)
            &&& look.active.bg_fill == Color::opaque(38, 18, 4)
        }),
        ({
            let look = theme.look();
            &&& look.window_stroke.width.bits == SINGLE_ONE
            &&& look.selection_stroke.width.bits == SINGLE_ONE
            &&& look.noninteractive.bg_stroke.width.bits == SINGLE_ONE
            &&& look.noninteractive.fg_stroke.width.bits == SINGLE_ONE
            &&& look.inactive.bg_stroke.width.bits == SINGLE_ONE
            &&& look.inactive.fg_stroke.width.bits == SINGLE_ONE
            &&& look.hovered.bg_stroke.width.bits == SINGLE_ONE
            &&& look.hovered.fg_stroke.width.bits == SINGLE_ONE
            &&& look.active.bg_stroke.width.bits == SINGLE_ONE
            &&& look.active.fg_stroke.width.bits == SINGLE_ONE
        }),
{
}

/// A translucent colour keeps its parts, and an opaque one lets nothing through.
pub proof fn law_colors_keep_their_parts(r: u8, g: u8, b: u8, a: u8)
    ensures
        Color::translucent(r, g, b, a) == (Color { r, g, b, a }),
        Color::opaque(r, g, b) == (Color { r, g, b, a: 255 }),
{
}

/// The scheme is orange on black: one orange for the waveform, the loop and what is
/// selected, a lighter one for what is dragged over, and greys for the rest.
pub proof fn law_scheme_is_orange_on_black()
    ensures
        ({
            let theme = Theme::orange();
            &&& theme.accent == (Color { r: 255, g: 102, b: 0, a: 255 })
            &&& theme.waveform == theme.accent
            &&& theme.accent_dim == (Color { a: 30, ..theme.accent })
            &&& theme.loop_fill == (Color { a: 28, ..theme.accent })
            &&& theme.drag_fill == (Color { r: 255, g: 153, b: 0, a: 45 })
            &&& theme.zero_line == (Color { r: 255, g: 255, b: 255, a: 12 })
            &&& theme.bg == (Color { r: 10, g: 10, b: 10, a: 255 })
            &&& theme.surface == (Color { r: 20, g: 20, b: 20, a: 255 })
            &&& theme.border == (Color { r: 42, g: 42, b: 42, a: 255 })
            &&& theme.text == (Color { r: 224, g: 224, b: 224, a: 255 })
            &&& theme.text_dim == (Color { r: 64, g: 64, b: 64, a: 255 })
        }),
{
}

} // verus!
