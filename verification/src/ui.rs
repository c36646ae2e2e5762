//! The UI values the widgets compute with: lengths, colours, a theme's
//! palette and the pointer interaction state. Each number is carried as the
//! bit pattern of the `f32` it stands for, so the values pass through
//! unchanged while the logic decides which one goes where.
use vstd::prelude::*;

verus! {

/// `1.0` as the bits of an `f32`.
pub const F32_ONE: u32 = 0x3f80_0000;

/// A length of the UI layout: automatic, pixels, a percentage of the parent,
/// or a fraction of the viewport. Each number is the bit pattern of an `f32`.
#[derive(Clone, Copy, Debug, PartialEq, Eq, Structural)]
pub enum Val {
    Auto,
    Px(u32),
    Percent(u32),
    Vw(u32),
    Vh(u32),
    VMin(u32),
    VMax(u32),
}

/// An sRGB colour with alpha; each channel is the bit pattern of an `f32`.
#[derive(Clone, Copy, Debug, PartialEq, Eq, Structural)]
pub struct Color {
    pub red: u32,
    pub green: u32,
    pub blue: u32,
    pub alpha: u32,
}

impl Color {
    /// An opaque sRGB colour.
    pub fn srgb(red: u32, green: u32, blue: u32) -> (r: Color)
        ensures
            r == (Color { red, green, blue, alpha: F32_ONE }),
    {
        Color { red, green, blue, alpha: F32_ONE }
    }

    /// Opaque white.
    pub fn white() -> (r: Color)
        ensures
            r == (Color { red: F32_ONE, green: F32_ONE, blue: F32_ONE, alpha: F32_ONE }),
    {
        Color::srgb(F32_ONE, F32_ONE, F32_ONE)
    }

    /// The same colour with another alpha.
    pub fn with_alpha(self, alpha: u32) -> (r: Color)
        ensures
            r == (Color { alpha, ..self }),
    {
        Color { alpha, ..self }
    }
}

/// The direction in which a layout node places its children.
#[derive(Clone, Copy, Debug, PartialEq, Eq, Structural)]
pub enum FlexDirection {
    Row,
    Column,
    RowReverse,
    ColumnReverse,
}

/// What the pointer is doing to a button: pressing it, hovering over it, or
/// neither (`Idle`).
#[derive(Clone, Copy, Debug, PartialEq, Eq, Structural)]
pub enum Interaction {
    Pressed,
    Hovered,
    Idle,
}

/// The colours of a theme that the widgets read.
#[derive(Clone, Copy, Debug, PartialEq, Eq, Structural)]
pub struct Palette {
    pub primary: Color,
    pub primary_container: Color,
    pub on_primary_container: Color,
    pub surface: Color,
    pub surface_variant: Color,
    pub on_surface: Color,
    pub outline: Color,
    pub outline_variant: Color,
    pub disabled_container: Color,
}

/// A theme, as far as the widgets read it: its colours, and the size of
/// its medium body text (the bits of an `f32`).
#[derive(Clone, Copy, Debug, PartialEq, Eq, Structural)]
pub struct Theme {
    pub palette: Palette,
    pub body_medium_font_size: u32,
}

} // verus!
