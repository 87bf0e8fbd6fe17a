//! Paint attributes shared by nodes, edges and comment strokes.
use vstd::prelude::*;

verus! {

/// An RGBA color with 8-bit channels.
#[derive(Clone, Copy, Debug, PartialEq, Eq, Structural)]
pub struct Color {
    pub r: u8,
    pub g: u8,
    pub b: u8,
    pub a: u8,
}

impl Color {
    pub fn red() -> (c: Color)
        ensures
            c == (Color { r: 255u8, g: 0u8, b: 0u8, a: 255u8 }),
    {
        Color { r: 255, g: 0, b: 0, a: 255 }
    }

    pub fn black() -> (c: Color)
        ensures
            c == (Color { r: 0u8, g: 0u8, b: 0u8, a: 255u8 }),
    {
        Color { r: 0, g: 0, b: 0, a: 255 }
    }
}

/// Paint style of a comment stroke: line width in canvas units and color.
#[derive(Clone, Copy, Debug, PartialEq, Eq, Structural)]
pub struct StrokeStyle {
    pub width: i64,
    pub color: Color,
}

impl StrokeStyle {
    /// The default thin black stroke.
    pub fn thin_black() -> (s: StrokeStyle)
        ensures
            s.width == 1i64,
            s.color == (Color { r: 0u8, g: 0u8, b: 0u8, a: 255u8 }),
    {
        StrokeStyle { width: 1, color: Color::black() }
    }
}

} // verus!
