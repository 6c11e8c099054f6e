//! RGBA colors, their squared RGB distance and their `#RRGGBB` form.

use vstd::prelude::*;

verus! {

/// An RGBA color, 8 bits per channel.
#[derive(Clone, Copy, Debug, PartialEq, Eq, Structural)]
pub struct Color {
    pub r: u8,
    pub g: u8,
    pub b: u8,
    pub a: u8,
}

/// Two colors agree on their red, green and blue channels (alpha is ignored).
pub open spec fn same_rgb(x: Color, y: Color) -> bool {
    x.r == y.r && x.g == y.g && x.b == y.b
}

/// Squared euclidean distance of two colors in RGB space (alpha is ignored).
pub open spec fn dist2(x: Color, y: Color) -> int {
    (x.r - y.r) * (x.r - y.r) + (x.g - y.g) * (x.g - y.g) + (x.b - y.b) * (x.b - y.b)
}

impl Color {
    /// An opaque color.
    pub fn new(r: u8, g: u8, b: u8) -> (c: Color)
        ensures
            c == (Color { r, g, b, a: 255 }),
    {
        Color { r, g, b, a: 255 }
    }

    /// A color with an explicit alpha channel.
    pub fn new_rgba(r: u8, g: u8, b: u8, a: u8) -> (c: Color)
        ensures
            c == (Color { r, g, b, a }),
    {
        Color { r, g, b, a }
    }
}

impl Default for Color {
    /// Fully transparent black.
    fn default() -> (c: Color)
        ensures
            c == (Color { r: 0, g: 0, b: 0, a: 0 }),
    {
        Color { r: 0, g: 0, b: 0, a: 0 }
    }
}

/// Squared RGB distance between two colors.
pub fn color_dist2(x: Color, y: Color) -> (d: i32)
    ensures
        d == dist2(x, y),
        0 <= d <= 3 * 255 * 255,
{
    let dr: i32 = x.r as i32 - y.r as i32;
    let dg: i32 = x.g as i32 - y.g as i32;
    let db: i32 = x.b as i32 - y.b as i32;
    assert(0 <= dr * dr <= 255 * 255) by (nonlinear_arith)
        requires -255 <= dr <= 255;
    assert(0 <= dg * dg <= 255 * 255) by (nonlinear_arith)
        requires -255 <= dg <= 255;
    assert(0 <= db * db <= 255 * 255) by (nonlinear_arith)
        requires -255 <= db <= 255;
    dr * dr + dg * dg + db * db
}

proof fn lemma_square_facts(d: int, e: int)
    requires
        e == -d,
    ensures
        d * d >= 0,
        d * d == e * e,
        d * d == 0 ==> d == 0,
{
    assert(d * d >= 0) by (nonlinear_arith);
    assert(d * d == e * e) by (nonlinear_arith)
        requires e == -d;
    assert(d * d == 0 ==> d == 0) by (nonlinear_arith);
}

/// The distance is zero exactly between colors with equal RGB channels, and it is symmetric.
pub proof fn lemma_dist2_zero_iff_same_rgb(x: Color, y: Color)
    ensures
        dist2(x, y) >= 0,
        dist2(x, y) == dist2(y, x),
        dist2(x, y) == 0 <==> same_rgb(x, y),
{
    lemma_square_facts(x.r - y.r, y.r - x.r);
    lemma_square_facts(x.g - y.g, y.g - x.g);
    lemma_square_facts(x.b - y.b, y.b - x.b);
}

} // verus!
