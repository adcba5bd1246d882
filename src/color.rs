//! Straight-alpha RGBA colors and "over" compositing.
use vstd::prelude::*;

verus! {

/// A 4-byte color, straight (not premultiplied) alpha.
#[derive(Clone, Copy, Debug, PartialEq, Eq, Structural)]
pub struct Color {
    pub r: u8,
    pub g: u8,
    pub b: u8,
    pub a: u8,
}

impl Color {
    pub fn new(r: u8, g: u8, b: u8, a: u8) -> (c: Color)
        ensures
            c == (Color { r, g, b, a }),
    {
        Color { r, g, b, a }
    }

    /// Fully transparent black.
    pub fn transparent() -> (c: Color)
        ensures
            c == transparent(),
    {
        Color { r: 0, g: 0, b: 0, a: 0 }
    }
}

pub open spec fn transparent() -> Color {
    Color { r: 0, g: 0, b: 0, a: 0 }
}

/// One channel composited over the destination's, with source alpha `a`.
pub open spec fn over(s: u8, d: u8, a: int) -> u8 {
    ((s * a + d * (255 - a)) / 255) as u8
}

/// The source alpha once scaled by a coverage out of 255.
pub open spec fn scaled_alpha(src: Color, coverage: u8) -> int {
    src.a * coverage / 255
}

/// `src` composited over `dst` where `coverage` (out of 255) of the pixel
/// is covered: no change at zero alpha, the source as it is at full alpha.
pub open spec fn blended(src: Color, dst: Color, coverage: u8) -> Color {
    let a = scaled_alpha(src, coverage);
    if a == 0 {
        dst
    } else if a == 255 {
        src
    } else {
        Color {
            r: over(src.r, dst.r, a),
            g: over(src.g, dst.g, a),
            b: over(src.b, dst.b, a),
            a: over(a as u8, dst.a, a),
        }
    }
}

fn over_channel(s: u8, d: u8, a: u16) -> (r: u8)
    requires
        a <= 255,
    ensures
        r == over(s, d, a as int),
{
    let s16 = s as u32;
    let d16 = d as u32;
    let a16 = a as u32;
    assert(s16 * a16 + d16 * (255 - a16) <= 255 * 255) by (nonlinear_arith)
        requires
            s16 <= 255,
            d16 <= 255,
            a16 <= 255,
    ;
    assert((s16 * a16 + d16 * (255 - a16)) / 255 <= 255) by (nonlinear_arith)
        requires
            s16 * a16 + d16 * (255 - a16) <= 255 * 255,
    ;
    ((s16 * a16 + d16 * (255 - a16)) / 255) as u8
}

/// Composites `src` over `dst`, its alpha scaled by `coverage` (out of 255).
pub fn blend(src: Color, dst: Color, coverage: u8) -> (r: Color)
    ensures
        r == blended(src, dst, coverage),
{
    assert((src.a as u32) * (coverage as u32) <= 255 * 255) by (nonlinear_arith)
        requires
            src.a <= 255,
            coverage <= 255,
    ;
    let a = ((src.a as u32) * (coverage as u32) / 255) as u16;
    if a == 0 {
        dst
    } else if a == 255 {
        src
    } else {
        Color {
            r: over_channel(src.r, dst.r, a),
            g: over_channel(src.g, dst.g, a),
            b: over_channel(src.b, dst.b, a),
            a: over_channel(a as u8, dst.a, a),
        }
    }
}

/// Channel sums of a list of colors.
pub open spec fn sum_r(s: Seq<Color>) -> int
    decreases s.len(),
{
    if s.len() == 0 { 0 } else { sum_r(s.drop_last()) + s.last().r }
}

pub open spec fn sum_g(s: Seq<Color>) -> int
    decreases s.len(),
{
    if s.len() == 0 { 0 } else { sum_g(s.drop_last()) + s.last().g }
}

pub open spec fn sum_b(s: Seq<Color>) -> int
    decreases s.len(),
{
    if s.len() == 0 { 0 } else { sum_b(s.drop_last()) + s.last().b }
}

pub open spec fn sum_a(s: Seq<Color>) -> int
    decreases s.len(),
{
    if s.len() == 0 { 0 } else { sum_a(s.drop_last()) + s.last().a }
}

/// Channel-wise average (rounded down) of a non-empty list of colors.
pub open spec fn average(s: Seq<Color>) -> Color {
    Color {
        r: (sum_r(s) / (s.len() as int)) as u8,
        g: (sum_g(s) / (s.len() as int)) as u8,
        b: (sum_b(s) / (s.len() as int)) as u8,
        a: (sum_a(s) / (s.len() as int)) as u8,
    }
}

pub proof fn lemma_sums_bounded(s: Seq<Color>)
    ensures
        0 <= sum_r(s) <= 255 * s.len(),
        0 <= sum_g(s) <= 255 * s.len(),
        0 <= sum_b(s) <= 255 * s.len(),
        0 <= sum_a(s) <= 255 * s.len(),
    decreases s.len(),
{
    if s.len() > 0 {
        lemma_sums_bounded(s.drop_last());
    }
}

/// The stripes of the diagnostic rainbow pattern, the last one translucent.
pub open spec fn rainbow_stripe(i: int) -> Color {
    if i == 0 {
        Color { r: 255, g: 0, b: 0, a: 255 }
    } else if i == 1 {
        Color { r: 255, g: 127, b: 0, a: 255 }
    } else if i == 2 {
        Color { r: 255, g: 255, b: 0, a: 255 }
    } else if i == 3 {
        Color { r: 0, g: 255, b: 0, a: 255 }
    } else if i == 4 {
        Color { r: 0, g: 0, b: 255, a: 255 }
    } else if i == 5 {
        Color { r: 75, g: 0, b: 130, a: 255 }
    } else if i == 6 {
        Color { r: 148, g: 0, b: 211, a: 255 }
    } else {
        Color { r: 255, g: 255, b: 255, a: 100 }
    }
}

/// Diagnostic pattern: diagonal stripes 16 pixels wide, repeating every
/// 128 pixels.
pub fn rainbow(x: usize, y: usize) -> (c: Color)
    ensures
        c == rainbow_stripe(((x + y) % 128) / 16),
{
    let sum = x % 128 + y % 128;
    assert((x + y) % 128 == (x % 128 + y % 128) % 128) by (nonlinear_arith);
    let i = (sum % 128) / 16;
    if i == 0 {
        Color { r: 255, g: 0, b: 0, a: 255 }
    } else if i == 1 {
        Color { r: 255, g: 127, b: 0, a: 255 }
    } else if i == 2 {
        Color { r: 255, g: 255, b: 0, a: 255 }
    } else if i == 3 {
        Color { r: 0, g: 255, b: 0, a: 255 }
    } else if i == 4 {
        Color { r: 0, g: 0, b: 255, a: 255 }
    } else if i == 5 {
        Color { r: 75, g: 0, b: 130, a: 255 }
    } else if i == 6 {
        Color { r: 148, g: 0, b: 211, a: 255 }
    } else {
        Color { r: 255, g: 255, b: 255, a: 100 }
    }
}

} // verus!
