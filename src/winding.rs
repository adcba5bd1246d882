//! The edge-toggle test, and the signed winding number it is the parity of.
use vstd::prelude::*;
use crate::geometry::Point;

verus! {

/// A directed line segment, start first.
pub type Segment = (Point, Point);

/// Signed winding contribution of the segment `a -> b` for the sample `p`,
/// nonzero where the segment crosses the ray from `p` towards smaller `x`:
/// `-1` where it goes down (towards larger `y`) across it, `+1` where it
/// goes up. A segment that ends on `p`'s row counts only where it goes down
/// from it or up to it.
pub open spec fn winding_step(p: Point, a: Point, b: Point) -> int {
    let below_start = a.y <= p.y;
    let above_end = b.y > p.y;
    let left = (p.x - a.x) * (b.y - a.y) > (p.y - a.y) * (b.x - a.x);
    if below_start && above_end && left {
        -1
    } else if !below_start && !above_end && !left {
        1
    } else {
        0
    }
}

/// Whether the segment flips the inside state of `p`.
pub open spec fn toggles(p: Point, a: Point, b: Point) -> bool {
    winding_step(p, a, b) != 0
}

/// Signed winding number of `p` against a list of segments.
pub open spec fn winding_number(p: Point, segs: Seq<Segment>) -> int
    decreases segs.len(),
{
    if segs.len() == 0 {
        0
    } else {
        winding_number(p, segs.drop_last()) + winding_step(p, segs.last().0, segs.last().1)
    }
}

/// Parity of the number of segments that flip `p`.
pub open spec fn crossing_parity(p: Point, segs: Seq<Segment>) -> bool
    decreases segs.len(),
{
    if segs.len() == 0 {
        false
    } else {
        crossing_parity(p, segs.drop_last()) != toggles(p, segs.last().0, segs.last().1)
    }
}

/// Edge function: does the segment `a -> b` flip the inside state of the
/// sample `point`?
pub fn toggle_in_shape(point: Point, a: Point, b: Point) -> (r: bool)
    ensures
        r == toggles(point, a, b),
{
    let v1x: i128 = point.x as i128 - a.x as i128;
    let v1y: i128 = point.y as i128 - a.y as i128;
    let v2x: i128 = b.x as i128 - a.x as i128;
    let v2y: i128 = b.y as i128 - a.y as i128;
    assert(-0x4_0000_0000_0000_0000 <= v1x * v2y <= 0x4_0000_0000_0000_0000
        && -0x4_0000_0000_0000_0000 <= v1y * v2x <= 0x4_0000_0000_0000_0000) by (nonlinear_arith)
        requires
            -0x2_0000_0000 <= v1x <= 0x2_0000_0000,
            -0x2_0000_0000 <= v1y <= 0x2_0000_0000,
            -0x2_0000_0000 <= v2x <= 0x2_0000_0000,
            -0x2_0000_0000 <= v2y <= 0x2_0000_0000,
    ;
    let below_start = a.y <= point.y;
    let above_end = b.y > point.y;
    let left = v1x * v2y > v1y * v2x;
    let dec = below_start && above_end && left;
    let inc = !below_start && !above_end && !left;
    inc != dec
}

/// A zero-length segment flips no sample.
pub proof fn lemma_zero_length_segment(p: Point, a: Point)
    ensures
        !toggles(p, a, a),
        winding_step(p, a, a) == 0,
{
}

/// Crossing parity and winding number agree: an odd number of flips is an
/// odd winding number, and where the winding number is -1, 0 or 1 (as for
/// a simple closed path), the even-odd and nonzero rules coincide.
pub proof fn lemma_parity_matches_winding(p: Point, segs: Seq<Segment>)
    ensures
        crossing_parity(p, segs) == (winding_number(p, segs) % 2 != 0),
        -1 <= winding_number(p, segs) <= 1 ==> crossing_parity(p, segs) == (winding_number(
            p,
            segs,
        ) != 0),
    decreases segs.len(),
{
    if segs.len() > 0 {
        lemma_parity_matches_winding(p, segs.drop_last());
    }
}

} // verus!
