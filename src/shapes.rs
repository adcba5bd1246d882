//! Paths for common shapes.
use vstd::prelude::*;
use crate::geometry::{Point, CubicBezier, is_closed};

verus! {

/// A straight curve from `a` to `b`.
pub open spec fn straight(a: Point, b: Point) -> CubicBezier {
    CubicBezier { c1: a, c2: a, c3: b, c4: b }
}

/// The closed path along the four corners of a quadrilateral, clockwise
/// from the top left one.
pub fn quad(top_left: Point, top_right: Point, bottom_left: Point, bottom_right: Point) -> (r: Vec<CubicBezier>)
    ensures
        r@ == seq![
            straight(top_left, top_right),
            straight(top_right, bottom_right),
            straight(bottom_right, bottom_left),
            straight(bottom_left, top_left),
        ],
        is_closed(r@),
{
    let mut r: Vec<CubicBezier> = Vec::new();
    r.push(CubicBezier::segment(top_left, top_right));
    r.push(CubicBezier::segment(top_right, bottom_right));
    r.push(CubicBezier::segment(bottom_right, bottom_left));
    r.push(CubicBezier::segment(bottom_left, top_left));
    assert(r@ =~= seq![
        straight(top_left, top_right),
        straight(top_right, bottom_right),
        straight(bottom_right, bottom_left),
        straight(bottom_left, top_left),
    ]);
    r
}

/// The closed path around the axis-aligned rectangle with its top left
/// corner at `origin` and the given `size`.
pub fn rectangle(origin: Point, size: Point) -> (r: Vec<CubicBezier>)
    requires
        origin.x + size.x <= i32::MAX,
        origin.y + size.y <= i32::MAX,
        origin.x + size.x >= i32::MIN,
        origin.y + size.y >= i32::MIN,
    ensures
        r@ == seq![
            straight(origin, Point { x: (origin.x + size.x) as i32, y: origin.y }),
            straight(
                Point { x: (origin.x + size.x) as i32, y: origin.y },
                Point { x: (origin.x + size.x) as i32, y: (origin.y + size.y) as i32 },
            ),
            straight(
                Point { x: (origin.x + size.x) as i32, y: (origin.y + size.y) as i32 },
                Point { x: origin.x, y: (origin.y + size.y) as i32 },
            ),
            straight(Point { x: origin.x, y: (origin.y + size.y) as i32 }, origin),
        ],
        is_closed(r@),
{
    let top_right = Point { x: origin.x + size.x, y: origin.y };
    let bottom_left = Point { x: origin.x, y: origin.y + size.y };
    let bottom_right = Point { x: origin.x + size.x, y: origin.y + size.y };
    quad(origin, top_right, bottom_left, bottom_right)
}

} // verus!
