//! Points, cubic Bézier curves and their bounding boxes, in fixed-point
//! subpixel units.
use vstd::prelude::*;

verus! {

/// Number of subpixel units in one pixel, on each axis.
pub const SUBPIXELS: i32 = 32;

/// Largest magnitude a coordinate may have, in subpixel units.
pub const COORD_LIMIT: i32 = 0x100_0000;

/// A point in subpixel units.
#[derive(Clone, Copy, Debug, PartialEq, Eq, Structural)]
pub struct Point {
    pub x: i32,
    pub y: i32,
}

pub open spec fn coord_ok(v: i32) -> bool {
    -COORD_LIMIT <= v <= COORD_LIMIT
}

impl Point {
    pub open spec fn in_range(self) -> bool {
        coord_ok(self.x) && coord_ok(self.y)
    }

    pub fn new(x: i32, y: i32) -> (r: Point)
        ensures
            r.x == x,
            r.y == y,
    {
        Point { x, y }
    }
}

/// Floor of the average of two coordinates.
pub open spec fn mid(a: i32, b: i32) -> i32 {
    ((a as int + b as int) / 2) as i32
}

pub fn midpoint(a: i32, b: i32) -> (r: i32)
    requires
        coord_ok(a),
        coord_ok(b),
    ensures
        r == mid(a, b),
        coord_ok(r),
        a <= b ==> a <= r <= b,
        b <= a ==> b <= r <= a,
{
    let shifted: i64 = a as i64 + b as i64 + 2 * (COORD_LIMIT as i64);
    let half: i64 = shifted / 2;
    (half - COORD_LIMIT as i64) as i32
}


/// Cubic Bézier curve: `c1` and `c4` are its ends, `c2` and `c3` its
/// control points.
#[derive(Clone, Copy, Debug, PartialEq, Eq, Structural)]
pub struct CubicBezier {
    pub c1: Point,
    pub c2: Point,
    pub c3: Point,
    pub c4: Point,
}

pub open spec fn mid_point(a: Point, b: Point) -> Point {
    Point { x: mid(a.x, b.x), y: mid(a.y, b.y) }
}

fn travel_half(a: Point, b: Point) -> (r: Point)
    requires
        a.in_range(),
        b.in_range(),
    ensures
        r == mid_point(a, b),
        r.in_range(),
{
    Point { x: midpoint(a.x, b.x), y: midpoint(a.y, b.y) }
}

/// The two halves of a curve, by de Casteljau subdivision at one half.
pub open spec fn halves(c: CubicBezier) -> (CubicBezier, CubicBezier) {
    let side1 = mid_point(c.c1, c.c2);
    let side2 = mid_point(c.c2, c.c3);
    let side3 = mid_point(c.c3, c.c4);
    let diag1 = mid_point(side1, side2);
    let diag2 = mid_point(side2, side3);
    let split = mid_point(diag1, diag2);
    (
        CubicBezier { c1: c.c1, c2: side1, c3: diag1, c4: split },
        CubicBezier { c1: split, c2: diag2, c3: side3, c4: c.c4 },
    )
}

/// The four quarters of a curve.
pub open spec fn quarters(c: CubicBezier) -> (CubicBezier, CubicBezier, CubicBezier, CubicBezier) {
    let (ab, cd) = halves(c);
    (halves(ab).0, halves(ab).1, halves(cd).0, halves(cd).1)
}

/// The control box of the curve and that of one of its quarters reach the
/// box.
pub open spec fn may_reach(c: CubicBezier, area: BoundingBox) -> bool {
    let q = quarters(c);
    boxes_overlap(control_box(c), area) && (boxes_overlap(control_box(q.0), area) || boxes_overlap(
        control_box(q.1),
        area,
    ) || boxes_overlap(control_box(q.2), area) || boxes_overlap(control_box(q.3), area))
}

/// A curve chained after another one.
pub open spec fn chained(a: CubicBezier, b: CubicBezier) -> bool {
    a.c4 == b.c1
}

/// Every curve starts where the previous one ends.
pub open spec fn is_continuous(path: Seq<CubicBezier>) -> bool {
    forall|i: int| 0 <= i < path.len() - 1 ==> #[trigger] path[i].c4 == path[i + 1].c1
}

/// A composite Bézier curve: continuous, and its last curve ends where the
/// first one starts.
pub open spec fn is_closed(path: Seq<CubicBezier>) -> bool {
    is_continuous(path) && (path.len() > 0 ==> path.last().c4 == path[0].c1)
}

impl CubicBezier {
    pub open spec fn in_range(self) -> bool {
        self.c1.in_range() && self.c2.in_range() && self.c3.in_range() && self.c4.in_range()
    }

    /// The straight curve from `start` to `end`.
    pub fn segment(start: Point, end: Point) -> (r: CubicBezier)
        ensures
            r == (CubicBezier { c1: start, c2: start, c3: end, c4: end }),
    {
        CubicBezier { c1: start, c2: start, c3: end, c4: end }
    }

    /// The same curve, walked from `c4` to `c1`.
    pub fn reversed(self) -> (r: CubicBezier)
        ensures
            r == (CubicBezier { c1: self.c4, c2: self.c3, c3: self.c2, c4: self.c1 }),
    {
        CubicBezier { c1: self.c4, c2: self.c3, c3: self.c2, c4: self.c1 }
    }

    /// Splits the curve at its parameter one half.
    pub fn split(self) -> (r: (CubicBezier, CubicBezier))
        requires
            self.in_range(),
        ensures
            r == halves(self),
            r.0.in_range(),
            r.1.in_range(),
            r.0.c1 == self.c1,
            chained(r.0, r.1),
            r.1.c4 == self.c4,
    {
        let side1 = travel_half(self.c1, self.c2);
        let side2 = travel_half(self.c2, self.c3);
        let side3 = travel_half(self.c3, self.c4);
        let diag1 = travel_half(side1, side2);
        let diag2 = travel_half(side2, side3);
        let split = travel_half(diag1, diag2);
        (
            CubicBezier { c1: self.c1, c2: side1, c3: diag1, c4: split },
            CubicBezier { c1: split, c2: diag2, c3: side3, c4: self.c4 },
        )
    }

    /// The curve's four quarters, by halving it twice.
    pub fn split_4(&self) -> (r: (CubicBezier, CubicBezier, CubicBezier, CubicBezier))
        requires
            self.in_range(),
        ensures
            r == quarters(*self),
            r.0.in_range() && r.1.in_range() && r.2.in_range() && r.3.in_range(),
    {
        let (ab, cd) = self.split();
        let (a, b) = ab.split();
        let (c, d) = cd.split();
        (a, b, c, d)
    }

    /// Might the curve reach the box? Its control box must, and so must the
    /// control box of one of its quarters.
    pub fn overlaps(&self, area: &BoundingBox) -> (r: bool)
        requires
            self.in_range(),
        ensures
            r == may_reach(*self, *area),
    {
        if self.aabb().overlaps_with(area) {
            let (a, b, c, d) = self.split_4();
            a.aabb().overlaps_with(area) || b.aabb().overlaps_with(area) || c.aabb().overlaps_with(
                area,
            ) || d.aabb().overlaps_with(area)
        } else {
            false
        }
    }

    /// The bounding box of the four control points, which also bounds the
    /// curve.
    pub fn aabb(&self) -> (r: BoundingBox)
        ensures
            r == control_box(*self),
    {
        BoundingBox {
            min_x: min4(self.c1.x, self.c2.x, self.c3.x, self.c4.x),
            min_y: min4(self.c1.y, self.c2.y, self.c3.y, self.c4.y),
            max_x: max4(self.c1.x, self.c2.x, self.c3.x, self.c4.x),
            max_y: max4(self.c1.y, self.c2.y, self.c3.y, self.c4.y),
        }
    }
}

/// Axis-aligned box, bounds included.
#[derive(Clone, Copy, Debug, PartialEq, Eq, Structural)]
pub struct BoundingBox {
    pub min_x: i32,
    pub min_y: i32,
    pub max_x: i32,
    pub max_y: i32,
}

pub open spec fn min_of(a: i32, b: i32) -> i32 {
    if a <= b { a } else { b }
}

pub open spec fn max_of(a: i32, b: i32) -> i32 {
    if a >= b { a } else { b }
}

pub open spec fn control_box(c: CubicBezier) -> BoundingBox {
    BoundingBox {
        min_x: min_of(min_of(c.c1.x, c.c2.x), min_of(c.c3.x, c.c4.x)),
        min_y: min_of(min_of(c.c1.y, c.c2.y), min_of(c.c3.y, c.c4.y)),
        max_x: max_of(max_of(c.c1.x, c.c2.x), max_of(c.c3.x, c.c4.x)),
        max_y: max_of(max_of(c.c1.y, c.c2.y), max_of(c.c3.y, c.c4.y)),
    }
}

fn min4(a: i32, b: i32, c: i32, d: i32) -> (r: i32)
    ensures
        r == min_of(min_of(a, b), min_of(c, d)),
{
    let ab = if a <= b { a } else { b };
    let cd = if c <= d { c } else { d };
    if ab <= cd { ab } else { cd }
}

fn max4(a: i32, b: i32, c: i32, d: i32) -> (r: i32)
    ensures
        r == max_of(max_of(a, b), max_of(c, d)),
{
    let ab = if a >= b { a } else { b };
    let cd = if c >= d { c } else { d };
    if ab >= cd { ab } else { cd }
}

pub open spec fn boxes_overlap(a: BoundingBox, b: BoundingBox) -> bool {
    a.min_x <= b.max_x && a.max_x >= b.min_x && a.min_y <= b.max_y && a.max_y >= b.min_y
}

impl BoundingBox {
    pub fn overlaps_with(&self, other: &BoundingBox) -> (r: bool)
        ensures
            r == boxes_overlap(*self, *other),
    {
        self.min_x <= other.max_x && self.max_x >= other.min_x && self.min_y <= other.max_y
            && self.max_y >= other.min_y
    }
}

/// Squared distance threshold of the straightness test, as the fraction
/// `STRAIGHT_NUM / STRAIGHT_DEN` of a squared subpixel unit: 0.8 pixel.
pub const STRAIGHT_NUM: i128 = 16384;

pub const STRAIGHT_DEN: i128 = 25;

/// Is `p` within the straightness threshold of the line through the ends of
/// `c`? Where both ends coincide, the distance to that point counts.
pub open spec fn near_chord(c: CubicBezier, p: Point) -> bool {
    let lx = c.c4.x - c.c1.x;
    let ly = c.c4.y - c.c1.y;
    let dx = c.c1.x - p.x;
    let dy = c.c1.y - p.y;
    let len2 = lx * lx + ly * ly;
    if len2 == 0 {
        STRAIGHT_DEN * (dx * dx + dy * dy) < STRAIGHT_NUM
    } else {
        let cross = lx * dy - ly * dx;
        STRAIGHT_DEN * (cross * cross) < STRAIGHT_NUM * len2
    }
}

pub open spec fn is_straight(c: CubicBezier) -> bool {
    near_chord(c, c.c2) && near_chord(c, c.c3)
}

fn close_to_chord(c: &CubicBezier, p: Point) -> (r: bool)
    requires
        c.in_range(),
        p.in_range(),
    ensures
        r == near_chord(*c, p),
{
    let lx: i128 = c.c4.x as i128 - c.c1.x as i128;
    let ly: i128 = c.c4.y as i128 - c.c1.y as i128;
    let dx: i128 = c.c1.x as i128 - p.x as i128;
    let dy: i128 = c.c1.y as i128 - p.y as i128;
    assert(0 <= lx * lx <= 0x4_0000_0000_0000 && 0 <= ly * ly <= 0x4_0000_0000_0000) by (nonlinear_arith)
        requires
            -0x200_0000 <= lx <= 0x200_0000,
            -0x200_0000 <= ly <= 0x200_0000,
    ;
    assert(0 <= dx * dx <= 0x4_0000_0000_0000 && 0 <= dy * dy <= 0x4_0000_0000_0000) by (nonlinear_arith)
        requires
            -0x200_0000 <= dx <= 0x200_0000,
            -0x200_0000 <= dy <= 0x200_0000,
    ;
    let len2: i128 = lx * lx + ly * ly;
    if len2 == 0 {
        STRAIGHT_DEN * (dx * dx + dy * dy) < STRAIGHT_NUM
    } else {
        assert(-0x4_0000_0000_0000 <= lx * dy <= 0x4_0000_0000_0000
            && -0x4_0000_0000_0000 <= ly * dx <= 0x4_0000_0000_0000) by (nonlinear_arith)
            requires
                -0x200_0000 <= lx <= 0x200_0000,
                -0x200_0000 <= ly <= 0x200_0000,
                -0x200_0000 <= dx <= 0x200_0000,
                -0x200_0000 <= dy <= 0x200_0000,
        ;
        let cross: i128 = lx * dy - ly * dx;
        assert(0 <= cross * cross <= 0x40_0000_0000_0000_0000_0000_0000) by (nonlinear_arith)
            requires
                -0x8_0000_0000_0000 <= cross <= 0x8_0000_0000_0000,
        ;
        STRAIGHT_DEN * (cross * cross) < STRAIGHT_NUM * len2
    }
}

/// Straightness test: both control points lie within the threshold of the
/// chord.
pub fn is_curve_straight(c: &CubicBezier) -> (r: bool)
    requires
        c.in_range(),
    ensures
        r == is_straight(*c),
{
    close_to_chord(c, c.c2) && close_to_chord(c, c.c3)
}

} // verus!
