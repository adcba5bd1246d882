//! Stroking: the outline that a path has once drawn with a given width,
//! as a closed path that can be filled.
use vstd::prelude::*;
use crate::geometry::{Point, CubicBezier, is_continuous, is_closed, halves};
use crate::tile::MAX_DEPTH;
use crate::texture::{isqrt, floor_div, floor_sqrt};
use crate::shapes::straight;

verus! {

/// Largest stroke width, in subpixel units.
pub const STROKE_LIMIT: u32 = 0x100_0000;

/// Bound on the coordinates of offset curves.
pub const NEAR: i64 = 0x200_0000;

/// Bound on the coordinates of any curve of an outline.
pub const FAR: i64 = 0x2000_0000;

pub open spec fn abs_le(v: int, b: int) -> bool {
    -b <= v <= b
}

pub open spec fn point_within(p: Point, b: int) -> bool {
    abs_le(p.x as int, b) && abs_le(p.y as int, b)
}

pub open spec fn curve_within(c: CubicBezier, b: int) -> bool {
    point_within(c.c1, b) && point_within(c.c2, b) && point_within(c.c3, b) && point_within(c.c4, b)
}

/// The vector from `a` to `b`.
pub open spec fn sdiff(a: Point, b: Point) -> (i64, i64) {
    ((b.x - a.x) as i64, (b.y - a.y) as i64)
}

/// The first of three directions that is not the zero vector, or the last.
pub open spec fn pick(a: (i64, i64), b: (i64, i64), c: (i64, i64)) -> (i64, i64) {
    if a.0 != 0 || a.1 != 0 {
        a
    } else if b.0 != 0 || b.1 != 0 {
        b
    } else {
        c
    }
}

/// `v` scaled to `length` over its length rounded down to an integer,
/// each component rounded down; the zero vector stays zero.
pub open spec fn scaled(v: (i64, i64), length: int) -> (i64, i64) {
    if v.0 == 0 && v.1 == 0 {
        (0i64, 0i64)
    } else {
        let len = floor_sqrt(v.0 * v.0 + v.1 * v.1);
        ((v.0 * length / len) as i64, (v.1 * length / len) as i64)
    }
}

/// `p` moved by `length` along the normal of direction `d` (the direction
/// turned a quarter turn).
pub open spec fn moved(p: Point, d: (i64, i64), length: int) -> Point {
    let n = scaled(d, length);
    Point { x: (p.x - n.1) as i32, y: (p.y + n.0) as i32 }
}

/// The curve moved by `nf` along its normals: each control point along the
/// normal of the control polygon there (the chord where that is
/// degenerate).
#[verifier::opaque]
pub open spec fn offset_of(c: CubicBezier, nf: int) -> CubicBezier {
    let chord = sdiff(c.c1, c.c4);
    CubicBezier {
        c1: moved(c.c1, pick(sdiff(c.c1, c.c2), sdiff(c.c1, c.c3), chord), nf),
        c2: moved(c.c2, pick(sdiff(c.c1, c.c3), chord, chord), nf),
        c3: moved(c.c3, pick(sdiff(c.c2, c.c4), chord, chord), nf),
        c4: moved(c.c4, pick(sdiff(c.c3, c.c4), sdiff(c.c2, c.c4), chord), nf),
    }
}

/// `a` moved `k / 8` of the way to `b`, rounded down.
pub open spec fn travel8(a: Point, b: Point, k: int) -> Point {
    Point { x: (a.x + ((b.x - a.x) * k) / 8) as i32, y: (a.y + ((b.y - a.y) * k) / 8) as i32 }
}

/// The point at parameter `k / 8` of the curve, moved by `nf` along the
/// curve's normal there.
#[verifier::opaque]
pub open spec fn eval_offset(c: CubicBezier, k: int, nf: int) -> Point {
    let side1 = travel8(c.c1, c.c2, k);
    let side2 = travel8(c.c2, c.c3, k);
    let side3 = travel8(c.c3, c.c4, k);
    let diag1 = travel8(side1, side2, k);
    let diag2 = travel8(side2, side3, k);
    let split = travel8(diag1, diag2, k);
    moved(split, pick(sdiff(diag1, diag2), sdiff(c.c1, c.c4), sdiff(c.c1, c.c4)), nf)
}

pub open spec fn dist2(p: Point, q: Point) -> int {
    (p.x - q.x) * (p.x - q.x) + (p.y - q.y) * (p.y - q.y)
}

/// At each parameter `k / 8` (`k` from 1 to 7), the point of `piece` lies
/// within `sqrt(max_error_sq)` of the point of `src` moved by `nf` along
/// the normal.
#[verifier::opaque]
pub open spec fn within_tolerance(src: CubicBezier, piece: CubicBezier, nf: int, max_error_sq: int) -> bool {
    forall|k: int| 1 <= k < 8 ==> #[trigger] dist2(eval_offset(src, k, nf), eval_offset(piece, k, 0)) <= max_error_sq
}

/// The vector `(vx, vy)` scaled to about `length`, keeping its direction;
/// the zero vector stays zero.
fn scale_to(vx: i64, vy: i64, length: i64) -> (r: (i64, i64))
    requires
        abs_le(vx as int, 0x1000_0000),
        abs_le(vy as int, 0x1000_0000),
        0 <= length <= 0x1000_0000,
    ensures
        abs_le(r.0 as int, length as int),
        abs_le(r.1 as int, length as int),
        r == scaled((vx, vy), length as int),
{
    let x = vx as i128;
    let y = vy as i128;
    assert(0 <= x * x <= 0x100_0000_0000_0000 && 0 <= y * y <= 0x100_0000_0000_0000) by (nonlinear_arith)
        requires
            abs_le(x as int, 0x1000_0000),
            abs_le(y as int, 0x1000_0000),
    ;
    let n2 = x * x + y * y;
    assert(x == 0 && y == 0 ==> n2 == 0) by (nonlinear_arith)
        requires
            n2 == x * x + y * y,
    ;
    if n2 == 0 {
        assert(x == 0 && y == 0) by (nonlinear_arith)
            requires
                x * x + y * y == 0,
        ;
        return (0, 0);
    }
    let len = isqrt(n2);
    let l = length as i128;
    proof {
        lemma_component_below_norm(x as int, y as int, len as int);
        lemma_component_below_norm(y as int, x as int, len as int);
    }
    assert(abs_le(x * l, len * l) && abs_le(y * l, len * l)) by (nonlinear_arith)
        requires
            abs_le(x as int, len as int),
            abs_le(y as int, len as int),
            l >= 0,
    ;
    assert(len * l <= 0x400_0000_0000_0000) by (nonlinear_arith)
        requires
            0 <= len <= 0x1000_0000 * 2,
            0 <= l <= 0x1000_0000,
    ;
    let qx = floor_div(x * l, len);
    let qy = floor_div(y * l, len);
    proof {
        lemma_floor_div_bounded(x * l, len as int, l as int);
        lemma_floor_div_bounded(y * l, len as int, l as int);
    }
    (qx as i64, qy as i64)
}

proof fn lemma_component_below_norm(x: int, y: int, len: int)
    requires
        0 <= len,
        len * len <= x * x + y * y < (len + 1) * (len + 1),
        x * x + y * y > 0,
        abs_le(x, 0x1000_0000),
        abs_le(y, 0x1000_0000),
    ensures
        abs_le(x, len),
        len >= 1,
        len <= 0x1000_0000 * 2,
{
    assert(x * x <= x * x + y * y) by (nonlinear_arith);
    if x > len {
        assert((len + 1) * (len + 1) <= x * x) by (nonlinear_arith)
            requires
                x >= len + 1,
                len >= 0,
        ;
    }
    if x < -len {
        assert((len + 1) * (len + 1) <= x * x) by (nonlinear_arith)
            requires
                -x >= len + 1,
                len >= 0,
        ;
    }
    if len == 0 {
        assert((len + 1) * (len + 1) == 1) by (nonlinear_arith)
            requires
                len == 0,
        ;
    }
    assert(x * x + y * y <= 0x200_0000_0000_0000) by (nonlinear_arith)
        requires
            abs_le(x, 0x1000_0000),
            abs_le(y, 0x1000_0000),
    ;
    if len > 0x1000_0000 * 2 {
        assert(len * len > 0x200_0000_0000_0000) by (nonlinear_arith)
            requires
                len > 0x1000_0000 * 2,
        ;
    }
}

proof fn lemma_floor_div_bounded(m: int, d: int, l: int)
    requires
        d >= 1,
        l >= 0,
        abs_le(m, d * l),
    ensures
        abs_le(m / d, l),
{
    vstd::arithmetic::div_mod::lemma_fundamental_div_mod(m, d);
    vstd::arithmetic::div_mod::lemma_mod_bound(m, d);
    let q = m / d;
    assert(abs_le(q, l)) by (nonlinear_arith)
        requires
            m == d * q + m % d,
            0 <= m % d < d,
            d >= 1,
            l >= 0,
            -(d * l) <= m <= d * l,
    ;
}

/// The first of three directions that is not the zero vector, or the last
/// one.
fn pick_direction(a: (i64, i64), b: (i64, i64), c: (i64, i64)) -> (r: (i64, i64))
    ensures
        r == pick(a, b, c),
{
    if a.0 != 0 || a.1 != 0 {
        a
    } else if b.0 != 0 || b.1 != 0 {
        b
    } else {
        c
    }
}

fn diff(a: Point, b: Point) -> (r: (i64, i64))
    requires
        point_within(a, NEAR as int * 4),
        point_within(b, NEAR as int * 4),
    ensures
        r.0 == b.x - a.x,
        r.1 == b.y - a.y,
        r == sdiff(a, b),
        abs_le(r.0 as int, 0x1000_0000),
        abs_le(r.1 as int, 0x1000_0000),
{
    (b.x as i64 - a.x as i64, b.y as i64 - a.y as i64)
}

/// `p` moved along the normal of direction `d`, by about `distance`.
fn along_normal(p: Point, d: (i64, i64), distance: i64) -> (r: Point)
    requires
        point_within(p, 0x100_0000),
        abs_le(d.0 as int, 0x1000_0000),
        abs_le(d.1 as int, 0x1000_0000),
        0 <= distance <= 0x80_0000,
    ensures
        point_within(r, NEAR as int),
        r == moved(p, d, distance as int),
{
    let n = scale_to(d.0, d.1, distance);
    Point { x: (p.x as i64 - n.1) as i32, y: (p.y as i64 + n.0) as i32 }
}

impl CubicBezier {
    /// The curve moved by `normal_factor` along its normals: each control
    /// point along the normal of the control polygon there.
    pub(crate) fn offset(&self, normal_factor: i64) -> (r: CubicBezier)
        requires
            self.in_range(),
            0 <= normal_factor <= 0x80_0000,
        ensures
            curve_within(r, NEAR as int),
            r == offset_of(*self, normal_factor as int),
    {
        reveal(offset_of);
        let chord = diff(self.c1, self.c4);
        let d1 = pick_direction(diff(self.c1, self.c2), diff(self.c1, self.c3), chord);
        let d2 = pick_direction(diff(self.c1, self.c3), chord, chord);
        let d3 = pick_direction(diff(self.c2, self.c4), chord, chord);
        let d4 = pick_direction(diff(self.c3, self.c4), diff(self.c2, self.c4), chord);
        CubicBezier {
            c1: along_normal(self.c1, d1, normal_factor),
            c2: along_normal(self.c2, d2, normal_factor),
            c3: along_normal(self.c3, d3, normal_factor),
            c4: along_normal(self.c4, d4, normal_factor),
        }
    }
}

/// `a` moved `k / 8` of the way to `b`, rounded down.
fn travel_eighths(a: Point, b: Point, k: i64) -> (r: Point)
    requires
        point_within(a, NEAR as int),
        point_within(b, NEAR as int),
        0 <= k <= 8,
    ensures
        point_within(r, NEAR as int),
        r == travel8(a, b, k as int),
{
    let dx = (b.x as i64 - a.x as i64) as i128;
    let dy = (b.y as i64 - a.y as i64) as i128;
    let k2 = k as i128;
    assert(abs_le(dx * k2, 0x4000_0000) && abs_le(dy * k2, 0x4000_0000)) by (nonlinear_arith)
        requires
            abs_le(dx as int, 0x400_0000),
            abs_le(dy as int, 0x400_0000),
            0 <= k2 <= 8,
    ;
    let x = a.x as i128 + floor_div(dx * k2, 8);
    let y = a.y as i128 + floor_div(dy * k2, 8);
    proof {
        lemma_travel_within(a.x as int, b.x as int, k as int);
        lemma_travel_within(a.y as int, b.y as int, k as int);
    }
    Point { x: x as i32, y: y as i32 }
}

proof fn lemma_travel_within(a: int, b: int, k: int)
    requires
        abs_le(a, NEAR as int),
        abs_le(b, NEAR as int),
        0 <= k <= 8,
    ensures
        abs_le(a + ((b - a) * k) / 8, NEAR as int),
{
    let m = (b - a) * k;
    vstd::arithmetic::div_mod::lemma_fundamental_div_mod(m, 8);
    vstd::arithmetic::div_mod::lemma_mod_bound(m, 8);
    let q = m / 8;
    assert(abs_le(a + q, NEAR as int)) by (nonlinear_arith)
        requires
            m == 8 * q + m % 8,
            0 <= m % 8 < 8,
            m == (b - a) * k,
            0 <= k <= 8,
            abs_le(a, NEAR as int),
            abs_le(b, NEAR as int),
    ;
}

/// The point at parameter `k / 8` of a curve, moved by `normal_factor`
/// along the curve's normal there.
fn eval_and_offset(c: &CubicBezier, k: i64, normal_factor: i64) -> (r: Point)
    requires
        curve_within(*c, NEAR as int),
        0 <= k <= 8,
        0 <= normal_factor <= 0x80_0000,
        point_within(c.c1, 0x100_0000) || normal_factor == 0,
    ensures
        point_within(r, NEAR as int * 2),
        r == eval_offset(*c, k as int, normal_factor as int),
{
    reveal(eval_offset);
    let side1 = travel_eighths(c.c1, c.c2, k);
    let side2 = travel_eighths(c.c2, c.c3, k);
    let side3 = travel_eighths(c.c3, c.c4, k);
    let diag1 = travel_eighths(side1, side2, k);
    let diag2 = travel_eighths(side2, side3, k);
    let split = travel_eighths(diag1, diag2, k);
    let d = pick_direction(diff(diag1, diag2), diff(c.c1, c.c4), diff(c.c1, c.c4));
    let n = scale_to(d.0, d.1, normal_factor);
    Point { x: (split.x as i64 - n.1) as i32, y: (split.y as i64 + n.0) as i32 }
}

/// Largest squared distance, over seven parameters, between the curve's
/// own points moved by `offset` along its normals and the points of
/// `offset_curve`.
fn max_offset_error(curve: &CubicBezier, offset_curve: &CubicBezier, offset: i64) -> (r: i128)
    requires
        curve.in_range(),
        curve_within(*offset_curve, NEAR as int),
        0 <= offset <= 0x80_0000,
    ensures
        r >= 0,
        forall|k: int| 1 <= k < 8 ==> #[trigger] dist2(eval_offset(*curve, k, offset as int), eval_offset(*offset_curve, k, 0)) <= r,
{
    let mut max_error: i128 = 0;
    let mut k: i64 = 1;
    while k < 8
        invariant
            curve.in_range(),
            curve_within(*offset_curve, NEAR as int),
            0 <= offset <= 0x80_0000,
            1 <= k <= 8,
            max_error >= 0,
            forall|j: int| 1 <= j < k ==> #[trigger] dist2(eval_offset(*curve, j, offset as int), eval_offset(*offset_curve, j, 0)) <= max_error,
        decreases 8 - k,
    {
        let expected = eval_and_offset(curve, k, offset);
        let actual = eval_and_offset(offset_curve, k, 0);
        let dx = expected.x as i128 - actual.x as i128;
        let dy = expected.y as i128 - actual.y as i128;
        assert(0 <= dx * dx <= 0x100_0000_0000_0000 && 0 <= dy * dy <= 0x100_0000_0000_0000) by (nonlinear_arith)
            requires
                abs_le(dx as int, 0x1000_0000),
                abs_le(dy as int, 0x1000_0000),
        ;
        let error = dx * dx + dy * dy;
        if max_error < error {
            max_error = error;
        }
        k = k + 1;
    }
    max_error
}

/// A curve from the end of `previous` to the start of `next`, leaving and
/// arriving along their tangents.
fn connector(previous: &CubicBezier, next: &CubicBezier) -> (r: CubicBezier)
    requires
        curve_within(*previous, NEAR as int),
        curve_within(*next, NEAR as int),
    ensures
        r.c1 == previous.c4,
        r.c4 == next.c1,
        curve_within(r, FAR as int),
{
    let gap = diff(previous.c4, next.c1);
    let g0 = gap.0 as i128;
    let g1 = gap.1 as i128;
    assert(0 <= g0 * g0 <= 0x100_0000_0000_0000 && 0 <= g1 * g1 <= 0x100_0000_0000_0000) by (nonlinear_arith)
        requires
            abs_le(g0 as int, 0x1000_0000),
            abs_le(g1 as int, 0x1000_0000),
    ;
    let dist = isqrt(g0 * g0 + g1 * g1);
    assert(dist <= 0x2000_0000) by (nonlinear_arith)
        requires
            dist * dist <= g0 * g0 + g1 * g1,
            g0 * g0 + g1 * g1 <= 0x200_0000_0000_0000,
            dist >= 0,
    ;
    let ctrl_len = (dist / 2) as i64;
    let v1 = scale_to_far(diff(previous.c3, previous.c4), ctrl_len);
    let v2 = scale_to_far(diff(next.c2, next.c1), ctrl_len);
    CubicBezier {
        c1: previous.c4,
        c2: Point { x: (previous.c4.x as i64 + v1.0) as i32, y: (previous.c4.y as i64 + v1.1) as i32 },
        c3: Point { x: (next.c1.x as i64 + v2.0) as i32, y: (next.c1.y as i64 + v2.1) as i32 },
        c4: next.c1,
    }
}

fn scale_to_far(d: (i64, i64), length: i64) -> (r: (i64, i64))
    requires
        abs_le(d.0 as int, 0x1000_0000),
        abs_le(d.1 as int, 0x1000_0000),
        0 <= length <= 0x1000_0000,
    ensures
        abs_le(r.0 as int, 0x1000_0000),
        abs_le(r.1 as int, 0x1000_0000),
{
    scale_to(d.0, d.1, length)
}

/// `t` is one of the pieces that `d` halvings make of `s`.
pub open spec fn descendant(s: CubicBezier, t: CubicBezier, d: nat) -> bool
    decreases d,
{
    if d == 0 {
        t == s
    } else {
        descendant(halves(s).0, t, (d - 1) as nat) || descendant(halves(s).1, t, (d - 1) as nat)
    }
}

proof fn lemma_descendant_halves(s: CubicBezier, c: CubicBezier, d: nat)
    requires
        descendant(s, c, d),
    ensures
        descendant(s, halves(c).0, d + 1),
        descendant(s, halves(c).1, d + 1),
    decreases d,
{
    assert(((d + 1) - 1) as nat == d);
    if d == 0 {
        assert(descendant(halves(s).0, halves(c).0, 0));
        assert(descendant(halves(s).0, halves(c).1, 0) || descendant(halves(s).1, halves(c).1, 0));
    } else {
        if descendant(halves(s).0, c, (d - 1) as nat) {
            lemma_descendant_halves(halves(s).0, c, (d - 1) as nat);
            assert(descendant(halves(s).0, halves(c).0, d));
            assert(descendant(halves(s).0, halves(c).1, d));
        } else {
            lemma_descendant_halves(halves(s).1, c, (d - 1) as nat);
            assert(descendant(halves(s).1, halves(c).0, d));
            assert(descendant(halves(s).1, halves(c).1, d));
        }
    }
}

/// The same curve, walked from `c4` to `c1`.
pub open spec fn reversed_curve(c: CubicBezier) -> CubicBezier {
    CubicBezier { c1: c.c4, c2: c.c3, c3: c.c2, c4: c.c1 }
}

/// Curve `k` of the path walked forward, or of the path walked backward.
pub open spec fn side_curve(shape: Seq<CubicBezier>, reversed: bool, k: int) -> CubicBezier {
    if reversed {
        reversed_curve(shape[shape.len() - 1 - k])
    } else {
        shape[k]
    }
}

/// `p` is a piece of a side: some curve `src`, obtained from a curve of the
/// walked path by `d` halvings, moved by `nf` along its normals; and at each
/// sampled parameter it lies within the tolerance of `src` moved by `nf`
/// along its normal, unless the halvings were stopped at `MAX_DEPTH`.
#[verifier::opaque]
pub open spec fn piece_ok(p: CubicBezier, shape: Seq<CubicBezier>, reversed: bool, nf: int, max_error_sq: int) -> bool {
    exists|k: int, d: nat, src: CubicBezier|
        0 <= k < shape.len() && d <= MAX_DEPTH && #[trigger] descendant(
            side_curve(shape, reversed, k),
            src,
            d,
        ) && p == offset_of(src, nf) && (within_tolerance(src, p, nf, max_error_sq) || d
            == MAX_DEPTH)
}

/// One side of an outline: a chain of pieces (see [`piece_ok`]), where a
/// curve that is no piece only bridges two pieces; every curve within
/// `FAR`, the first and last ones pieces within `NEAR`.
#[verifier::opaque]
pub open spec fn side_ok(s: Seq<CubicBezier>, shape: Seq<CubicBezier>, reversed: bool, nf: int, max_error_sq: int) -> bool {
    &&& is_continuous(s)
    &&& forall|i: int| 0 <= i < s.len() ==> curve_within(#[trigger] s[i], FAR as int)
    &&& s.len() > 0 ==> curve_within(s[0], NEAR as int) && curve_within(s.last(), NEAR as int)
        && piece_ok(s[0], shape, reversed, nf, max_error_sq) && piece_ok(
        s.last(),
        shape,
        reversed,
        nf,
        max_error_sq,
    )
    &&& forall|i: int|
        0 <= i < s.len() ==> piece_ok(#[trigger] s[i], shape, reversed, nf, max_error_sq) || (0 < i
            < s.len() - 1 && piece_ok(s[i - 1], shape, reversed, nf, max_error_sq) && piece_ok(
            s[i + 1],
            shape,
            reversed,
            nf,
            max_error_sq,
        ))
}

/// Two chains, the second starting where the first ends, make one chain.
pub proof fn lemma_concat_chain(a: Seq<CubicBezier>, b: Seq<CubicBezier>)
    requires
        is_continuous(a),
        is_continuous(b),
        a.len() > 0 && b.len() > 0 ==> a.last().c4 == b[0].c1,
    ensures
        is_continuous(a + b),
{
    let s = a + b;
    assert forall|i: int| 0 <= i < s.len() - 1 implies #[trigger] s[i].c4 == s[i + 1].c1 by {
        if i < a.len() - 1 {
            assert(s[i] == a[i] && s[i + 1] == a[i + 1]);
        } else if i == a.len() - 1 {
            assert(s[i] == a.last() && s[i + 1] == b[0]);
        } else {
            assert(s[i] == b[i - a.len()] && s[i + 1] == b[i - a.len() + 1]);
        }
    }
}

/// Offsets a curve, halving it until the offset is within the tolerance
/// (or `MAX_DEPTH` halvings), and appends the pieces to the chain `side`,
/// bridging gaps between consecutive pieces with connectors.
fn emit(
    c: CubicBezier,
    depth: u32,
    normal_factor: i64,
    max_error_sq: i128,
    side: &mut Vec<CubicBezier>,
    Ghost(shape): Ghost<Seq<CubicBezier>>,
    Ghost(reversed): Ghost<bool>,
    Ghost(k): Ghost<int>,
)
    requires
        c.in_range(),
        depth <= MAX_DEPTH,
        0 <= normal_factor <= 0x80_0000,
        0 <= k < shape.len(),
        descendant(side_curve(shape, reversed, k), c, depth as nat),
        side_ok(old(side)@, shape, reversed, normal_factor as int, max_error_sq as int),
    ensures
        side_ok(final(side)@, shape, reversed, normal_factor as int, max_error_sq as int),
        final(side)@.len() > old(side)@.len(),
        final(side)@.subrange(0, old(side)@.len() as int) == old(side)@,
    decreases MAX_DEPTH - depth,
{
    reveal(side_ok);
    let ghost nf = normal_factor as int;
    let ghost me = max_error_sq as int;
    let shifted = c.offset(normal_factor);
    let err = max_offset_error(&c, &shifted, normal_factor);
    if depth >= MAX_DEPTH || err <= max_error_sq {
        let ghost s0 = side@;
        proof {
            reveal(within_tolerance);
            reveal(piece_ok);
            assert(within_tolerance(c, shifted, nf, me) || depth as nat == MAX_DEPTH);
        }
        assert(piece_ok(shifted, shape, reversed, nf, me));
        let n = side.len();
        if n > 0 {
            let last = side[n - 1];
            if last.c4 != shifted.c1 {
                let bridge = connector(&last, &shifted);
                proof {
                    lemma_concat_chain(side@, seq![bridge]);
                }
                side.push(bridge);
                assert(side@ =~= s0 + seq![bridge]);
            }
        }
        let ghost s1 = side@;
        proof {
            lemma_concat_chain(side@, seq![shifted]);
        }
        side.push(shifted);
        assert(side@ =~= s1 + seq![shifted]);
        assert(side@.subrange(0, s0.len() as int) =~= s0);
        assert forall|i: int| 0 <= i < side@.len() implies piece_ok(#[trigger] side@[i], shape, reversed, nf, me) || (0 < i
            < side@.len() - 1 && piece_ok(side@[i - 1], shape, reversed, nf, me) && piece_ok(
            side@[i + 1],
            shape,
            reversed,
            nf,
            me,
        )) by {
            if i < s0.len() {
                assert(side@[i] == s0[i]);
                if 0 < i < s0.len() - 1 {
                    assert(side@[i - 1] == s0[i - 1] && side@[i + 1] == s0[i + 1]);
                }
            } else if i == side@.len() - 1 {
            } else {
                assert(i == s0.len() && side@[i - 1] == s0.last());
            }
        }
    } else {
        let (l, r) = c.split();
        proof {
            lemma_descendant_halves(side_curve(shape, reversed, k), c, depth as nat);
        }
        let ghost s0 = side@;
        emit(l, depth + 1, normal_factor, max_error_sq, side, Ghost(shape), Ghost(reversed), Ghost(k));
        let ghost s1 = side@;
        emit(r, depth + 1, normal_factor, max_error_sq, side, Ghost(shape), Ghost(reversed), Ghost(k));
        assert(side@.subrange(0, s0.len() as int) =~= s1.subrange(0, s0.len() as int));
    }
}

/// The offset chain along one side of a path: forward, or along the
/// reversed path.
fn offset_side(shape: &Vec<CubicBezier>, reversed: bool, normal_factor: i64, max_error_sq: i128) -> (side: Vec<CubicBezier>)
    requires
        forall|i: int| 0 <= i < shape@.len() ==> (#[trigger] shape@[i]).in_range(),
        0 <= normal_factor <= 0x80_0000,
    ensures
        side_ok(side@, shape@, reversed, normal_factor as int, max_error_sq as int),
        side@.len() >= shape@.len(),
        is_continuous(side@),
        forall|i: int| 0 <= i < side@.len() ==> curve_within(#[trigger] side@[i], FAR as int),
        side@.len() > 0 ==> curve_within(side@[0], NEAR as int) && curve_within(side@.last(), NEAR as int),
{
    reveal(side_ok);
    let mut side: Vec<CubicBezier> = Vec::new();
    let n = shape.len();
    for i in 0..n
        invariant
            n == shape@.len(),
            forall|k: int| 0 <= k < shape@.len() ==> (#[trigger] shape@[k]).in_range(),
            0 <= normal_factor <= 0x80_0000,
            side_ok(side@, shape@, reversed, normal_factor as int, max_error_sq as int),
            side@.len() >= i,
    {
        let curve = if reversed {
            shape[n - 1 - i].reversed()
        } else {
            shape[i]
        };
        assert(descendant(side_curve(shape@, reversed, i as int), curve, 0));
        emit(curve, 0, normal_factor, max_error_sq, &mut side, Ghost(shape@), Ghost(reversed), Ghost(i as int));
    }
    side
}

/// Does the path end where it starts?
pub open spec fn ends_meet(shape: Seq<CubicBezier>) -> bool {
    shape[0].c1 == shape.last().c4
}

/// The layout of the outline of `shape`, whose sides are `o` (along the
/// path) and `i` (along the path walked backward), each offset by half the
/// width: where the path ends where it starts, a connector from the end of
/// `o` to its start, `o`, a straight curve across to the end of `i`, a
/// connector from the end of `i` to its start, `i`, and a straight curve
/// back; else a straight cap from the end of `i` to the start of `o`, `o`,
/// a straight cap from the end of `o` to the start of `i`, and `i`.
pub open spec fn stroke_layout(
    out: Seq<CubicBezier>,
    shape: Seq<CubicBezier>,
    width: u32,
    max_error: u32,
    o: Seq<CubicBezier>,
    i: Seq<CubicBezier>,
) -> bool {
    let nf = (width / 2) as int;
    let me = max_error * max_error;
    &&& side_ok(o, shape, false, nf, me)
    &&& side_ok(i, shape, true, nf, me)
    &&& o.len() >= shape.len()
    &&& i.len() >= shape.len()
    &&& if ends_meet(shape) {
        &&& out.len() == o.len() + i.len() + 4
        &&& out[0].c1 == o.last().c4
        &&& out[0].c4 == o[0].c1
        &&& out.subrange(1, o.len() as int + 1) == o
        &&& out[o.len() as int + 1] == straight(o.last().c4, i.last().c4)
        &&& out[o.len() as int + 2].c1 == i.last().c4
        &&& out[o.len() as int + 2].c4 == i[0].c1
        &&& out.subrange(o.len() as int + 3, o.len() as int + 3 + i.len() as int) == i
        &&& out.last() == straight(i.last().c4, o.last().c4)
    } else {
        out == seq![straight(i.last().c4, o[0].c1)] + o + seq![straight(o.last().c4, i[0].c1)] + i
    }
}

/// The outline of `shape` stroked `width` subpixel units wide, as a closed
/// path in `output` (emptied first): see [`stroke_layout`] and
/// [`piece_ok`]. Each side is the path offset by half the width, halved
/// until the offset is within `max_error` subpixel units of the true one at
/// the sampled parameters; gaps are bridged with connectors. An empty shape
/// gives an empty outline.
#[verifier::rlimit(60)]
pub fn contour(shape: &Vec<CubicBezier>, width: u32, output: &mut Vec<CubicBezier>, max_error: u32)
    requires
        forall|i: int| 0 <= i < shape@.len() ==> (#[trigger] shape@[i]).in_range(),
        width <= STROKE_LIMIT,
    ensures
        shape@.len() == 0 ==> final(output)@.len() == 0,
        shape@.len() > 0 ==> is_closed(final(output)@) && exists|o: Seq<CubicBezier>, i: Seq<CubicBezier>|
            #[trigger] stroke_layout(final(output)@, shape@, width, max_error, o, i),
        shape@.len() > 0 ==> final(output)@.len() >= 2 * shape@.len() + 2,
        shape@.len() > 0 && ends_meet(shape@) ==> final(output)@.len() >= 2 * shape@.len() + 4,
        forall|i: int| 0 <= i < final(output)@.len() ==> curve_within(#[trigger] final(output)@[i], FAR as int),
{
    output.clear();
    if shape.len() == 0 {
        return;
    }
    let normal_factor = (width / 2) as i64;
    let me = max_error as i128;
    assert(0 <= me * me <= 0x1_0000_0000 * 0x1_0000_0000) by (nonlinear_arith)
        requires
            0 <= me <= 0xffff_ffff,
    ;
    let max_error_sq = me * me;
    let mut outer = offset_side(shape, false, normal_factor, max_error_sq);
    let mut inner = offset_side(shape, true, normal_factor, max_error_sq);
    let closed = shape[0].c1 == shape[shape.len() - 1].c4;
    let outer_first = outer[0];
    let outer_last = outer[outer.len() - 1];
    let inner_first = inner[0];
    let inner_last = inner[inner.len() - 1];
    let ghost o = outer@;
    let ghost i = inner@;
    assert(max_error_sq as int == max_error * max_error);
    if closed {
        let head = connector(&outer_last, &outer_first);
        let cross = CubicBezier::segment(outer_last.c4, inner_last.c4);
        let bridge = connector(&inner_last, &inner_first);
        let back = CubicBezier::segment(inner_last.c4, outer_last.c4);
        output.push(head);
        output.append(&mut outer);
        output.push(cross);
        output.push(bridge);
        output.append(&mut inner);
        output.push(back);
        proof {
            lemma_concat_chain(seq![head], o);
            lemma_concat_chain(seq![head] + o, seq![cross, bridge]);
            lemma_concat_chain(seq![head] + o + seq![cross, bridge], i);
            lemma_concat_chain(seq![head] + o + seq![cross, bridge] + i, seq![back]);
        }
        assert(output@ =~= seq![head] + o + seq![cross, bridge] + i + seq![back]);
        assert(output@.subrange(1, o.len() as int + 1) =~= o);
        assert(output@.subrange(o.len() as int + 3, o.len() as int + 3 + i.len() as int) =~= i);
        assert(stroke_layout(output@, shape@, width, max_error, o, i));
    } else {
        let head = CubicBezier::segment(inner_last.c4, outer_first.c1);
        let turn = CubicBezier::segment(outer_last.c4, inner_first.c1);
        output.push(head);
        output.append(&mut outer);
        output.push(turn);
        output.append(&mut inner);
        proof {
            lemma_concat_chain(seq![head], o);
            lemma_concat_chain(seq![head] + o, seq![turn]);
            lemma_concat_chain(seq![head] + o + seq![turn], i);
        }
        assert(output@ =~= seq![head] + o + seq![turn] + i);
        assert(stroke_layout(output@, shape@, width, max_error, o, i));
    }
}

} // verus!
