//! Point-in-path without tiles: each sample flattens the path around
//! itself and counts signed crossings, under the nonzero rule or, with
//! `holes`, the even-odd rule.
use vstd::prelude::*;
use vstd::arithmetic::power2::{pow2, lemma_pow2_unfold, lemma2_to64};
use crate::geometry::{Point, CubicBezier, BoundingBox, SUBPIXELS, COORD_LIMIT, is_curve_straight};
use crate::winding::{Segment, winding_number, winding_step};
use crate::tile::{MAX_DEPTH, flat_segs, path_segs};
use crate::ssaa::{SsaaConfig, offset_table, lemma_offsets_small};

verus! {

/// The box around a sample within which curves are flattened for it: one
/// pixel of margin on each side.
pub open spec fn sample_box(p: Point) -> BoundingBox {
    BoundingBox {
        min_x: (p.x - SUBPIXELS) as i32,
        min_y: (p.y - SUBPIXELS) as i32,
        max_x: (p.x + SUBPIXELS) as i32,
        max_y: (p.y + SUBPIXELS) as i32,
    }
}

/// Signed winding number of `p` against the path flattened around it.
pub open spec fn reference_winding(p: Point, path: Seq<CubicBezier>) -> int {
    winding_number(p, path_segs(path, sample_box(p)))
}

/// Is `p` inside: a nonzero winding number, or with `holes` an odd one.
pub open spec fn reference_inside(p: Point, path: Seq<CubicBezier>, holes: bool) -> bool {
    if holes {
        reference_winding(p, path) % 2 != 0
    } else {
        reference_winding(p, path) != 0
    }
}

/// Winding numbers add up over concatenated segment lists.
pub proof fn lemma_winding_concat(p: Point, a: Seq<Segment>, b: Seq<Segment>)
    ensures
        winding_number(p, a + b) == winding_number(p, a) + winding_number(p, b),
    decreases b.len(),
{
    if b.len() == 0 {
        assert(a + b =~= a);
    } else {
        lemma_winding_concat(p, a, b.drop_last());
        assert((a + b).drop_last() =~= a + b.drop_last());
        assert((a + b).last() == b.last());
    }
}

fn winding_step_exec(p: Point, a: Point, b: Point) -> (r: i128)
    ensures
        r == winding_step(p, a, b),
{
    let v1x: i128 = p.x as i128 - a.x as i128;
    let v1y: i128 = p.y as i128 - a.y as i128;
    let v2x: i128 = b.x as i128 - a.x as i128;
    let v2y: i128 = b.y as i128 - a.y as i128;
    assert(-0x4_0000_0000_0000_0000 <= v1x * v2y <= 0x4_0000_0000_0000_0000
        && -0x4_0000_0000_0000_0000 <= v1y * v2x <= 0x4_0000_0000_0000_0000) by (nonlinear_arith)
        requires
            -0x2_0000_0000 <= v1x <= 0x2_0000_0000,
            -0x2_0000_0000 <= v1y <= 0x2_0000_0000,
            -0x2_0000_0000 <= v2x <= 0x2_0000_0000,
            -0x2_0000_0000 <= v2y <= 0x2_0000_0000,
    ;
    let below_start = a.y <= p.y;
    let above_end = b.y > p.y;
    let left = v1x * v2y > v1y * v2x;
    if below_start && above_end && left {
        -1
    } else if !below_start && !above_end && !left {
        1
    } else {
        0
    }
}

proof fn lemma_pow2_bounded(e: nat)
    requires
        e <= MAX_DEPTH,
    ensures
        pow2(e) <= 0x100_0000,
{
    lemma2_to64();
    if e < 24 {
        vstd::arithmetic::power2::lemma_pow2_strictly_increases(e, 24);
    }
}

/// Winding number of `p` against a curve flattened around it.
fn curve_winding(p: Point, c: CubicBezier, area: &BoundingBox, depth: u32) -> (r: i128)
    requires
        c.in_range(),
        depth <= MAX_DEPTH,
    ensures
        r == winding_number(p, flat_segs(c, *area, depth as nat)),
        -pow2((MAX_DEPTH - depth) as nat) <= r <= pow2((MAX_DEPTH - depth) as nat),
    decreases MAX_DEPTH - depth,
{
    proof {
        vstd::arithmetic::power2::lemma_pow2_pos((MAX_DEPTH - depth) as nat);
        lemma_pow2_bounded((MAX_DEPTH - depth) as nat);
    }
    if depth >= MAX_DEPTH || !c.aabb().overlaps_with(area) || is_curve_straight(&c) {
        let ghost segs = flat_segs(c, *area, depth as nat);
        assert(segs == seq![(c.c1, c.c4)]);
        assert(segs.last() == (c.c1, c.c4));
        assert(segs.drop_last() =~= Seq::<Segment>::empty());
        assert(winding_number(p, segs.drop_last()) == 0);
        winding_step_exec(p, c.c1, c.c4)
    } else {
        let (l, r) = c.split();
        proof {
            lemma_pow2_unfold((MAX_DEPTH - depth) as nat);
            assert((MAX_DEPTH - (depth + 1)) as nat == ((MAX_DEPTH - depth) as nat - 1) as nat);
        }
        let wl = curve_winding(p, l, area, depth + 1);
        let wr = curve_winding(p, r, area, depth + 1);
        proof {
            lemma_winding_concat(
                p,
                flat_segs(l, *area, depth as nat + 1),
                flat_segs(r, *area, depth as nat + 1),
            );
        }
        wl + wr
    }
}

/// Winding number of `p` against the path flattened for `area`.
pub fn path_winding(p: Point, path: &Vec<CubicBezier>, area: &BoundingBox) -> (r: i128)
    requires
        forall|i: int| 0 <= i < path@.len() ==> (#[trigger] path@[i]).in_range(),
    ensures
        r == winding_number(p, path_segs(path@, *area)),
{
    let mut winding: i128 = 0;
    for i in 0..path.len()
        invariant
            forall|k: int| 0 <= k < path@.len() ==> (#[trigger] path@[k]).in_range(),
            winding == winding_number(p, path_segs(path@.take(i as int), *area)),
            -(i * 0x100_0000) <= winding <= i * 0x100_0000,
            i <= path@.len(),
    {
        let w = curve_winding(p, path[i], area, 0);
        proof {
            assert(path@.take(i + 1).drop_last() =~= path@.take(i as int));
            lemma_winding_concat(
                p,
                path_segs(path@.take(i as int), *area),
                flat_segs(path@[i as int], *area, 0),
            );
            assert((MAX_DEPTH - 0u32) as nat == 24);
            lemma_pow2_bounded(24);
            assert((i + 1) * 0x100_0000 == i * 0x100_0000 + 0x100_0000) by (nonlinear_arith);
            assert(i * 0x100_0000 <= 0x1_0000_0000_0000_0000 * 0x100_0000) by (nonlinear_arith)
                requires
                    i <= 0xffff_ffff_ffff_ffff,
            ;
        }
        winding = winding + w;
    }
    assert(path@.take(path@.len() as int) =~= path@);
    winding
}

/// Is the sample `pixel` inside the path: nonzero winding number, or with
/// `holes` an odd one? Curves are flattened around the sample only.
pub fn subpixel_is_in_path(pixel: Point, path: &Vec<CubicBezier>, holes: bool) -> (r: bool)
    requires
        pixel.in_range(),
        forall|i: int| 0 <= i < path@.len() ==> (#[trigger] path@[i]).in_range(),
    ensures
        r == reference_inside(pixel, path@, holes),
{
    let area = BoundingBox {
        min_x: pixel.x - SUBPIXELS,
        min_y: pixel.y - SUBPIXELS,
        max_x: pixel.x + SUBPIXELS,
        max_y: pixel.y + SUBPIXELS,
    };
    let winding = path_winding(pixel, path, &area);
    if holes {
        winding % 2 != 0
    } else {
        winding != 0
    }
}

/// Subsample `k` around the point `p`.
pub open spec fn subsample(p: Point, c: SsaaConfig, k: int) -> Point {
    Point { x: (p.x + offset_table(c)[k].0) as i32, y: (p.y + offset_table(c)[k].1) as i32 }
}

/// Number of the first `k` subsamples around `p` that are inside.
pub open spec fn inside_count(p: Point, path: Seq<CubicBezier>, holes: bool, c: SsaaConfig, k: int) -> nat
    decreases k,
{
    if k <= 0 {
        0
    } else {
        inside_count(p, path, holes, c, k - 1) + if reference_inside(subsample(p, c, k - 1), path, holes) {
            1nat
        } else {
            0nat
        }
    }
}

/// Opacity at the point `p` (a pixel's center, in subpixel units): the
/// share of its subsamples inside the path, out of 255.
pub fn pixel_opacity(p: Point, path: &Vec<CubicBezier>, holes: bool, ssaa: SsaaConfig) -> (r: u8)
    requires
        -(COORD_LIMIT - 12) <= p.x <= COORD_LIMIT - 12,
        -(COORD_LIMIT - 12) <= p.y <= COORD_LIMIT - 12,
        forall|i: int| 0 <= i < path@.len() ==> (#[trigger] path@[i]).in_range(),
    ensures
        r == inside_count(p, path@, holes, ssaa, ssaa.samples() as int) * 255 / ssaa.samples(),
{
    let offsets = ssaa.offsets();
    let n = ssaa.as_mul();
    proof {
        lemma_offsets_small(ssaa);
    }
    let mut count: u32 = 0;
    for k in 0..n
        invariant
            n == ssaa.samples(),
            offsets@ == offset_table(ssaa),
            offsets@.len() == n,
            forall|i: int| 0 <= i < n ==> -12 <= #[trigger] offsets@[i].0 <= 12 && -12 <= offsets@[i].1 <= 12,
            forall|i: int| 0 <= i < path@.len() ==> (#[trigger] path@[i]).in_range(),
            -(COORD_LIMIT - 12) <= p.x <= COORD_LIMIT - 12,
            -(COORD_LIMIT - 12) <= p.y <= COORD_LIMIT - 12,
            count == inside_count(p, path@, holes, ssaa, k as int),
            count <= k,
    {
        let off = offsets[k];
        let q = Point { x: p.x + off.0, y: p.y + off.1 };
        assert(q == subsample(p, ssaa, k as int));
        if subpixel_is_in_path(q, path, holes) {
            count = count + 1;
        }
    }
    let d = n as u32;
    let total = count * 255;
    assert(total / d <= 255) by (nonlinear_arith)
        requires
            count <= d,
            d >= 1,
            total == count * 255,
    ;
    (total / d) as u8
}

/// The segments between consecutive points of a polyline.
pub open spec fn polyline_segs(points: Seq<Point>) -> Seq<Segment> {
    if points.len() < 2 {
        seq![]
    } else {
        Seq::new((points.len() - 1) as nat, |i: int| (points[i], points[i + 1]))
    }
}

/// Is `p` inside the closed polyline (first and last points equal) under
/// the nonzero rule?
pub fn is_inside(p: Point, points: &Vec<Point>) -> (r: bool)
    ensures
        r == (winding_number(p, polyline_segs(points@)) != 0),
{
    let n = points.len();
    if n < 2 {
        return false;
    }
    let mut winding: i128 = 0;
    for i in 1..n
        invariant
            n == points@.len(),
            n >= 2,
            winding == winding_number(p, polyline_segs(points@.take(i as int))),
            -(i as int) <= winding <= i,
    {
        proof {
            let prev = polyline_segs(points@.take(i as int));
            let next = polyline_segs(points@.take(i + 1));
            assert(next.drop_last() =~= prev) by {
                if i >= 2 {
                    assert(next.drop_last().len() == prev.len());
                }
            }
            assert(next.last() == (points@[i - 1], points@[i as int]));
        }
        winding = winding + winding_step_exec(p, points[i - 1], points[i]);
    }
    assert(points@.take(n as int) =~= points@);
    winding != 0
}

} // verus!
