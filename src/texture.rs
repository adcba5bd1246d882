//! Paints: what color a filled shape has at a sample point.
use vstd::prelude::*;
use crate::geometry::{Point, SUBPIXELS};
use crate::color::{Color, transparent, rainbow, rainbow_stripe};
use crate::bitmap::{Bitmap, Bitmaps, BitmapHandle, texel};
use crate::winding::{toggles, toggle_in_shape};

verus! {

/// The paint of a filled shape.
pub enum Texture {
    SolidColor(Color),
    /// Color stops; not supported yet, samples as transparent.
    Gradient(Vec<(Point, Color)>),
    /// A bitmap whose top left corner is at `top_left`, each texel `scale`
    /// subpixel units wide and high; with `repeat` it tiles the plane.
    Bitmap { top_left: Point, scale: u32, repeat: bool, bitmap: BitmapHandle },
    /// A bitmap mapped onto an arbitrary quadrilateral.
    QuadBitmap {
        top_left: Point,
        btm_left: Point,
        top_right: Point,
        btm_right: Point,
        bitmap: BitmapHandle,
    },
    /// Diagnostic rainbow stripes.
    Debug,
}

/// Pixel column or row of a subpixel coordinate, negative ones counted as
/// zero.
pub open spec fn pixel_of(v: i32) -> int {
    if v < 0 { 0 } else { v / SUBPIXELS }
}

/// The scaled bitmap's color at offset `(ox, oy)` from its top left
/// corner, before wrapping.
pub open spec fn scaled_texel(b: Bitmap, ox: int, oy: int, scale: int, repeat: bool) -> Color {
    let sw = b.width * scale;
    let sh = b.height * scale;
    if scale <= 0 || sw == 0 || sh == 0 {
        transparent()
    } else {
        let x = if repeat { ox % sw } else { ox };
        let y = if repeat { oy % sh } else { oy };
        if 0 <= x < sw && 0 <= y < sh {
            texel(b.width as int, b.height as int, b.pixels@, x / scale, y / scale)
        } else {
            transparent()
        }
    }
}

/// Euclidean remainder, always in `0 .. m`.
fn rem_euclid(o: i128, m: i128) -> (r: i128)
    requires
        m > 0,
        -0x1_0000_0000_0000_0000 <= o <= 0x1_0000_0000_0000_0000,
    ensures
        r == o % m,
        0 <= r < m,
{
    if o >= 0 {
        o % m
    } else {
        let n: i128 = -o;
        let q = n / m;
        let rr = n % m;
        proof {
            vstd::arithmetic::div_mod::lemma_fundamental_div_mod(n as int, m as int);
        }
        assert(o == (-q) * m - rr) by (nonlinear_arith)
            requires
                n == m * (n / m) + n % m,
                q == n / m,
                rr == n % m,
                o == -n,
        ;
        assert(o == (-q - 1) * m + (m - rr)) by (nonlinear_arith)
            requires
                o == (-q) * m - rr,
        ;
        if rr == 0 {
            proof {
                vstd::arithmetic::div_mod::lemma_fundamental_div_mod_converse(
                    o as int,
                    m as int,
                    -q,
                    0,
                );
            }
            0
        } else {
            proof {
                vstd::arithmetic::div_mod::lemma_fundamental_div_mod_converse(
                    o as int,
                    m as int,
                    -q - 1,
                    m - rr,
                );
            }
            m - rr
        }
    }
}

impl Bitmap {
    /// Samples the bitmap placed at `top_left` with texels `scale` subpixel
    /// units wide, repeating it over the plane when `repeat` is set; outside
    /// the bitmap the sample is transparent.
    pub fn sample_scaled(&self, pixel: Point, top_left: Point, scale: u32, repeat: bool) -> (c: Color)
        requires
            self.wf(),
        ensures
            c == scaled_texel(
                *self,
                pixel.x - top_left.x,
                pixel.y - top_left.y,
                scale as int,
                repeat,
            ),
    {
        let ox: i128 = pixel.x as i128 - top_left.x as i128;
        let oy: i128 = pixel.y as i128 - top_left.y as i128;
        let s = scale as i128;
        assert(0 <= self.width * scale <= 0x1000_0000 * 0x1_0000_0000) by (nonlinear_arith)
            requires
                self.width <= 0x1000_0000,
                scale <= 0xffff_ffff,
        ;
        assert(0 <= self.height * scale <= 0x1000_0000 * 0x1_0000_0000) by (nonlinear_arith)
            requires
                self.height <= 0x1000_0000,
                scale <= 0xffff_ffff,
        ;
        let sw: i128 = self.width as i128 * s;
        let sh: i128 = self.height as i128 * s;
        if s <= 0 || sw == 0 || sh == 0 {
            return Color::transparent();
        }
        let x = if repeat { rem_euclid(ox, sw) } else { ox };
        let y = if repeat { rem_euclid(oy, sh) } else { oy };
        if 0 <= x && x < sw && 0 <= y && y < sh {
            let tx = x / s;
            let ty = y / s;
            assert(tx < self.width && ty < self.height) by (nonlinear_arith)
                requires
                    0 <= x < sw,
                    0 <= y < sh,
                    sw == self.width * s,
                    sh == self.height * s,
                    s > 0,
                    tx == x / s,
                    ty == y / s,
            ;
            self.sample(tx as usize, ty as usize)
        } else {
            Color::transparent()
        }
    }
}

/// Product of two bounded integers, with its bound.
fn mul_b(a: i128, b: i128, Ghost(ba): Ghost<int>, Ghost(bb): Ghost<int>) -> (r: i128)
    requires
        0 <= ba,
        0 <= bb,
        -ba <= a <= ba,
        -bb <= b <= bb,
        ba * bb <= 0x4000_0000_0000_0000_0000_0000_0000_0000,
    ensures
        r == a * b,
        -(ba * bb) <= r <= ba * bb,
{
    assert(-(ba * bb) <= a * b <= ba * bb) by (nonlinear_arith)
        requires
            0 <= ba,
            0 <= bb,
            -ba <= a <= ba,
            -bb <= b <= bb,
    ;
    a * b
}

/// The integer square root of `d`, rounded down.
pub open spec fn is_floor_sqrt(d: int, r: int) -> bool {
    0 <= r && r * r <= d < (r + 1) * (r + 1)
}

pub open spec fn floor_sqrt(d: int) -> int {
    choose|r: int| is_floor_sqrt(d, r)
}

proof fn lemma_floor_sqrt_unique(d: int, r: int)
    requires
        is_floor_sqrt(d, r),
    ensures
        floor_sqrt(d) == r,
{
    let c = floor_sqrt(d);
    assert(is_floor_sqrt(d, c));
    if c < r {
        assert((c + 1) * (c + 1) <= r * r) by (nonlinear_arith)
            requires
                0 <= c < r,
        ;
    } else if r < c {
        assert((r + 1) * (r + 1) <= c * c) by (nonlinear_arith)
            requires
                0 <= r < c,
        ;
    }
}

/// Integer square root by bisection.
pub fn isqrt(d: i128) -> (r: i128)
    requires
        0 <= d < 0x1000_0000_0000_0000_0000_0000_0000,
    ensures
        is_floor_sqrt(d as int, r as int),
        r == floor_sqrt(d as int),
        r <= 0x40_0000_0000_0000,
{
    let mut lo: i128 = 0;
    let mut hi: i128 = 0x40_0000_0000_0000;
    assert(hi * hi == 0x1000_0000_0000_0000_0000_0000_0000) by (nonlinear_arith)
        requires
            hi == 0x40_0000_0000_0000,
    ;
    while hi - lo > 1
        invariant
            0 <= lo < hi <= 0x40_0000_0000_0000,
            lo * lo <= d,
            d < hi * hi,
        decreases hi - lo,
    {
        let mid = lo + (hi - lo) / 2;
        assert(mid * mid <= 0x1000_0000_0000_0000_0000_0000_0000) by (nonlinear_arith)
            requires
                0 <= mid <= 0x40_0000_0000_0000,
        ;
        if mid * mid <= d {
            lo = mid;
        } else {
            hi = mid;
        }
    }
    assert(hi == lo + 1);
    proof {
        lemma_floor_sqrt_unique(d as int, lo as int);
    }
    lo
}

/// Cross product of two vectors.
pub open spec fn wedge(ax: int, ay: int, bx: int, by: int) -> int {
    ax * by - ay * bx
}

/// Does `n / d` lie in `0 ..= 1`?
pub open spec fn unit_ratio(n: int, d: int) -> bool {
    if d > 0 {
        0 <= n <= d
    } else {
        d < 0 && d <= n <= 0
    }
}

/// `n / d` scaled by `size`, rounded down.
pub open spec fn scaled_floor(n: int, d: int, size: int) -> int {
    if d > 0 {
        (n * size) / d
    } else {
        ((-n) * size) / (-d)
    }
}

/// A candidate solution of the bilinear patch equation, for `2 k2 v == t`:
/// the numerator and denominator of `u`, then of `v`.
pub open spec fn quad_root(hx: int, ex: int, fx: int, gx: int, k2: int, t: int) -> (int, int, int, int) {
    (hx * (2 * k2) - fx * t, ex * (2 * k2) + gx * t, t, 2 * k2)
}

/// Inverse bilinear mapping: the coordinates `(u, v)` that the point `p`
/// has in the patch with corners `tl`, `tr`, `br`, `bl`, as two fractions
/// `(u numerator, u denominator, v numerator, v denominator)`. Where the
/// edges make the equation linear, its one solution; else the first of the
/// two roots that lies in the unit square, or the other one. `None` where
/// no solution exists or a denominator vanishes.
pub open spec fn quad_uv(p: Point, tl: Point, tr: Point, br: Point, bl: Point) -> Option<(int, int, int, int)> {
    let ex = tr.x - tl.x;
    let ey = tr.y - tl.y;
    let fx = bl.x - tl.x;
    let fy = bl.y - tl.y;
    let gx = tl.x - tr.x + br.x - bl.x;
    let gy = tl.y - tr.y + br.y - bl.y;
    let hx = p.x - tl.x;
    let hy = p.y - tl.y;
    let k2 = wedge(gx, gy, fx, fy);
    let k1 = wedge(ex, ey, fx, fy) + wedge(hx, hy, gx, gy);
    let k0 = wedge(hx, hy, ex, ey);
    if k2 == 0 {
        let un = hx * k1 + fx * k0;
        let ud = ex * k1 - gx * k0;
        if ud == 0 || k1 == 0 {
            None
        } else {
            Some((un, ud, -k0, k1))
        }
    } else {
        let d = k1 * k1 - 4 * k0 * k2;
        if d < 0 {
            None
        } else {
            let w = floor_sqrt(d);
            let first = quad_root(hx, ex, fx, gx, k2, -k1 - w);
            let second = quad_root(hx, ex, fx, gx, k2, -k1 + w);
            if unit_ratio(first.0, first.1) && unit_ratio(first.2, first.3) {
                Some(first)
            } else if second.1 == 0 {
                None
            } else {
                Some(second)
            }
        }
    }
}

/// Where the edges make the equation linear (`k2 == 0`), the fractions
/// `quad_uv` returns satisfy, multiplied through by both denominators, the
/// x component of the bilinear patch equation
/// `p - tl == u (tr - tl) + v (bl - tl) + u v (tl - tr + br - bl)`, and `v`
/// is the root of `k1 v + k0 == 0`, the linear equation in `v` that the
/// patch equation reduces to.
pub proof fn lemma_linear_uv_solves(p: Point, tl: Point, tr: Point, br: Point, bl: Point)
    requires
        quad_uv(p, tl, tr, br, bl) is Some,
        wedge(
            tl.x - tr.x + br.x - bl.x,
            tl.y - tr.y + br.y - bl.y,
            bl.x - tl.x,
            bl.y - tl.y,
        ) == 0,
    ensures
        ({
            let (un, ud, vn, vd) = quad_uv(p, tl, tr, br, bl)->0;
            let ex = tr.x - tl.x;
            let ey = tr.y - tl.y;
            let fx = bl.x - tl.x;
            let fy = bl.y - tl.y;
            let gx = tl.x - tr.x + br.x - bl.x;
            let gy = tl.y - tr.y + br.y - bl.y;
            let hx = p.x - tl.x;
            let hy = p.y - tl.y;
            let k1 = wedge(ex, ey, fx, fy) + wedge(hx, hy, gx, gy);
            let k0 = wedge(hx, hy, ex, ey);
            &&& hx * ud * vd == un * ex * vd + vn * fx * ud + un * vn * gx
            &&& k1 * vn + k0 * vd == 0
        }),
{
    let ex = tr.x - tl.x;
    let fx = bl.x - tl.x;
    let gx = tl.x - tr.x + br.x - bl.x;
    let hx = p.x - tl.x;
    let hy = p.y - tl.y;
    let k1 = wedge(ex, tr.y - tl.y, fx, bl.y - tl.y) + wedge(hx, hy, gx, tl.y - tr.y + br.y - bl.y);
    let k0 = wedge(hx, hy, ex, tr.y - tl.y);
    let a = hx * k1;
    let b = fx * k0;
    let un = a + b;
    let ud = ex * k1 - gx * k0;
    assert(hx * ud * k1 == ud * a) by (nonlinear_arith)
        requires
            a == hx * k1,
    ;
    assert((-k0) * fx * ud == -(ud * b)) by (nonlinear_arith)
        requires
            b == fx * k0,
    ;
    assert(ud * un == ud * a + ud * b) by (nonlinear_arith)
        requires
            un == a + b,
    ;
    assert(un * ex * k1 == un * (ex * k1)) by (nonlinear_arith);
    assert(un * (-k0) * gx == -(un * (gx * k0))) by (nonlinear_arith);
    assert(un * ud == un * (ex * k1) - un * (gx * k0)) by (nonlinear_arith)
        requires
            ud == ex * k1 - gx * k0,
    ;
    assert(ud * un == un * ud) by (nonlinear_arith);
    assert(k1 * (-k0) + k0 * k1 == 0) by (nonlinear_arith);
}

/// Is `p` inside the quadrilateral: an odd number of its edges flip it?
pub open spec fn in_quad(p: Point, tl: Point, bl: Point, tr: Point, br: Point) -> bool {
    ((toggles(p, bl, tl) != toggles(p, tl, tr)) != toggles(p, tr, br)) != toggles(p, br, bl)
}

/// The bitmap's color at `p` once mapped onto the quadrilateral, nearest
/// texel; `None` outside the quadrilateral or where the mapping fails.
pub open spec fn quad_sample(b: Bitmap, p: Point, tl: Point, bl: Point, tr: Point, br: Point) -> Option<Color> {
    if !in_quad(p, tl, bl, tr, br) {
        None
    } else {
        match quad_uv(p, tl, tr, br, bl) {
            None => None,
            Some(uv) => Some(
                texel(
                    b.width as int,
                    b.height as int,
                    b.pixels@,
                    scaled_floor(uv.0, uv.1, b.width as int),
                    scaled_floor(uv.2, uv.3, b.height as int),
                ),
            ),
        }
    }
}

fn unit_ratio_exec(n: i128, d: i128) -> (r: bool)
    ensures
        r == unit_ratio(n as int, d as int),
{
    if d > 0 {
        0 <= n && n <= d
    } else {
        d < 0 && d <= n && n <= 0
    }
}

fn quad_root_exec(hx: i128, ex: i128, fx: i128, gx: i128, k2: i128, t: i128) -> (r: (i128, i128, i128, i128))
    requires
        -0x200_0000 <= hx <= 0x200_0000,
        -0x200_0000 <= ex <= 0x200_0000,
        -0x200_0000 <= fx <= 0x200_0000,
        -0x400_0000 <= gx <= 0x400_0000,
        -0x10_0000_0000_0000 <= k2 <= 0x10_0000_0000_0000,
        -0x80_0000_0000_0000 <= t <= 0x80_0000_0000_0000,
    ensures
        (r.0 as int, r.1 as int, r.2 as int, r.3 as int) == quad_root(
            hx as int,
            ex as int,
            fx as int,
            gx as int,
            k2 as int,
            t as int,
        ),
        -0x4_0000_0000_0000_0000_0000 <= r.0 <= 0x4_0000_0000_0000_0000_0000,
        -0x4_0000_0000_0000_0000_0000 <= r.1 <= 0x4_0000_0000_0000_0000_0000,
        -0x80_0000_0000_0000 <= r.2 <= 0x80_0000_0000_0000,
        -0x20_0000_0000_0000 <= r.3 <= 0x20_0000_0000_0000,
{
    let k22 = 2 * k2;
    let a = mul_b(hx, k22, Ghost(0x200_0000), Ghost(0x20_0000_0000_0000));
    let b = mul_b(fx, t, Ghost(0x200_0000), Ghost(0x80_0000_0000_0000));
    let c = mul_b(ex, k22, Ghost(0x200_0000), Ghost(0x20_0000_0000_0000));
    let d = mul_b(gx, t, Ghost(0x400_0000), Ghost(0x80_0000_0000_0000));
    (a - b, c + d, t, k22)
}

/// Inverse bilinear mapping of `pt` in the patch `tl`, `tr`, `br`, `bl`.
pub fn inverse_bilinear(pt: Point, tl: Point, tr: Point, br: Point, bl: Point) -> (r: Option<(i128, i128, i128, i128)>)
    requires
        pt.in_range(),
        tl.in_range(),
        tr.in_range(),
        br.in_range(),
        bl.in_range(),
    ensures
        match r {
            None => quad_uv(pt, tl, tr, br, bl) is None,
            Some(v) => quad_uv(pt, tl, tr, br, bl) == Some(
                (v.0 as int, v.1 as int, v.2 as int, v.3 as int),
            ),
        },
        r matches Some(v) ==> -0x4_0000_0000_0000_0000_0000 <= v.0 <= 0x4_0000_0000_0000_0000_0000
            && -0x4_0000_0000_0000_0000_0000 <= v.1 <= 0x4_0000_0000_0000_0000_0000
            && -0x4_0000_0000_0000_0000_0000 <= v.2 <= 0x4_0000_0000_0000_0000_0000
            && -0x4_0000_0000_0000_0000_0000 <= v.3 <= 0x4_0000_0000_0000_0000_0000,
{
    let ex: i128 = tr.x as i128 - tl.x as i128;
    let ey: i128 = tr.y as i128 - tl.y as i128;
    let fx: i128 = bl.x as i128 - tl.x as i128;
    let fy: i128 = bl.y as i128 - tl.y as i128;
    let gx: i128 = tl.x as i128 - tr.x as i128 + br.x as i128 - bl.x as i128;
    let gy: i128 = tl.y as i128 - tr.y as i128 + br.y as i128 - bl.y as i128;
    let hx: i128 = pt.x as i128 - tl.x as i128;
    let hy: i128 = pt.y as i128 - tl.y as i128;
    let b25 = Ghost(0x200_0000int);
    let b26 = Ghost(0x400_0000int);
    let k2 = mul_b(gx, fy, b26, b25) - mul_b(gy, fx, b26, b25);
    let k1 = (mul_b(ex, fy, b25, b25) - mul_b(ey, fx, b25, b25)) + (mul_b(hx, gy, b25, b26) - mul_b(
        hy,
        gx,
        b25,
        b26,
    ));
    let k0 = mul_b(hx, ey, b25, b25) - mul_b(hy, ex, b25, b25);
    assert(k2 == wedge(gx as int, gy as int, fx as int, fy as int));
    assert(k1 == wedge(ex as int, ey as int, fx as int, fy as int) + wedge(hx as int, hy as int, gx as int, gy as int));
    assert(k0 == wedge(hx as int, hy as int, ex as int, ey as int));
    if k2 == 0 {
        let un = mul_b(hx, k1, b25, Ghost(0x20_0000_0000_0000)) + mul_b(
            fx,
            k0,
            b25,
            Ghost(0x8_0000_0000_0000),
        );
        let ud = mul_b(ex, k1, b25, Ghost(0x20_0000_0000_0000)) - mul_b(
            gx,
            k0,
            b26,
            Ghost(0x8_0000_0000_0000),
        );
        if ud == 0 || k1 == 0 {
            None
        } else {
            Some((un, ud, -k0, k1))
        }
    } else {
        let kk = mul_b(k1, k1, Ghost(0x20_0000_0000_0000), Ghost(0x20_0000_0000_0000));
        let kq = mul_b(k0, k2, Ghost(0x8_0000_0000_0000), Ghost(0x10_0000_0000_0000));
        let d = kk - 4 * kq;
        assert(d == k1 * k1 - 4 * k0 * k2) by (nonlinear_arith)
            requires
                kk == k1 * k1,
                kq == k0 * k2,
                d == kk - 4 * kq,
        ;
        if d < 0 {
            None
        } else {
            let w = isqrt(d);
            let first = quad_root_exec(hx, ex, fx, gx, k2, -k1 - w);
            let second = quad_root_exec(hx, ex, fx, gx, k2, -k1 + w);
            if unit_ratio_exec(first.0, first.1) && unit_ratio_exec(first.2, first.3) {
                Some(first)
            } else if second.1 == 0 {
                None
            } else {
                Some(second)
            }
        }
    }
}

/// `n / d` scaled by `size`, rounded down.
fn scaled_floor_exec(n: i128, d: i128, size: usize) -> (r: i128)
    requires
        d != 0,
        -0x4_0000_0000_0000_0000_0000 <= n <= 0x4_0000_0000_0000_0000_0000,
        -0x4_0000_0000_0000_0000_0000 <= d <= 0x4_0000_0000_0000_0000_0000,
        size <= 0x1000_0000,
    ensures
        r == scaled_floor(n as int, d as int, size as int),
{
    let s = size as i128;
    if d > 0 {
        let m = mul_b(n, s, Ghost(0x4_0000_0000_0000_0000_0000), Ghost(0x1000_0000));
        if m >= 0 {
            m / d
        } else {
            let q = rem_floor_div(m, d);
            q
        }
    } else {
        let m = mul_b(-n, s, Ghost(0x4_0000_0000_0000_0000_0000), Ghost(0x1000_0000));
        if m >= 0 {
            m / (-d)
        } else {
            rem_floor_div(m, -d)
        }
    }
}

/// Division rounded down, by a positive denominator.
pub fn floor_div(n: i128, d: i128) -> (q: i128)
    requires
        d > 0,
        -0x1_0000_0000_0000_0000_0000_0000_0000 <= n <= 0x1_0000_0000_0000_0000_0000_0000_0000,
    ensures
        q == n / d,
{
    if n >= 0 {
        n / d
    } else {
        rem_floor_div(n, d)
    }
}

/// Floor division of a negative numerator by a positive denominator.
fn rem_floor_div(m: i128, d: i128) -> (q: i128)
    requires
        d > 0,
        -0x1_0000_0000_0000_0000_0000_0000_0000 <= m < 0,
    ensures
        q == m / d,
{
    let n: i128 = -m;
    let q0 = n / d;
    let r0 = n % d;
    proof {
        vstd::arithmetic::div_mod::lemma_fundamental_div_mod(n as int, d as int);
    }
    assert(m == (-q0) * d - r0) by (nonlinear_arith)
        requires
            n == d * (n / d) + n % d,
            q0 == n / d,
            r0 == n % d,
            m == -n,
    ;
    if r0 == 0 {
        proof {
            vstd::arithmetic::div_mod::lemma_fundamental_div_mod_converse(m as int, d as int, -q0, 0);
        }
        -q0
    } else {
        assert(m == (-q0 - 1) * d + (d - r0)) by (nonlinear_arith)
            requires
                m == (-q0) * d - r0,
        ;
        proof {
            vstd::arithmetic::div_mod::lemma_fundamental_div_mod_converse(
                m as int,
                d as int,
                -q0 - 1,
                d - r0,
            );
        }
        -q0 - 1
    }
}

impl Bitmap {
    /// Samples the bitmap mapped onto the quadrilateral with the given
    /// corners; `None` outside it or where the mapping fails.
    pub fn sample_quad(
        &self,
        point: Point,
        top_left: Point,
        btm_left: Point,
        top_right: Point,
        btm_right: Point,
    ) -> (r: Option<Color>)
        requires
            self.wf(),
            point.in_range(),
            top_left.in_range(),
            btm_left.in_range(),
            top_right.in_range(),
            btm_right.in_range(),
        ensures
            r == quad_sample(*self, point, top_left, btm_left, top_right, btm_right),
    {
        let mut in_shape = false;
        in_shape = in_shape != toggle_in_shape(point, btm_left, top_left);
        in_shape = in_shape != toggle_in_shape(point, top_left, top_right);
        in_shape = in_shape != toggle_in_shape(point, top_right, btm_right);
        in_shape = in_shape != toggle_in_shape(point, btm_right, btm_left);
        if !in_shape {
            return None;
        }
        match inverse_bilinear(point, top_left, top_right, btm_right, btm_left) {
            None => None,
            Some(uv) => {
                let tx = scaled_floor_exec(uv.0, uv.1, self.width);
                let ty = scaled_floor_exec(uv.2, uv.3, self.height);
                if 0 <= tx && tx < self.width as i128 && 0 <= ty && ty < self.height as i128 {
                    Some(self.sample(tx as usize, ty as usize))
                } else {
                    Some(Color::transparent())
                }
            },
        }
    }
}

impl Texture {
    /// Quadrilateral corners lie in the coordinate range.
    pub open spec fn in_range(&self) -> bool {
        match self {
            Texture::QuadBitmap { top_left, btm_left, top_right, btm_right, .. } => top_left.in_range()
                && btm_left.in_range() && top_right.in_range() && btm_right.in_range(),
            _ => true,
        }
    }

    /// The paint's color at the sample point `p`.
    pub open spec fn color_at(&self, p: Point, bitmaps: &Bitmaps) -> Color {
        match self {
            Texture::SolidColor(c) => *c,
            Texture::Gradient(_) => transparent(),
            Texture::Debug => rainbow_stripe(((pixel_of(p.x) + pixel_of(p.y)) % 128) / 16),
            Texture::Bitmap { top_left, scale, repeat, bitmap } => scaled_texel(
                bitmaps.resolve(*bitmap),
                p.x - top_left.x,
                p.y - top_left.y,
                *scale as int,
                *repeat,
            ),
            Texture::QuadBitmap { top_left, btm_left, top_right, btm_right, bitmap } => match quad_sample(
                bitmaps.resolve(*bitmap),
                p,
                *top_left,
                *btm_left,
                *top_right,
                *btm_right,
            ) {
                Some(c) => c,
                None => transparent(),
            },
        }
    }

    /// Samples the paint at `p`.
    pub fn sample(&self, p: Point, bitmaps: &Bitmaps) -> (c: Color)
        requires
            bitmaps.wf(),
            self.in_range(),
            p.in_range(),
        ensures
            c == self.color_at(p, bitmaps),
    {
        match self {
            Texture::SolidColor(c) => *c,
            Texture::Gradient(_) => Color::transparent(),
            Texture::Debug => {
                let x: usize = if p.x < 0 { 0 } else { (p.x / SUBPIXELS) as usize };
                let y: usize = if p.y < 0 { 0 } else { (p.y / SUBPIXELS) as usize };
                rainbow(x, y)
            },
            Texture::Bitmap { top_left, scale, repeat, bitmap } => {
                let b = bitmaps.get(*bitmap);
                b.sample_scaled(p, *top_left, *scale, *repeat)
            },
            Texture::QuadBitmap { top_left, btm_left, top_right, btm_right, bitmap } => {
                let b = bitmaps.get(*bitmap);
                match b.sample_quad(p, *top_left, *btm_left, *top_right, *btm_right) {
                    Some(c) => c,
                    None => Color::transparent(),
                }
            },
        }
    }
}

} // verus!
