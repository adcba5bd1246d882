//! The drawing surface: a pixel buffer, its bitmaps, and the fill of a
//! composite Bézier path.
use vstd::prelude::*;
use crate::geometry::{Point, CubicBezier, BoundingBox, SUBPIXELS, is_closed, is_continuous, may_reach, COORD_LIMIT};
use crate::color::{Color, transparent, blended};
use crate::bitmap::{Bitmap, Bitmaps, BitmapHandle, MAX_BITMAP_PIXELS, filled, is_fallback};
use crate::texture::Texture;
use crate::mask::{TILE_H, TILE_W, lane_width_ok, lemma_xor_assoc};
use crate::ssaa::{SsaaConfig, row_coord, tile_width, coverage_of};
use crate::tile::{Tile, TileIterator, MAX_SIDE, tile_area, path_segs, segs_xor};
use crate::render::{painted, probe_inside, in_tile, pixel_paint};

verus! {

/// Why a path could not be filled.
#[derive(Clone, Copy, Debug, PartialEq, Eq, Structural)]
pub enum FillError {
    /// A coordinate lies beyond `COORD_LIMIT`.
    OutOfRange,
}

/// The sample coordinates of a tile's first row at density `c`.
pub open spec fn coords_of(c: SsaaConfig) -> Seq<Point> {
    Seq::new(TILE_W as nat, |j: int| row_coord(c, j))
}

/// Top left corner, in pixels, of the tile that holds pixel `i` of a
/// framebuffer `w` wide.
pub open spec fn tile_x(w: int, tw: int, i: int) -> int {
    (i % w) / tw * tw
}

pub open spec fn tile_y(w: int, i: int) -> int {
    (i / w) / (TILE_H as int) * (TILE_H as int)
}

/// Might some curve reach the area (see [`may_reach`])?
pub open spec fn touches(path: Seq<CubicBezier>, area: BoundingBox) -> bool {
    exists|k: int| 0 <= k < path.len() && may_reach(#[trigger] path[k], area)
}

/// The corner of the tile at pixel (`ox`, `oy`), in subpixel units.
pub open spec fn corner(ox: int, oy: int) -> Point {
    Point { x: (ox * SUBPIXELS) as i32, y: (oy * SUBPIXELS) as i32 }
}

/// Coverage of pixel (`x`, `y`) when `path` is filled at density `c`, the
/// pixel lying in the tile at (`ox`, `oy`): where a curve may reach the tile,
/// the parity of the flattened path's crossings at each subsample; else one
/// probe, against the same flattening, decides the whole tile.
pub open spec fn fill_coverage(path: Seq<CubicBezier>, c: SsaaConfig, ox: int, oy: int, x: int, y: int) -> u8 {
    let area = tile_area(ox, oy, tile_width(c) as int);
    if touches(path, area) {
        coverage_of(segs_xor(path_segs(path, area), corner(ox, oy), coords_of(c), y - oy), c, x - ox) as u8
    } else if probe_inside(path, ox, oy, area) {
        255
    } else {
        0
    }
}

/// Pixel `i` of a framebuffer `w` wide after `path` was filled with `t`.
pub open spec fn filled_pixel(
    old: Color,
    path: Seq<CubicBezier>,
    t: Texture,
    bitmaps: Bitmaps,
    c: SsaaConfig,
    w: int,
    i: int,
) -> Color {
    let tw = tile_width(c) as int;
    painted(
        old,
        t,
        bitmaps,
        c,
        i % w,
        i / w,
        fill_coverage(path, c, tile_x(w, tw, i), tile_y(w, i), i % w, i / w),
    )
}

/// A bitmap of this size can be allocated.
pub open spec fn bitmap_fits(width: usize, height: usize) -> bool {
    width * height <= MAX_BITMAP_PIXELS && width <= MAX_BITMAP_PIXELS && height <= MAX_BITMAP_PIXELS
}

/// Every control point lies in the coordinate range.
pub open spec fn path_in_range(path: Seq<CubicBezier>) -> bool {
    forall|k: int| 0 <= k < path.len() ==> (#[trigger] path[k]).in_range()
}

/// A drawing surface held in memory.
pub struct Canvas {
    bitmaps: Bitmaps,
    pixels: Vec<Color>,
    mask: Vec<u32>,
    width: usize,
    height: usize,
    lanes: usize,
}

impl Canvas {
    pub closed spec fn wf(&self) -> bool {
        &&& self.width <= MAX_SIDE
        &&& self.height <= MAX_SIDE
        &&& self.pixels@.len() == self.width * self.height
        &&& self.mask@.len() == TILE_H
        &&& lane_width_ok(self.lanes)
        &&& forall|y: int| 0 <= y < TILE_H ==> #[trigger] self.mask@[y] == 0
        &&& self.bitmaps.wf()
    }

    /// What a well-formed canvas holds: `width * height` pixels, sides
    /// within `MAX_SIDE`, a well-formed bitmap store.
    pub proof fn lemma_wf(&self)
        requires
            self.wf(),
        ensures
            self.pixels_view().len() == self.width_view() * self.height_view(),
            self.width_view() <= MAX_SIDE,
            self.height_view() <= MAX_SIDE,
            self.bitmaps_view().wf(),
    {
    }

    /// The pixels, row-major.
    pub closed spec fn pixels_view(&self) -> Seq<Color> {
        self.pixels@
    }

    pub closed spec fn width_view(&self) -> nat {
        self.width as nat
    }

    pub closed spec fn height_view(&self) -> nat {
        self.height as nat
    }

    /// The bitmap store.
    pub closed spec fn bitmaps_view(&self) -> Bitmaps {
        self.bitmaps
    }

    /// A transparent canvas of `width` by `height` pixels, its masks built
    /// one sample at a time.
    pub fn new(width: usize, height: usize) -> (c: Canvas)
        requires
            width <= MAX_SIDE,
            height <= MAX_SIDE,
        ensures
            c.wf(),
            c.width_view() == width,
            c.height_view() == height,
            c.pixels_view().len() == width * height,
            forall|i: int| 0 <= i < c.pixels_view().len() ==> #[trigger] c.pixels_view()[i] == transparent(),
            c.bitmaps_view().len() == 0,
            forall|h: BitmapHandle| is_fallback(#[trigger] c.bitmaps_view().resolve(h)),
    {
        Canvas::with_lanes(width, height, 1)
    }

    /// The same, its masks built 16 samples at a time.
    pub fn new_simd(width: usize, height: usize) -> (c: Canvas)
        requires
            width <= MAX_SIDE,
            height <= MAX_SIDE,
        ensures
            c.wf(),
            c.width_view() == width,
            c.height_view() == height,
            c.pixels_view().len() == width * height,
            forall|i: int| 0 <= i < c.pixels_view().len() ==> #[trigger] c.pixels_view()[i] == transparent(),
            c.bitmaps_view().len() == 0,
            forall|h: BitmapHandle| is_fallback(#[trigger] c.bitmaps_view().resolve(h)),
    {
        Canvas::with_lanes(width, height, 16)
    }

    /// A transparent canvas whose masks are built `lanes` samples at a time
    /// (1, 2, 4, 8, 16 or 32); the pixels do not depend on it.
    pub fn with_lanes(width: usize, height: usize, lanes: usize) -> (c: Canvas)
        requires
            lane_width_ok(lanes),
            width <= MAX_SIDE,
            height <= MAX_SIDE,
        ensures
            c.wf(),
            c.width_view() == width,
            c.height_view() == height,
            c.pixels_view().len() == width * height,
            forall|i: int| 0 <= i < c.pixels_view().len() ==> #[trigger] c.pixels_view()[i] == transparent(),
            c.bitmaps_view().len() == 0,
            forall|h: BitmapHandle| is_fallback(#[trigger] c.bitmaps_view().resolve(h)),
    {
        assert(width * height <= MAX_SIDE * MAX_SIDE) by (nonlinear_arith)
            requires
                width <= MAX_SIDE,
                height <= MAX_SIDE,
        ;
        let n = width * height;
        let mut pixels: Vec<Color> = Vec::new();
        for i in 0..n
            invariant
                pixels@.len() == i,
                forall|k: int| 0 <= k < i ==> #[trigger] pixels@[k] == transparent(),
        {
            pixels.push(Color::transparent());
        }
        let mut mask: Vec<u32> = Vec::new();
        for i in 0..TILE_H
            invariant
                mask@.len() == i,
                forall|k: int| 0 <= k < i ==> #[trigger] mask@[k] == 0,
        {
            mask.push(0);
        }
        Canvas { bitmaps: Bitmaps::new(), pixels, mask, width, height, lanes }
    }

    /// The pixels, row-major, `width * height` of them.
    pub fn pixels(&self) -> (r: &[Color])
        ensures
            r@ == self.pixels_view(),
    {
        self.pixels.as_slice()
    }

    /// Width and height in pixels.
    pub fn framebuffer_size(&self) -> (r: (usize, usize))
        ensures
            r.0 == self.width_view(),
            r.1 == self.height_view(),
    {
        (self.width, self.height)
    }

    /// Sets every pixel to fully transparent.
    pub fn clear(&mut self)
        requires
            old(self).wf(),
        ensures
            final(self).wf(),
            final(self).width_view() == old(self).width_view(),
            final(self).height_view() == old(self).height_view(),
            final(self).bitmaps_view() == old(self).bitmaps_view(),
            final(self).pixels_view().len() == old(self).pixels_view().len(),
            final(self).pixels_view().len() == final(self).width_view() * final(self).height_view(),
            forall|i: int|
                0 <= i < final(self).pixels_view().len() ==> #[trigger] final(self).pixels_view()[i]
                    == transparent(),
    {
        let n = self.pixels.len();
        let ghost w = self.width;
        let ghost h = self.height;
        let ghost b = self.bitmaps;
        for i in 0..n
            invariant
                self.wf(),
                self.width == w,
                self.height == h,
                self.bitmaps == b,
                self.pixels@.len() == n,
                forall|k: int| 0 <= k < i ==> #[trigger] self.pixels@[k] == transparent(),
        {
            self.pixels.set(i, Color::transparent());
        }
    }

    /// Allocates a transparent `width` by `height` bitmap. Where it would be
    /// too large, the handle stands for the fallback bitmap.
    pub fn alloc_bitmap(&mut self, width: usize, height: usize) -> (h: BitmapHandle)
        requires
            old(self).wf(),
        ensures
            final(self).wf(),
            final(self).pixels_view() == old(self).pixels_view(),
            final(self).width_view() == old(self).width_view(),
            final(self).height_view() == old(self).height_view(),
            bitmap_fits(width, height) ==> {
                &&& final(self).bitmaps_view().is_live(h)
                &&& final(self).bitmaps_view().resolve(h).width == width
                &&& final(self).bitmaps_view().resolve(h).height == height
                &&& forall|i: int|
                    0 <= i < final(self).bitmaps_view().resolve(h).pixels@.len() ==> #[trigger] final(self).bitmaps_view().resolve(h).pixels@[i] == transparent()
            },
            !bitmap_fits(width, height) ==> !final(self).bitmaps_view().is_live(h),
            h.id() == old(self).bitmaps_view().len(),
            final(self).bitmaps_view().len() == old(self).bitmaps_view().len() + 1,
            forall|o: BitmapHandle|
                old(self).bitmaps_view().is_live(o) ==> final(self).bitmaps_view().is_live(o)
                    && final(self).bitmaps_view().resolve(o) == old(self).bitmaps_view().resolve(o),
    {
        let fits = match width.checked_mul(height) {
            Some(n) => n <= MAX_BITMAP_PIXELS && width <= MAX_BITMAP_PIXELS && height <= MAX_BITMAP_PIXELS,
            None => false,
        };
        assert forall|o: BitmapHandle| #[trigger] self.bitmaps.is_live(o) implies o.id() < self.bitmaps.len() by {
            self.bitmaps.lemma_live_in_range(o);
        }
        if fits {
            let b = Bitmap::new(width, height);
            let h = self.bitmaps.push(b);
            h
        } else {
            self.bitmaps.push_empty()
        }
    }

    /// Uploads a row-major `w` by `h` block of pixels to column `x`, row `y`
    /// of a bitmap. Ignored where the handle is not live, the block does not
    /// fit, or `buf` is too short.
    pub fn fill_bitmap(&mut self, bitmap: BitmapHandle, x: usize, y: usize, w: usize, h: usize, buf: &Vec<Color>)
        requires
            old(self).wf(),
        ensures
            final(self).wf(),
            final(self).pixels_view() == old(self).pixels_view(),
            final(self).width_view() == old(self).width_view(),
            final(self).height_view() == old(self).height_view(),
            forall|o: BitmapHandle|
                final(self).bitmaps_view().is_live(o) == old(self).bitmaps_view().is_live(o),
            forall|o: BitmapHandle|
                o.id() != bitmap.id() ==> final(self).bitmaps_view().resolve(o) == old(self).bitmaps_view().resolve(o),
            old(self).bitmaps_view().is_live(bitmap) ==> final(self).bitmaps_view().resolve(bitmap).pixels@ == filled(
                old(self).bitmaps_view().resolve(bitmap).pixels@,
                old(self).bitmaps_view().resolve(bitmap).width as int,
                old(self).bitmaps_view().resolve(bitmap).height as int,
                x as int,
                y as int,
                w as int,
                h as int,
                buf@,
            ),
            !old(self).bitmaps_view().is_live(bitmap) ==> final(self).bitmaps_view().resolve(bitmap)
                == old(self).bitmaps_view().resolve(bitmap),
            final(self).bitmaps_view().resolve(bitmap).width == old(self).bitmaps_view().resolve(bitmap).width,
            final(self).bitmaps_view().resolve(bitmap).height == old(self).bitmaps_view().resolve(bitmap).height,
            final(self).bitmaps_view().len() == old(self).bitmaps_view().len(),
    {
        self.bitmaps.fill(bitmap, x, y, w, h, buf);
    }

    /// Releases a bitmap; its handle stands for the fallback from now on.
    pub fn free_bitmap(&mut self, bitmap: BitmapHandle)
        requires
            old(self).wf(),
        ensures
            final(self).wf(),
            final(self).pixels_view() == old(self).pixels_view(),
            final(self).width_view() == old(self).width_view(),
            final(self).height_view() == old(self).height_view(),
            !final(self).bitmaps_view().is_live(bitmap),
            is_fallback(final(self).bitmaps_view().resolve(bitmap)),
            final(self).bitmaps_view().len() == old(self).bitmaps_view().len(),
            forall|o: BitmapHandle|
                o.id() != bitmap.id() ==> final(self).bitmaps_view().is_live(o) == old(self).bitmaps_view().is_live(o) && final(self).bitmaps_view().resolve(o) == old(self).bitmaps_view().resolve(o),
    {
        self.bitmaps.free(bitmap);
        proof {
            self.bitmaps.lemma_resolve(bitmap);
        }
    }
}

fn point_ok(p: Point) -> (r: bool)
    ensures
        r == p.in_range(),
{
    -COORD_LIMIT <= p.x && p.x <= COORD_LIMIT && -COORD_LIMIT <= p.y && p.y <= COORD_LIMIT
}

/// Are all control points in range?
fn check_range(path: &Vec<CubicBezier>) -> (r: bool)
    ensures
        r == path_in_range(path@),
{
    for i in 0..path.len()
        invariant
            forall|k: int| 0 <= k < i ==> (#[trigger] path@[k]).in_range(),
    {
        let c = path[i];
        if !(point_ok(c.c1) && point_ok(c.c2) && point_ok(c.c3) && point_ok(c.c4)) {
            return false;
        }
    }
    true
}

/// Is the path a closed composite curve?
pub fn check_closed(path: &Vec<CubicBezier>) -> (r: bool)
    ensures
        r == is_closed(path@),
{
    let n = path.len();
    if n == 0 {
        return true;
    }
    for i in 0..n - 1
        invariant
            n == path@.len(),
            n >= 1,
            forall|k: int| 0 <= k < i ==> #[trigger] path@[k].c4 == path@[k + 1].c1,
    {
        if path[i].c4 != path[i + 1].c1 {
            assert(!is_continuous(path@));
            return false;
        }
    }
    path[n - 1].c4 == path[0].c1
}

/// Might some curve reach the area?
fn touches_exec(path: &Vec<CubicBezier>, area: &BoundingBox) -> (r: bool)
    requires
        path_in_range(path@),
    ensures
        r == touches(path@, *area),
{
    for i in 0..path.len()
        invariant
            path_in_range(path@),
            forall|k: int| 0 <= k < i ==> !may_reach(#[trigger] path@[k], *area),
    {
        if path[i].overlaps(area) {
            return true;
        }
    }
    false
}

fn texture_ok(t: &Texture) -> (r: bool)
    ensures
        r == t.in_range(),
{
    match t {
        Texture::QuadBitmap { top_left, btm_left, top_right, btm_right, .. } => point_ok(*top_left)
            && point_ok(*btm_left) && point_ok(*top_right) && point_ok(*btm_right),
        _ => true,
    }
}

/// Moving the next tile on by one marks the current one as done.
proof fn lemma_done_step(tx: int, ty: int, nx: int, ny: int, tw: int, w: int, nx2: int, ny2: int)
    requires
        tw >= 1,
        0 <= tx < w,
        0 <= ty,
        0 <= nx,
        0 <= ny,
        tx % tw == 0,
        nx % tw == 0,
        ty % (TILE_H as int) == 0,
        ny % (TILE_H as int) == 0,
        nx + tw < w ==> nx2 == nx + tw && ny2 == ny,
        nx + tw >= w ==> nx2 == 0 && ny2 == ny + TILE_H,
    ensures
        (ty < ny2 || (ty == ny2 && tx < nx2)) == ((ty < ny || (ty == ny && tx < nx)) || (ty == ny
            && tx == nx)),
{
    vstd::arithmetic::div_mod::lemma_fundamental_div_mod(tx, tw);
    vstd::arithmetic::div_mod::lemma_fundamental_div_mod(nx, tw);
    vstd::arithmetic::div_mod::lemma_fundamental_div_mod(ty, TILE_H as int);
    vstd::arithmetic::div_mod::lemma_fundamental_div_mod(ny, TILE_H as int);
    let a = tx / tw;
    let b = nx / tw;
    let c = ty / (TILE_H as int);
    let d = ny / (TILE_H as int);
    assert((tx < nx + tw) == (tx <= nx)) by (nonlinear_arith)
        requires
            tx == tw * a,
            nx == tw * b,
            tw >= 1,
    ;
    assert((ty < ny + TILE_H) == (ty <= ny)) by (nonlinear_arith)
        requires
            ty == (TILE_H as int) * c,
            ny == (TILE_H as int) * d,
    ;
}

/// Sets every row of a mask to zero.
fn reset_mask(mask: &mut Vec<u32>)
    requires
        old(mask)@.len() == TILE_H,
    ensures
        final(mask)@.len() == TILE_H,
        forall|y: int| 0 <= y < TILE_H ==> #[trigger] final(mask)@[y] == 0,
{
    for y in 0..TILE_H
        invariant
            mask@.len() == TILE_H,
            forall|k: int| 0 <= k < y ==> #[trigger] mask@[k] == 0,
    {
        mask.set(y, 0);
    }
}

/// A pixel lies in the tile at `o` (a multiple of `t`) exactly where its
/// own tile corner is `o`.
proof fn lemma_tile_member(a: int, t: int, o: int)
    requires
        0 <= a,
        0 < t,
        0 <= o,
        o % t == 0,
    ensures
        (o <= a < o + t) == (a / t * t == o),
{
    vstd::arithmetic::div_mod::lemma_fundamental_div_mod(a, t);
    vstd::arithmetic::div_mod::lemma_fundamental_div_mod(o, t);
    let q = a / t;
    let p = o / t;
    vstd::arithmetic::div_mod::lemma_mod_pos_bound(a, t);
    assert((o <= a < o + t) == (q == p)) by (nonlinear_arith)
        requires
            a == t * q + a % t,
            0 <= a % t < t,
            o == t * p,
            t > 0,
    ;
    assert((q * t == o) == (q == p)) by (nonlinear_arith)
        requires
            o == t * p,
            t > 0,
    ;
}

impl Canvas {
    /// Fills the shape that the composite Bézier path `path` encloses with
    /// `texture`, composited over the present pixels, at density `ssaa`.
    /// Each tile that a curve reaches gets a mask: a subsample is inside
    /// where an odd number of the path's segments, flattened for the tile,
    /// cross the ray to its left. A tile that no curve reaches is inside
    /// or outside as a whole. The path must be closed (a broken chain is
    /// the caller's error; [`check_closed`] tests for it). Nothing changes
    /// where a coordinate is out of range.
    #[verifier::rlimit(40)]
    pub fn fill_cbc(&mut self, path: &Vec<CubicBezier>, texture: &Texture, ssaa: SsaaConfig) -> (r: Result<(), FillError>)
        requires
            old(self).wf(),
            is_closed(path@),
        ensures
            final(self).wf(),
            final(self).width_view() == old(self).width_view(),
            final(self).height_view() == old(self).height_view(),
            final(self).bitmaps_view() == old(self).bitmaps_view(),
            (r == Err::<(), FillError>(FillError::OutOfRange)) == !(path_in_range(path@)
                && texture.in_range()),
            r is Err ==> final(self).pixels_view() == old(self).pixels_view(),
            r is Ok ==> final(self).pixels_view() == Seq::new(
                old(self).pixels_view().len(),
                |i: int|
                    filled_pixel(
                        old(self).pixels_view()[i],
                        path@,
                        *texture,
                        old(self).bitmaps_view(),
                        ssaa,
                        old(self).width_view() as int,
                        i,
                    ),
            ),
    {
        if !(check_range(path) && texture_ok(texture)) {
            return Err(FillError::OutOfRange);
        }
        let ghost old_px = self.pixels@;
        let ghost w = self.width as int;
        let ghost bm = self.bitmaps;
        let ghost tw = tile_width(ssaa) as int;
        let ghost expected = Seq::new(
            old_px.len(),
            |i: int| filled_pixel(old_px[i], path@, *texture, bm, ssaa, w, i),
        );
        let mut it = TileIterator::new(self.width, self.height, ssaa);
        let mut tile = Tile::new(0, 0, ssaa, self.lanes);
        assert(tile.row_coords@ =~= coords_of(ssaa));
        let ghost h = self.height;
        assert forall|i: int| 0 <= i < old_px.len() implies #[trigger] self.pixels@[i] == if tile_y(w, i) < it.next_y
            || (tile_y(w, i) == it.next_y && tile_x(w, tw, i) < it.next_x) {
            expected[i]
        } else {
            old_px[i]
        } by {
            self.lemma_pixel_tile(i, tw);
        }
        loop
            invariant_except_break
                self.wf(),
                self.width == w,
                self.height == h,
                self.bitmaps == bm,
                lane_width_ok(self.lanes),
                it.wf(),
                it.fb_width == self.width,
                it.fb_height == self.height,
                it.ssaa == ssaa,
                tw == it.tile_width,
                tile.wf(),
                tile.ssaa == ssaa,
                tile.workspace@.len() == 0,
                tile.row_coords@ == coords_of(ssaa),
                path_in_range(path@),
                texture.in_range(),
                old_px.len() == self.pixels@.len(),
                expected.len() == old_px.len(),
                forall|i: int| 0 <= i < old_px.len() ==> #[trigger] expected[i] == filled_pixel(old_px[i], path@, *texture, bm, ssaa, w, i),
                forall|i: int|
                    0 <= i < old_px.len() ==> #[trigger] self.pixels@[i] == if tile_y(w, i) < it.next_y
                        || (tile_y(w, i) == it.next_y && tile_x(w, tw, i) < it.next_x) {
                        expected[i]
                    } else {
                        old_px[i]
                    },
            ensures
                self.wf(),
                self.width == w,
                self.height == h,
                self.bitmaps == bm,
                self.pixels@ == expected,
            decreases it.fb_height + TILE_H - it.next_y, it.fb_width - it.next_x,
        {
            let ghost nx = it.next_x as int;
            let ghost ny = it.next_y as int;
            let next = it.next_tile();
            match next {
                None => {
                    assert forall|i: int| 0 <= i < old_px.len() implies #[trigger] self.pixels@[i] == expected[i] by {
                        self.lemma_pixel_tile(i, tw);
                    }
                    assert(self.pixels@ =~= expected);
                    break;
                },
                Some(corner_px) => {
                    let (ox, oy) = corner_px;
                    tile.origin_x = ox;
                    tile.origin_y = oy;
                    let ghost before = self.pixels@;
                    let ghost nx2 = it.next_x as int;
                    let ghost ny2 = it.next_y as int;
                    let area = tile.area_box();
                    if touches_exec(path, &area) {
                        tile.advance_path(path, &mut self.mask);
                        tile.mask_pass(&mut self.mask);
                        let ghost m = self.mask@;
                        assert forall|y: int| 0 <= y < TILE_H implies #[trigger] m[y] == segs_xor(
                            path_segs(path@, area),
                            corner(ox as int, oy as int),
                            coords_of(ssaa),
                            y,
                        ) by {
                            let sx = segs_xor(path_segs(path@, area), corner(ox as int, oy as int), coords_of(ssaa), y);
                            lemma_xor_assoc(0, 0, sx);
                            lemma_xor_assoc(sx, 0, 0);
                        }
                        tile.render(&mut self.pixels, self.width, self.height, &self.mask, texture, &self.bitmaps);
                        reset_mask(&mut self.mask);
                        proof {
                            assert forall|i: int| 0 <= i < old_px.len() && in_tile(w, ox as int, oy as int, tw, i) implies
                                #[trigger] self.pixels@[i] == expected[i] by {
                                self.lemma_pixel_tile(i, tw);
                                lemma_tile_member(i % w, tw, ox as int);
                                lemma_tile_member(i / w, TILE_H as int, oy as int);
                            }
                        }
                    } else if tile.sample_oob(path) {
                        tile.render_all(&mut self.pixels, self.width, self.height, texture, &self.bitmaps);
                        proof {
                            assert forall|i: int| 0 <= i < old_px.len() && in_tile(w, ox as int, oy as int, tw, i) implies
                                #[trigger] self.pixels@[i] == expected[i] by {
                                self.lemma_pixel_tile(i, tw);
                                lemma_tile_member(i % w, tw, ox as int);
                                lemma_tile_member(i / w, TILE_H as int, oy as int);
                            }
                        }
                    } else {
                        proof {
                            assert forall|i: int| 0 <= i < old_px.len() && in_tile(w, ox as int, oy as int, tw, i) implies
                                #[trigger] self.pixels@[i] == expected[i] by {
                                self.lemma_pixel_tile(i, tw);
                                lemma_tile_member(i % w, tw, ox as int);
                                lemma_tile_member(i / w, TILE_H as int, oy as int);
                                let src = pixel_paint(*texture, bm, i % w, i / w, ssaa);
                                assert(src.a * 0 == 0);
                                assert(blended(src, old_px[i], 0) == old_px[i]);
                            }
                        }
                    }
                    proof {
                        assert forall|i: int| 0 <= i < old_px.len() implies #[trigger] self.pixels@[i] == if tile_y(w, i) < ny2
                            || (tile_y(w, i) == ny2 && tile_x(w, tw, i) < nx2) {
                            expected[i]
                        } else {
                            old_px[i]
                        } by {
                            self.lemma_pixel_tile(i, tw);
                            lemma_tile_member(i % w, tw, ox as int);
                            lemma_tile_member(i / w, TILE_H as int, oy as int);
                            lemma_done_step(tile_x(w, tw, i), tile_y(w, i), nx, ny, tw, w, nx2, ny2);
                        }
                    }
                },
            }
        }
        Ok(())
    }

    proof fn lemma_pixel_tile(&self, i: int, tw: int)
        requires
            self.wf(),
            0 <= i < self.pixels@.len(),
            tw >= 1,
        ensures
            0 <= tile_y(self.width as int, i) <= i / (self.width as int) < self.height,
            0 <= tile_x(self.width as int, tw, i) <= i % (self.width as int) < self.width,
            tile_y(self.width as int, i) % (TILE_H as int) == 0,
            tile_x(self.width as int, tw, i) % tw == 0,
            self.width >= 1,
    {
        let w = self.width as int;
        let h = self.height as int;
        if w == 0 {
            assert(w * h == 0) by (nonlinear_arith)
                requires
                    w == 0,
            ;
        }
        vstd::arithmetic::div_mod::lemma_fundamental_div_mod(i, w);
        vstd::arithmetic::div_mod::lemma_mod_pos_bound(i, w);
        vstd::arithmetic::div_mod::lemma_div_pos_is_pos(i, w);
        assert(i / w < h) by (nonlinear_arith)
            requires
                i == w * (i / w) + i % w,
                0 <= i % w,
                i < w * h,
                w >= 1,
        ;
        let a = i / w;
        let b = i % w;
        vstd::arithmetic::div_mod::lemma_fundamental_div_mod(a, TILE_H as int);
        vstd::arithmetic::div_mod::lemma_mod_pos_bound(a, TILE_H as int);
        vstd::arithmetic::div_mod::lemma_div_pos_is_pos(a, TILE_H as int);
        vstd::arithmetic::div_mod::lemma_fundamental_div_mod(b, tw);
        vstd::arithmetic::div_mod::lemma_mod_pos_bound(b, tw);
        vstd::arithmetic::div_mod::lemma_div_pos_is_pos(b, tw);
        vstd::arithmetic::div_mod::lemma_mod_multiples_basic(a / (TILE_H as int), TILE_H as int);
        vstd::arithmetic::div_mod::lemma_mod_multiples_basic(b / tw, tw);
        assert(0 <= a / (TILE_H as int) * (TILE_H as int) <= a) by (nonlinear_arith)
            requires
                a == (TILE_H as int) * (a / (TILE_H as int)) + a % (TILE_H as int),
                0 <= a % (TILE_H as int),
                a / (TILE_H as int) >= 0,
        ;
        assert(0 <= b / tw * tw <= b) by (nonlinear_arith)
            requires
                tw >= 1,
                b == tw * (b / tw) + b % tw,
                0 <= b % tw,
                b / tw >= 0,
        ;
    }
}

} // verus!
