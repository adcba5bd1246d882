//! Resolving a tile's mask into pixels: coverage, paint sampling and
//! compositing.
use vstd::prelude::*;
use crate::geometry::{Point, CubicBezier, SUBPIXELS};
use crate::color::{Color, average, blend, blended, sum_r, sum_g, sum_b, sum_a, lemma_sums_bounded};
use crate::bitmap::Bitmaps;
use crate::texture::Texture;
use crate::mask::TILE_H;
use crate::ssaa::{SsaaConfig, offset_table, lemma_offsets_small, coverage_of, covered, tile_width};
use crate::tile::{Tile, MAX_SIDE, path_segs};
use crate::geometry::BoundingBox;
use crate::reference::path_winding;
use crate::winding::winding_number;

verus! {

/// Sample `k` of the pixel at column `x`, row `y`, in subpixel units.
pub open spec fn sample_point(x: int, y: int, c: SsaaConfig, k: int) -> Point {
    Point {
        x: (x * SUBPIXELS + SUBPIXELS / 2 + offset_table(c)[k].0) as i32,
        y: (y * SUBPIXELS + SUBPIXELS / 2 + offset_table(c)[k].1) as i32,
    }
}

/// The paint's colors at the samples of a pixel.
pub open spec fn pixel_samples(t: Texture, bitmaps: Bitmaps, x: int, y: int, c: SsaaConfig) -> Seq<Color> {
    Seq::new(c.samples(), |k: int| t.color_at(sample_point(x, y, c, k), &bitmaps))
}

/// The paint's color for a pixel: the average over its samples.
pub open spec fn pixel_paint(t: Texture, bitmaps: Bitmaps, x: int, y: int, c: SsaaConfig) -> Color {
    average(pixel_samples(t, bitmaps, x, y, c))
}

/// Averages the paint over the samples of the pixel at column `x`, row `y`.
pub fn pixel_color(texture: &Texture, bitmaps: &Bitmaps, x: usize, y: usize, ssaa: SsaaConfig) -> (c: Color)
    requires
        bitmaps.wf(),
        texture.in_range(),
        x <= MAX_SIDE,
        y <= MAX_SIDE,
    ensures
        c == pixel_paint(*texture, *bitmaps, x as int, y as int, ssaa),
{
    let offsets = ssaa.offsets();
    let n = ssaa.as_mul();
    let ghost samples = pixel_samples(*texture, *bitmaps, x as int, y as int, ssaa);
    proof {
        lemma_offsets_small(ssaa);
    }
    let mut sr: u32 = 0;
    let mut sg: u32 = 0;
    let mut sb: u32 = 0;
    let mut sa: u32 = 0;
    for k in 0..n
        invariant
            n == ssaa.samples(),
            n <= 16,
            bitmaps.wf(),
            texture.in_range(),
            x <= MAX_SIDE,
            y <= MAX_SIDE,
            offsets@ == offset_table(ssaa),
            offsets@.len() == n,
            forall|i: int| 0 <= i < n ==> -12 <= #[trigger] offsets@[i].0 <= 12 && -12 <= offsets@[i].1 <= 12,
            samples == pixel_samples(*texture, *bitmaps, x as int, y as int, ssaa),
            sr == sum_r(samples.take(k as int)),
            sg == sum_g(samples.take(k as int)),
            sb == sum_b(samples.take(k as int)),
            sa == sum_a(samples.take(k as int)),
    {
        let off = offsets[k];
        let p = Point {
            x: (x as i32) * SUBPIXELS + SUBPIXELS / 2 + off.0,
            y: (y as i32) * SUBPIXELS + SUBPIXELS / 2 + off.1,
        };
        assert(p == sample_point(x as int, y as int, ssaa, k as int));
        let c = texture.sample(p, bitmaps);
        proof {
            let t = samples.take(k as int + 1);
            assert(t.drop_last() =~= samples.take(k as int));
            assert(t.last() == c);
            lemma_sums_bounded(t);
        }
        sr = sr + c.r as u32;
        sg = sg + c.g as u32;
        sb = sb + c.b as u32;
        sa = sa + c.a as u32;
    }
    assert(samples.take(n as int) =~= samples);
    proof {
        lemma_sums_bounded(samples);
    }
    let d = n as u32;
    assert(sr / d <= 255 && sg / d <= 255 && sb / d <= 255 && sa / d <= 255) by (nonlinear_arith)
        requires
            d >= 1,
            sr <= 255 * d,
            sg <= 255 * d,
            sb <= 255 * d,
            sa <= 255 * d,
    ;
    Color { r: (sr / d) as u8, g: (sg / d) as u8, b: (sb / d) as u8, a: (sa / d) as u8 }
}

/// Opacity of pixel `px` of a mask row: set subsample bits over subsamples,
/// scaled to 255.
pub fn pixel_coverage(row: u32, ssaa: SsaaConfig, px: usize) -> (r: u8)
    requires
        px < tile_width(ssaa),
    ensures
        r == coverage_of(row, ssaa, px as int),
{
    let n = ssaa.as_mul();
    let w = ssaa.tile_width();
    assert(px * n + n <= 32) by (nonlinear_arith)
        requires
            px < w,
            w * n == 32,
    ;
    let mut count: u32 = 0;
    for k in 0..n
        invariant
            n == ssaa.samples(),
            px * n + n <= 32,
            count == covered(row, n as int, px as int, k as int),
            count <= k,
    {
        let j = px * n + k;
        if (row >> (j as u32)) & 1 == 1 {
            count = count + 1;
        }
    }
    let d = n as u32;
    let total = count * 255;
    assert(total / d <= 255) by (nonlinear_arith)
        requires
            count <= d,
            d >= 1,
            total == count * 255,
    ;
    (total / d) as u8
}

/// The one sample that decides a tile that no curve reaches: one pixel in
/// from the corner at pixel (`ox`, `oy`), in subpixel units.
pub open spec fn probe(ox: int, oy: int) -> Point {
    Point { x: (ox * SUBPIXELS + SUBPIXELS) as i32, y: (oy * SUBPIXELS + SUBPIXELS) as i32 }
}

/// Is the probe of a tile inside: an odd winding number against the path
/// flattened for the tile?
pub open spec fn probe_inside(path: Seq<CubicBezier>, ox: int, oy: int, area: BoundingBox) -> bool {
    winding_number(probe(ox, oy), path_segs(path, area)) % 2 != 0
}

/// Pixel `i` of a framebuffer `width` wide lies in the tile.
pub open spec fn in_tile(width: int, ox: int, oy: int, tw: int, i: int) -> bool {
    ox <= i % width < ox + tw && oy <= i / width < oy + TILE_H
}

impl Tile {
    /// Is the tile inside the path, judged by one sample against the path
    /// flattened for the tile? Meant for tiles that no curve reaches.
    pub fn sample_oob(&self, path: &Vec<CubicBezier>) -> (r: bool)
        requires
            self.wf(),
            forall|i: int| 0 <= i < path@.len() ==> (#[trigger] path@[i]).in_range(),
        ensures
            r == probe_inside(path@, self.origin_x as int, self.origin_y as int, self.area()),
    {
        let point = Point {
            x: (self.origin_x as i32) * SUBPIXELS + SUBPIXELS,
            y: (self.origin_y as i32) * SUBPIXELS + SUBPIXELS,
        };
        let area = self.area_box();
        path_winding(point, path, &area) % 2 != 0
    }
}

/// Coverage of pixel (`x`, `y`) of a tile: full without a mask, else the
/// mask's.
pub open spec fn tile_coverage(mask: Option<Seq<u32>>, c: SsaaConfig, x: int, y: int) -> u8 {
    match mask {
        None => 255,
        Some(m) => coverage_of(m[y], c, x) as u8,
    }
}

/// A pixel after the tile was painted over it.
pub open spec fn painted(
    old: Color,
    t: Texture,
    bitmaps: Bitmaps,
    c: SsaaConfig,
    x: int,
    y: int,
    coverage: u8,
) -> Color {
    blended(pixel_paint(t, bitmaps, x, y, c), old, coverage)
}

proof fn lemma_index_parts(row: int, col: int, width: int)
    requires
        0 <= row,
        0 <= col < width,
    ensures
        (row * width + col) / width == row,
        (row * width + col) % width == col,
{
    vstd::arithmetic::div_mod::lemma_fundamental_div_mod_converse(
        row * width + col,
        width,
        row,
        col,
    );
}

impl Tile {
    /// The tile's pixels within a `fb_w` by `fb_h` framebuffer after the
    /// paint was composited over them, each with its coverage: full without
    /// a mask, else the mask's.
    pub open spec fn painted_pixels(
        &self,
        old: Seq<Color>,
        fb_w: int,
        mask: Option<Seq<u32>>,
        t: Texture,
        bitmaps: Bitmaps,
    ) -> Seq<Color> {
        Seq::new(
            old.len(),
            |i: int|
                if in_tile(fb_w, self.origin_x as int, self.origin_y as int, self.tile_width as int, i) {
                    painted(
                        old[i],
                        t,
                        bitmaps,
                        self.ssaa,
                        i % fb_w,
                        i / fb_w,
                        tile_coverage(mask, self.ssaa, i % fb_w - self.origin_x, i / fb_w - self.origin_y),
                    )
                } else {
                    old[i]
                },
        )
    }

    fn paint(
        &self,
        pixels: &mut Vec<Color>,
        fb_w: usize,
        fb_h: usize,
        mask: Option<&Vec<u32>>,
        texture: &Texture,
        bitmaps: &Bitmaps,
    )
        requires
            self.wf(),
            old(pixels)@.len() == fb_w * fb_h,
            1 <= fb_w <= MAX_SIDE,
            fb_h <= MAX_SIDE,
            bitmaps.wf(),
            texture.in_range(),
            mask matches Some(m) ==> m@.len() == TILE_H,
        ensures
            final(pixels)@ == self.painted_pixels(
                old(pixels)@,
                fb_w as int,
                match mask {
                    None => None,
                    Some(m) => Some(m@),
                },
                *texture,
                *bitmaps,
            ),
    {
        let ghost old_px = pixels@;
        let ghost m = match mask {
            None => None,
            Some(m) => Some(m@),
        };
        let ghost w = fb_w as int;
        let ox = self.origin_x;
        let oy = self.origin_y;
        let tw = self.tile_width;
        let total = pixels.len();
        let rows: usize = if oy >= fb_h { 0 } else if fb_h - oy < TILE_H { fb_h - oy } else { TILE_H };
        let cols: usize = if ox >= fb_w { 0 } else if fb_w - ox < tw { fb_w - ox } else { tw };
        for y in 0..rows
            invariant
                self.wf(),
                ox == self.origin_x,
                oy == self.origin_y,
                tw == self.tile_width,
                w == fb_w,
                pixels@.len() == old_px.len(),
                old_px.len() == fb_w * fb_h,
                1 <= fb_w <= MAX_SIDE,
                fb_h <= MAX_SIDE,
                fb_w * fb_h <= usize::MAX,
                bitmaps.wf(),
                texture.in_range(),
                mask matches Some(mm) ==> mm@.len() == TILE_H,
                m == match mask {
                    None => None,
                    Some(mm) => Some(mm@),
                },
                rows <= TILE_H,
                rows > 0 ==> oy + rows <= fb_h,
                rows == TILE_H || oy + rows == fb_h || rows == 0,
                cols <= tw,
                cols > 0 ==> ox + cols <= fb_w,
                cols == tw || ox + cols == fb_w || cols == 0,
                rows == 0 ==> oy >= fb_h,
                cols == 0 ==> ox >= fb_w,
                forall|i: int|
                    0 <= i < old_px.len() ==> #[trigger] pixels@[i] == if in_tile(
                        w,
                        ox as int,
                        oy as int,
                        tw as int,
                        i,
                    ) && i / w < oy + y {
                        painted(
                            old_px[i],
                            *texture,
                            *bitmaps,
                            self.ssaa,
                            i % w,
                            i / w,
                            tile_coverage(m, self.ssaa, i % w - ox, i / w - oy),
                        )
                    } else {
                        old_px[i]
                    },
        {
            for x in 0..cols
                invariant
                    self.wf(),
                    ox == self.origin_x,
                    oy == self.origin_y,
                    tw == self.tile_width,
                    w == fb_w,
                    pixels@.len() == old_px.len(),
                    old_px.len() == fb_w * fb_h,
                    1 <= fb_w <= MAX_SIDE,
                    fb_h <= MAX_SIDE,
                    bitmaps.wf(),
                    texture.in_range(),
                    mask matches Some(mm) ==> mm@.len() == TILE_H,
                    m == match mask {
                        None => None,
                        Some(mm) => Some(mm@),
                    },
                    y < rows,
                    rows <= TILE_H,
                    oy + rows <= fb_h,
                    cols <= tw,
                    cols > 0 ==> ox + cols <= fb_w,
                    fb_w * fb_h <= usize::MAX,
                    forall|i: int|
                        0 <= i < old_px.len() ==> #[trigger] pixels@[i] == if in_tile(
                            w,
                            ox as int,
                            oy as int,
                            tw as int,
                            i,
                        ) && (i / w < oy + y || (i / w == oy + y && i % w < ox + x)) {
                            painted(
                                old_px[i],
                                *texture,
                                *bitmaps,
                                self.ssaa,
                                i % w,
                                i / w,
                                tile_coverage(m, self.ssaa, i % w - ox, i / w - oy),
                            )
                        } else {
                            old_px[i]
                        },
            {
                let px = ox + x;
                let py = oy + y;
                assert(py * fb_w + px < fb_w * fb_h && py * fb_w <= py * fb_w + px) by (nonlinear_arith)
                    requires
                        py < fb_h,
                        px < fb_w,
                ;
                let idx = py * fb_w + px;
                proof {
                    lemma_index_parts(py as int, px as int, w);
                }
                let coverage = match mask {
                    None => 255u8,
                    Some(mm) => pixel_coverage(mm[y], self.ssaa, x),
                };
                let dst = pixels[idx];
                assert(dst == old_px[idx as int]);
                assert(coverage == tile_coverage(m, self.ssaa, x as int, y as int));
                let out = if coverage == 0 {
                    proof {
                        let src = pixel_paint(*texture, *bitmaps, px as int, py as int, self.ssaa);
                        assert(src.a * 0 == 0);
                        assert(blended(src, dst, 0) == dst);
                    }
                    dst
                } else {
                    let src = pixel_color(texture, bitmaps, px, py, self.ssaa);
                    blend(src, dst, coverage)
                };
                assert(out == painted(
                    old_px[idx as int],
                    *texture,
                    *bitmaps,
                    self.ssaa,
                    px as int,
                    py as int,
                    tile_coverage(m, self.ssaa, x as int, y as int),
                ));
                pixels.set(idx, out);
                proof {
                    assert forall|i: int|
                        0 <= i && #[trigger] (i / w) == py && i % w == px implies i == idx by {
                        vstd::arithmetic::div_mod::lemma_fundamental_div_mod(i, w);
                        assert(i == py * w + px) by (nonlinear_arith)
                            requires
                                i == w * (i / w) + i % w,
                                i / w == py,
                                i % w == px,
                        ;
                    }
                }
            }
        }
        proof {
            assert forall|i: int| 0 <= i < old_px.len() implies #[trigger] pixels@[i]
                == self.painted_pixels(old_px, w, m, *texture, *bitmaps)[i] by {
                if in_tile(w, ox as int, oy as int, tw as int, i) {
                    vstd::arithmetic::div_mod::lemma_div_pos_is_pos(i, w);
                    assert(i / w < fb_h) by {
                        vstd::arithmetic::div_mod::lemma_div_is_ordered_by_denominator(i, 1, w);
                        if i / w >= fb_h {
                            vstd::arithmetic::div_mod::lemma_fundamental_div_mod(i, w);
                            assert(i >= w * fb_h) by (nonlinear_arith)
                                requires
                                    i == w * (i / w) + i % w,
                                    i / w >= fb_h,
                                    i % w >= 0,
                                    w >= 1,
                            ;
                        }
                    }
                    vstd::arithmetic::div_mod::lemma_mod_pos_bound(i, w);
                }
            }
        }
        assert(pixels@ =~= self.painted_pixels(old_px, w, m, *texture, *bitmaps));
    }

    /// Composites the paint over the tile's pixels, each with the coverage
    /// its mask row gives it.
    pub fn render(
        &self,
        pixels: &mut Vec<Color>,
        fb_w: usize,
        fb_h: usize,
        mask: &Vec<u32>,
        texture: &Texture,
        bitmaps: &Bitmaps,
    )
        requires
            self.wf(),
            old(pixels)@.len() == fb_w * fb_h,
            1 <= fb_w <= MAX_SIDE,
            fb_h <= MAX_SIDE,
            bitmaps.wf(),
            texture.in_range(),
            mask@.len() == TILE_H,
        ensures
            final(pixels)@ == self.painted_pixels(old(pixels)@, fb_w as int, Some(mask@), *texture, *bitmaps),
    {
        self.paint(pixels, fb_w, fb_h, Some(mask), texture, bitmaps);
    }

    /// Composites the paint over all of the tile's pixels, fully covered.
    pub fn render_all(
        &self,
        pixels: &mut Vec<Color>,
        fb_w: usize,
        fb_h: usize,
        texture: &Texture,
        bitmaps: &Bitmaps,
    )
        requires
            self.wf(),
            old(pixels)@.len() == fb_w * fb_h,
            1 <= fb_w <= MAX_SIDE,
            fb_h <= MAX_SIDE,
            bitmaps.wf(),
            texture.in_range(),
        ensures
            final(pixels)@ == self.painted_pixels(old(pixels)@, fb_w as int, None, *texture, *bitmaps),
    {
        self.paint(pixels, fb_w, fb_h, None, texture, bitmaps);
    }
}

} // verus!
