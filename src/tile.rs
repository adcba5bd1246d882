//! Tiles of the framebuffer: the segments of a flattened path are batched
//! in a workspace and applied to the tile's coverage mask.
use vstd::prelude::*;
use crate::geometry::{
    Point,
    CubicBezier,
    BoundingBox,
    SUBPIXELS,
    boxes_overlap,
    control_box,
    halves,
    is_straight,
    is_curve_straight,
};
use crate::mask::{
    TILE_H,
    TILE_W,
    coords_ok,
    toggle_word,
    toggle_range,
    flip_bit,
    has_bit,
    row_sample,
    process_row,
    process_row_lanes,
    lane_width_ok,
    lemma_lanes_match_scalar,
    lemma_xor_assoc,
};
use crate::ssaa::{SsaaConfig, row_coord, row_coords, tile_width};
use crate::winding::{Segment, toggles, crossing_parity, winding_number, lemma_parity_matches_winding};

verus! {

/// Points the workspace holds before it is flushed into the mask.
pub const POINTS: usize = 64;

/// Deepest subdivision of a curve while flattening it.
pub const MAX_DEPTH: u32 = 24;

/// Largest framebuffer side, in pixels.
pub const MAX_SIDE: usize = 0x8000;

/// The flips that a chain of points, taken as consecutive segments, makes
/// in row `y`.
pub open spec fn chain_xor(ws: Seq<Point>, coords: Seq<Point>, y: int) -> u32
    decreases ws.len(),
{
    if ws.len() < 2 {
        0
    } else {
        chain_xor(ws.drop_last(), coords, y) ^ toggle_word(
            coords,
            y,
            ws[ws.len() - 2],
            ws[ws.len() - 1],
        )
    }
}

/// The flips that a list of segments, moved by `-origin`, makes in row `y`.
pub open spec fn segs_xor(segs: Seq<Segment>, origin: Point, coords: Seq<Point>, y: int) -> u32
    decreases segs.len(),
{
    if segs.len() == 0 {
        0
    } else {
        segs_xor(segs.drop_last(), origin, coords, y) ^ toggle_word(
            coords,
            y,
            relative(segs.last().0, origin),
            relative(segs.last().1, origin),
        )
    }
}

/// `p` in the frame whose origin is `origin`.
pub open spec fn relative(p: Point, origin: Point) -> Point {
    Point { x: (p.x - origin.x) as i32, y: (p.y - origin.y) as i32 }
}

pub proof fn lemma_segs_xor_concat(a: Seq<Segment>, b: Seq<Segment>, origin: Point, coords: Seq<Point>, y: int)
    ensures
        segs_xor(a + b, origin, coords, y) == segs_xor(a, origin, coords, y) ^ segs_xor(
            b,
            origin,
            coords,
            y,
        ),
    decreases b.len(),
{
    let sa = segs_xor(a, origin, coords, y);
    if b.len() == 0 {
        assert(a + b =~= a);
        lemma_xor_assoc(sa, 0, 0);
    } else {
        lemma_segs_xor_concat(a, b.drop_last(), origin, coords, y);
        assert((a + b).drop_last() =~= a + b.drop_last());
        assert((a + b).last() == b.last());
        lemma_xor_assoc(
            sa,
            segs_xor(b.drop_last(), origin, coords, y),
            toggle_word(coords, y, relative(b.last().0, origin), relative(b.last().1, origin)),
        );
    }
}

/// The line segments a curve is flattened into for a tile: a curve whose
/// bounding box misses the tile, or that is straight enough, or that was
/// halved `MAX_DEPTH` times, is its chord; any other is flattened half by
/// half.
pub open spec fn flat_segs(c: CubicBezier, tile: BoundingBox, depth: nat) -> Seq<Segment>
    decreases MAX_DEPTH - depth,
{
    if depth >= MAX_DEPTH || !boxes_overlap(control_box(c), tile) || is_straight(c) {
        seq![(c.c1, c.c4)]
    } else {
        flat_segs(halves(c).0, tile, depth + 1) + flat_segs(halves(c).1, tile, depth + 1)
    }
}

/// The segments of all curves of a path, flattened for a tile.
pub open spec fn path_segs(path: Seq<CubicBezier>, tile: BoundingBox) -> Seq<Segment>
    decreases path.len(),
{
    if path.len() == 0 {
        seq![]
    } else {
        path_segs(path.drop_last(), tile) + flat_segs(path.last(), tile, 0)
    }
}

/// A tile of the framebuffer: `tile_width` pixels wide and `TILE_H` high,
/// its top left corner at pixel (`origin_x`, `origin_y`).
pub struct Tile {
    pub origin_x: usize,
    pub origin_y: usize,
    pub tile_width: usize,
    pub ssaa: SsaaConfig,
    /// Samples the mask pass tests at once: 1 for one at a time.
    pub lanes: usize,
    /// Points of pending segments, relative to the tile, each segment from
    /// one point to the next.
    pub workspace: Vec<Point>,
    /// Sample coordinates of the tile's first row.
    pub row_coords: Vec<Point>,
}

/// The mask of a tile with the pending segments of `ws` applied.
pub open spec fn effective(mask: Seq<u32>, ws: Seq<Point>, coords: Seq<Point>, y: int) -> u32 {
    mask[y] ^ chain_xor(ws, coords, y)
}

impl Tile {
    pub open spec fn wf(&self) -> bool {
        &&& self.origin_x <= MAX_SIDE
        &&& self.origin_y <= MAX_SIDE
        &&& self.tile_width == tile_width(self.ssaa)
        &&& lane_width_ok(self.lanes)
        &&& self.workspace@.len() <= POINTS
        &&& coords_ok(self.row_coords@)
        &&& forall|j: int| 0 <= j < TILE_W ==> #[trigger] self.row_coords@[j] == row_coord(self.ssaa, j)
    }

    /// The tile's top left corner, in subpixel units.
    pub open spec fn origin(&self) -> Point {
        Point { x: (self.origin_x * SUBPIXELS) as i32, y: (self.origin_y * SUBPIXELS) as i32 }
    }

    /// The area the tile covers, in subpixel units.
    pub open spec fn area(&self) -> BoundingBox {
        tile_area(self.origin_x as int, self.origin_y as int, self.tile_width as int)
    }

    /// Row `y` of the mask with the pending segments applied.
    pub open spec fn eff(&self, mask: Seq<u32>, y: int) -> u32 {
        effective(mask, self.workspace@, self.row_coords@, y)
    }

    /// A tile with an empty workspace, whose mask pass tests `lanes`
    /// samples at once.
    pub fn new(origin_x: usize, origin_y: usize, ssaa: SsaaConfig, lanes: usize) -> (t: Tile)
        requires
            origin_x <= MAX_SIDE,
            origin_y <= MAX_SIDE,
            lane_width_ok(lanes),
        ensures
            t.lanes == lanes,
            t.wf(),
            t.origin_x == origin_x,
            t.origin_y == origin_y,
            t.ssaa == ssaa,
            t.workspace@.len() == 0,
    {
        Tile {
            origin_x,
            origin_y,
            tile_width: ssaa.tile_width(),
            ssaa,
            lanes,
            workspace: Vec::new(),
            row_coords: row_coords(ssaa),
        }
    }

    /// Applies the pending segments to the mask and empties the workspace.
    pub fn mask_pass(&mut self, mask: &mut Vec<u32>)
        requires
            old(self).wf(),
            old(mask)@.len() == TILE_H,
        ensures
            final(self).wf(),
            final(self).origin_x == old(self).origin_x,
            final(self).origin_y == old(self).origin_y,
            final(self).ssaa == old(self).ssaa,
            final(self).tile_width == old(self).tile_width,
            final(self).lanes == old(self).lanes,
            final(self).row_coords@ == old(self).row_coords@,
            final(self).workspace@.len() == 0,
            final(mask)@.len() == TILE_H,
            forall|y: int| 0 <= y < TILE_H ==> #[trigger] final(mask)@[y] == old(self).eff(old(mask)@, y),
    {
        let ghost m0 = mask@;
        let ghost ws = self.workspace@;
        let n = self.workspace.len();
        if n == 0 {
            assert forall|y: int| 0 <= y < TILE_H implies #[trigger] mask@[y] == old(self).eff(
                m0,
                y,
            ) by {
                lemma_xor_assoc(m0[y], 0, 0);
            }
            return;
        }
        assert forall|y: int| 0 <= y < TILE_H implies #[trigger] mask@[y] == m0[y] ^ chain_xor(
            ws.take(1),
            self.row_coords@,
            y,
        ) by {
            lemma_xor_assoc(m0[y], 0, 0);
        }
        let mut p: usize = 1;
        while p < n
            invariant
                self.wf(),
                self.workspace@ == ws,
                n == ws.len(),
                1 <= p <= n,
                mask@.len() == TILE_H,
                forall|y: int| 0 <= y < TILE_H ==> #[trigger] mask@[y] == m0[y] ^ chain_xor(
                    ws.take(p as int),
                    self.row_coords@,
                    y,
                ),
            decreases n - p,
        {
            let s = self.workspace[p - 1];
            let e = self.workspace[p];
            proof {
                assert(ws.take(p + 1).drop_last() =~= ws.take(p as int));
            }
            for y in 0..TILE_H
                invariant
                    self.wf(),
                    self.workspace@ == ws,
                    1 <= p < n,
                    n == ws.len(),
                    s == ws[p - 1],
                    e == ws[p as int],
                    mask@.len() == TILE_H,
                    ws.take(p + 1).drop_last() == ws.take(p as int),
                    forall|y2: int| 0 <= y2 < y ==> #[trigger] mask@[y2] == m0[y2] ^ chain_xor(
                        ws.take(p + 1),
                        self.row_coords@,
                        y2,
                    ),
                    forall|y2: int| y <= y2 < TILE_H ==> #[trigger] mask@[y2] == m0[y2] ^ chain_xor(
                        ws.take(p as int),
                        self.row_coords@,
                        y2,
                    ),
            {
                let mut r = mask[y];
                if self.lanes == 1 {
                    process_row(y, &self.row_coords, s, e, &mut r);
                } else {
                    process_row_lanes(y, &self.row_coords, s, e, self.lanes, &mut r);
                    proof {
                        lemma_lanes_match_scalar(self.row_coords@, y as int, s, e, self.lanes);
                    }
                }
                proof {
                    lemma_xor_assoc(
                        m0[y as int],
                        chain_xor(ws.take(p as int), self.row_coords@, y as int),
                        toggle_word(self.row_coords@, y as int, s, e),
                    );
                }
                mask.set(y, r);
            }
            p = p + 1;
        }
        assert(ws.take(n as int) =~= ws);
        assert forall|y: int| 0 <= y < TILE_H implies #[trigger] mask@[y] == old(self).eff(m0, y) by {}
        self.workspace.clear();
    }

    /// Appends the segment `a -> b` (relative to the tile) to the workspace,
    /// flushing it first where `a` does not continue it or it is full.
    pub fn line(&mut self, a: Point, b: Point, mask: &mut Vec<u32>)
        requires
            old(self).wf(),
            old(mask)@.len() == TILE_H,
        ensures
            final(self).wf(),
            final(self).origin_x == old(self).origin_x,
            final(self).origin_y == old(self).origin_y,
            final(self).ssaa == old(self).ssaa,
            final(self).tile_width == old(self).tile_width,
            final(self).lanes == old(self).lanes,
            final(self).row_coords@ == old(self).row_coords@,
            final(mask)@.len() == TILE_H,
            forall|y: int|
                0 <= y < TILE_H ==> #[trigger] final(self).eff(final(mask)@, y) == old(self).eff(
                    old(mask)@,
                    y,
                ) ^ toggle_word(old(self).row_coords@, y, a, b),
    {
        let ghost e0 = Seq::new(TILE_H as nat, |y: int| self.eff(mask@, y));
        let n = self.workspace.len();
        if n > 0 && (self.workspace[n - 1] != a || n + 1 > POINTS) {
            self.mask_pass(mask);
        }
        assert forall|y: int| 0 <= y < TILE_H implies #[trigger] self.eff(mask@, y) == e0[y] by {
            lemma_xor_assoc(mask@[y], 0, 0);
        }
        if self.workspace.len() == 0 {
            self.workspace.push(a);
            assert forall|y: int| 0 <= y < TILE_H implies #[trigger] self.eff(mask@, y) == e0[y] by {
                lemma_xor_assoc(mask@[y], 0, 0);
            }
        }
        let ghost ws = self.workspace@;
        assert(ws.last() == a);
        self.workspace.push(b);
        assert forall|y: int| 0 <= y < TILE_H implies #[trigger] self.eff(mask@, y) == e0[y]
            ^ toggle_word(self.row_coords@, y, a, b) by {
            assert(self.workspace@.drop_last() =~= ws);
            lemma_xor_assoc(
                mask@[y],
                chain_xor(ws, self.row_coords@, y),
                toggle_word(self.row_coords@, y, a, b),
            );
        }
    }
}

impl Tile {
    /// `p` relative to the tile's top left corner.
    fn to_tile(&self, p: Point) -> (r: Point)
        requires
            self.wf(),
            p.in_range(),
        ensures
            r == relative(p, self.origin()),
    {
        Point {
            x: p.x - (self.origin_x as i32) * SUBPIXELS,
            y: p.y - (self.origin_y as i32) * SUBPIXELS,
        }
    }

    /// The area the tile covers, in subpixel units.
    pub fn area_box(&self) -> (r: BoundingBox)
        requires
            self.wf(),
        ensures
            r == self.area(),
    {
        assert(self.tile_width <= 32) by {
            match self.ssaa {
                _ => {},
            }
        }
        BoundingBox {
            min_x: (self.origin_x as i32) * SUBPIXELS,
            min_y: (self.origin_y as i32) * SUBPIXELS,
            max_x: ((self.origin_x + self.tile_width) as i32) * SUBPIXELS,
            max_y: ((self.origin_y + TILE_H) as i32) * SUBPIXELS,
        }
    }

    /// Flattens a curve into segments for this tile (see [`flat_segs`]) and
    /// applies them.
    pub fn flatten(&mut self, c: CubicBezier, depth: u32, mask: &mut Vec<u32>)
        requires
            old(self).wf(),
            old(mask)@.len() == TILE_H,
            c.in_range(),
            depth <= MAX_DEPTH,
        ensures
            final(self).wf(),
            final(self).origin_x == old(self).origin_x,
            final(self).origin_y == old(self).origin_y,
            final(self).ssaa == old(self).ssaa,
            final(self).tile_width == old(self).tile_width,
            final(self).lanes == old(self).lanes,
            final(self).row_coords@ == old(self).row_coords@,
            final(mask)@.len() == TILE_H,
            forall|y: int|
                0 <= y < TILE_H ==> #[trigger] final(self).eff(final(mask)@, y) == old(self).eff(
                    old(mask)@,
                    y,
                ) ^ segs_xor(
                    flat_segs(c, old(self).area(), depth as nat),
                    old(self).origin(),
                    old(self).row_coords@,
                    y,
                ),
        decreases MAX_DEPTH - depth,
    {
        let ghost e0 = Seq::new(TILE_H as nat, |y: int| self.eff(mask@, y));
        let ghost area = self.area();
        let ghost origin = self.origin();
        let ghost coords = self.row_coords@;
        let tile_box = self.area_box();
        if depth >= MAX_DEPTH || !c.aabb().overlaps_with(&tile_box) || is_curve_straight(&c) {
            let a = self.to_tile(c.c1);
            let b = self.to_tile(c.c4);
            self.line(a, b, mask);
            assert forall|y: int| 0 <= y < TILE_H implies #[trigger] self.eff(mask@, y) == e0[y]
                ^ segs_xor(flat_segs(c, area, depth as nat), origin, coords, y) by {
                let segs = flat_segs(c, area, depth as nat);
                assert(segs == seq![(c.c1, c.c4)]);
                assert(segs.last() == (c.c1, c.c4));
                assert(segs.drop_last() =~= Seq::<Segment>::empty());
                assert(segs_xor(segs.drop_last(), origin, coords, y) == 0);
                assert(a == relative(c.c1, origin) && b == relative(c.c4, origin));
                assert(segs_xor(segs, origin, coords, y) == 0 ^ toggle_word(coords, y, a, b));
                lemma_xor_assoc(toggle_word(coords, y, a, b), 0, 0);
            }
        } else {
            let (l, r) = c.split();
            self.flatten(l, depth + 1, mask);
            self.flatten(r, depth + 1, mask);
            assert forall|y: int| 0 <= y < TILE_H implies #[trigger] self.eff(mask@, y) == e0[y]
                ^ segs_xor(flat_segs(c, area, depth as nat), origin, coords, y) by {
                let sl = flat_segs(l, area, depth as nat + 1);
                let sr = flat_segs(r, area, depth as nat + 1);
                lemma_segs_xor_concat(sl, sr, origin, coords, y);
                lemma_xor_assoc(
                    e0[y],
                    segs_xor(sl, origin, coords, y),
                    segs_xor(sr, origin, coords, y),
                );
            }
        }
    }

    /// Flattens every curve of a path for this tile and applies the
    /// segments.
    pub fn advance_path(&mut self, path: &Vec<CubicBezier>, mask: &mut Vec<u32>)
        requires
            old(self).wf(),
            old(mask)@.len() == TILE_H,
            forall|i: int| 0 <= i < path@.len() ==> (#[trigger] path@[i]).in_range(),
        ensures
            final(self).wf(),
            final(self).origin_x == old(self).origin_x,
            final(self).origin_y == old(self).origin_y,
            final(self).ssaa == old(self).ssaa,
            final(self).tile_width == old(self).tile_width,
            final(self).lanes == old(self).lanes,
            final(self).row_coords@ == old(self).row_coords@,
            final(mask)@.len() == TILE_H,
            forall|y: int|
                0 <= y < TILE_H ==> #[trigger] final(self).eff(final(mask)@, y) == old(self).eff(
                    old(mask)@,
                    y,
                ) ^ segs_xor(
                    path_segs(path@, old(self).area()),
                    old(self).origin(),
                    old(self).row_coords@,
                    y,
                ),
    {
        let ghost e0 = Seq::new(TILE_H as nat, |y: int| self.eff(mask@, y));
        let ghost area = self.area();
        let ghost origin = self.origin();
        let ghost coords = self.row_coords@;
        let ghost t0 = *self;
        assert forall|y: int| 0 <= y < TILE_H implies #[trigger] self.eff(mask@, y) == e0[y]
            ^ segs_xor(path_segs(path@.take(0), area), origin, coords, y) by {
            assert(path@.take(0) =~= Seq::<CubicBezier>::empty());
            lemma_xor_assoc(e0[y], 0, 0);
        }
        for i in 0..path.len()
            invariant
                self.wf(),
                self.origin_x == t0.origin_x,
                self.origin_y == t0.origin_y,
                self.ssaa == t0.ssaa,
                self.tile_width == t0.tile_width,
                self.lanes == t0.lanes,
                self.row_coords@ == coords,
                area == self.area(),
                origin == self.origin(),
                mask@.len() == TILE_H,
                forall|k: int| 0 <= k < path@.len() ==> (#[trigger] path@[k]).in_range(),
                forall|y: int|
                    0 <= y < TILE_H ==> #[trigger] self.eff(mask@, y) == e0[y] ^ segs_xor(
                        path_segs(path@.take(i as int), area),
                        origin,
                        coords,
                        y,
                    ),
        {
            let ghost e1 = Seq::new(TILE_H as nat, |y: int| self.eff(mask@, y));
            self.flatten(path[i], 0, mask);
            assert forall|y: int| 0 <= y < TILE_H implies #[trigger] self.eff(mask@, y) == e0[y]
                ^ segs_xor(path_segs(path@.take(i + 1), area), origin, coords, y) by {
                let before = path_segs(path@.take(i as int), area);
                let seg = flat_segs(path@[i as int], area, 0);
                assert(path@.take(i + 1).drop_last() =~= path@.take(i as int));
                lemma_segs_xor_concat(before, seg, origin, coords, y);
                lemma_xor_assoc(
                    e0[y],
                    segs_xor(before, origin, coords, y),
                    segs_xor(seg, origin, coords, y),
                );
            }
        }
        assert(path@.take(path@.len() as int) =~= path@);
    }
}

/// Walks the tiles of a framebuffer row by row, each row left to right.
pub struct TileIterator {
    pub fb_width: usize,
    pub fb_height: usize,
    pub next_x: usize,
    pub next_y: usize,
    pub tile_width: usize,
    pub ssaa: SsaaConfig,
}

impl TileIterator {
    pub open spec fn wf(&self) -> bool {
        &&& self.fb_width <= MAX_SIDE
        &&& self.fb_height <= MAX_SIDE + TILE_H
        &&& self.tile_width == tile_width(self.ssaa)
        &&& self.next_x < self.fb_width || self.fb_width == 0
        &&& (self.next_x as int) % (self.tile_width as int) == 0
        &&& (self.next_y as int) % (TILE_H as int) == 0
        &&& self.next_y <= self.fb_height + TILE_H
    }

    /// Tiles of a `width` by `height` framebuffer at density `ssaa`, the
    /// first one at its top left corner.
    pub fn new(width: usize, height: usize, ssaa: SsaaConfig) -> (r: TileIterator)
        requires
            width <= MAX_SIDE,
            height <= MAX_SIDE,
        ensures
            r.wf(),
            r.fb_width == width,
            r.fb_height == height,
            r.ssaa == ssaa,
            r.next_x == 0,
            r.next_y == 0,
    {
        let tile_width = ssaa.tile_width();
        proof {
            vstd::arithmetic::div_mod::lemma_small_mod(0, tile_width as nat);
            vstd::arithmetic::div_mod::lemma_small_mod(0, TILE_H as nat);
        }
        TileIterator { fb_width: width, fb_height: height, next_x: 0, next_y: 0, tile_width, ssaa }
    }

    /// The next tile's top left corner, in pixels; `None` once all tiles
    /// were given.
    pub fn next_tile(&mut self) -> (r: Option<(usize, usize)>)
        requires
            old(self).wf(),
        ensures
            final(self).wf(),
            final(self).fb_width == old(self).fb_width,
            final(self).fb_height == old(self).fb_height,
            final(self).ssaa == old(self).ssaa,
            old(self).next_y >= old(self).fb_height || old(self).fb_width == 0 ==> r is None
                && *final(self) == *old(self),
            old(self).next_y < old(self).fb_height && old(self).fb_width > 0 ==> {
                &&& r == Some((old(self).next_x, old(self).next_y))
                &&& if old(self).next_x + old(self).tile_width < old(self).fb_width {
                    final(self).next_x == old(self).next_x + old(self).tile_width && final(self).next_y
                        == old(self).next_y
                } else {
                    final(self).next_x == 0 && final(self).next_y == old(self).next_y + TILE_H
                }
            },
    {
        if self.next_y >= self.fb_height || self.fb_width == 0 {
            return None;
        }
        let tile = (self.next_x, self.next_y);
        if self.next_x + self.tile_width < self.fb_width {
            assert((self.next_x + self.tile_width) % (self.tile_width as int) == 0) by {
                vstd::arithmetic::div_mod::lemma_mod_adds(
                    self.next_x as int,
                    self.tile_width as int,
                    self.tile_width as int,
                );
                vstd::arithmetic::div_mod::lemma_mod_self_0(self.tile_width as int);
            }
            self.next_x = self.next_x + self.tile_width;
        } else {
            assert((self.next_y + TILE_H) % (TILE_H as int) == 0) by {
                vstd::arithmetic::div_mod::lemma_mod_adds(self.next_y as int, TILE_H as int, TILE_H as int);
                vstd::arithmetic::div_mod::lemma_mod_self_0(TILE_H as int);
            }
            self.next_x = 0;
            self.next_y = self.next_y + TILE_H;
        }
        Some(tile)
    }
}

/// The area of the tile at pixel (`x`, `y`), `width` pixels wide, in
/// subpixel units.
pub open spec fn tile_area(x: int, y: int, width: int) -> BoundingBox {
    BoundingBox {
        min_x: (x * SUBPIXELS) as i32,
        min_y: (y * SUBPIXELS) as i32,
        max_x: ((x + width) * SUBPIXELS) as i32,
        max_y: ((y + TILE_H) * SUBPIXELS) as i32,
    }
}

proof fn lemma_bits(a: u32, b: u32, j: u32, k: u32)
    requires
        j < 32,
        k < 32,
    ensures
        has_bit(a ^ b, j as int) == (has_bit(a, j as int) != has_bit(b, j as int)),
        has_bit(1u32 << k, j as int) == (j == k),
        !has_bit(0u32, j as int),
{
    assert(((a ^ b) >> j) & 1 == 1 <==> (((a >> j) & 1 == 1) != ((b >> j) & 1 == 1))) by (bit_vector)
        requires
            j < 32,
    ;
    assert((((1u32 << k) >> j) & 1 == 1) == (j == k)) by (bit_vector)
        requires
            j < 32,
            k < 32,
    ;
    assert(!((0u32 >> j) & 1 == 1)) by (bit_vector);
}

proof fn lemma_range_bit(coords: Seq<Point>, y: int, s: Point, e: Point, hi: int, j: int)
    requires
        0 <= hi <= TILE_W,
        0 <= j < TILE_W,
    ensures
        has_bit(toggle_range(coords, y, s, e, 0, hi), j) == (j < hi && toggles(
            row_sample(coords, y, j),
            s,
            e,
        )),
    decreases hi,
{
    if hi == 0 {
        lemma_bits(0, 0, j as u32, 0);
    } else {
        lemma_range_bit(coords, y, s, e, hi - 1, j);
        let prev = toggle_range(coords, y, s, e, 0, hi - 1);
        let fb = flip_bit(coords, y, s, e, hi - 1);
        lemma_bits(prev, fb, j as u32, (hi - 1) as u32);
    }
}

/// The segments moved by `-origin`.
pub open spec fn relative_segs(segs: Seq<Segment>, origin: Point) -> Seq<Segment> {
    Seq::new(segs.len(), |i: int| (relative(segs[i].0, origin), relative(segs[i].1, origin)))
}

/// Bit `j` of row `y` of a tile's mask is the crossing parity of that
/// sample against the tile's segments.
pub proof fn lemma_mask_bit_is_parity(segs: Seq<Segment>, origin: Point, coords: Seq<Point>, y: int, j: int)
    requires
        0 <= j < TILE_W,
    ensures
        has_bit(segs_xor(segs, origin, coords, y), j) == crossing_parity(
            row_sample(coords, y, j),
            relative_segs(segs, origin),
        ),
    decreases segs.len(),
{
    let rs = relative_segs(segs, origin);
    if segs.len() == 0 {
        lemma_bits(0, 0, j as u32, 0);
    } else {
        lemma_mask_bit_is_parity(segs.drop_last(), origin, coords, y, j);
        assert(rs.drop_last() =~= relative_segs(segs.drop_last(), origin));
        let last = segs.last();
        let a = relative(last.0, origin);
        let b = relative(last.1, origin);
        lemma_range_bit(coords, y, a, b, TILE_W as int, j);
        lemma_bits(
            segs_xor(segs.drop_last(), origin, coords, y),
            toggle_word(coords, y, a, b),
            j as u32,
            0,
        );
    }
}

/// The tile engine's mask bit at a sample agrees with the signed winding
/// number of that sample against the same segments: set exactly where the
/// winding number is odd, so for a simple closed path (winding number -1,
/// 0 or 1) exactly where it is nonzero.
pub proof fn lemma_mask_bit_matches_winding(segs: Seq<Segment>, origin: Point, coords: Seq<Point>, y: int, j: int)
    requires
        0 <= j < TILE_W,
    ensures
        has_bit(segs_xor(segs, origin, coords, y), j) == (winding_number(
            row_sample(coords, y, j),
            relative_segs(segs, origin),
        ) % 2 != 0),
        -1 <= winding_number(row_sample(coords, y, j), relative_segs(segs, origin)) <= 1 ==> has_bit(
            segs_xor(segs, origin, coords, y),
            j,
        ) == (winding_number(row_sample(coords, y, j), relative_segs(segs, origin)) != 0),
{
    lemma_mask_bit_is_parity(segs, origin, coords, y, j);
    lemma_parity_matches_winding(row_sample(coords, y, j), relative_segs(segs, origin));
}

} // verus!
