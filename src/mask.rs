//! Coverage mask rows: one `u32` per scanline of a tile, one bit per sample.
//! A segment flips the bits of the samples whose leftward ray it crosses.
use vstd::prelude::*;
use crate::geometry::{Point, SUBPIXELS};
use crate::winding::{toggles, toggle_in_shape};

verus! {

/// Bits in a mask row: samples per tile row.
pub const TILE_W: usize = 32;

/// Rows in a tile, one per scanline.
pub const TILE_H: usize = 32;

/// Largest tile-relative sample coordinate, in subpixel units.
pub const TILE_EXTENT: i32 = 1024;

/// The sample coordinates of the first row of a tile: `TILE_W` points inside
/// the tile.
pub open spec fn coords_ok(coords: Seq<Point>) -> bool {
    &&& coords.len() == TILE_W
    &&& forall|j: int|
        0 <= j < TILE_W ==> 0 <= #[trigger] coords[j].x <= TILE_EXTENT && 0 <= coords[j].y
            <= SUBPIXELS
}

/// Sample `j` of row `y`: the first row's sample moved down `y` pixels.
pub open spec fn row_sample(coords: Seq<Point>, y: int, j: int) -> Point {
    Point { x: coords[j].x, y: (coords[j].y + y * SUBPIXELS) as i32 }
}

/// The bit of sample `j`, set where the segment flips it.
pub open spec fn flip_bit(coords: Seq<Point>, y: int, s: Point, e: Point, j: int) -> u32 {
    if toggles(row_sample(coords, y, j), s, e) {
        1u32 << (j as u32)
    } else {
        0
    }
}

/// The flips of samples `lo .. hi` of a row.
pub open spec fn toggle_range(coords: Seq<Point>, y: int, s: Point, e: Point, lo: int, hi: int) -> u32
    decreases hi - lo,
{
    if hi <= lo {
        0
    } else {
        toggle_range(coords, y, s, e, lo, hi - 1) ^ flip_bit(coords, y, s, e, hi - 1)
    }
}

/// The flips of a whole row.
pub open spec fn toggle_word(coords: Seq<Point>, y: int, s: Point, e: Point) -> u32 {
    toggle_range(coords, y, s, e, 0, TILE_W as int)
}

/// Whether bit `j` of a row is set.
pub open spec fn has_bit(row: u32, j: int) -> bool {
    (row >> (j as u32)) & 1 == 1
}

pub proof fn lemma_xor_assoc(a: u32, b: u32, c: u32)
    ensures
        (a ^ b) ^ c == a ^ (b ^ c),
        a ^ 0 == a,
        0 ^ a == a,
        a ^ a == 0,
{
    assert((a ^ b) ^ c == a ^ (b ^ c) && a ^ 0 == a && 0 ^ a == a && a ^ a == 0) by (bit_vector);
}

fn sample_at(coords: &Vec<Point>, y: usize, j: usize) -> (r: Point)
    requires
        coords_ok(coords@),
        y < TILE_H,
        j < TILE_W,
    ensures
        r == row_sample(coords@, y as int, j as int),
{
    let c = coords[j];
    Point { x: c.x, y: c.y + (y as i32) * SUBPIXELS }
}

/// Applies the segment `start -> end` to row `y` of a mask, one sample at a
/// time.
pub fn process_row(y: usize, row_coords: &Vec<Point>, start: Point, end: Point, row: &mut u32)
    requires
        coords_ok(row_coords@),
        y < TILE_H,
    ensures
        *final(row) == *old(row) ^ toggle_word(row_coords@, y as int, start, end),
{
    let ghost r0 = *row;
    proof {
        lemma_xor_assoc(r0, 0, 0);
    }
    for j in 0..TILE_W
        invariant
            coords_ok(row_coords@),
            y < TILE_H,
            *row == r0 ^ toggle_range(row_coords@, y as int, start, end, 0, j as int),
    {
        let p = sample_at(row_coords, y, j);
        let ghost before = toggle_range(row_coords@, y as int, start, end, 0, j as int);
        let ghost fb = flip_bit(row_coords@, y as int, start, end, j as int);
        proof {
            lemma_xor_assoc(r0, before, fb);
            lemma_xor_assoc(before, 0, 0);
            assert(toggle_range(row_coords@, y as int, start, end, 0, j + 1) == before ^ fb);
        }
        if toggle_in_shape(p, start, end) {
            *row = *row ^ (1u32 << (j as u32));
        }
    }
}

/// The lane flips of samples `base .. base + n`, lane `i` in bit `i`.
pub open spec fn lane_bits(coords: Seq<Point>, y: int, s: Point, e: Point, base: int, n: int) -> u32
    decreases n,
{
    if n <= 0 {
        0
    } else {
        lane_bits(coords, y, s, e, base, n - 1) ^ (if toggles(
            row_sample(coords, y, base + n - 1),
            s,
            e,
        ) {
            1u32 << ((n - 1) as u32)
        } else {
            0
        })
    }
}

/// The flips of a row gathered `lanes` samples at a time, for the first
/// `chunks` groups.
pub open spec fn chunked_word(coords: Seq<Point>, y: int, s: Point, e: Point, lanes: int, chunks: int) -> u32
    decreases chunks,
{
    if chunks <= 0 {
        0
    } else {
        let base = (chunks - 1) * lanes;
        chunked_word(coords, y, s, e, lanes, chunks - 1) ^ (lane_bits(coords, y, s, e, base, lanes)
            << (base as u32))
    }
}

/// Lane widths the batched row processor supports.
pub open spec fn lane_width_ok(lanes: usize) -> bool {
    lanes == 1 || lanes == 2 || lanes == 4 || lanes == 8 || lanes == 16 || lanes == 32
}

/// Flips of a group of lanes: each lane's sample is tested against the
/// segment, and the results are packed into one word.
fn lane_mask(coords: &Vec<Point>, y: usize, start: Point, end: Point, base: usize, lanes: usize) -> (r: u32)
    requires
        coords_ok(coords@),
        y < TILE_H,
        lanes <= TILE_W,
        base + lanes <= TILE_W,
    ensures
        r == lane_bits(coords@, y as int, start, end, base as int, lanes as int),
{
    let mut xs: Vec<Point> = Vec::new();
    for i in 0..lanes
        invariant
            coords_ok(coords@),
            y < TILE_H,
            base + lanes <= TILE_W,
            xs@.len() == i,
            forall|k: int| 0 <= k < i ==> #[trigger] xs@[k] == row_sample(coords@, y as int, base + k),
    {
        xs.push(sample_at(coords, y, base + i));
    }
    let mut hits: Vec<bool> = Vec::new();
    for i in 0..lanes
        invariant
            xs@.len() == lanes,
            hits@.len() == i,
            forall|k: int| 0 <= k < i ==> #[trigger] hits@[k] == toggles(xs@[k], start, end),
    {
        hits.push(toggle_in_shape(xs[i], start, end));
    }
    let mut m: u32 = 0;
    for i in 0..lanes
        invariant
            lanes <= TILE_W,
            xs@.len() == lanes,
            hits@.len() == lanes,
            forall|k: int| 0 <= k < lanes ==> #[trigger] xs@[k] == row_sample(coords@, y as int, base + k),
            forall|k: int| 0 <= k < lanes ==> #[trigger] hits@[k] == toggles(xs@[k], start, end),
            m == lane_bits(coords@, y as int, start, end, base as int, i as int),
    {
        assert(hits@[i as int] == toggles(row_sample(coords@, y as int, base + i), start, end));
        proof {
            lemma_xor_assoc(m, 0, 0);
        }
        if hits[i] {
            m = m ^ (1u32 << (i as u32));
        }
    }
    m
}

/// Applies the segment `start -> end` to row `y`, `lanes` samples at a time.
pub fn process_row_lanes(
    y: usize,
    row_coords: &Vec<Point>,
    start: Point,
    end: Point,
    lanes: usize,
    row: &mut u32,
)
    requires
        coords_ok(row_coords@),
        y < TILE_H,
        lane_width_ok(lanes),
    ensures
        *final(row) == *old(row) ^ chunked_word(
            row_coords@,
            y as int,
            start,
            end,
            lanes as int,
            (TILE_W / lanes) as int,
        ),
{
    let ghost r0 = *row;
    let chunks = TILE_W / lanes;
    assert(chunks * lanes == TILE_W);
    proof {
        lemma_xor_assoc(r0, 0, 0);
    }
    for c in 0..chunks
        invariant
            coords_ok(row_coords@),
            y < TILE_H,
            lane_width_ok(lanes),
            chunks == TILE_W / lanes,
            chunks * lanes == TILE_W,
            *row == r0 ^ chunked_word(row_coords@, y as int, start, end, lanes as int, c as int),
    {
        assert((c + 1) * lanes <= chunks * lanes) by (nonlinear_arith)
            requires
                c < chunks,
        ;
        assert(c * lanes + lanes == (c + 1) * lanes) by (nonlinear_arith);
        let base = c * lanes;
        let m = lane_mask(row_coords, y, start, end, base, lanes);
        let shifted = m << (base as u32);
        proof {
            lemma_xor_assoc(
                r0,
                chunked_word(row_coords@, y as int, start, end, lanes as int, c as int),
                shifted,
            );
        }
        *row = *row ^ shifted;
    }
}

proof fn lemma_shl_xor(a: u32, b: u32, s: u32)
    requires
        s < 32,
    ensures
        (a ^ b) << s == (a << s) ^ (b << s),
        0u32 << s == 0,
{
    assert((a ^ b) << s == (a << s) ^ (b << s) && 0u32 << s == 0) by (bit_vector)
        requires
            s < 32,
    ;
}

proof fn lemma_shl_one(i: u32, s: u32)
    requires
        i + s < 32,
    ensures
        (1u32 << i) << s == 1u32 << ((i + s) as u32),
{
    assert((1u32 << i) << s == 1u32 << ((i + s) as u32)) by (bit_vector)
        requires
            i + s < 32,
    ;
}

/// Flips of adjacent sample ranges combine by exclusive or.
pub proof fn lemma_range_split(coords: Seq<Point>, y: int, s: Point, e: Point, lo: int, mid: int, hi: int)
    requires
        lo <= mid <= hi,
    ensures
        toggle_range(coords, y, s, e, lo, mid) ^ toggle_range(coords, y, s, e, mid, hi)
            == toggle_range(coords, y, s, e, lo, hi),
    decreases hi - mid,
{
    let a = toggle_range(coords, y, s, e, lo, mid);
    if hi == mid {
        lemma_xor_assoc(a, 0, 0);
    } else {
        lemma_range_split(coords, y, s, e, lo, mid, hi - 1);
        lemma_xor_assoc(
            a,
            toggle_range(coords, y, s, e, mid, hi - 1),
            flip_bit(coords, y, s, e, hi - 1),
        );
    }
}

/// A group of lanes, moved to its place in the row, holds the flips of its
/// samples.
pub proof fn lemma_lane_bits_placed(coords: Seq<Point>, y: int, s: Point, e: Point, base: int, n: int)
    requires
        0 <= base < TILE_W,
        0 <= n,
        base + n <= TILE_W,
    ensures
        lane_bits(coords, y, s, e, base, n) << (base as u32) == toggle_range(
            coords,
            y,
            s,
            e,
            base,
            base + n,
        ),
    decreases n,
{
    let sh = base as u32;
    if n == 0 {
        lemma_shl_xor(0, 0, sh);
    } else {
        lemma_lane_bits_placed(coords, y, s, e, base, n - 1);
        let prev = lane_bits(coords, y, s, e, base, n - 1);
        let hit = toggles(row_sample(coords, y, base + n - 1), s, e);
        let b: u32 = if hit {
            1u32 << ((n - 1) as u32)
        } else {
            0
        };
        lemma_shl_xor(prev, b, sh);
        if hit {
            lemma_shl_one((n - 1) as u32, sh);
            assert(((n - 1) as u32 + sh) as u32 == (base + n - 1) as u32);
        }
    }
}

/// The flips gathered `lanes` at a time over the first `chunks` groups are
/// the flips of the samples those groups cover.
pub proof fn lemma_chunks_cover(coords: Seq<Point>, y: int, s: Point, e: Point, lanes: int, chunks: int)
    requires
        0 < lanes,
        0 <= chunks,
        chunks * lanes <= TILE_W,
    ensures
        chunked_word(coords, y, s, e, lanes, chunks) == toggle_range(
            coords,
            y,
            s,
            e,
            0,
            chunks * lanes,
        ),
    decreases chunks,
{
    if chunks > 0 {
        let base = (chunks - 1) * lanes;
        assert(base + lanes == chunks * lanes && 0 <= base) by (nonlinear_arith)
            requires
                base == (chunks - 1) * lanes,
                chunks >= 1,
                lanes > 0,
        ;
        assert(base <= chunks * lanes) by (nonlinear_arith)
            requires
                lanes > 0,
                base + lanes == chunks * lanes,
        ;
        lemma_chunks_cover(coords, y, s, e, lanes, chunks - 1);
        lemma_lane_bits_placed(coords, y, s, e, base, lanes);
        lemma_range_split(coords, y, s, e, 0, base, chunks * lanes);
        assert(chunked_word(coords, y, s, e, lanes, chunks) == chunked_word(
            coords,
            y,
            s,
            e,
            lanes,
            chunks - 1,
        ) ^ (lane_bits(coords, y, s, e, base, lanes) << (base as u32)));
    } else {
        assert(chunks * lanes == 0) by (nonlinear_arith)
            requires
                chunks == 0,
        ;
    }
}

/// The batched row processor flips exactly the bits that the one-sample-at-
/// a-time processor flips, for every supported lane width.
pub proof fn lemma_lanes_match_scalar(coords: Seq<Point>, y: int, s: Point, e: Point, lanes: usize)
    requires
        lane_width_ok(lanes),
    ensures
        chunked_word(coords, y, s, e, lanes as int, (TILE_W / lanes) as int) == toggle_word(
            coords,
            y,
            s,
            e,
        ),
{
    let chunks = (TILE_W / lanes) as int;
    assert(chunks * lanes == TILE_W) by {
        if lanes == 1 {
            assert(chunks == 32) by (nonlinear_arith)
                requires
                    lanes == 1,
                    chunks == (TILE_W / lanes) as int,
            ;
        } else if lanes == 2 {
            assert(chunks == 16) by (nonlinear_arith)
                requires
                    lanes == 2,
                    chunks == (TILE_W / lanes) as int,
            ;
        } else if lanes == 4 {
            assert(chunks == 8) by (nonlinear_arith)
                requires
                    lanes == 4,
                    chunks == (TILE_W / lanes) as int,
            ;
        } else if lanes == 8 {
            assert(chunks == 4) by (nonlinear_arith)
                requires
                    lanes == 8,
                    chunks == (TILE_W / lanes) as int,
            ;
        } else if lanes == 16 {
            assert(chunks == 2) by (nonlinear_arith)
                requires
                    lanes == 16,
                    chunks == (TILE_W / lanes) as int,
            ;
        } else {
            assert(chunks == 1) by (nonlinear_arith)
                requires
                    lanes == 32,
                    chunks == (TILE_W / lanes) as int,
            ;
        }
    }
    lemma_chunks_cover(coords, y, s, e, lanes as int, chunks);
}

} // verus!
