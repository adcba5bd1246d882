//! Supersampling densities, their subsample offsets, the sample layout of a
//! tile row and the coverage that a row's bits give a pixel.
use vstd::prelude::*;
use crate::geometry::{Point, SUBPIXELS};
use crate::mask::{TILE_W, coords_ok, has_bit};

verus! {

/// Super-sampling anti-aliasing configuration: subsamples per pixel.
#[derive(Clone, Copy, Debug, PartialEq, Eq, Structural)]
pub enum SsaaConfig {
    X1,
    X2,
    X4,
    X8,
    X16,
}

/// A pair of offsets on the two axes.
pub open spec fn o(x: int, y: int) -> (i32, i32) {
    (x as i32, y as i32)
}

/// Subsample offsets from a pixel's center, in subpixel units.
pub open spec fn offset_table(c: SsaaConfig) -> Seq<(i32, i32)> {
    match c {
        SsaaConfig::X1 => seq![o(0, 0)],
        SsaaConfig::X2 => seq![o(-8, -8), o(8, 8)],
        SsaaConfig::X4 => seq![o(-8, -8), o(-8, 8), o(8, -8), o(8, 8)],
        SsaaConfig::X8 => seq![
            o(-4, -4), o(-12, -12), o(-4, 4), o(-12, 12),
            o(4, -4), o(12, -12), o(4, 4), o(12, 12),
        ],
        SsaaConfig::X16 => seq![
            o(-4, -4), o(-12, -12), o(-4, 4), o(-12, 12),
            o(4, -4), o(12, -12), o(4, 4), o(12, 12),
            o(-4, -12), o(-12, -4), o(-4, 12), o(-12, 4),
            o(4, -12), o(12, -4), o(4, 12), o(12, 4),
        ],
    }
}

impl SsaaConfig {
    /// Subsamples per pixel.
    pub open spec fn samples(self) -> nat {
        match self {
            SsaaConfig::X1 => 1,
            SsaaConfig::X2 => 2,
            SsaaConfig::X4 => 4,
            SsaaConfig::X8 => 8,
            SsaaConfig::X16 => 16,
        }
    }

    /// Number of subsamples per pixel.
    pub fn as_mul(&self) -> (r: usize)
        ensures
            r == self.samples(),
    {
        match self {
            SsaaConfig::X1 => 1,
            SsaaConfig::X2 => 2,
            SsaaConfig::X4 => 4,
            SsaaConfig::X8 => 8,
            SsaaConfig::X16 => 16,
        }
    }

    /// The subsample offsets of this density, in subpixel units.
    pub fn offsets(&self) -> (r: Vec<(i32, i32)>)
        ensures
            r@ == offset_table(*self),
    {
        let mut v: Vec<(i32, i32)> = Vec::new();
        match self {
            SsaaConfig::X1 => {
                v.push((0, 0));
            },
            SsaaConfig::X2 => {
                v.push((-8, -8));
                v.push((8, 8));
            },
            SsaaConfig::X4 => {
                v.push((-8, -8));
                v.push((-8, 8));
                v.push((8, -8));
                v.push((8, 8));
            },
            _ => {
                v.push((-4, -4));
                v.push((-12, -12));
                v.push((-4, 4));
                v.push((-12, 12));
                v.push((4, -4));
                v.push((12, -12));
                v.push((4, 4));
                v.push((12, 12));
                if *self == SsaaConfig::X16 {
                    v.push((-4, -12));
                    v.push((-12, -4));
                    v.push((-4, 12));
                    v.push((-12, 4));
                    v.push((4, -12));
                    v.push((12, -4));
                    v.push((4, 12));
                    v.push((12, 4));
                }
            },
        }
        assert(v@ =~= offset_table(*self));
        v
    }
}

pub proof fn lemma_offsets_small(c: SsaaConfig)
    ensures
        offset_table(c).len() == c.samples(),
        forall|k: int|
            0 <= k < c.samples() ==> -12 <= #[trigger] offset_table(c)[k].0 <= 12 && -12
                <= offset_table(c)[k].1 <= 12,
{
}

/// Width in pixels of a tile at this density: the row's bits are shared
/// among the subsamples of its pixels.
pub open spec fn tile_width(c: SsaaConfig) -> nat {
    match c {
        SsaaConfig::X1 => 32,
        SsaaConfig::X2 => 16,
        SsaaConfig::X4 => 8,
        SsaaConfig::X8 => 4,
        SsaaConfig::X16 => 2,
    }
}

impl SsaaConfig {
    /// Width in pixels of a tile at this density.
    pub fn tile_width(&self) -> (r: usize)
        ensures
            r == tile_width(*self),
            r * self.samples() == TILE_W,
    {
        match self {
            SsaaConfig::X1 => 32,
            SsaaConfig::X2 => 16,
            SsaaConfig::X4 => 8,
            SsaaConfig::X8 => 4,
            SsaaConfig::X16 => 2,
        }
    }
}

/// Sample `j` of a tile's first row: subsample `j % n` of pixel `j / n`,
/// relative to the tile's top left corner.
pub open spec fn row_coord(c: SsaaConfig, j: int) -> Point {
    let n = c.samples() as int;
    let off = offset_table(c)[j % n];
    Point {
        x: ((j / n) * SUBPIXELS + SUBPIXELS / 2 + off.0) as i32,
        y: (SUBPIXELS / 2 + off.1) as i32,
    }
}

proof fn lemma_samples_divide(c: SsaaConfig)
    ensures
        tile_width(c) * c.samples() == TILE_W,
        c.samples() >= 1,
        tile_width(c) >= 1,
{
}

/// The sample coordinates of a tile's first row at density `c`.
pub fn row_coords(c: SsaaConfig) -> (r: Vec<Point>)
    ensures
        r@.len() == TILE_W,
        forall|j: int| 0 <= j < TILE_W ==> #[trigger] r@[j] == row_coord(c, j),
        coords_ok(r@),
{
    let offsets = c.offsets();
    let n = c.as_mul();
    let width = c.tile_width();
    proof {
        lemma_offsets_small(c);
        lemma_samples_divide(c);
    }
    let mut r: Vec<Point> = Vec::new();
    for x in 0..width
        invariant
            n == c.samples(),
            width == tile_width(c),
            width * n == TILE_W,
            offsets@ == offset_table(c),
            offsets@.len() == n,
            forall|k: int| 0 <= k < n ==> -12 <= #[trigger] offsets@[k].0 <= 12 && -12 <= offsets@[k].1 <= 12,
            r@.len() == x * n,
            forall|j: int| 0 <= j < x * n ==> #[trigger] r@[j] == row_coord(c, j),
            forall|j: int| 0 <= j < x * n ==> 0 <= #[trigger] r@[j].x <= 1024 && 0 <= r@[j].y <= 32,
    {
        assert((x + 1) * n <= width * n) by (nonlinear_arith)
            requires
                x < width,
                n >= 1,
        ;
        for k in 0..n
            invariant
                n == c.samples(),
                x < width,
                width * n == TILE_W,
                (x + 1) * n <= TILE_W,
                offsets@ == offset_table(c),
                offsets@.len() == n,
                forall|k: int| 0 <= k < n ==> -12 <= #[trigger] offsets@[k].0 <= 12 && -12 <= offsets@[k].1 <= 12,
                r@.len() == x * n + k,
                forall|j: int| 0 <= j < x * n + k ==> #[trigger] r@[j] == row_coord(c, j),
                forall|j: int| 0 <= j < x * n + k ==> 0 <= #[trigger] r@[j].x <= 1024 && 0 <= r@[j].y <= 32,
        {
            let off = offsets[k];
            assert(x * n + k < (x + 1) * n) by (nonlinear_arith)
                requires
                    k < n,
            ;
            assert(x <= 31) by (nonlinear_arith)
                requires
                    x < width,
                    width * n == 32,
                    n >= 1,
            ;
            let px = (x as i32) * SUBPIXELS + SUBPIXELS / 2 + off.0;
            let py = SUBPIXELS / 2 + off.1;
            proof {
                let j = (x * n + k) as int;
                assert(j / (n as int) == x && j % (n as int) == k) by (nonlinear_arith)
                    requires
                        j == x * n + k,
                        0 <= k < n,
                ;
            }
            r.push(Point { x: px, y: py });
        }
        assert(x * n + n == (x + 1) * n) by (nonlinear_arith);
    }
    assert(r@.len() == TILE_W);
    r
}

/// Number of set bits among the `k` first subsamples of pixel `px`.
pub open spec fn covered(row: u32, n: int, px: int, k: int) -> nat
    decreases k,
{
    if k <= 0 {
        0
    } else {
        covered(row, n, px, k - 1) + if has_bit(row, px * n + k - 1) {
            1nat
        } else {
            0nat
        }
    }
}

/// Opacity of pixel `px` of a mask row: its set subsample bits over its
/// subsamples, scaled to 255.
pub open spec fn coverage_of(row: u32, c: SsaaConfig, px: int) -> int {
    (covered(row, c.samples() as int, px, c.samples() as int) as int) * 255 / (c.samples() as int)
}

proof fn lemma_covered_extremes(row: u32, n: int, px: int, k: int)
    requires
        0 <= k <= n,
    ensures
        (forall|i: int| 0 <= i < n ==> has_bit(row, #[trigger] (px * n + i))) ==> covered(
            row,
            n,
            px,
            k,
        ) == k,
        (forall|i: int| 0 <= i < n ==> !has_bit(row, #[trigger] (px * n + i))) ==> covered(
            row,
            n,
            px,
            k,
        ) == 0,
        covered(row, n, px, k) <= k,
    decreases k,
{
    if k > 0 {
        lemma_covered_extremes(row, n, px, k - 1);
        if forall|i: int| 0 <= i < n ==> has_bit(row, #[trigger] (px * n + i)) {
            assert(has_bit(row, px * n + (k - 1)));
        }
        if forall|i: int| 0 <= i < n ==> !has_bit(row, #[trigger] (px * n + i)) {
            assert(!has_bit(row, px * n + (k - 1)));
        }
    }
}

/// At every density, a pixel whose subsamples are all inside is fully
/// covered and one whose subsamples are all outside is not covered at all:
/// the density changes only how pixels on an edge are graded.
pub proof fn lemma_coverage_extremes(row: u32, c: SsaaConfig, px: int)
    ensures
        (forall|i: int|
            0 <= i < c.samples() ==> has_bit(row, #[trigger] (px * c.samples() + i))) ==> coverage_of(
            row,
            c,
            px,
        ) == 255,
        (forall|i: int|
            0 <= i < c.samples() ==> !has_bit(row, #[trigger] (px * c.samples() + i))) ==> coverage_of(
            row,
            c,
            px,
        ) == 0,
        0 <= coverage_of(row, c, px) <= 255,
{
    let n = c.samples() as int;
    lemma_covered_extremes(row, n, px, n);
    let k = covered(row, n, px, n) as int;
    assert(0 <= k * 255 / n <= 255) by (nonlinear_arith)
        requires
            0 <= k <= n,
            n >= 1,
    ;
    assert(n * 255 / n == 255) by (nonlinear_arith)
        requires
            n >= 1,
    ;
}

} // verus!
