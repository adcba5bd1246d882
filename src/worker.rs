//! Batched sampling: subsample points are queued with the index of the
//! mask byte they count towards, and a full batch is tested against the
//! path at once.
use vstd::prelude::*;
use crate::geometry::{Point, CubicBezier};
use crate::reference::{reference_inside, subpixel_is_in_path};
use crate::ssaa::{SsaaConfig, offset_table, lemma_offsets_small};

verus! {

/// Points a batch holds.
pub const CAP: usize = 64;

/// Tests each point against the path (see [`reference_inside`]).
pub fn seq_sample(points: &Vec<Point>, path: &Vec<CubicBezier>, holes: bool) -> (r: Vec<bool>)
    requires
        forall|i: int| 0 <= i < points@.len() ==> (#[trigger] points@[i]).in_range(),
        forall|i: int| 0 <= i < path@.len() ==> (#[trigger] path@[i]).in_range(),
    ensures
        r@.len() == points@.len(),
        forall|i: int| 0 <= i < points@.len() ==> #[trigger] r@[i] == reference_inside(points@[i], path@, holes),
{
    let mut r: Vec<bool> = Vec::new();
    for i in 0..points.len()
        invariant
            forall|k: int| 0 <= k < points@.len() ==> (#[trigger] points@[k]).in_range(),
            forall|k: int| 0 <= k < path@.len() ==> (#[trigger] path@[k]).in_range(),
            r@.len() == i,
            forall|k: int| 0 <= k < i ==> #[trigger] r@[k] == reference_inside(points@[k], path@, holes),
    {
        r.push(subpixel_is_in_path(points[i], path, holes));
    }
    r
}

/// Number of queued points for mask byte `j` that are inside the path.
pub open spec fn inside_for(index: Seq<usize>, points: Seq<Point>, j: int, path: Seq<CubicBezier>, holes: bool, n: int) -> nat
    decreases n,
{
    if n <= 0 {
        0
    } else {
        inside_for(index, points, j, path, holes, n - 1) + if index[n - 1] == j && reference_inside(
            points[n - 1],
            path,
            holes,
        ) {
            1nat
        } else {
            0nat
        }
    }
}

proof fn lemma_inside_for_grows(index: Seq<usize>, points: Seq<Point>, j: int, path: Seq<CubicBezier>, holes: bool, a: int, b: int)
    requires
        0 <= a <= b,
    ensures
        inside_for(index, points, j, path, holes, a) <= inside_for(index, points, j, path, holes, b),
    decreases b - a,
{
    if a < b {
        lemma_inside_for_grows(index, points, j, path, holes, a, b - 1);
    }
}

/// A batch of queued subsample points, each with the mask byte it counts
/// towards.
pub struct Worker {
    pub index: Vec<usize>,
    pub point: Vec<Point>,
}

impl Worker {
    pub open spec fn wf(&self) -> bool {
        self.index@.len() == self.point@.len() && self.point@.len() <= CAP
    }

    /// Number of queued points.
    pub open spec fn pending(&self) -> nat {
        self.point@.len()
    }

    /// An empty batch.
    pub fn new() -> (w: Worker)
        ensures
            w.wf(),
            w.pending() == 0,
    {
        Worker { index: Vec::new(), point: Vec::new() }
    }

    /// Queues one point for mask byte `mask_index`.
    pub fn queue_one(&mut self, mask_index: usize, point: Point)
        requires
            old(self).wf(),
            old(self).pending() < CAP,
        ensures
            final(self).wf(),
            final(self).index@ == old(self).index@.push(mask_index),
            final(self).point@ == old(self).point@.push(point),
    {
        self.point.push(point);
        self.index.push(mask_index);
    }

    /// Queues the subsamples of the pixel whose center is `pixel` for mask
    /// byte `mask_index`.
    pub fn queue_ssaa(&mut self, mask_index: usize, pixel: Point, ssaa: SsaaConfig)
        requires
            old(self).wf(),
            old(self).pending() + ssaa.samples() <= CAP,
            -0x7fff_0000 <= pixel.x <= 0x7fff_0000,
            -0x7fff_0000 <= pixel.y <= 0x7fff_0000,
        ensures
            final(self).wf(),
            final(self).pending() == old(self).pending() + ssaa.samples(),
            final(self).index@ == old(self).index@ + Seq::new(ssaa.samples(), |k: int| mask_index),
            final(self).point@ == old(self).point@ + Seq::new(
                ssaa.samples(),
                |k: int|
                    Point {
                        x: (pixel.x + offset_table(ssaa)[k].0) as i32,
                        y: (pixel.y + offset_table(ssaa)[k].1) as i32,
                    },
            ),
    {
        let offsets = ssaa.offsets();
        let ghost queued_indices = self.index@;
        let ghost queued_points = self.point@;
        proof {
            lemma_offsets_small(ssaa);
        }
        for k in 0..offsets.len()
            invariant
                self.wf(),
                offsets@ == offset_table(ssaa),
                offsets@.len() == ssaa.samples(),
                forall|i: int| 0 <= i < offsets@.len() ==> -12 <= #[trigger] offsets@[i].0 <= 12 && -12 <= offsets@[i].1 <= 12,
                -0x7fff_0000 <= pixel.x <= 0x7fff_0000,
                -0x7fff_0000 <= pixel.y <= 0x7fff_0000,
                queued_points.len() + ssaa.samples() <= CAP,
                self.index@ == queued_indices + Seq::new(k as nat, |i: int| mask_index),
                self.point@ == queued_points + Seq::new(
                    k as nat,
                    |i: int|
                        Point {
                            x: (pixel.x + offset_table(ssaa)[i].0) as i32,
                            y: (pixel.y + offset_table(ssaa)[i].1) as i32,
                        },
                ),
        {
            let off = offsets[k];
            self.queue_one(mask_index, Point { x: pixel.x + off.0, y: pixel.y + off.1 });
            assert(self.index@ =~= queued_indices + Seq::new((k + 1) as nat, |i: int| mask_index));
            assert(self.point@ =~= queued_points + Seq::new(
                (k + 1) as nat,
                |i: int|
                    Point {
                        x: (pixel.x + offset_table(ssaa)[i].0) as i32,
                        y: (pixel.y + offset_table(ssaa)[i].1) as i32,
                    },
            ));
        }
    }

    /// Tests the queued points, adds one to the mask byte of each one that
    /// is inside, and empties the batch.
    pub fn force_advance(&mut self, path: &Vec<CubicBezier>, mask: &mut Vec<u8>, holes: bool)
        requires
            old(self).wf(),
            forall|i: int| 0 <= i < old(self).point@.len() ==> (#[trigger] old(self).point@[i]).in_range(),
            forall|i: int| 0 <= i < old(self).index@.len() ==> #[trigger] old(self).index@[i] < old(mask)@.len(),
            forall|i: int| 0 <= i < path@.len() ==> (#[trigger] path@[i]).in_range(),
            forall|j: int|
                0 <= j < old(mask)@.len() ==> #[trigger] old(mask)@[j] + inside_for(
                    old(self).index@,
                    old(self).point@,
                    j,
                    path@,
                    holes,
                    old(self).pending() as int,
                ) <= 255,
        ensures
            final(self).wf(),
            final(self).pending() == 0,
            final(mask)@.len() == old(mask)@.len(),
            forall|j: int|
                0 <= j < old(mask)@.len() ==> #[trigger] final(mask)@[j] == old(mask)@[j] + inside_for(
                    old(self).index@,
                    old(self).point@,
                    j,
                    path@,
                    holes,
                    old(self).pending() as int,
                ),
    {
        let ghost m0 = mask@;
        let ghost idx = self.index@;
        let ghost pts = self.point@;
        let results = seq_sample(&self.point, path, holes);
        let n = self.point.len();
        for i in 0..n
            invariant
                self.wf(),
                self.index@ == idx,
                self.point@ == pts,
                n == pts.len(),
                results@.len() == n,
                forall|k: int| 0 <= k < n ==> #[trigger] results@[k] == reference_inside(pts[k], path@, holes),
                forall|k: int| 0 <= k < idx.len() ==> #[trigger] idx[k] < m0.len(),
                mask@.len() == m0.len(),
                forall|j: int|
                    0 <= j < m0.len() ==> #[trigger] m0[j] + inside_for(idx, pts, j, path@, holes, n as int) <= 255,
                forall|j: int|
                    0 <= j < m0.len() ==> #[trigger] mask@[j] == m0[j] + inside_for(idx, pts, j, path@, holes, i as int),
        {
            let j = self.index[i];
            if results[i] {
                proof {
                    lemma_inside_for_grows(idx, pts, j as int, path@, holes, i + 1, n as int);
                }
                mask.set(j, mask[j] + 1);
            }
        }
        self.point.clear();
        self.index.clear();
    }

    /// Tests the batch once it is full.
    pub fn try_advance(&mut self, path: &Vec<CubicBezier>, mask: &mut Vec<u8>, holes: bool)
        requires
            old(self).wf(),
            forall|i: int| 0 <= i < old(self).point@.len() ==> (#[trigger] old(self).point@[i]).in_range(),
            forall|i: int| 0 <= i < old(self).index@.len() ==> #[trigger] old(self).index@[i] < old(mask)@.len(),
            forall|i: int| 0 <= i < path@.len() ==> (#[trigger] path@[i]).in_range(),
            forall|j: int|
                0 <= j < old(mask)@.len() ==> #[trigger] old(mask)@[j] + inside_for(
                    old(self).index@,
                    old(self).point@,
                    j,
                    path@,
                    holes,
                    old(self).pending() as int,
                ) <= 255,
        ensures
            final(self).wf(),
            final(mask)@.len() == old(mask)@.len(),
            old(self).pending() < CAP ==> *final(self) == *old(self) && final(mask)@ == old(mask)@,
            old(self).pending() == CAP ==> final(self).pending() == 0 && forall|j: int|
                0 <= j < old(mask)@.len() ==> #[trigger] final(mask)@[j] == old(mask)@[j] + inside_for(
                    old(self).index@,
                    old(self).point@,
                    j,
                    path@,
                    holes,
                    CAP as int,
                ),
    {
        if self.point.len() == CAP {
            self.force_advance(path, mask, holes);
        }
    }
}

} // verus!
