//! Bitmaps and the store that owns them behind handles.
use vstd::prelude::*;
use crate::color::{Color, transparent};

verus! {

/// Largest number of pixels a bitmap may hold.
pub const MAX_BITMAP_PIXELS: usize = 0x1000_0000;

/// A row-major RGBA bitmap.
pub struct Bitmap {
    pub width: usize,
    pub height: usize,
    pub pixels: Vec<Color>,
}

impl Bitmap {
    pub open spec fn wf(&self) -> bool {
        &&& self.width * self.height == self.pixels@.len()
        &&& self.pixels@.len() <= MAX_BITMAP_PIXELS
        &&& self.width <= MAX_BITMAP_PIXELS
        &&& self.height <= MAX_BITMAP_PIXELS
    }

    /// A transparent bitmap.
    pub fn new(width: usize, height: usize) -> (b: Bitmap)
        requires
            width * height <= MAX_BITMAP_PIXELS,
            width <= MAX_BITMAP_PIXELS,
            height <= MAX_BITMAP_PIXELS,
        ensures
            b.wf(),
            b.width == width,
            b.height == height,
            forall|i: int| 0 <= i < b.pixels@.len() ==> #[trigger] b.pixels@[i] == transparent(),
    {
        let n = width * height;
        let mut pixels: Vec<Color> = Vec::new();
        for i in 0..n
            invariant
                pixels@.len() == i,
                forall|k: int| 0 <= k < i ==> #[trigger] pixels@[k] == transparent(),
        {
            pixels.push(Color::transparent());
        }
        Bitmap { width, height, pixels }
    }

    /// The texel at column `x`, row `y`; transparent outside the bitmap.
    pub fn sample(&self, x: usize, y: usize) -> (c: Color)
        requires
            self.wf(),
        ensures
            c == texel(self.width as int, self.height as int, self.pixels@, x as int, y as int),
    {
        if x < self.width && y < self.height {
            assert(y * self.width + x < self.width * self.height) by (nonlinear_arith)
                requires
                    x < self.width,
                    y < self.height,
            ;
            self.pixels[y * self.width + x]
        } else {
            Color::transparent()
        }
    }

    /// Copies the row-major `w` by `h` block `buf` to column `x`, row `y`.
    /// Nothing changes where the block does not fit in the bitmap or `buf`
    /// is too short.
    pub fn fill_region(&mut self, x: usize, y: usize, w: usize, h: usize, buf: &Vec<Color>)
        requires
            old(self).wf(),
        ensures
            final(self).wf(),
            final(self).width == old(self).width,
            final(self).height == old(self).height,
            final(self).pixels@ == filled(
                old(self).pixels@,
                old(self).width as int,
                old(self).height as int,
                x as int,
                y as int,
                w as int,
                h as int,
                buf@,
            ),
    {
        let ghost old_px = self.pixels@;
        let width = self.width;
        let height = self.height;
        if x > width || w > width - x || y > height || h > height - y {
            assert(self.pixels@ =~= filled(old_px, width as int, height as int, x as int, y as int, w as int, h as int, buf@));
            return;
        }
        assert(w * h <= width * height) by (nonlinear_arith)
            requires
                w <= width,
                h <= height,
        ;
        if buf.len() < w * h {
            assert(self.pixels@ =~= filled(old_px, width as int, height as int, x as int, y as int, w as int, h as int, buf@));
            return;
        }
        for yo in 0..h
            invariant
                self.wf(),
                self.width == width,
                self.height == height,
                self.pixels@.len() == old_px.len(),
                x + w <= width,
                y + h <= height,
                buf@.len() >= w * h,
                w * h <= width * height,
                forall|i: int|
                    0 <= i < old_px.len() ==> #[trigger] self.pixels@[i] == if in_region(
                        width as int,
                        x as int,
                        y as int,
                        w as int,
                        h as int,
                        i,
                    ) && i / (width as int) < y + yo {
                        buf@[(i / (width as int) - y) * w + (i % (width as int) - x)]
                    } else {
                        old_px[i]
                    },
        {
            for xo in 0..w
                invariant
                    self.wf(),
                    self.width == width,
                    self.height == height,
                    self.pixels@.len() == old_px.len(),
                    yo < h,
                    x + w <= width,
                    y + h <= height,
                    buf@.len() >= w * h,
                    w * h <= width * height,
                    forall|i: int|
                        0 <= i < old_px.len() ==> #[trigger] self.pixels@[i] == if in_region(
                            width as int,
                            x as int,
                            y as int,
                            w as int,
                            h as int,
                            i,
                        ) && (i / (width as int) < y + yo || (i / (width as int) == y + yo && i % (
                        width as int) < x + xo)) {
                            buf@[(i / (width as int) - y) * w + (i % (width as int) - x)]
                        } else {
                            old_px[i]
                        },
            {
                let row = y + yo;
                let col = x + xo;
                assert(row * width + col < width * height) by (nonlinear_arith)
                    requires
                        row < height,
                        col < width,
                ;
                assert(yo * w + xo < w * h) by (nonlinear_arith)
                    requires
                        yo < h,
                        xo < w,
                ;
                let dst = row * width + col;
                let src = yo * w + xo;
                proof {
                    lemma_index_parts(row as int, col as int, width as int);
                }
                self.pixels.set(dst, buf[src]);
                proof {
                    assert forall|i: int|
                        0 <= i && #[trigger] (i / (width as int)) == row && i % (width as int)
                            == col implies i == dst by {
                        vstd::arithmetic::div_mod::lemma_fundamental_div_mod(i, width as int);
                        assert(i == row * width + col) by (nonlinear_arith)
                            requires
                                i == (width as int) * (i / (width as int)) + i % (width as int),
                                i / (width as int) == row,
                                i % (width as int) == col,
                        ;
                    }
                }
            }
        }
        assert(self.pixels@ =~= filled(old_px, width as int, height as int, x as int, y as int, w as int, h as int, buf@));
    }
}

proof fn lemma_index_parts(row: int, col: int, width: int)
    requires
        0 <= row,
        0 <= col < width,
    ensures
        (row * width + col) / width == row,
        (row * width + col) % width == col,
{
    vstd::arithmetic::div_mod::lemma_fundamental_div_mod_converse(
        row * width + col,
        width,
        row,
        col,
    );
}

/// The texel at column `x`, row `y` of a row-major bitmap, transparent
/// outside it.
pub open spec fn texel(width: int, height: int, pixels: Seq<Color>, x: int, y: int) -> Color {
    if 0 <= x < width && 0 <= y < height {
        pixels[y * width + x]
    } else {
        transparent()
    }
}

/// Does the pixel at index `i` of a row-major bitmap `width` wide lie in the
/// `w` by `h` block at column `x`, row `y`?
pub open spec fn in_region(width: int, x: int, y: int, w: int, h: int, i: int) -> bool {
    x <= i % width < x + w && y <= i / width < y + h
}

/// The pixels of a bitmap after the block `buf` was copied in: unchanged
/// where the block does not fit or `buf` is too short.
pub open spec fn filled(
    pixels: Seq<Color>,
    width: int,
    height: int,
    x: int,
    y: int,
    w: int,
    h: int,
    buf: Seq<Color>,
) -> Seq<Color> {
    if x + w > width || y + h > height || buf.len() < w * h {
        pixels
    } else {
        Seq::new(
            pixels.len(),
            |i: int|
                if in_region(width, x, y, w, h, i) {
                    buf[(i / width - y) * w + (i % width - x)]
                } else {
                    pixels[i]
                },
        )
    }
}

/// Handle of a bitmap in a [`Bitmaps`] store. A handle that was never
/// given out, or whose bitmap was freed, stands for the fallback bitmap.
#[derive(Clone, Copy, Debug, PartialEq, Eq, Structural)]
pub struct BitmapHandle(usize);

impl BitmapHandle {
    /// The slot this handle names.
    pub closed spec fn id(self) -> usize {
        self.0
    }

    /// A handle for slot `inner`, valid or not.
    pub fn forge(inner: usize) -> (h: BitmapHandle)
        ensures
            h.id() == inner,
    {
        BitmapHandle(inner)
    }

    /// The slot this handle names.
    pub fn leak(&self) -> (r: usize)
        ensures
            r == self.id(),
    {
        self.0
    }
}

/// Side of the square fallback bitmap.
pub const FALLBACK_SIDE: usize = 100;

pub open spec fn fallback_black() -> Color {
    Color { r: 0, g: 0, b: 0, a: 255 }
}

pub open spec fn fallback_red() -> Color {
    Color { r: 237, g: 47, b: 56, a: 255 }
}

/// Pixel `i` of the fallback bitmap: opaque stripes one row high, black on
/// even rows and red on odd ones.
pub open spec fn fallback_pixel(i: int) -> Color {
    if (i / FALLBACK_SIDE as int) % 2 == 0 {
        fallback_black()
    } else {
        fallback_red()
    }
}

pub open spec fn is_fallback(b: Bitmap) -> bool {
    &&& b.width == FALLBACK_SIDE
    &&& b.height == FALLBACK_SIDE
    &&& b.pixels@.len() == FALLBACK_SIDE * FALLBACK_SIDE
    &&& forall|i: int| 0 <= i < b.pixels@.len() ==> #[trigger] b.pixels@[i] == fallback_pixel(i)
}

/// The bitmaps uploaded so far, and the fallback that stands for any
/// handle without a live bitmap.
pub struct Bitmaps {
    library: Vec<Bitmap>,
    live: Vec<bool>,
    fallback: Bitmap,
}

impl Bitmaps {
    pub closed spec fn wf(&self) -> bool {
        &&& self.library@.len() == self.live@.len()
        &&& forall|i: int| 0 <= i < self.library@.len() ==> (#[trigger] self.library@[i]).wf()
        &&& self.fallback.wf()
        &&& is_fallback(self.fallback)
    }

    /// Number of handles given out.
    pub closed spec fn len(&self) -> nat {
        self.library@.len()
    }

    /// Does the handle name a bitmap that was allocated and not freed?
    pub closed spec fn is_live(&self, h: BitmapHandle) -> bool {
        h.id() < self.library@.len() && self.live@[h.id() as int]
    }

    /// The bitmap a handle stands for.
    pub closed spec fn resolve(&self, h: BitmapHandle) -> Bitmap {
        if self.is_live(h) {
            self.library@[h.id() as int]
        } else {
            self.fallback
        }
    }

    /// A handle without a live bitmap stands for the 100 by 100 striped
    /// fallback; every handle stands for a well-formed bitmap.
    pub proof fn lemma_resolve(&self, h: BitmapHandle)
        requires
            self.wf(),
        ensures
            !self.is_live(h) ==> is_fallback(self.resolve(h)),
            self.resolve(h).wf(),
    {
    }

    pub proof fn lemma_live_in_range(&self, h: BitmapHandle)
        ensures
            self.is_live(h) ==> h.id() < self.len(),
    {
    }

    /// An empty store.
    pub fn new() -> (r: Bitmaps)
        ensures
            r.wf(),
            r.len() == 0,
            forall|h: BitmapHandle| !r.is_live(h) && is_fallback(#[trigger] r.resolve(h)),
    {
        let mut pixels: Vec<Color> = Vec::new();
        let black = Color::new(0, 0, 0, 255);
        let red = Color::new(237, 47, 56, 255);
        for i in 0..FALLBACK_SIDE * FALLBACK_SIDE
            invariant
                pixels@.len() == i,
                black == fallback_black(),
                red == fallback_red(),
                forall|k: int| 0 <= k < i ==> #[trigger] pixels@[k] == fallback_pixel(k),
        {
            if (i / FALLBACK_SIDE) % 2 == 0 {
                pixels.push(black);
            } else {
                pixels.push(red);
            }
        }
        let fallback = Bitmap { width: FALLBACK_SIDE, height: FALLBACK_SIDE, pixels };
        Bitmaps { library: Vec::new(), live: Vec::new(), fallback }
    }

    /// Stores a bitmap and returns its handle.
    pub fn push(&mut self, bitmap: Bitmap) -> (h: BitmapHandle)
        requires
            old(self).wf(),
            bitmap.wf(),
        ensures
            final(self).wf(),
            final(self).len() == old(self).len() + 1,
            h.id() == old(self).len(),
            final(self).is_live(h),
            final(self).resolve(h) == bitmap,
            forall|o: BitmapHandle|
                o.id() != h.id() ==> final(self).is_live(o) == old(self).is_live(o) && final(self).resolve(o) == old(self).resolve(o),
    {
        let h = BitmapHandle(self.library.len());
        self.library.push(bitmap);
        self.live.push(true);
        h
    }

    /// Takes a slot that holds no bitmap: its handle stands for the
    /// fallback.
    pub fn push_empty(&mut self) -> (h: BitmapHandle)
        requires
            old(self).wf(),
        ensures
            final(self).wf(),
            final(self).len() == old(self).len() + 1,
            h.id() == old(self).len(),
            !final(self).is_live(h),
            forall|o: BitmapHandle|
                o.id() != h.id() ==> final(self).is_live(o) == old(self).is_live(o) && final(self).resolve(o) == old(self).resolve(o),
    {
        let h = BitmapHandle(self.library.len());
        let empty = Bitmap { width: 0, height: 0, pixels: Vec::new() };
        assert(empty.wf());
        self.library.push(empty);
        self.live.push(false);
        h
    }

    /// The bitmap a handle stands for: the fallback where it is not live.
    pub fn get(&self, h: BitmapHandle) -> (b: &Bitmap)
        requires
            self.wf(),
        ensures
            *b == self.resolve(h),
            b.wf(),
    {
        if h.0 < self.library.len() && self.live[h.0] {
            &self.library[h.0]
        } else {
            &self.fallback
        }
    }

    /// Releases a bitmap: its handle stands for the fallback from now on.
    pub fn free(&mut self, h: BitmapHandle)
        requires
            old(self).wf(),
        ensures
            final(self).wf(),
            final(self).len() == old(self).len(),
            !final(self).is_live(h),
            is_fallback(final(self).resolve(h)),
            forall|o: BitmapHandle|
                o.id() != h.id() ==> final(self).is_live(o) == old(self).is_live(o) && final(self).resolve(o) == old(self).resolve(o),
    {
        if h.0 < self.library.len() {
            let ghost before = self.library@;
            let empty = Bitmap { width: 0, height: 0, pixels: Vec::new() };
            assert(empty.wf());
            self.library.set(h.0, empty);
            self.live.set(h.0, false);
            assert forall|i: int| 0 <= i < self.library@.len() implies (#[trigger] self.library@[i]).wf() by {
                if i != h.0 as int {
                    assert(self.library@[i] == before[i]);
                }
            }
        }
    }

    /// Copies a row-major `w` by `h` block into a live bitmap at column
    /// `x`, row `y`. Nothing changes where the handle is not live, the block
    /// does not fit, or `buf` is too short.
    pub fn fill(&mut self, handle: BitmapHandle, x: usize, y: usize, w: usize, h: usize, buf: &Vec<Color>)
        requires
            old(self).wf(),
        ensures
            final(self).wf(),
            final(self).len() == old(self).len(),
            forall|o: BitmapHandle| final(self).is_live(o) == old(self).is_live(o),
            forall|o: BitmapHandle|
                o.id() != handle.id() ==> final(self).resolve(o) == old(self).resolve(o),
            old(self).is_live(handle) ==> final(self).resolve(handle).width == old(self).resolve(handle).width && final(self).resolve(handle).height == old(self).resolve(handle).height
                && final(self).resolve(handle).pixels@ == filled(
                old(self).resolve(handle).pixels@,
                old(self).resolve(handle).width as int,
                old(self).resolve(handle).height as int,
                x as int,
                y as int,
                w as int,
                h as int,
                buf@,
            ),
            !old(self).is_live(handle) ==> final(self).resolve(handle) == old(self).resolve(handle),
    {
        if handle.0 < self.library.len() && self.live[handle.0] {
            let ghost before = self.library@;
            self.library[handle.0].fill_region(x, y, w, h, buf);
            assert forall|i: int| 0 <= i < self.library@.len() implies (#[trigger] self.library@[i]).wf() by {
                if i != handle.0 as int {
                    assert(self.library@[i] == before[i]);
                }
            }
        }
    }
}

} // verus!
