use wizdraw::shapes::{quad, rectangle};
use wizdraw::ssaa::row_coords;
use wizdraw::render::pixel_coverage;
use wizdraw::canvas::check_closed;
use wizdraw::{
    blend, inverse_bilinear, isqrt, process_row, process_row_lanes, rainbow, toggle_in_shape,
    Bitmap, Bitmaps, BitmapHandle, Canvas, Color, CubicBezier, FillError, Point, SsaaConfig,
    Texture, TileIterator, SUBPIXELS,
};

fn px(x: i32, y: i32) -> Point {
    Point::new(x * SUBPIXELS, y * SUBPIXELS)
}

fn at(canvas: &Canvas, x: usize, y: usize) -> Color {
    let (w, _) = canvas.framebuffer_size();
    canvas.pixels()[y * w + x]
}

const RED: Color = Color { r: 255, g: 0, b: 0, a: 255 };
const CLEAR: Color = Color { r: 0, g: 0, b: 0, a: 0 };

#[test]
fn unit_square_fill() {
    let mut canvas = Canvas::new(100, 100);
    let path = quad(px(25, 25), px(75, 25), px(25, 75), px(75, 75));
    assert_eq!(path.len(), 4);
    let r = canvas.fill_cbc(&path, &Texture::SolidColor(RED), SsaaConfig::X1);
    assert_eq!(r, Ok(()));
    assert_eq!(at(&canvas, 50, 50), RED);
    assert_eq!(at(&canvas, 10, 10), CLEAR);
    assert_eq!(at(&canvas, 25, 25), RED);
    assert_eq!(at(&canvas, 74, 74), RED);
    assert_eq!(at(&canvas, 75, 50), CLEAR);
    assert_eq!(at(&canvas, 90, 50), CLEAR);
}

#[test]
fn square_fill_every_density() {
    for ssaa in [SsaaConfig::X1, SsaaConfig::X2, SsaaConfig::X4, SsaaConfig::X8, SsaaConfig::X16] {
        let mut canvas = Canvas::new(100, 100);
        let path = rectangle(px(25, 25), px(50, 50));
        canvas.fill_cbc(&path, &Texture::SolidColor(RED), ssaa).unwrap();
        assert_eq!(at(&canvas, 50, 50), RED);
        assert_eq!(at(&canvas, 30, 70), RED);
        assert_eq!(at(&canvas, 10, 10), CLEAR);
        assert_eq!(at(&canvas, 80, 80), CLEAR);
    }
}

#[test]
fn half_covered_edge_pixel() {
    // the left edge runs through the middle of column 10
    let mut canvas = Canvas::new(40, 40);
    let path = rectangle(Point::new(10 * SUBPIXELS + 16, 0), px(20, 40));
    canvas.fill_cbc(&path, &Texture::SolidColor(RED), SsaaConfig::X4).unwrap();
    let c = at(&canvas, 10, 20);
    assert_eq!(c.a, (127u32 * 127 / 255) as u8);
    assert_eq!(c.r, 127);
    assert_eq!(at(&canvas, 11, 20), RED);
    assert_eq!(at(&canvas, 9, 20), CLEAR);
}

#[test]
fn large_canvas_far_tile_is_filled() {
    // a tile in the middle of a large shape is decided by one probe
    let mut canvas = Canvas::new(200, 200);
    let path = rectangle(px(1, 1), px(198, 198));
    canvas.fill_cbc(&path, &Texture::SolidColor(RED), SsaaConfig::X1).unwrap();
    assert_eq!(at(&canvas, 100, 100), RED);
    assert_eq!(at(&canvas, 0, 0), CLEAR);
    assert_eq!(at(&canvas, 199, 199), CLEAR);
}

#[test]
fn open_path_is_rejected() {
    let path = quad(px(5, 5), px(40, 5), px(5, 40), px(40, 40));
    assert!(check_closed(&path));
    let mut broken = path.clone();
    broken[2].c1 = px(41, 40);
    assert!(!check_closed(&broken));
    let mut unwrapped = path.clone();
    unwrapped[3].c4 = px(6, 5);
    assert!(!check_closed(&unwrapped));
    assert!(check_closed(&Vec::new()));
}

#[test]
fn out_of_range_is_rejected() {
    let mut canvas = Canvas::new(50, 50);
    let far = Point::new(i32::MAX, 0);
    let path = quad(px(0, 0), far, px(0, 10), px(10, 10));
    let r = canvas.fill_cbc(&path, &Texture::SolidColor(RED), SsaaConfig::X1);
    assert_eq!(r, Err(FillError::OutOfRange));
}

#[test]
fn empty_path_changes_nothing() {
    let mut canvas = Canvas::new(40, 40);
    let r = canvas.fill_cbc(&Vec::new(), &Texture::SolidColor(RED), SsaaConfig::X4);
    assert_eq!(r, Ok(()));
    assert!(canvas.pixels().iter().all(|c| *c == CLEAR));
}

#[test]
fn clear_after_fills() {
    let mut canvas = Canvas::new(64, 48);
    let path = rectangle(px(3, 3), px(50, 30));
    canvas.fill_cbc(&path, &Texture::SolidColor(RED), SsaaConfig::X2).unwrap();
    canvas.fill_cbc(&path, &Texture::Debug, SsaaConfig::X8).unwrap();
    assert_ne!(at(&canvas, 10, 10), CLEAR);
    canvas.clear();
    assert_eq!(canvas.pixels().len(), 64 * 48);
    assert!(canvas.pixels().iter().all(|c| *c == CLEAR));
}

#[test]
fn invalid_handle_fallback() {
    let mut canvas = Canvas::new(20, 20);
    let handle = canvas.alloc_bitmap(4, 4);
    canvas.free_bitmap(handle);
    let texture = Texture::Bitmap {
        top_left: px(0, 0),
        scale: SUBPIXELS as u32,
        repeat: false,
        bitmap: handle,
    };
    let path = rectangle(px(0, 0), px(20, 20));
    canvas.fill_cbc(&path, &texture, SsaaConfig::X1).unwrap();
    assert_eq!(at(&canvas, 5, 4), Color::new(0, 0, 0, 255));
    assert_eq!(at(&canvas, 5, 5), Color::new(237, 47, 56, 255));
    assert_eq!(at(&canvas, 12, 0), Color::new(0, 0, 0, 255));
    assert_eq!(at(&canvas, 12, 19), Color::new(237, 47, 56, 255));
}

#[test]
fn forged_handle_is_fallback() {
    let bitmaps = Bitmaps::new();
    let b = bitmaps.get(BitmapHandle::forge(7));
    assert_eq!(b.width, 100);
    assert_eq!(b.height, 100);
    assert_eq!(b.sample(3, 0), Color::new(0, 0, 0, 255));
    assert_eq!(b.sample(3, 1), Color::new(237, 47, 56, 255));
    assert_eq!(BitmapHandle::forge(7).leak(), 7);
}

fn numbered_bitmap(canvas: &mut Canvas, w: usize, h: usize) -> BitmapHandle {
    let handle = canvas.alloc_bitmap(w, h);
    let buf: Vec<Color> = (0..w * h).map(|i| Color::new(i as u8, 10, 20, 255)).collect();
    canvas.fill_bitmap(handle, 0, 0, w, h, &buf);
    handle
}

#[test]
fn quad_bitmap_matches_plain_bitmap() {
    let mut canvas = Canvas::new(40, 40);
    let handle = numbered_bitmap(&mut canvas, 4, 4);
    let plain = Texture::Bitmap {
        top_left: px(0, 0),
        scale: 10 * SUBPIXELS as u32,
        repeat: false,
        bitmap: handle,
    };
    let mapped = Texture::QuadBitmap {
        top_left: px(0, 0),
        btm_left: px(0, 40),
        top_right: px(40, 0),
        btm_right: px(40, 40),
        bitmap: handle,
    };
    let path = rectangle(px(0, 0), px(40, 40));
    let mut other = Canvas::new(40, 40);
    let other_handle = numbered_bitmap(&mut other, 4, 4);
    assert_eq!(other_handle.leak(), handle.leak());
    canvas.fill_cbc(&path, &plain, SsaaConfig::X1).unwrap();
    other.fill_cbc(&path, &mapped, SsaaConfig::X1).unwrap();
    for y in 1..39 {
        for x in 1..39 {
            assert_eq!(at(&canvas, x, y), at(&other, x, y), "pixel {} {}", x, y);
        }
    }
    assert_eq!(at(&canvas, 15, 25), Color::new(9, 10, 20, 255));
}

#[test]
fn quad_sample_direct() {
    let mut bitmap = Bitmap::new(4, 4);
    let buf: Vec<Color> = (0..16).map(|i| Color::new(i as u8, 0, 0, 255)).collect();
    bitmap.fill_region(0, 0, 4, 4, &buf);
    let p = Point::new(15 * SUBPIXELS + 16, 25 * SUBPIXELS + 16);
    let c = bitmap.sample_quad(p, px(0, 0), px(0, 40), px(40, 0), px(40, 40));
    assert_eq!(c, Some(Color::new(9, 0, 0, 255)));
    let c = bitmap.sample_scaled(p, px(0, 0), 10 * SUBPIXELS as u32, false);
    assert_eq!(c, Color::new(9, 0, 0, 255));
    let outside = bitmap.sample_quad(px(50, 5), px(0, 0), px(0, 40), px(40, 0), px(40, 40));
    assert_eq!(outside, None);
}

#[test]
fn quad_sample_skewed() {
    // a parallelogram: the edges stay parallel, the map is linear
    let mut bitmap = Bitmap::new(2, 2);
    let buf = vec![
        Color::new(1, 0, 0, 255),
        Color::new(2, 0, 0, 255),
        Color::new(3, 0, 0, 255),
        Color::new(4, 0, 0, 255),
    ];
    bitmap.fill_region(0, 0, 2, 2, &buf);
    let tl = px(10, 0);
    let tr = px(30, 0);
    let bl = px(0, 20);
    let br = px(20, 20);
    assert_eq!(bitmap.sample_quad(px(24, 4), tl, bl, tr, br), Some(Color::new(2, 0, 0, 255)));
    assert_eq!(bitmap.sample_quad(px(8, 16), tl, bl, tr, br), Some(Color::new(3, 0, 0, 255)));
    // a trapezoid: the quadratic case
    let tl = px(0, 0);
    let tr = px(40, 0);
    let bl = px(10, 20);
    let br = px(30, 20);
    assert_eq!(bitmap.sample_quad(px(5, 1), tl, bl, tr, br), Some(Color::new(1, 0, 0, 255)));
    assert_eq!(bitmap.sample_quad(px(25, 18), tl, bl, tr, br), Some(Color::new(4, 0, 0, 255)));
    assert_eq!(bitmap.sample_quad(px(2, 18), tl, bl, tr, br), None);
}

#[test]
fn inverse_bilinear_square() {
    let r = inverse_bilinear(
        Point::new(496, 816),
        px(0, 0),
        px(40, 0),
        px(40, 40),
        px(0, 40),
    );
    let (un, ud, vn, vd) = r.unwrap();
    assert_eq!(un * 1280, 496 * ud);
    assert_eq!(vn * 1280, 816 * vd);
}

#[test]
fn scaled_bitmap_repeat_and_bounds() {
    let mut bitmap = Bitmap::new(2, 1);
    bitmap.fill_region(0, 0, 2, 1, &vec![Color::new(1, 1, 1, 255), Color::new(2, 2, 2, 255)]);
    let s = 2 * SUBPIXELS as u32;
    // without repeat, left of the bitmap is transparent
    assert_eq!(bitmap.sample_scaled(px(-1, 0), px(0, 0), s, false), CLEAR);
    // with repeat, the pattern wraps with a non-negative remainder
    assert_eq!(bitmap.sample_scaled(px(-1, 0), px(0, 0), s, true), Color::new(2, 2, 2, 255));
    assert_eq!(bitmap.sample_scaled(px(4, 0), px(0, 0), s, true), Color::new(1, 1, 1, 255));
    assert_eq!(bitmap.sample_scaled(px(3, 1), px(0, 0), s, true), Color::new(2, 2, 2, 255));
    assert_eq!(bitmap.sample_scaled(px(3, 1), px(0, 0), s, false), Color::new(2, 2, 2, 255));
    assert_eq!(bitmap.sample_scaled(px(4, 0), px(0, 0), s, false), CLEAR);
    assert_eq!(bitmap.sample_scaled(px(1, 0), px(0, 0), 0, true), CLEAR);
}

#[test]
fn fill_bitmap_region_and_out_of_bounds() {
    let mut canvas = Canvas::new(10, 10);
    let handle = canvas.alloc_bitmap(3, 2);
    let c = Color::new(9, 8, 7, 6);
    canvas.fill_bitmap(handle, 1, 1, 2, 1, &vec![c, c]);
    let mut bitmaps = Bitmaps::new();
    let h2 = bitmaps.push(Bitmap::new(3, 2));
    bitmaps.fill(h2, 1, 1, 2, 1, &vec![c, c]);
    let b = bitmaps.get(h2);
    assert_eq!(b.pixels, vec![CLEAR, CLEAR, CLEAR, CLEAR, c, c]);
    // does not fit: ignored
    bitmaps.fill(h2, 2, 0, 2, 1, &vec![RED, RED]);
    assert_eq!(bitmaps.get(h2).pixels, vec![CLEAR, CLEAR, CLEAR, CLEAR, c, c]);
    // buffer too short: ignored
    bitmaps.fill(h2, 0, 0, 2, 1, &vec![RED]);
    assert_eq!(bitmaps.get(h2).pixels, vec![CLEAR, CLEAR, CLEAR, CLEAR, c, c]);
    bitmaps.free(h2);
    assert_eq!(bitmaps.get(h2).width, 100);
}

#[test]
fn oversized_bitmap_gets_fallback() {
    let mut canvas = Canvas::new(10, 10);
    let h = canvas.alloc_bitmap(usize::MAX, 2);
    let texture = Texture::Bitmap { top_left: px(0, 0), scale: 32, repeat: false, bitmap: h };
    canvas.fill_cbc(&rectangle(px(0, 0), px(10, 10)), &texture, SsaaConfig::X1).unwrap();
    assert_eq!(at(&canvas, 2, 3), Color::new(237, 47, 56, 255));
}

#[test]
fn blend_formula() {
    let dst = Color::new(10, 20, 30, 40);
    assert_eq!(blend(Color::new(200, 100, 50, 255), dst, 255), Color::new(200, 100, 50, 255));
    assert_eq!(blend(Color::new(200, 100, 50, 255), dst, 0), dst);
    assert_eq!(blend(Color::new(200, 100, 50, 0), dst, 255), dst);
    // alpha 127: (200 * 127 + 10 * 128) / 255 = 104
    let out = blend(Color::new(200, 100, 50, 255), dst, 127);
    assert_eq!(out, Color::new(104, 59, 39, 83));
}

#[test]
fn rainbow_stripes() {
    assert_eq!(rainbow(0, 0), Color::new(255, 0, 0, 255));
    assert_eq!(rainbow(10, 6), Color::new(255, 127, 0, 255));
    assert_eq!(rainbow(127, 0), Color::new(255, 255, 255, 100));
    assert_eq!(rainbow(128, 0), Color::new(255, 0, 0, 255));
    assert_eq!(rainbow(usize::MAX, usize::MAX), rainbow(127, 127));
}

#[test]
fn toggle_edge_function() {
    let a = Point::new(0, 0);
    let b = Point::new(0, 100);
    // the segment toggles the samples whose leftward ray it crosses
    assert!(toggle_in_shape(Point::new(5, 50), a, b));
    assert!(!toggle_in_shape(Point::new(-5, 50), a, b));
    assert!(toggle_in_shape(Point::new(5, 50), b, a));
    assert!(!toggle_in_shape(Point::new(-5, 50), b, a));
    // outside the span: never
    assert!(!toggle_in_shape(Point::new(-5, 150), a, b));
    // a zero-length segment never toggles
    assert!(!toggle_in_shape(Point::new(5, 0), a, a));
}

#[test]
fn lanes_equal_scalar() {
    for ssaa in [SsaaConfig::X1, SsaaConfig::X2, SsaaConfig::X4, SsaaConfig::X8, SsaaConfig::X16] {
        let coords = row_coords(ssaa);
        let segs = [
            (Point::new(100, -40), Point::new(300, 900)),
            (Point::new(600, 900), Point::new(20, 10)),
            (Point::new(0, 500), Point::new(1000, 520)),
            (Point::new(512, 0), Point::new(512, 1024)),
        ];
        for (s, e) in segs {
            for y in 0..32 {
                let mut scalar: u32 = 0x5a5a_1234;
                process_row(y, &coords, s, e, &mut scalar);
                for lanes in [1, 2, 4, 8, 16, 32] {
                    let mut batched: u32 = 0x5a5a_1234;
                    process_row_lanes(y, &coords, s, e, lanes, &mut batched);
                    assert_eq!(batched, scalar);
                }
            }
        }
    }
}

#[test]
fn vertical_segment_flips_left_samples() {
    let coords = row_coords(SsaaConfig::X1);
    let mut row: u32 = 0;
    // a segment going down at x = 10.5 px flips the samples to its right
    process_row(3, &coords, Point::new(336, 0), Point::new(336, 1024), &mut row);
    assert_eq!(row, !((1u32 << 11) - 1));
}

#[test]
fn coverage_counts_subsamples() {
    assert_eq!(pixel_coverage(0b1111, SsaaConfig::X4, 0), 255);
    assert_eq!(pixel_coverage(0b0011, SsaaConfig::X4, 0), 127);
    assert_eq!(pixel_coverage(0b0011, SsaaConfig::X4, 1), 0);
    assert_eq!(pixel_coverage(0xffff_0000, SsaaConfig::X16, 1), 255);
    assert_eq!(pixel_coverage(0x0001_0000, SsaaConfig::X16, 1), 15);
    assert_eq!(pixel_coverage(1 << 31, SsaaConfig::X1, 31), 255);
}

#[test]
fn ssaa_tables() {
    assert_eq!(SsaaConfig::X1.as_mul(), 1);
    assert_eq!(SsaaConfig::X16.as_mul(), 16);
    assert_eq!(SsaaConfig::X8.offsets().len(), 8);
    assert_eq!(SsaaConfig::X2.offsets(), vec![(-8, -8), (8, 8)]);
    let coords = row_coords(SsaaConfig::X2);
    assert_eq!(coords[0], Point::new(8, 8));
    assert_eq!(coords[3], Point::new(56, 24));
}

#[test]
fn integer_square_root() {
    assert_eq!(isqrt(0), 0);
    assert_eq!(isqrt(15), 3);
    assert_eq!(isqrt(16), 4);
    assert_eq!(isqrt(1 << 100), 1 << 50);
    assert_eq!(isqrt((1 << 100) - 1), (1 << 50) - 1);
}

#[test]
fn tile_iterator_walks_rows() {
    let mut it = TileIterator::new(70, 40, SsaaConfig::X1);
    let mut tiles = Vec::new();
    while let Some(t) = it.next_tile() {
        tiles.push(t);
    }
    assert_eq!(tiles, vec![(0, 0), (32, 0), (64, 0), (0, 32), (32, 32), (64, 32)]);
    let mut it = TileIterator::new(0, 40, SsaaConfig::X1);
    assert_eq!(it.next_tile(), None);
}

#[test]
fn curve_split_halves() {
    let c = CubicBezier {
        c1: Point::new(0, 0),
        c2: Point::new(0, 64),
        c3: Point::new(64, 64),
        c4: Point::new(64, 0),
    };
    let (a, b) = c.split();
    assert_eq!(a.c1, c.c1);
    assert_eq!(a.c4, Point::new(32, 48));
    assert_eq!(b.c1, a.c4);
    assert_eq!(b.c4, c.c4);
    assert_eq!(a.c2, Point::new(0, 32));
    assert_eq!(b.c3, Point::new(64, 32));
    assert_eq!(c.reversed().c1, c.c4);
}

#[test]
fn curved_shape_fill() {
    // a circle-like shape made of two curves
    let w = 200;
    let path = vec![
        CubicBezier { c1: px(50, 100), c2: px(50, 20), c3: px(150, 20), c4: px(150, 100) },
        CubicBezier { c1: px(150, 100), c2: px(150, 180), c3: px(50, 180), c4: px(50, 100) },
    ];
    let mut canvas = Canvas::new(w, w);
    canvas.fill_cbc(&path, &Texture::SolidColor(RED), SsaaConfig::X4).unwrap();
    assert_eq!(at(&canvas, 100, 100), RED);
    assert_eq!(at(&canvas, 100, 50), RED);
    assert_eq!(at(&canvas, 60, 100), RED);
    assert_eq!(at(&canvas, 100, 25), CLEAR);
    assert_eq!(at(&canvas, 10, 100), CLEAR);
    assert_eq!(at(&canvas, 55, 45), CLEAR);
}

#[test]
fn gradient_is_transparent() {
    let mut canvas = Canvas::new(20, 20);
    let t = Texture::Gradient(vec![(px(0, 0), RED)]);
    canvas.fill_cbc(&rectangle(px(0, 0), px(20, 20)), &t, SsaaConfig::X1).unwrap();
    assert!(canvas.pixels().iter().all(|c| *c == CLEAR));
}

#[test]
fn lane_widths_render_the_same() {
    let path = vec![
        CubicBezier { c1: px(10, 50), c2: px(10, 0), c3: px(90, 0), c4: px(90, 50) },
        CubicBezier { c1: px(90, 50), c2: px(90, 100), c3: px(10, 100), c4: px(10, 50) },
    ];
    let mut scalar = Canvas::new(100, 100);
    scalar.fill_cbc(&path, &Texture::Debug, SsaaConfig::X4).unwrap();
    let mut simd = Canvas::new_simd(100, 100);
    simd.fill_cbc(&path, &Texture::Debug, SsaaConfig::X4).unwrap();
    assert_eq!(scalar.pixels(), simd.pixels());
    for lanes in [2, 4, 8, 32] {
        let mut other = Canvas::with_lanes(100, 100, lanes);
        other.fill_cbc(&path, &Texture::Debug, SsaaConfig::X4).unwrap();
        assert_eq!(scalar.pixels(), other.pixels());
    }
}
