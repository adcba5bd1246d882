use wizdraw::reference::{is_inside, pixel_opacity, subpixel_is_in_path};
use wizdraw::worker::{seq_sample, Worker, CAP};
use wizdraw::shapes::rectangle;
use wizdraw::{Canvas, Color, CubicBezier, Point, SsaaConfig, Texture, SUBPIXELS};

fn px(x: i32, y: i32) -> Point {
    Point::new(x * SUBPIXELS, y * SUBPIXELS)
}

fn center(x: i32, y: i32) -> Point {
    Point::new(x * SUBPIXELS + SUBPIXELS / 2, y * SUBPIXELS + SUBPIXELS / 2)
}

fn blob() -> Vec<CubicBezier> {
    vec![
        CubicBezier { c1: px(20, 60), c2: px(20, 5), c3: px(100, 5), c4: px(100, 60) },
        CubicBezier { c1: px(100, 60), c2: px(100, 110), c3: px(20, 110), c4: px(20, 60) },
    ]
}

#[test]
fn reference_square() {
    let path = rectangle(px(10, 10), px(20, 20));
    assert!(subpixel_is_in_path(center(15, 15), &path, false));
    assert!(subpixel_is_in_path(center(15, 15), &path, true));
    assert!(!subpixel_is_in_path(center(5, 15), &path, false));
    assert!(!subpixel_is_in_path(center(35, 15), &path, true));
    assert_eq!(pixel_opacity(center(15, 15), &path, false, SsaaConfig::X4), 255);
    assert_eq!(pixel_opacity(center(2, 2), &path, false, SsaaConfig::X4), 0);
}

#[test]
fn reference_holes_rule() {
    // two nested squares walked the same way: winding number 2 inside both
    let mut path = rectangle(px(0, 0), px(40, 40));
    path.extend(rectangle(px(10, 10), px(20, 20)));
    let p = center(20, 20);
    assert!(subpixel_is_in_path(p, &path, false));
    assert!(!subpixel_is_in_path(p, &path, true));
    let ring = center(5, 5);
    assert!(subpixel_is_in_path(ring, &path, false));
    assert!(subpixel_is_in_path(ring, &path, true));
}

#[test]
fn reference_edge_pixel_opacity() {
    // left edge through the middle of column 10
    let path = rectangle(Point::new(10 * SUBPIXELS + 16, 0), px(20, 40));
    assert_eq!(pixel_opacity(center(10, 20), &path, false, SsaaConfig::X4), 127);
    assert_eq!(pixel_opacity(center(10, 20), &path, false, SsaaConfig::X2), 127);
    assert_eq!(pixel_opacity(center(10, 20), &path, false, SsaaConfig::X1), 255);
}

#[test]
fn tile_engine_agrees_with_reference() {
    // a simple closed curved path: parity and nonzero winding agree
    let path = blob();
    let mut canvas = Canvas::new(120, 120);
    let red = Color::new(255, 0, 0, 255);
    canvas.fill_cbc(&path, &Texture::SolidColor(red), SsaaConfig::X1).unwrap();
    let mut disagreements = 0;
    for y in 0..120 {
        for x in 0..120 {
            let inside = subpixel_is_in_path(center(x, y), &path, false);
            let painted = canvas.pixels()[(y * 120 + x) as usize] == red;
            if inside != painted {
                disagreements += 1;
            }
        }
    }
    // the two flatten the curves for different areas; only pixels whose
    // center lies within the flattening tolerance of an edge may differ
    assert!(disagreements < 120, "{} disagreements", disagreements);
    assert!(subpixel_is_in_path(center(60, 60), &path, false));
    assert_eq!(canvas.pixels()[60 * 120 + 60], red);
}

#[test]
fn worker_counts_inside_subsamples() {
    let path = rectangle(px(10, 10), px(20, 20));
    let mut worker = Worker::new();
    let mut mask = vec![0u8; 3];
    worker.queue_ssaa(0, center(15, 15), SsaaConfig::X4);
    worker.queue_ssaa(1, center(2, 2), SsaaConfig::X4);
    worker.queue_ssaa(2, Point::new(10 * SUBPIXELS, 15 * SUBPIXELS + 16), SsaaConfig::X4);
    worker.try_advance(&path, &mut mask, false);
    assert_eq!(mask, vec![0, 0, 0]);
    worker.force_advance(&path, &mut mask, false);
    assert_eq!(mask, vec![4, 0, 2]);
    assert_eq!(worker.point.len(), 0);
    // a full batch is tested by try_advance
    for _ in 0..CAP / 16 {
        worker.queue_ssaa(0, center(15, 15), SsaaConfig::X16);
    }
    worker.try_advance(&path, &mut mask, false);
    assert_eq!(mask, vec![68, 0, 2]);
    let points = vec![center(15, 15), center(40, 40)];
    assert_eq!(seq_sample(&points, &path, true), vec![true, false]);
}

#[test]
fn polyline_inside() {
    let poly = vec![px(0, 0), px(10, 0), px(10, 10), px(0, 10), px(0, 0)];
    assert!(is_inside(center(5, 5), &poly));
    assert!(!is_inside(center(15, 5), &poly));
    assert!(!is_inside(center(5, 5), &vec![px(0, 0)]));
}
