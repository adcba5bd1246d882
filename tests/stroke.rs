use wizdraw::contour::contour;
use wizdraw::shapes::rectangle;
use wizdraw::{Canvas, Color, CubicBezier, Point, SsaaConfig, Texture, SUBPIXELS};

fn px(x: i32, y: i32) -> Point {
    Point::new(x * SUBPIXELS, y * SUBPIXELS)
}

const RED: Color = Color { r: 255, g: 0, b: 0, a: 255 };

fn covered(canvas: &Canvas) -> usize {
    canvas.pixels().iter().filter(|c| c.a > 0).count()
}

fn is_closed(path: &[CubicBezier]) -> bool {
    let n = path.len();
    (0..n).all(|i| path[i].c4 == path[(i + 1) % n].c1)
}

#[test]
fn stroke_round_trip() {
    // a straight horizontal segment 60 px long, stroked 10 px wide
    let line = vec![CubicBezier::segment(px(20, 50), px(80, 50))];
    let mut outline = Vec::new();
    let max_error = SUBPIXELS as u32;
    contour(&line, 10 * SUBPIXELS as u32, &mut outline, max_error);
    assert!(outline.len() >= 2);
    assert!(is_closed(&outline));
    let mut canvas = Canvas::new(100, 100);
    canvas.fill_cbc(&outline, &Texture::SolidColor(RED), SsaaConfig::X1).unwrap();
    let area = covered(&canvas) as i64;
    // straight caps: exactly the 60 by 10 rectangle
    assert_eq!(area, 600);
    let (w, _) = canvas.framebuffer_size();
    assert_eq!(canvas.pixels()[50 * w + 50], RED);
    assert_eq!(canvas.pixels()[47 * w + 30], RED);
    assert_eq!(canvas.pixels()[40 * w + 50].a, 0);
    assert_eq!(canvas.pixels()[50 * w + 90].a, 0);
}

#[test]
fn stroke_of_closed_square_is_a_ring() {
    let square = rectangle(px(30, 30), px(40, 40));
    let mut outline = Vec::new();
    contour(&square, 6 * SUBPIXELS as u32, &mut outline, SUBPIXELS as u32);
    assert!(is_closed(&outline));
    let mut canvas = Canvas::new(100, 100);
    canvas.fill_cbc(&outline, &Texture::SolidColor(RED), SsaaConfig::X4).unwrap();
    let (w, _) = canvas.framebuffer_size();
    // on the stroke
    assert_eq!(canvas.pixels()[50 * w + 30], RED);
    assert_eq!(canvas.pixels()[30 * w + 50], RED);
    // inside the ring and far outside
    assert_eq!(canvas.pixels()[50 * w + 50].a, 0);
    assert_eq!(canvas.pixels()[10 * w + 10].a, 0);
}

#[test]
fn stroke_of_empty_path_is_empty() {
    let mut outline = vec![CubicBezier::segment(px(0, 0), px(1, 1))];
    contour(&Vec::new(), 64, &mut outline, 32);
    assert!(outline.is_empty());
}

#[test]
fn stroke_of_curve_is_closed() {
    let curve = vec![CubicBezier { c1: px(10, 80), c2: px(10, 10), c3: px(90, 10), c4: px(90, 80) }];
    let mut outline = Vec::new();
    contour(&curve, 4 * SUBPIXELS as u32, &mut outline, 8);
    assert!(outline.len() > 4);
    assert!(is_closed(&outline));
    let mut canvas = Canvas::new(100, 100);
    canvas.fill_cbc(&outline, &Texture::SolidColor(RED), SsaaConfig::X2).unwrap();
    let (w, _) = canvas.framebuffer_size();
    // the curve's apex is at y = 27.5 px
    assert_eq!(canvas.pixels()[27 * w + 50], RED);
    assert_eq!(canvas.pixels()[50 * w + 50].a, 0);
}
