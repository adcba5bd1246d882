//! Software rasterizer for paths made of cubic Bézier curves.
//!
//! Coordinates are fixed-point: one pixel is `SUBPIXELS` units on each
//! axis. A path is flattened into line segments tile by tile; each segment
//! flips the coverage bits of the samples whose leftward ray it crosses,
//! and the bits are resolved into pixel coverage under a supersampling
//! density before the paint is composited.
use vstd::prelude::*;

pub mod geometry;
pub mod winding;
pub mod mask;
pub mod ssaa;
pub mod color;
pub mod bitmap;
pub mod texture;
pub mod tile;
pub mod render;
pub mod canvas;
pub mod shapes;
pub mod contour;
pub mod reference;
pub mod worker;

pub use geometry::{Point, CubicBezier, BoundingBox, SUBPIXELS, COORD_LIMIT};
pub use color::{Color, blend, rainbow};
pub use bitmap::{Bitmap, Bitmaps, BitmapHandle};
pub use texture::{Texture, isqrt, inverse_bilinear};
pub use ssaa::SsaaConfig;
pub use tile::{Tile, TileIterator};
pub use canvas::{Canvas, FillError};
pub use winding::toggle_in_shape;
pub use mask::{process_row, process_row_lanes};

verus! {

} // verus!
