//! Raster drawing primitives over a packed `0x00RRGGBB` framebuffer:
//! clearing, pixels, Bresenham lines and circles, polylines, Bézier curves,
//! polygon scaling and Cohen–Sutherland line clipping.
pub mod canvas;
pub mod line;
pub mod polyline;
pub mod circle;
pub mod bezier;
pub mod clip;
pub mod transform;
pub mod random;
pub mod surface;
pub mod scene;
