//! A software rasterizer: an RGB pixel buffer with alpha compositing and
//! integer scan conversion of lines, circles and polygons.
pub mod color;
pub mod canvas;
pub mod line;
pub mod circle;
pub mod circle_laws;
pub mod polygon;
pub mod polygon_laws;
