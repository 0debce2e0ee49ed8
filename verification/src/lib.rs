//! A verified core for rendering an escape-time fractal as a grayscale
//! raster: parsing of resolution and complex-corner strings, the linear
//! pixel-to-plane coordinate mapping, the per-pixel intensity mapping and
//! row-major buffer assembly (including its row-band partitioning), and the
//! grayscale PNG encoding of the finished buffer.

pub mod complex;
pub mod dec;
pub mod encode;
pub mod geometry;
pub mod numeral;
pub mod parse;
pub mod render;
