//! Raster images held in memory, with codecs for BMP and PPM files and
//! simple per-pixel and convolution filters.

pub mod bmp;
pub mod filter;
pub mod image;
pub mod ppm;
