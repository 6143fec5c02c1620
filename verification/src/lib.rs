//! A lossless codec for palette-friendly RGBA raster images.
//!
//! The pipeline maps raw RGBA bytes to palette indices, run-length encodes
//! the index deltas, and LZW-compresses the result; a small container format
//! frames the compressed stream together with the dimensions and the palette.

mod bytes;
pub mod decoder;
pub mod encoder;
pub mod format;
pub mod lzw;
pub mod palette;
pub mod pipeline;
pub mod pxc_image;
pub mod rle_delta;

pub use crate::decoder::decode;
pub use crate::encoder::encode;
pub use crate::format::Image;
