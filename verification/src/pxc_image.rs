//! The palette-indexed interchange form of an image: metadata, palette, and
//! 16-bit code data. Reading and writing it on disk is the host's job.

use vstd::prelude::*;

verus! {

/// An image held as version, dimensions, palette and 16-bit code data.
pub struct PXCImage {
    pub version: u8,
    pub width: u8,
    pub height: u8,
    pub palette: Vec<[u8; 4]>,
    pub data: Vec<u16>,
}

impl PXCImage {
    /// Builds an interchange image value from its parts.
    pub fn new(version: u8, width: u8, height: u8, palette: Vec<[u8; 4]>, data: Vec<u16>) -> (r:
        PXCImage)
        ensures
            r.version == version,
            r.width == width,
            r.height == height,
            r.palette == palette,
            r.data == data,
    {
        PXCImage { version, width, height, palette, data }
    }
}

} // verus!
