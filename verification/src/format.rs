//! Container format data: the magic bytes and the decoded image value.

use vstd::prelude::*;

verus! {

/// The four magic bytes that open every container file.
pub open spec fn magic_seq() -> Seq<u8> {
    seq![80u8, 88u8, 67u8, 49u8]
}

/// A decoded image: magic, dimensions, palette, and expanded RGBA bytes.
///
/// `palette_size` holds the raw one-byte length field of the container; a
/// value of 0 stands for 256 entries when the image has at least one pixel.
#[derive(Debug)]
pub struct Image {
    pub magic: [u8; 4],
    pub width: u16,
    pub height: u16,
    pub palette_size: u8,
    pub palette: Vec<[u8; 4]>,
    pub rgba_data: Vec<u8>,
}

impl Image {
    /// Builds an image value; the magic field is fixed.
    pub fn new(
        width: u16,
        height: u16,
        palette_size: u8,
        palette: Vec<[u8; 4]>,
        rgba_data: Vec<u8>,
    ) -> (r: Image)
        ensures
            r.width == width,
            r.height == height,
            r.palette_size == palette_size,
            r.palette == palette,
            r.rgba_data == rgba_data,
            r.magic@ == magic_seq(),
    {
        let magic: [u8; 4] = [80u8, 88u8, 67u8, 49u8];
        proof {
            assert(magic@ =~= magic_seq());
        }
        Image { magic, width, height, palette_size, palette, rgba_data }
    }
}

} // verus!
