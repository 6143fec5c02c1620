//! Container decoder: parses magic, big-endian dimensions, the palette
//! length byte and the palette entries, then hands the remaining bytes to
//! the decompression pipeline.

use vstd::prelude::*;

use crate::format::magic_seq;
use crate::format::Image;
use crate::palette::colors_of;
use crate::palette::indices_of;
use crate::palette::lemma_palette_entry_len;
use crate::palette::lemma_palette_of_len;
use crate::palette::pal_view;
use crate::palette::palette_of;
use crate::pipeline::decompress;
use crate::pipeline::compress_spec;
use crate::pipeline::decompress_spec;
use crate::pipeline::lemma_pipeline_round_trip;
use crate::pipeline::CompressionResult;
use crate::pipeline::DecompressionError;
use crate::encoder::encode_spec;
use crate::encoder::flat_palette;
use crate::encoder::header_spec;
use crate::encoder::lemma_flat_palette_index;
use crate::encoder::lemma_flat_palette_len;
use crate::encoder::palette_len_byte;

verus! {

/// Error cases of `decode`.
#[derive(Debug)]
pub enum DecodeError {
    /// The data is shorter than the magic or does not start with it.
    InvalidHeader,
    /// The data ends inside a palette entry; carries that entry's number.
    UnexpectedEofPaletteColor(usize),
    /// The data ends before the palette length byte.
    InsufficientDataForPaletteSize,
    /// The data ends inside the dimension fields.
    DimensionParsingFailed,
    /// A stage of the decompression pipeline failed.
    DecompressionFailed(DecompressionError),
}

/// The palette entry count encoded by the length byte: 0 stands for 256
/// entries when both dimensions are positive.
pub open spec fn palette_count_spec(b: u8, w: int, h: int) -> int {
    if b == 0 && w > 0 && h > 0 {
        256
    } else {
        b as int
    }
}

/// What `decode` returns, as a function of the file bytes: width, height,
/// the raw palette length byte, the palette, and the expanded RGBA bytes.
pub open spec fn decode_spec(data: Seq<u8>) -> Result<
    (u16, u16, u8, Seq<Seq<u8>>, Seq<u8>),
    DecodeError,
> {
    if data.len() < 4 || data.subrange(0, 4) != magic_seq() {
        Err(DecodeError::InvalidHeader)
    } else if data.len() < 8 {
        Err(DecodeError::DimensionParsingFailed)
    } else {
        let w = 256 * (data[4] as int) + data[5] as int;
        let h = 256 * (data[6] as int) + data[7] as int;
        if data.len() < 9 {
            Err(DecodeError::InsufficientDataForPaletteSize)
        } else {
            let pcount = palette_count_spec(data[8], w, h);
            if 9 + 4 * pcount > data.len() {
                Err(DecodeError::UnexpectedEofPaletteColor(((data.len() - 9) / 4) as usize))
            } else {
                let pal = Seq::new(
                    pcount as nat,
                    |i: int| data.subrange(9 + 4 * i, 9 + 4 * i + 4),
                );
                match decompress_spec(pal, data.skip(9 + 4 * pcount)) {
                    Ok(px) => Ok((w as u16, h as u16, data[8], pal, px)),
                    Err(e) => Err(DecodeError::DecompressionFailed(e)),
                }
            }
        }
    }
}

/// Parses a container file: validates the magic, reads the big-endian
/// dimensions and the palette (a length byte of 0 standing for 256 entries
/// when both dimensions are positive), and decompresses the remaining bytes
/// into RGBA pixels.
pub fn decode(encoded_data: &Vec<u8>) -> (r: Result<Image, DecodeError>)
    ensures
        match r {
            Ok(img) => decode_spec(encoded_data@) matches Ok(t) && img.width == t.0 && img.height
                == t.1 && img.palette_size == t.2 && pal_view(img.palette@) == t.3
                && img.rgba_data@ == t.4 && img.magic@ == magic_seq(),
            Err(e) => decode_spec(encoded_data@) == Err::<
                (u16, u16, u8, Seq<Seq<u8>>, Seq<u8>),
                _,
            >(e),
        },
{
    let n = encoded_data.len();
    if n < 4 || encoded_data[0] != 80 || encoded_data[1] != 88 || encoded_data[2] != 67
        || encoded_data[3] != 49 {
        proof {
            if encoded_data@.len() >= 4 {
                assert(encoded_data@.subrange(0, 4)[0] == encoded_data@[0]);
                assert(encoded_data@.subrange(0, 4)[1] == encoded_data@[1]);
                assert(encoded_data@.subrange(0, 4)[2] == encoded_data@[2]);
                assert(encoded_data@.subrange(0, 4)[3] == encoded_data@[3]);
                assert(encoded_data@.subrange(0, 4) != magic_seq());
            }
        }
        return Err(DecodeError::InvalidHeader);
    }
    proof {
        assert(encoded_data@.subrange(0, 4) =~= magic_seq());
    }
    if n < 8 {
        return Err(DecodeError::DimensionParsingFailed);
    }
    let width = 256 * (encoded_data[4] as u16) + (encoded_data[5] as u16);
    let height = 256 * (encoded_data[6] as u16) + (encoded_data[7] as u16);
    if n < 9 {
        return Err(DecodeError::InsufficientDataForPaletteSize);
    }
    let psize_byte = encoded_data[8];
    let palette_count: usize = if psize_byte == 0 && width > 0 && height > 0 {
        256
    } else {
        psize_byte as usize
    };
    let ghost pal_spec = Seq::new(
        palette_count as nat,
        |i: int| encoded_data@.subrange(9 + 4 * i, 9 + 4 * i + 4),
    );
    let mut palette: Vec<[u8; 4]> = Vec::new();
    let mut palette_copy: Vec<[u8; 4]> = Vec::new();
    let mut pi: usize = 0;
    while pi < palette_count
        invariant
            pi <= palette_count,
            palette_count <= 256,
            n == encoded_data@.len(),
            n >= 9,
            9 + 4 * pi <= n,
            encoded_data@.subrange(0, 4) == magic_seq(),
            palette_count as int == palette_count_spec(
                encoded_data@[8],
                256 * (encoded_data@[4] as int) + encoded_data@[5] as int,
                256 * (encoded_data@[6] as int) + encoded_data@[7] as int,
            ),
            palette@.len() == pi,
            palette_copy@ == palette@,
            forall|k: int|
                0 <= k < pi ==> palette@[k]@ == encoded_data@.subrange(9 + 4 * k, 9 + 4 * k + 4),
        decreases palette_count - pi,
    {
        if 9 + 4 * pi + 4 > n {
            proof {
                assert(9 + 4 * (palette_count as int) > n as int);
                assert((n as int - 9) / 4 == pi as int);
            }
            return Err(DecodeError::UnexpectedEofPaletteColor(pi));
        }
        let base = 9 + 4 * pi;
        let color: [u8; 4] = [encoded_data[base], encoded_data[base + 1], encoded_data[base + 2],
            encoded_data[base + 3]];
        proof {
            assert(color@ =~= encoded_data@.subrange(base as int, base as int + 4));
        }
        palette.push(color);
        palette_copy.push(color);
        pi += 1;
    }
    let start = 9 + 4 * palette_count;
    let mut tail: Vec<u8> = Vec::new();
    let mut t = start;
    while t < n
        invariant
            start <= t <= n,
            n == encoded_data@.len(),
            tail@ == encoded_data@.subrange(start as int, t as int),
        decreases n - t,
    {
        tail.push(encoded_data[t]);
        proof {
            assert(encoded_data@.subrange(start as int, t as int + 1) =~= encoded_data@.subrange(
                start as int,
                t as int,
            ).push(encoded_data@[t as int]));
        }
        t += 1;
    }
    proof {
        assert(tail@ =~= encoded_data@.skip(start as int));
        assert(pal_view(palette@) =~= pal_spec);
    }
    let rgba_data = match decompress(CompressionResult { palette, data: tail }) {
        Ok(v) => v,
        Err(e) => {
            return Err(DecodeError::DecompressionFailed(e));
        },
    };
    let img = Image::new(width, height, psize_byte, palette_copy, rgba_data);
    Ok(img)
}

/// Decoding an encoding recovers the dimensions, the palette and the pixels:
/// the law that `decode` inverts `encode` whenever the pixel buffer matches
/// the stated dimensions. One-pixel images are excluded: their index stream
/// has no defined RLE-delta encoding.
pub proof fn lemma_container_round_trip(width: u16, height: u16, pixels: Seq<u8>)
    requires
        pixels.len() == 4 * (width as int) * (height as int),
        (width as int) * (height as int) != 1,
    ensures
        encode_spec(width, height, pixels) matches Ok(file) ==> (decode_spec(file) matches Ok(t)
            && t.0 == width && t.1 == height && t.3 == palette_of(colors_of(pixels)) && t.4
            == pixels),
{
    if let Ok(file) = encode_spec(width, height, pixels) {
        let w = width as int;
        let h = height as int;
        let wh = w * h;
        let c = if let Ok(c) = compress_spec(pixels) {
            c
        } else {
            arbitrary()
        };
        let pal = c.0;
        let bytes = c.1;
        let plen = pal.len() as int;
        assert(pixels.len() % 4 == 0);
        assert(pixels.len() == 4 * wh) by (nonlinear_arith)
            requires
                pixels.len() == 4 * w * h,
                wh == w * h,
        ;
        assert(pixels.len() / 4 == wh) by (nonlinear_arith)
            requires
                pixels.len() == 4 * wh,
                wh >= 0,
        ;
        assert(pixels.len() != 4) by {
            if pixels.len() == 4 {
                assert(wh == 1) by (nonlinear_arith)
                    requires
                        4 * wh == 4,
                ;
            }
        }
        // The pipeline rejects the empty index stream, so there are pixels.
        assert(indices_of(colors_of(pixels)).len() == colors_of(pixels).len());
        assert(colors_of(pixels).len() == wh);
        assert(wh >= 1);
        lemma_palette_of_len(colors_of(pixels));
        assert(1 <= plen <= 256);
        assert(wh >= 1 ==> w > 0 && h > 0) by (nonlinear_arith)
            requires
                wh == w * h,
                w >= 0,
                h >= 0,
        ;
        // Layout of the file.
        let header = header_spec(width, height, plen);
        let flat = flat_palette(pal);
        assert(file == header + flat + bytes);
        assert(header.len() == 9);
        assert forall|k: int| 0 <= k < pal.len() implies (#[trigger] pal[k]).len() == 4 by {
            lemma_palette_entry_len(pixels, k);
        }
        lemma_flat_palette_len(pal);
        assert(file.len() == 9 + 4 * plen + bytes.len());
        // Header fields parse back to their sources.
        assert(file.subrange(0, 4) =~= magic_seq());
        assert(file[4] == (w / 256) as u8 && file[5] == (w % 256) as u8);
        assert(file[6] == (h / 256) as u8 && file[7] == (h % 256) as u8);
        assert(256 * ((w / 256) as u8 as int) + ((w % 256) as u8 as int) == w);
        assert(256 * ((h / 256) as u8 as int) + ((h % 256) as u8 as int) == h);
        assert(file[8] == palette_len_byte(plen));
        let pcount = palette_count_spec(file[8], w, h);
        assert(pcount == plen) by {
            if plen == 256 {
                assert(file[8] == 0);
            } else {
                assert(file[8] as int == plen);
            }
        }
        assert(9 + 4 * pcount <= file.len());
        // The palette entries sit at their slots.
        let pal_rec = Seq::new(pcount as nat, |i: int| file.subrange(9 + 4 * i, 9 + 4 * i + 4));
        assert forall|i: int| 0 <= i < pcount implies pal_rec[i] == pal[i] by {
            lemma_flat_palette_index(pal, i);
            assert(file.subrange(9 + 4 * i, 9 + 4 * i + 4) =~= flat.subrange(4 * i, 4 * i + 4));
        }
        assert(pal_rec =~= pal);
        assert(file.skip(9 + 4 * pcount) =~= bytes);
        // The pipeline round trip recovers the pixels.
        lemma_pipeline_round_trip(pixels);
        assert(decompress_spec(pal, bytes) == Ok::<_, DecompressionError>(pixels));
        assert((w as u16) == width);
        assert((h as u16) == height);
    }
}

} // verus!
