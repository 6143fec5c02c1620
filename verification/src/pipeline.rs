//! Pipeline driver: composes the palette, RLE-delta and LZW stages.
//!
//! Compression maps RGBA bytes to palette indices, run-length encodes the
//! index deltas, and LZW-packs the result; decompression runs the strict
//! inverse. Each stage's error is propagated wrapped in the pipeline's own
//! error type.

use vstd::prelude::*;

use crate::lzw::lemma_lzw_round_trip;
use crate::lzw::lzw_compression;
use crate::lzw::lzw_decode_spec;
use crate::lzw::lzw_decompression;
use crate::lzw::lzw_encode_spec;
use crate::lzw::LzwCompressionError;
use crate::lzw::LzwDecompressionError;
use crate::palette::colors_of;
use crate::palette::indices_of;
use crate::palette::lemma_palette_round_trip;
use crate::palette::pal_view;
use crate::palette::palette_compression;
use crate::palette::palette_decode_spec;
use crate::palette::palette_decompression;
use crate::palette::palette_encode_spec;
use crate::palette::PaletteCompression;
use crate::palette::PaletteCompressionError;
use crate::palette::PaletteDecompressionError;
use crate::rle_delta::lemma_rle_round_trip;
use crate::rle_delta::rle_decode_spec;
use crate::rle_delta::rle_delta_compression;
use crate::rle_delta::rle_delta_decompression;
use crate::rle_delta::rle_encode_spec;
use crate::rle_delta::RleCompressionError;
use crate::rle_delta::RleDecompressionError;

verus! {

/// Error cases of `compress`: one wrapping variant per stage.
#[derive(Debug)]
pub enum CompressionError {
    PaletteCompressionFailed(PaletteCompressionError),
    RleDeltaCompressionFailed(RleCompressionError),
    LzwCompressionFailed(LzwCompressionError),
}

/// Error cases of `decompress`: one wrapping variant per stage.
#[derive(Debug)]
pub enum DecompressionError {
    PaletteDecompressionFailed(PaletteDecompressionError),
    RleDeltaDecompressionFailed(RleDecompressionError),
    LzwDecompressionFailed(LzwDecompressionError),
}

/// A compressed image: the palette and the LZW-packed byte stream.
pub struct CompressionResult {
    pub palette: Vec<[u8; 4]>,
    pub data: Vec<u8>,
}

/// What `compress` returns: the palette and packed bytes of the input, or
/// the first stage error.
pub open spec fn compress_spec(pixels: Seq<u8>) -> Result<
    (Seq<Seq<u8>>, Seq<u8>),
    CompressionError,
>
    recommends
        pixels.len() != 4,
{
    match palette_encode_spec(pixels) {
        Err(e) => Err(CompressionError::PaletteCompressionFailed(e)),
        Ok(c) => {
            if c.1.len() == 0 {
                Err(
                    CompressionError::RleDeltaCompressionFailed(
                        RleCompressionError::EmptyInput,
                    ),
                )
            } else {
                match lzw_encode_spec(rle_encode_spec(c.1)) {
                    Some(bytes) => Ok((c.0, bytes)),
                    None => Err(
                        CompressionError::LzwCompressionFailed(
                            LzwCompressionError::DictionaryOverflow,
                        ),
                    ),
                }
            }
        },
    }
}

/// What `decompress` returns, as a function of palette and packed bytes.
pub open spec fn decompress_spec(pal: Seq<Seq<u8>>, data: Seq<u8>) -> Result<
    Seq<u8>,
    DecompressionError,
> {
    match lzw_decode_spec(data) {
        Err(e) => Err(DecompressionError::LzwDecompressionFailed(e)),
        Ok(rle_bytes) => match rle_decode_spec(rle_bytes) {
            Err(e) => Err(DecompressionError::RleDeltaDecompressionFailed(e)),
            Ok(idx) => match palette_decode_spec(pal, idx) {
                Err(e) => Err(DecompressionError::PaletteDecompressionFailed(e)),
                Ok(px) => Ok(px),
            },
        },
    }
}

/// Runs palette, RLE-delta and LZW encoding in order.
///
/// A one-pixel input has no defined encoding (its index stream is a single
/// byte) and is excluded by precondition.
pub fn compress(data: &Vec<u8>) -> (r: Result<CompressionResult, CompressionError>)
    requires
        data@.len() != 4,
    ensures
        match r {
            Ok(cr) => compress_spec(data@) == Ok::<_, CompressionError>(
                (pal_view(cr.palette@), cr.data@),
            ),
            Err(e) => compress_spec(data@) == Err::<(Seq<Seq<u8>>, Seq<u8>), _>(e),
        },
{
    let palette_compressed = match palette_compression(data) {
        Ok(pc) => pc,
        Err(e) => {
            return Err(CompressionError::PaletteCompressionFailed(e));
        },
    };
    proof {
        assert(data@.len() % 4 == 0);
        assert(palette_compressed.indices@.len() != 1);
    }
    let rle_delta_encoded = match rle_delta_compression(&palette_compressed.indices) {
        Ok(v) => v,
        Err(e) => {
            return Err(CompressionError::RleDeltaCompressionFailed(e));
        },
    };
    let lzw_compressed = match lzw_compression(&rle_delta_encoded) {
        Ok(v) => v,
        Err(e) => {
            return Err(CompressionError::LzwCompressionFailed(e));
        },
    };
    Ok(CompressionResult { palette: palette_compressed.palette, data: lzw_compressed })
}

/// Runs LZW, RLE-delta and palette decoding in order: the strict inverse of
/// `compress`.
pub fn decompress(data: CompressionResult) -> (r: Result<Vec<u8>, DecompressionError>)
    ensures
        match r {
            Ok(out) => decompress_spec(pal_view(data.palette@), data.data@) == Ok::<
                _,
                DecompressionError,
            >(out@),
            Err(e) => decompress_spec(pal_view(data.palette@), data.data@) == Err::<Seq<u8>, _>(e),
        },
{
    let lzw_decompressed = match lzw_decompression(&data.data) {
        Ok(v) => v,
        Err(e) => {
            return Err(DecompressionError::LzwDecompressionFailed(e));
        },
    };
    let rle_delta_decoded = match rle_delta_decompression(&lzw_decompressed) {
        Ok(v) => v,
        Err(e) => {
            return Err(DecompressionError::RleDeltaDecompressionFailed(e));
        },
    };
    let expanded_pixels = match palette_decompression(
        &PaletteCompression { palette: data.palette, indices: rle_delta_decoded },
    ) {
        Ok(v) => v,
        Err(e) => {
            return Err(DecompressionError::PaletteDecompressionFailed(e));
        },
    };
    Ok(expanded_pixels)
}

/// Decompressing a compression recovers the original pixels: the law that
/// `decompress` inverts `compress` on every input the pipeline accepts.
/// One-pixel inputs are excluded: their index stream has no defined RLE-delta
/// encoding.
pub proof fn lemma_pipeline_round_trip(pixels: Seq<u8>)
    requires
        pixels.len() % 4 == 0,
        pixels.len() != 4,
    ensures
        compress_spec(pixels) matches Ok(c) ==> decompress_spec(c.0, c.1) == Ok::<
            _,
            DecompressionError,
        >(pixels),
{
    if let Ok(c) = compress_spec(pixels) {
        let idx = indices_of(colors_of(pixels));
        assert(idx.len() == pixels.len() / 4);
        assert(idx.len() != 0);
        assert(idx.len() >= 2);
        let rle = rle_encode_spec(idx);
        lemma_lzw_round_trip(rle);
        lemma_rle_round_trip(idx);
        lemma_palette_round_trip(pixels);
    }
}

} // verus!
