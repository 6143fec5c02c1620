//! Container encoder: frames a compressed image as magic, big-endian
//! dimensions, the palette length byte, the palette entries, and the LZW
//! byte stream.

use vstd::prelude::*;

use crate::bytes::push_all;
use crate::format::magic_seq;
use crate::palette::pal_view;
use crate::pipeline::compress;
use crate::pipeline::compress_spec;
use crate::pipeline::CompressionError;

verus! {

/// Error cases of `encode`.
#[derive(Debug)]
pub enum EncodingError {
    /// A stage of the compression pipeline failed.
    CompressionFailed(CompressionError),
    /// The compressed palette holds more than 256 colors.
    PaletteTooLarge,
}

/// Palette entries laid out one after another.
pub open spec fn flat_palette(pal: Seq<Seq<u8>>) -> Seq<u8>
    decreases pal.len(),
{
    if pal.len() == 0 {
        Seq::empty()
    } else {
        pal[0] + flat_palette(pal.skip(1))
    }
}

/// The one-byte palette length field: 0 stands for 256 entries.
pub open spec fn palette_len_byte(n: int) -> u8 {
    if n == 256 {
        0u8
    } else {
        n as u8
    }
}

/// The header of a container file: magic, big-endian dimensions, and the
/// palette length byte.
pub open spec fn header_spec(width: u16, height: u16, pal_len: int) -> Seq<u8> {
    magic_seq() + seq![
        (width as int / 256) as u8,
        (width as int % 256) as u8,
        (height as int / 256) as u8,
        (height as int % 256) as u8,
        palette_len_byte(pal_len),
    ]
}

/// What `encode` returns, as a function of dimensions and pixels.
pub open spec fn encode_spec(width: u16, height: u16, pixels: Seq<u8>) -> Result<
    Seq<u8>,
    EncodingError,
>
    recommends
        pixels.len() != 4,
{
    match compress_spec(pixels) {
        Err(e) => Err(EncodingError::CompressionFailed(e)),
        Ok(c) => {
            if c.0.len() > 256 {
                Err(EncodingError::PaletteTooLarge)
            } else {
                Ok(header_spec(width, height, c.0.len() as int) + flat_palette(c.0) + c.1)
            }
        },
    }
}

proof fn lemma_flat_palette_snoc(pal: Seq<Seq<u8>>, c: Seq<u8>)
    ensures
        flat_palette(pal.push(c)) == flat_palette(pal) + c,
    decreases pal.len(),
{
    if pal.len() == 0 {
        assert(pal.push(c)[0] == c);
        assert(pal.push(c).skip(1) =~= Seq::<Seq<u8>>::empty());
        assert(flat_palette(Seq::<Seq<u8>>::empty()) == Seq::<u8>::empty());
        assert(flat_palette(pal.push(c)) =~= flat_palette(pal) + c);
    } else {
        assert(pal.push(c)[0] == pal[0]);
        assert(pal.push(c).skip(1) =~= pal.skip(1).push(c));
        lemma_flat_palette_snoc(pal.skip(1), c);
        assert(flat_palette(pal.push(c)) =~= flat_palette(pal) + c);
    }
}

/// Each palette entry sits at its own four-byte slot of the flat layout.
pub proof fn lemma_flat_palette_index(pal: Seq<Seq<u8>>, i: int)
    requires
        forall|k: int| 0 <= k < pal.len() ==> (#[trigger] pal[k]).len() == 4,
        0 <= i < pal.len(),
    ensures
        flat_palette(pal).len() == 4 * pal.len(),
        flat_palette(pal).subrange(4 * i, 4 * i + 4) == pal[i],
    decreases pal.len(),
{
    lemma_flat_palette_len(pal);
    if i == 0 {
        assert(flat_palette(pal).subrange(0, 4) =~= pal[0]) by {
            lemma_flat_palette_len(pal.skip(1));
        }
    } else {
        lemma_flat_palette_index(pal.skip(1), i - 1);
        assert(flat_palette(pal).subrange(4 * i, 4 * i + 4) =~= flat_palette(pal.skip(1)).subrange(
            4 * (i - 1),
            4 * (i - 1) + 4,
        ));
    }
}

/// The flat layout of a palette of four-byte entries is four bytes per entry.
pub proof fn lemma_flat_palette_len(pal: Seq<Seq<u8>>)
    requires
        forall|k: int| 0 <= k < pal.len() ==> (#[trigger] pal[k]).len() == 4,
    ensures
        flat_palette(pal).len() == 4 * pal.len(),
    decreases pal.len(),
{
    if pal.len() > 0 {
        lemma_flat_palette_len(pal.skip(1));
    }
}

/// Frames the compressed form of `rgba_data` as a container file: magic,
/// big-endian width and height, the palette length byte (0 standing for 256
/// entries), the palette entries, and the LZW byte stream.
///
/// A one-pixel input has no defined encoding and is excluded by
/// precondition.
pub fn encode(width: u16, height: u16, rgba_data: &Vec<u8>) -> (r: Result<Vec<u8>, EncodingError>)
    requires
        rgba_data@.len() != 4,
    ensures
        match r {
            Ok(out) => encode_spec(width, height, rgba_data@) == Ok::<_, EncodingError>(out@),
            Err(e) => encode_spec(width, height, rgba_data@) == Err::<Seq<u8>, _>(e),
        },
{
    let mut encoded_data: Vec<u8> = Vec::new();
    encoded_data.push(80);
    encoded_data.push(88);
    encoded_data.push(67);
    encoded_data.push(49);
    encoded_data.push((width / 256) as u8);
    encoded_data.push((width % 256) as u8);
    encoded_data.push((height / 256) as u8);
    encoded_data.push((height % 256) as u8);
    let compressed_data = match compress(rgba_data) {
        Ok(c) => c,
        Err(e) => {
            return Err(EncodingError::CompressionFailed(e));
        },
    };
    let ghost pal = pal_view(compressed_data.palette@);
    if compressed_data.palette.len() > 256 {
        return Err(EncodingError::PaletteTooLarge);
    }
    let plen = compressed_data.palette.len();
    if plen == 256 {
        encoded_data.push(0);
    } else {
        encoded_data.push(plen as u8);
    }
    proof {
        assert(encoded_data@ =~= header_spec(width, height, pal.len() as int));
        assert(flat_palette(pal.take(0)) =~= Seq::<u8>::empty());
        assert(encoded_data@ + Seq::<u8>::empty() =~= encoded_data@);
    }
    let ghost header = encoded_data@;
    let mut pi: usize = 0;
    while pi < compressed_data.palette.len()
        invariant
            pi <= compressed_data.palette@.len(),
            pal == pal_view(compressed_data.palette@),
            header == header_spec(width, height, pal.len() as int),
            encoded_data@ == header + flat_palette(pal.take(pi as int)),
        decreases compressed_data.palette@.len() - pi,
    {
        let color = compressed_data.palette[pi];
        let ghost pre = encoded_data@;
        encoded_data.push(color[0]);
        encoded_data.push(color[1]);
        encoded_data.push(color[2]);
        encoded_data.push(color[3]);
        proof {
            assert(pal.take(pi + 1).drop_last() =~= pal.take(pi as int));
            assert(pal.take(pi + 1) =~= pal.take(pi as int).push(pal[pi as int]));
            lemma_flat_palette_snoc(pal.take(pi as int), pal[pi as int]);
            assert(encoded_data@ =~= pre + pal[pi as int]);
            assert(header + (flat_palette(pal.take(pi as int)) + pal[pi as int]) =~= encoded_data@);
        }
        pi += 1;
    }
    proof {
        assert(pal.take(pal.len() as int) =~= pal);
    }
    push_all(&mut encoded_data, &compressed_data.data);
    proof {
        assert((header + flat_palette(pal)) + compressed_data.data@ =~= (header_spec(
            width,
            height,
            pal.len() as int,
        ) + flat_palette(pal)) + compressed_data.data@);
    }
    Ok(encoded_data)
}

} // verus!
