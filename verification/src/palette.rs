//! Palette stage: maps raw RGBA pixels to small palette indices and back.
//!
//! The palette is the sequence of distinct colors in first-encounter order,
//! at most 256 entries; the index stream holds one byte per pixel, the
//! position of that pixel's color in the palette.

use vstd::prelude::*;

verus! {

/// Error cases of `palette_compression`.
#[derive(Debug)]
pub enum PaletteCompressionError {
    /// The input length is not a multiple of four bytes; carries that length.
    InvalidPixelDataLength(usize),
    /// A 257th distinct color was found; carries the attempted entry number.
    PaletteOverflow(usize),
}

/// Error cases of `palette_decompression`.
#[derive(Debug)]
pub enum PaletteDecompressionError {
    /// An index byte is not below the palette length; carries the index and
    /// the palette length.
    InvalidPaletteIndex(usize, usize),
}

/// A palette of distinct RGBA colors together with one palette index per pixel.
pub struct PaletteCompression {
    /// Distinct colors in first-encounter order, at most 256.
    pub palette: Vec<[u8; 4]>,
    /// One byte per pixel: the position of the pixel's color in `palette`.
    pub indices: Vec<u8>,
}

/// The i-th four-byte color of an RGBA byte sequence.
pub open spec fn color_at(pixels: Seq<u8>, i: int) -> Seq<u8> {
    pixels.subrange(4 * i, 4 * i + 4)
}

/// The colors of an RGBA byte sequence, one per pixel.
pub open spec fn colors_of(pixels: Seq<u8>) -> Seq<Seq<u8>>
    recommends
        pixels.len() % 4 == 0,
{
    Seq::new((pixels.len() / 4) as nat, |i: int| color_at(pixels, i))
}

/// `pal` extended with `c`, unless `c` is already present.
pub open spec fn palette_insert(pal: Seq<Seq<u8>>, c: Seq<u8>) -> Seq<Seq<u8>> {
    if pal.contains(c) {
        pal
    } else {
        pal.push(c)
    }
}

/// The palette of a color sequence: the distinct colors in first-encounter order.
pub open spec fn palette_of(colors: Seq<Seq<u8>>) -> Seq<Seq<u8>>
    decreases colors.len(),
{
    if colors.len() == 0 {
        Seq::empty()
    } else {
        palette_insert(palette_of(colors.drop_last()), colors.last())
    }
}

/// Position of the first occurrence of `c` in `pal` (meaningful when present).
pub open spec fn index_in(pal: Seq<Seq<u8>>, c: Seq<u8>) -> int
    decreases pal.len(),
{
    if pal.len() == 0 {
        0
    } else if pal[0] == c {
        0
    } else {
        1 + index_in(pal.drop_first(), c)
    }
}

/// The index stream of a color sequence: each color's position in the palette.
pub open spec fn indices_of(colors: Seq<Seq<u8>>) -> Seq<u8> {
    Seq::new(colors.len(), |i: int| index_in(palette_of(colors), colors[i]) as u8)
}

/// A palette of four-byte arrays seen as a sequence of byte sequences.
pub open spec fn pal_view(pal: Seq<[u8; 4]>) -> Seq<Seq<u8>> {
    pal.map_values(|c: [u8; 4]| c@)
}

/// What `palette_compression` returns, as a function of the input bytes.
pub open spec fn palette_encode_spec(pixels: Seq<u8>) -> Result<
    (Seq<Seq<u8>>, Seq<u8>),
    PaletteCompressionError,
> {
    if pixels.len() % 4 != 0 {
        Err(PaletteCompressionError::InvalidPixelDataLength(pixels.len() as usize))
    } else if palette_of(colors_of(pixels)).len() > 256 {
        Err(PaletteCompressionError::PaletteOverflow(257))
    } else {
        Ok((palette_of(colors_of(pixels)), indices_of(colors_of(pixels))))
    }
}

/// What `palette_decompression` returns, as a function of palette and indices.
pub open spec fn palette_decode_spec(pal: Seq<Seq<u8>>, idx: Seq<u8>) -> Result<
    Seq<u8>,
    PaletteDecompressionError,
>
    decreases idx.len(),
{
    if idx.len() == 0 {
        Ok(Seq::empty())
    } else if idx[0] as int >= pal.len() {
        Err(PaletteDecompressionError::InvalidPaletteIndex(idx[0] as usize, pal.len() as usize))
    } else {
        match palette_decode_spec(pal, idx.skip(1)) {
            Ok(rest) => Ok(pal[idx[0] as int] + rest),
            Err(e) => Err(e),
        }
    }
}

proof fn lemma_index_in_correct(pal: Seq<Seq<u8>>, c: Seq<u8>)
    requires
        pal.contains(c),
    ensures
        0 <= index_in(pal, c) < pal.len(),
        pal[index_in(pal, c)] == c,
    decreases pal.len(),
{
    if pal[0] == c {
    } else {
        let i = choose|i: int| 0 <= i < pal.len() && pal[i] == c;
        assert(pal.drop_first()[i - 1] == c);
        lemma_index_in_correct(pal.drop_first(), c);
    }
}

proof fn lemma_index_in_first(pal: Seq<Seq<u8>>, c: Seq<u8>, j: int)
    requires
        0 <= j < pal.len(),
        pal[j] == c,
        forall|k: int| 0 <= k < j ==> pal[k] != c,
    ensures
        index_in(pal, c) == j,
    decreases pal.len(),
{
    if j == 0 {
    } else {
        assert(pal.drop_first()[j - 1] == c);
        assert(forall|k: int| 0 <= k < j - 1 ==> pal.drop_first()[k] != c);
        lemma_index_in_first(pal.drop_first(), c, j - 1);
    }
}

proof fn lemma_index_in_push(pal: Seq<Seq<u8>>, c: Seq<u8>, d: Seq<u8>)
    requires
        pal.contains(c),
    ensures
        index_in(pal.push(d), c) == index_in(pal, c),
    decreases pal.len(),
{
    let i = choose|i: int| 0 <= i < pal.len() && pal[i] == c;
    if pal[0] == c {
    } else {
        assert(pal.drop_first()[i - 1] == c);
        lemma_index_in_push(pal.drop_first(), c, d);
        assert(pal.push(d).drop_first() =~= pal.drop_first().push(d));
    }
}

proof fn lemma_index_in_push_new(pal: Seq<Seq<u8>>, c: Seq<u8>)
    requires
        !pal.contains(c),
    ensures
        index_in(pal.push(c), c) == pal.len(),
    decreases pal.len(),
{
    if pal.len() == 0 {
    } else {
        assert(pal[0] != c);
        assert(!pal.drop_first().contains(c)) by {
            if pal.drop_first().contains(c) {
                let i = choose|i: int| 0 <= i < pal.drop_first().len() && pal.drop_first()[i] == c;
                assert(pal[i + 1] == c);
            }
        }
        lemma_index_in_push_new(pal.drop_first(), c);
        assert(pal.push(c).drop_first() =~= pal.drop_first().push(c));
    }
}

/// Every color of `cs` occurs in its palette.
proof fn lemma_palette_contains(cs: Seq<Seq<u8>>, i: int)
    requires
        0 <= i < cs.len(),
    ensures
        palette_of(cs).contains(cs[i]),
    decreases cs.len(),
{
    let prev = palette_of(cs.drop_last());
    if i == cs.len() - 1 {
        if !prev.contains(cs[i]) {
            assert(prev.push(cs[i])[prev.len() as int] == cs[i]);
        }
    } else {
        lemma_palette_contains(cs.drop_last(), i);
        assert(cs.drop_last()[i] == cs[i]);
        if !prev.contains(cs.last()) {
            let j = index_in(prev, cs[i]);
            lemma_index_in_correct(prev, cs[i]);
            assert(prev.push(cs.last())[j] == cs[i]);
        }
    }
}

/// Every palette entry is one of the colors it was built from.
proof fn lemma_palette_entries(cs: Seq<Seq<u8>>, j: int)
    requires
        0 <= j < palette_of(cs).len(),
    ensures
        cs.contains(palette_of(cs)[j]),
    decreases cs.len(),
{
    let prev = palette_of(cs.drop_last());
    if cs.len() == 0 {
    } else if j < prev.len() {
        lemma_palette_entries(cs.drop_last(), j);
        let i = choose|i: int| 0 <= i < cs.drop_last().len() && cs.drop_last()[i] == prev[j];
        assert(cs[i] == palette_of(cs)[j]);
    } else {
        assert(!prev.contains(cs.last()));
        assert(palette_of(cs)[j] == cs.last());
        assert(cs[cs.len() - 1] == cs.last());
    }
}

/// The palette of a prefix is a prefix of the full palette.
proof fn lemma_palette_prefix(cs: Seq<Seq<u8>>, i: int)
    requires
        0 <= i <= cs.len(),
    ensures
        palette_of(cs.take(i)).is_prefix_of(palette_of(cs)),
    decreases cs.len() - i,
{
    if i == cs.len() {
        assert(cs.take(i) =~= cs);
    } else {
        lemma_palette_prefix(cs, i + 1);
        assert(cs.take(i + 1).drop_last() =~= cs.take(i));
        assert(cs.take(i + 1).last() == cs[i]);
        let p = palette_of(cs.take(i));
        let q = palette_of(cs.take(i + 1));
        assert(q == palette_insert(p, cs[i]));
        assert(p.is_prefix_of(q));
        assert(p =~= palette_of(cs).subrange(0, p.len() as int));
    }
}

fn color_eq(a: &[u8; 4], b: &[u8; 4]) -> (r: bool)
    ensures
        r <==> a@ == b@,
{
    let r = a[0] == b[0] && a[1] == b[1] && a[2] == b[2] && a[3] == b[3];
    proof {
        if r {
            assert(a@ =~= b@);
        }
    }
    r
}

fn find_color(palette: &Vec<[u8; 4]>, color: &[u8; 4]) -> (r: Option<usize>)
    ensures
        match r {
            Some(j) => j < palette@.len() && palette@[j as int]@ == color@ && (forall|k: int|
                0 <= k < j ==> palette@[k]@ != color@),
            None => forall|k: int| 0 <= k < palette@.len() ==> palette@[k]@ != color@,
        },
{
    let mut j: usize = 0;
    while j < palette.len()
        invariant
            j <= palette@.len(),
            forall|k: int| 0 <= k < j ==> palette@[k]@ != color@,
        decreases palette@.len() - j,
    {
        if color_eq(&palette[j], color) {
            return Some(j);
        }
        j += 1;
    }
    None
}

/// Maps raw RGBA bytes to a palette of distinct colors and one index per pixel.
///
/// The palette keeps the colors in first-encounter order; each index byte is
/// the position of the pixel's color in the palette. Inputs whose length is
/// not a multiple of four are rejected, as is any input with more than 256
/// distinct colors.
pub fn palette_compression(pixels: &Vec<u8>) -> (r: Result<
    PaletteCompression,
    PaletteCompressionError,
>)
    ensures
        match r {
            Ok(pc) => palette_encode_spec(pixels@) == Ok::<_, PaletteCompressionError>(
                (pal_view(pc.palette@), pc.indices@),
            ) && pc.indices@.len() == pixels@.len() / 4 && pc.palette@.len() <= 256 && (forall|
                j: int,
            |
                0 <= j < pc.indices@.len() ==> pc.indices@[j] < pc.palette@.len()),
            Err(e) => palette_encode_spec(pixels@) == Err::<(Seq<Seq<u8>>, Seq<u8>), _>(e),
        },
{
    if pixels.len() % 4 != 0 {
        return Err(PaletteCompressionError::InvalidPixelDataLength(pixels.len()));
    }
    let ghost cs = colors_of(pixels@);
    let n_pixels = pixels.len() / 4;
    let mut palette: Vec<[u8; 4]> = Vec::new();
    let mut indices: Vec<u8> = Vec::new();
    let mut i: usize = 0;
    proof {
        assert(pal_view(palette@) =~= palette_of(cs.take(0)));
    }
    while i < n_pixels
        invariant
            i <= n_pixels,
            n_pixels == pixels@.len() / 4,
            pixels@.len() % 4 == 0,
            pixels@.len() <= usize::MAX,
            cs == colors_of(pixels@),
            pal_view(palette@) == palette_of(cs.take(i as int)),
            palette@.len() <= 256,
            indices@.len() == i,
            forall|j: int| 0 <= j < i ==> pal_view(palette@).contains(cs[j]),
            forall|j: int| 0 <= j < i ==> indices@[j] == index_in(pal_view(palette@), cs[j]),
            forall|j: int| 0 <= j < i ==> indices@[j] < palette@.len(),
        decreases n_pixels - i,
    {
        proof {
            assert(pixels@.len() == 4 * (pixels@.len() / 4));
            assert(4 * (i as int) + 4 <= pixels@.len());
        }
        let color: [u8; 4] = [pixels[4 * i], pixels[4 * i + 1], pixels[4 * i + 2], pixels[4 * i
            + 3]];
        proof {
            assert(color@ =~= color_at(pixels@, i as int));
            assert(cs[i as int] == color_at(pixels@, i as int));
            assert(cs.take(i + 1).drop_last() =~= cs.take(i as int));
            assert(cs.take(i + 1).last() == cs[i as int]);
        }
        let ghost pv = pal_view(palette@);
        match find_color(&palette, &color) {
            Some(j) => {
                proof {
                    assert(pv[j as int] == color@);
                    assert(forall|k: int| 0 <= k < j ==> pv[k] != color@);
                    lemma_index_in_first(pv, color@, j as int);
                    assert(pv.contains(cs[i as int]));
                    assert(palette_of(cs.take(i + 1)) == pv);
                }
                indices.push(j as u8);
            },
            None => {
                proof {
                    assert(forall|k: int| 0 <= k < pv.len() ==> pv[k] != color@);
                    assert(!pv.contains(color@));
                }
                if palette.len() >= 256 {
                    proof {
                        assert(palette_of(cs.take(i + 1)) == pv.push(color@));
                        assert(palette_of(cs.take(i + 1)).len() > 256);
                        lemma_palette_prefix(cs, i + 1);
                        assert(palette_of(cs).len() > 256);
                    }
                    return Err(PaletteCompressionError::PaletteOverflow(palette.len() + 1));
                }
                proof {
                    lemma_index_in_push_new(pv, color@);
                    assert forall|k: int| 0 <= k < i implies pv.push(color@).contains(cs[k])
                        && index_in(pv.push(color@), cs[k]) == index_in(pv, cs[k]) by {
                        lemma_index_in_push(pv, cs[k], color@);
                        let m = index_in(pv, cs[k]);
                        lemma_index_in_correct(pv, cs[k]);
                        assert(pv.push(color@)[m] == cs[k]);
                    }
                    assert(pv.push(color@)[pv.len() as int] == color@);
                }
                let j = palette.len();
                palette.push(color);
                indices.push(j as u8);
                proof {
                    assert(pal_view(palette@) =~= pv.push(color@));
                }
            },
        }
        i += 1;
    }
    proof {
        assert(cs.take(n_pixels as int) =~= cs);
        assert(indices@ =~= indices_of(cs));
    }
    Ok(PaletteCompression { palette, indices })
}

/// Expands palette indices back into RGBA bytes: four bytes per index.
///
/// Fails with `InvalidPaletteIndex` at the first index that is not below the
/// palette length.
pub fn palette_decompression(compression: &PaletteCompression) -> (r: Result<
    Vec<u8>,
    PaletteDecompressionError,
>)
    ensures
        match r {
            Ok(out) => palette_decode_spec(pal_view(compression.palette@), compression.indices@)
                == Ok::<_, PaletteDecompressionError>(out@),
            Err(e) => palette_decode_spec(pal_view(compression.palette@), compression.indices@)
                == Err::<Seq<u8>, _>(e),
        },
{
    let ghost pv = pal_view(compression.palette@);
    let ghost idx = compression.indices@;
    let mut decoded: Vec<u8> = Vec::new();
    let mut i: usize = 0;
    proof {
        assert(idx.skip(0) =~= idx);
        if let Ok(rest) = palette_decode_spec(pv, idx) {
            assert(decoded@ + rest =~= rest);
        }
    }
    while i < compression.indices.len()
        invariant
            i <= idx.len(),
            idx == compression.indices@,
            pv == pal_view(compression.palette@),
            match palette_decode_spec(pv, idx.skip(i as int)) {
                Ok(rest) => palette_decode_spec(pv, idx) == Ok::<_, PaletteDecompressionError>(
                    decoded@ + rest,
                ),
                Err(e) => palette_decode_spec(pv, idx) == Err::<Seq<u8>, _>(e),
            },
        decreases idx.len() - i,
    {
        let index = compression.indices[i];
        let palette_size = compression.palette.len();
        proof {
            assert(idx.skip(i as int)[0] == idx[i as int]);
            assert(idx.skip(i as int).skip(1) =~= idx.skip(i + 1));
        }
        if index as usize >= palette_size {
            return Err(
                PaletteDecompressionError::InvalidPaletteIndex(index as usize, palette_size),
            );
        }
        let color = compression.palette[index as usize];
        let ghost pre = decoded@;
        decoded.push(color[0]);
        decoded.push(color[1]);
        decoded.push(color[2]);
        decoded.push(color[3]);
        proof {
            assert(decoded@ =~= pre + pv[idx[i as int] as int]);
            if let Ok(rest) = palette_decode_spec(pv, idx.skip(i + 1)) {
                assert(pre + (pv[idx[i as int] as int] + rest) =~= decoded@ + rest);
            }
        }
        i += 1;
    }
    proof {
        assert(idx.skip(idx.len() as int) =~= Seq::<u8>::empty());
        assert(decoded@ + Seq::<u8>::empty() =~= decoded@);
    }
    Ok(decoded)
}

/// Concatenation of a sequence of colors into one byte sequence.
pub open spec fn concat_colors(cs: Seq<Seq<u8>>) -> Seq<u8>
    decreases cs.len(),
{
    if cs.len() == 0 {
        Seq::empty()
    } else {
        cs[0] + concat_colors(cs.skip(1))
    }
}

proof fn lemma_decode_indexed(pal: Seq<Seq<u8>>, cs: Seq<Seq<u8>>)
    requires
        pal.len() <= 256,
        forall|i: int| 0 <= i < cs.len() ==> pal.contains(cs[i]),
    ensures
        palette_decode_spec(pal, Seq::new(cs.len(), |i: int| index_in(pal, cs[i]) as u8)) == Ok::<
            _,
            PaletteDecompressionError,
        >(concat_colors(cs)),
    decreases cs.len(),
{
    let idx = Seq::new(cs.len(), |i: int| index_in(pal, cs[i]) as u8);
    if cs.len() == 0 {
        assert(idx.len() == 0);
    } else {
        lemma_index_in_correct(pal, cs[0]);
        lemma_decode_indexed(pal, cs.skip(1));
        assert(idx.skip(1) =~= Seq::new(cs.skip(1).len(), |i: int| index_in(pal, cs.skip(1)[i]) as u8));
        assert(idx[0] as int == index_in(pal, cs[0]));
        assert(pal[idx[0] as int] == cs[0]);
    }
}

proof fn lemma_concat_colors_of(pixels: Seq<u8>)
    requires
        pixels.len() % 4 == 0,
    ensures
        concat_colors(colors_of(pixels)) == pixels,
    decreases pixels.len(),
{
    if pixels.len() == 0 {
        assert(colors_of(pixels) =~= Seq::<Seq<u8>>::empty());
        assert(concat_colors(colors_of(pixels)) =~= pixels);
    } else {
        lemma_concat_colors_of(pixels.skip(4));
        assert(colors_of(pixels).skip(1) =~~= colors_of(pixels.skip(4)));
        assert(colors_of(pixels)[0] =~= pixels.subrange(0, 4));
        assert(pixels.subrange(0, 4) + pixels.skip(4) =~= pixels);
    }
}

/// A palette has at most one entry per color it was built from.
pub proof fn lemma_palette_of_len(cs: Seq<Seq<u8>>)
    ensures
        palette_of(cs).len() <= cs.len(),
        cs.len() > 0 ==> palette_of(cs).len() >= 1,
    decreases cs.len(),
{
    if cs.len() > 0 {
        lemma_palette_of_len(cs.drop_last());
        if palette_of(cs.drop_last()).contains(cs.last()) {
            let i = choose|i: int|
                0 <= i < palette_of(cs.drop_last()).len() && palette_of(cs.drop_last())[i]
                    == cs.last();
        }
    }
}

/// Every palette entry of an RGBA byte sequence is four bytes long.
pub proof fn lemma_palette_entry_len(pixels: Seq<u8>, j: int)
    requires
        pixels.len() % 4 == 0,
        0 <= j < palette_of(colors_of(pixels)).len(),
    ensures
        palette_of(colors_of(pixels))[j].len() == 4,
{
    let cs = colors_of(pixels);
    lemma_palette_entries(cs, j);
    let i = choose|i: int| 0 <= i < cs.len() && cs[i] == palette_of(cs)[j];
    assert(cs[i] == color_at(pixels, i));
}

/// Decoding a palette encoding recovers the original pixels: the law that
/// `palette_decompression` inverts `palette_compression` on every input the
/// encoder accepts.
pub proof fn lemma_palette_round_trip(pixels: Seq<u8>)
    requires
        pixels.len() % 4 == 0,
        palette_of(colors_of(pixels)).len() <= 256,
    ensures
        palette_decode_spec(palette_of(colors_of(pixels)), indices_of(colors_of(pixels))) == Ok::<
            _,
            PaletteDecompressionError,
        >(pixels),
{
    let cs = colors_of(pixels);
    let pal = palette_of(cs);
    assert forall|i: int| 0 <= i < cs.len() implies pal.contains(cs[i]) by {
        lemma_palette_contains(cs, i);
    }
    lemma_decode_indexed(pal, cs);
    assert(indices_of(cs) =~= Seq::new(cs.len(), |i: int| index_in(pal, cs[i]) as u8));
    lemma_concat_colors_of(pixels);
}

} // verus!
