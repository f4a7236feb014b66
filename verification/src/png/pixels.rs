//! From reconstructed scanlines to pixel samples: layout, packed samples,
//! palettes and transparency.
use vstd::prelude::*;
use super::types::{Chunk, ChunkModel, Ihdr, IhdrColorType, PaletteEntry, PngParseError, Transparency, chunk_models};
use super::palette::{TransparencyModel, parse_plte, parse_trns, trns_view, trns_value, plte_length_ok, plte_entry};
use super::chunk;
use super::unfilter;

verus! {

/// Bytes per complete pixel for filtering, and data bytes per scanline.
#[derive(Debug, Copy, Clone, PartialEq, Eq)]
pub struct DecodeLayout {
    pub filter_bytes_per_pixel: usize,
    pub row_data_len: usize,
}

/// Samples per pixel of a color type.
pub open spec fn channel_count(c: IhdrColorType) -> int {
    match c {
        IhdrColorType::Grayscale => 1,
        IhdrColorType::Indexed => 1,
        IhdrColorType::Truecolor => 3,
        IhdrColorType::GrayscaleAlpha => 2,
        IhdrColorType::TruecolorAlpha => 4,
    }
}

/// Bits per pixel of a header the decoder supports.
pub open spec fn bits_per_pixel(ihdr: Ihdr) -> Option<int> {
    let d = ihdr.bit_depth;
    let c = ihdr.color_type;
    if (d == 1 || d == 2 || d == 4) && (c == IhdrColorType::Grayscale || c == IhdrColorType::Indexed) {
        Some(d as int)
    } else if d == 8 {
        Some(channel_count(c) * 8)
    } else if d == 16 && c != IhdrColorType::Indexed {
        Some(channel_count(c) * 16)
    } else {
        None
    }
}

/// The error for a header the decoder does not support.
pub open spec fn unsupported(ihdr: Ihdr) -> PngParseError {
    PngParseError::UnsupportedDecodeFormat {
        bit_depth: ihdr.bit_depth,
        color_type: chunk::color_byte(ihdr.color_type),
        interlace_method: chunk::interlace_byte(ihdr.interlace_method),
    }
}

/// `d / 8` rounded up.
pub open spec fn bytes_for_bits(d: int) -> int {
    (d + 7) / 8
}

/// The decode layout of a header. A scanline length beyond `usize::MAX`
/// is held as `usize::MAX`, which no inflated stream can match.
pub open spec fn layout_of(ihdr: Ihdr) -> Result<DecodeLayout, PngParseError> {
    match bits_per_pixel(ihdr) {
        None => Err(unsupported(ihdr)),
        Some(b) => Ok(DecodeLayout {
            filter_bytes_per_pixel: bytes_for_bits(b) as usize,
            row_data_len: unfilter::saturate(bytes_for_bits(ihdr.width * b)),
        }),
    }
}

fn bit_depth_is_packed(d: u8) -> (r: bool)
    ensures
        r == (d == 1 || d == 2 || d == 4),
{
    d == 1 || d == 2 || d == 4
}

/// Computes the filter unit and scanline length of a header.
pub fn decode_layout(ihdr: Ihdr) -> (r: Result<DecodeLayout, PngParseError>)
    ensures
        r == layout_of(ihdr),
        r matches Ok(l) ==> l.filter_bytes_per_pixel >= 1,
{
    let channels: u64 = match ihdr.color_type {
        IhdrColorType::Grayscale => 1,
        IhdrColorType::Indexed => 1,
        IhdrColorType::Truecolor => 3,
        IhdrColorType::GrayscaleAlpha => 2,
        IhdrColorType::TruecolorAlpha => 4,
    };
    let gray_or_indexed = match ihdr.color_type {
        IhdrColorType::Grayscale => true,
        IhdrColorType::Indexed => true,
        _ => false,
    };
    let indexed = match ihdr.color_type {
        IhdrColorType::Indexed => true,
        _ => false,
    };
    let d = ihdr.bit_depth;
    let bits: u64 = if bit_depth_is_packed(d) && gray_or_indexed {
        d as u64
    } else if d == 8 {
        channels * 8
    } else if d == 16 && !indexed {
        channels * 16
    } else {
        return Err(PngParseError::UnsupportedDecodeFormat {
            bit_depth: ihdr.bit_depth,
            color_type: ihdr.color_type.byte(),
            interlace_method: ihdr.interlace_method.byte(),
        });
    };
    assert(bits_per_pixel(ihdr) == Some(bits as int));
    assert(bits <= 64);
    assert((ihdr.width as u64) * bits <= 0xffff_ffff * 64) by (nonlinear_arith)
        requires
            bits <= 64,
            ihdr.width <= 0xffff_ffff,
    ;
    let row_bits: u64 = (ihdr.width as u64) * bits;
    let row_bytes: u64 = (row_bits + 7) / 8;
    let row_data_len: usize = if row_bytes > usize::MAX as u64 {
        usize::MAX
    } else {
        row_bytes as usize
    };
    let filter_bytes = ((bits + 7) / 8) as usize;
    Ok(DecodeLayout { filter_bytes_per_pixel: filter_bytes, row_data_len })
}

/// Samples packed into one byte at bit depth `d`.
pub open spec fn samples_per_byte(d: u8) -> int {
    if d == 1 { 8 } else if d == 2 { 4 } else { 2 }
}

/// The mask of one sample at bit depth `d`.
pub open spec fn sample_mask(d: u8) -> u8 {
    if d == 1 { 1u8 } else if d == 2 { 3u8 } else { 15u8 }
}

/// Sample `i` of packed bytes at bit depth `d`, most significant bits first.
pub open spec fn packed_sample(input: Seq<u8>, d: u8, i: int) -> u8 {
    let spb = samples_per_byte(d);
    let shift = (8 - d * (i % spb + 1)) as u8;
    (input[i / spb] >> shift) & sample_mask(d)
}

/// The first `width` samples unpacked from `input`, fewer when the bytes
/// run out.
pub open spec fn packed_samples(input: Seq<u8>, width: int, d: u8) -> Seq<u8> {
    let avail = input.len() * samples_per_byte(d);
    let n = if width < avail { width } else { avail };
    Seq::new(n as nat, |i: int| packed_sample(input, d, i))
}

/// Unpacks the first `width` samples of bit depth 1, 2 or 4.
pub fn expand_packed_samples(input: &[u8], width: u32, bit_depth: u8) -> (r: Vec<u8>)
    requires
        bit_depth == 1 || bit_depth == 2 || bit_depth == 4,
    ensures
        r@ == packed_samples(input@, width as int, bit_depth),
{
    let spb: usize = if bit_depth == 1 { 8 } else if bit_depth == 2 { 4 } else { 2 };
    let mask: u8 = if bit_depth == 1 { 1 } else if bit_depth == 2 { 3 } else { 15 };
    let w = width as usize;
    let mut samples: Vec<u8> = Vec::new();
    let mut bi: usize = 0;
    while bi < input.len()
        invariant
            spb == samples_per_byte(bit_depth),
            mask == sample_mask(bit_depth),
            bit_depth == 1 || bit_depth == 2 || bit_depth == 4,
            w == width,
            bi <= input@.len(),
            samples@.len() == bi * spb,
            samples@.len() <= w,
            forall|k: int| 0 <= k < samples@.len() ==> #[trigger] samples@[k] == packed_sample(input@, bit_depth, k),
        decreases input@.len() - bi,
    {
        let byte = input[bi];
        let mut j: usize = 0;
        while j < spb
            invariant
                spb == samples_per_byte(bit_depth),
                mask == sample_mask(bit_depth),
                bit_depth == 1 || bit_depth == 2 || bit_depth == 4,
                w == width,
                bi < input@.len(),
                byte == input@[bi as int],
                j <= spb,
                samples@.len() == bi * spb + j,
                samples@.len() <= w,
                forall|k: int| 0 <= k < samples@.len() ==> #[trigger] samples@[k] == packed_sample(input@, bit_depth, k),
            decreases spb - j,
        {
            if samples.len() == w {
                proof {
                    assert(w <= input@.len() * spb) by (nonlinear_arith)
                        requires
                            w == bi * spb + j,
                            bi < input@.len(),
                            j <= spb,
                    ;
                    assert(samples@ =~= packed_samples(input@, width as int, bit_depth));
                }
                return samples;
            }
            assert(bit_depth * (j + 1) <= 8) by (nonlinear_arith)
                requires
                    bit_depth == 1 || bit_depth == 2 || bit_depth == 4,
                    spb == (if bit_depth == 1 { 8int } else if bit_depth == 2 { 4int } else { 2int }),
                    j < spb,
            ;
            let shift: u8 = 8 - bit_depth * ((j + 1) as u8);
            proof {
                unfilter::lemma_row_col(bi as int, j as int, spb as int);
            }
            samples.push((byte >> shift) & mask);
            j = j + 1;
        }
        proof {
            assert(bi * spb + spb == (bi + 1) * spb) by (nonlinear_arith);
        }
        bi = bi + 1;
    }
    proof {
        assert(samples@.len() == input@.len() * spb);
        assert(samples@ =~= packed_samples(input@, width as int, bit_depth));
    }
    samples
}

/// A sample of bit depth `d` scaled to eight bits.
pub open spec fn scaled_sample(s: u8, d: u8) -> u8 {
    ((s * 255) / (sample_mask(d) as int)) as u8
}

/// Scales a sample of bit depth 1, 2 or 4 to eight bits.
pub fn scale_sample_to_u8(sample: u8, bit_depth: u8) -> (r: u8)
    requires
        bit_depth == 1 || bit_depth == 2 || bit_depth == 4,
    ensures
        r == scaled_sample(sample, bit_depth),
{
    let max_sample: u16 = if bit_depth == 1 { 1 } else if bit_depth == 2 { 3 } else { 15 };
    (((sample as u16) * 255) / max_sample) as u8
}

/// Grayscale samples as eight-bit values, or the bytes as they are at
/// depths of eight and more.
pub open spec fn gray_samples(p: Seq<u8>, width: int, d: u8) -> Seq<u8> {
    if d >= 8 {
        p
    } else {
        let s = packed_samples(p, width, d);
        Seq::new(s.len(), |i: int| scaled_sample(s[i], d))
    }
}

/// Unpacks and scales grayscale samples of depths below eight.
pub fn expand_packed_grayscale_samples(pixels: &[u8], width: u32, bit_depth: u8) -> (r: Vec<u8>)
    requires
        bit_depth >= 8 || bit_depth == 1 || bit_depth == 2 || bit_depth == 4,
    ensures
        r@ == gray_samples(pixels@, width as int, bit_depth),
{
    if bit_depth >= 8 {
        return vstd::slice::slice_to_vec(pixels);
    }
    let samples = expand_packed_samples(pixels, width, bit_depth);
    let mut out: Vec<u8> = Vec::new();
    let mut i: usize = 0;
    while i < samples.len()
        invariant
            bit_depth == 1 || bit_depth == 2 || bit_depth == 4,
            samples@ == packed_samples(pixels@, width as int, bit_depth),
            i <= samples@.len(),
            out@.len() == i,
            forall|k: int| 0 <= k < i ==> #[trigger] out@[k] == scaled_sample(samples@[k], bit_depth),
        decreases samples@.len() - i,
    {
        out.push(scale_sample_to_u8(samples[i], bit_depth));
        i = i + 1;
    }
    assert(out@ =~= gray_samples(pixels@, width as int, bit_depth));
    out
}

/// Palette indices, unpacked at depths below eight.
pub open spec fn index_samples(p: Seq<u8>, width: int, d: u8) -> Seq<u8> {
    if d >= 8 { p } else { packed_samples(p, width, d) }
}

/// Unpacks palette indices of depths below eight.
pub fn expand_packed_indices(indices: &[u8], width: u32, bit_depth: u8) -> (r: Vec<u8>)
    requires
        bit_depth >= 8 || bit_depth == 1 || bit_depth == 2 || bit_depth == 4,
    ensures
        r@ == index_samples(indices@, width as int, bit_depth),
{
    if bit_depth >= 8 {
        return vstd::slice::slice_to_vec(indices);
    }
    expand_packed_samples(indices, width, bit_depth)
}

/// Grayscale samples, each followed by alpha 0 where it equals the
/// transparent sample and 255 elsewhere.
pub open spec fn gray_alpha(p: Seq<u8>, t: u8) -> Seq<u8> {
    Seq::new(2 * p.len(), |k: int| if k % 2 == 0 { p[k / 2] } else if p[k / 2] == t { 0u8 } else { 255u8 })
}

/// Adds an alpha sample after each grayscale sample.
pub fn expand_grayscale_transparency(pixels: &[u8], transparent_sample: u8) -> (r: Vec<u8>)
    ensures
        r@ == gray_alpha(pixels@, transparent_sample),
{
    let mut out: Vec<u8> = Vec::new();
    let mut i: usize = 0;
    while i < pixels.len()
        invariant
            i <= pixels@.len(),
            out@.len() == 2 * i,
            forall|k: int| 0 <= k < out@.len() ==> #[trigger] out@[k] == gray_alpha(pixels@, transparent_sample)[k],
        decreases pixels@.len() - i,
    {
        let s = pixels[i];
        let alpha: u8 = if s == transparent_sample { 0 } else { 255 };
        out.push(s);
        out.push(alpha);
        i = i + 1;
    }
    assert(out@ =~= gray_alpha(pixels@, transparent_sample));
    out
}

/// Complete RGB pixels, each followed by alpha 0 where it equals the
/// transparent color and 255 elsewhere; a partial pixel at the end is
/// dropped.
pub open spec fn rgb_alpha(p: Seq<u8>, r: u8, g: u8, b: u8) -> Seq<u8> {
    Seq::new((4 * (p.len() / 3)) as nat, |k: int| {
        let i = k / 4;
        let c = k % 4;
        if c < 3 {
            p[3 * i + c]
        } else if p[3 * i] == r && p[3 * i + 1] == g && p[3 * i + 2] == b {
            0u8
        } else {
            255u8
        }
    })
}

/// Adds an alpha sample after each RGB pixel.
pub fn expand_truecolor_transparency(pixels: &[u8], transparent_red: u8, transparent_green: u8, transparent_blue: u8) -> (r: Vec<u8>)
    ensures
        r@ == rgb_alpha(pixels@, transparent_red, transparent_green, transparent_blue),
{
    let plen = pixels.len();
    let n = plen / 3;
    let mut out: Vec<u8> = Vec::new();
    let mut i: usize = 0;
    let ghost spec_out = rgb_alpha(pixels@, transparent_red, transparent_green, transparent_blue);
    while i < n
        invariant
            n == pixels@.len() / 3,
            plen == pixels@.len(),
            spec_out == rgb_alpha(pixels@, transparent_red, transparent_green, transparent_blue),
            i <= n,
            out@.len() == 4 * i,
            forall|k: int| 0 <= k < out@.len() ==> #[trigger] out@[k] == spec_out[k],
        decreases n - i,
    {
        assert(3 * i + 2 < pixels@.len()) by (nonlinear_arith)
            requires
                i < n,
                n == pixels@.len() / 3,
        ;
        let base = 3 * i;
        let red = pixels[base];
        let green = pixels[base + 1];
        let blue = pixels[base + 2];
        let alpha: u8 = if red == transparent_red && green == transparent_green && blue == transparent_blue { 0 } else { 255 };
        out.push(red);
        out.push(green);
        out.push(blue);
        out.push(alpha);
        proof {
            assert forall|k: int| 4 * i <= k < 4 * i + 4 implies #[trigger] out@[k] == spec_out[k] by {
                assert(k / 4 == i);
            }
        }
        i = i + 1;
    }
    assert(out@ =~= spec_out);
    out
}

/// Channel `c` (red, green, blue) of a palette entry.
pub open spec fn channel(e: PaletteEntry, c: int) -> u8 {
    if c == 0 { e.red } else if c == 1 { e.green } else { e.blue }
}

/// No index before `n` is out of the palette.
pub open spec fn indices_in_palette(ind: Seq<u8>, plen: int, n: int) -> bool {
    forall|j: int| 0 <= j < n ==> #[trigger] ind[j] < plen
}

/// The error for the first index out of the palette, when there is one.
pub open spec fn palette_index_error(ind: Seq<u8>, plen: int, e: PngParseError) -> bool {
    exists|i: int|
        0 <= i < ind.len() && indices_in_palette(ind, plen, i) && #[trigger] ind[i] >= plen
            && e == (PngParseError::InvalidPaletteIndex { index: ind[i], palette_len: plen as usize })
}

/// The error for the first index out of the palette.
pub open spec fn palette_error_value(ind: Seq<u8>, plen: int) -> PngParseError {
    let i = choose|i: int| 0 <= i < ind.len() && indices_in_palette(ind, plen, i) && #[trigger] ind[i] >= plen;
    PngParseError::InvalidPaletteIndex { index: ind[i], palette_len: plen as usize }
}

/// Only one index is the first out of the palette.
pub proof fn lemma_palette_error_value(ind: Seq<u8>, plen: int, e: PngParseError)
    requires
        palette_index_error(ind, plen, e),
    ensures
        e == palette_error_value(ind, plen),
{
    let i = choose|i: int| 0 <= i < ind.len() && indices_in_palette(ind, plen, i) && #[trigger] ind[i] >= plen;
    let j = choose|j: int|
        0 <= j < ind.len() && indices_in_palette(ind, plen, j) && #[trigger] ind[j] >= plen
            && e == (PngParseError::InvalidPaletteIndex { index: ind[j], palette_len: plen as usize });
    if i < j {
        assert(ind[i] < plen);
    } else if j < i {
        assert(ind[j] < plen);
    }
}

/// The RGB samples of palette indices.
pub open spec fn indexed_rgb(ind: Seq<u8>, pal: Seq<PaletteEntry>) -> Seq<u8> {
    Seq::new(3 * ind.len(), |k: int| channel(pal[ind[k / 3] as int], k % 3))
}

/// The RGBA samples of palette indices with tRNS alpha values; indices
/// past the alpha values are opaque.
pub open spec fn indexed_rgba(ind: Seq<u8>, pal: Seq<PaletteEntry>, alpha: Seq<u8>) -> Seq<u8> {
    Seq::new(4 * ind.len(), |k: int| {
        let idx = ind[k / 4] as int;
        if k % 4 < 3 {
            channel(pal[idx], k % 4)
        } else if idx < alpha.len() {
            alpha[idx]
        } else {
            255u8
        }
    })
}

/// Looks palette indices up as RGB samples.
pub fn expand_indexed_pixels(indices: &[u8], palette: &[PaletteEntry]) -> (r: Result<Vec<u8>, PngParseError>)
    ensures
        match r {
            Ok(v) => indices_in_palette(indices@, palette@.len() as int, indices@.len() as int)
                && v@ == indexed_rgb(indices@, palette@),
            Err(e) => palette_index_error(indices@, palette@.len() as int, e)
                && e == palette_error_value(indices@, palette@.len() as int),
        },
{
    let mut out: Vec<u8> = Vec::new();
    let mut i: usize = 0;
    let ghost spec_out = indexed_rgb(indices@, palette@);
    while i < indices.len()
        invariant
            spec_out == indexed_rgb(indices@, palette@),
            i <= indices@.len(),
            indices_in_palette(indices@, palette@.len() as int, i as int),
            out@.len() == 3 * i,
            forall|k: int| 0 <= k < out@.len() ==> #[trigger] out@[k] == spec_out[k],
        decreases indices@.len() - i,
    {
        let index = indices[i];
        if index as usize >= palette.len() {
            let e = PngParseError::InvalidPaletteIndex { index, palette_len: palette.len() };
            assert(palette_index_error(indices@, palette@.len() as int, e));
            proof {
                lemma_palette_error_value(indices@, palette@.len() as int, e);
            }
            return Err(e);
        }
        let entry = palette[index as usize];
        out.push(entry.red);
        out.push(entry.green);
        out.push(entry.blue);
        proof {
            assert forall|k: int| 3 * i <= k < 3 * i + 3 implies #[trigger] out@[k] == spec_out[k] by {
                assert(k / 3 == i);
            }
        }
        i = i + 1;
    }
    assert(out@ =~= spec_out);
    Ok(out)
}

/// Looks palette indices up as RGBA samples.
pub fn expand_indexed_pixels_with_alpha(indices: &[u8], palette: &[PaletteEntry], alpha: &[u8]) -> (r: Result<Vec<u8>, PngParseError>)
    ensures
        match r {
            Ok(v) => indices_in_palette(indices@, palette@.len() as int, indices@.len() as int)
                && v@ == indexed_rgba(indices@, palette@, alpha@),
            Err(e) => palette_index_error(indices@, palette@.len() as int, e)
                && e == palette_error_value(indices@, palette@.len() as int),
        },
{
    let mut out: Vec<u8> = Vec::new();
    let mut i: usize = 0;
    let ghost spec_out = indexed_rgba(indices@, palette@, alpha@);
    while i < indices.len()
        invariant
            spec_out == indexed_rgba(indices@, palette@, alpha@),
            i <= indices@.len(),
            indices_in_palette(indices@, palette@.len() as int, i as int),
            out@.len() == 4 * i,
            forall|k: int| 0 <= k < out@.len() ==> #[trigger] out@[k] == spec_out[k],
        decreases indices@.len() - i,
    {
        let index = indices[i];
        if index as usize >= palette.len() {
            let e = PngParseError::InvalidPaletteIndex { index, palette_len: palette.len() };
            assert(palette_index_error(indices@, palette@.len() as int, e));
            proof {
                lemma_palette_error_value(indices@, palette@.len() as int, e);
            }
            return Err(e);
        }
        let entry = palette[index as usize];
        let a: u8 = if (index as usize) < alpha.len() { alpha[index as usize] } else { 255 };
        out.push(entry.red);
        out.push(entry.green);
        out.push(entry.blue);
        out.push(a);
        proof {
            assert forall|k: int| 4 * i <= k < 4 * i + 4 implies #[trigger] out@[k] == spec_out[k] by {
                assert(k / 4 == i);
            }
        }
        i = i + 1;
    }
    assert(out@ =~= spec_out);
    Ok(out)
}

/// The position of the first chunk of type `tag` at or after `i`.
pub open spec fn find_tag(cs: Seq<ChunkModel>, tag: Seq<u8>, i: int) -> Option<int>
    decreases cs.len() - i,
{
    if i < 0 || i >= cs.len() {
        None
    } else if cs[i].kind == tag {
        Some(i)
    } else {
        find_tag(cs, tag, i + 1)
    }
}

/// Finds the first chunk whose type spells `a b c d`.
pub fn find_chunk(chunks: &[Chunk], a: u8, b: u8, c: u8, d: u8) -> (r: Option<usize>)
    ensures
        match r {
            Some(i) => i < chunks@.len() && find_tag(chunk_models(chunks@), seq![a, b, c, d], 0) == Some(i as int),
            None => find_tag(chunk_models(chunks@), seq![a, b, c, d], 0) is None,
        },
{
    let ghost cs = chunk_models(chunks@);
    let ghost tag = seq![a, b, c, d];
    let mut i: usize = 0;
    while i < chunks.len()
        invariant
            cs == chunk_models(chunks@),
            tag == seq![a, b, c, d],
            i <= chunks@.len(),
            find_tag(cs, tag, 0) == find_tag(cs, tag, i as int),
        decreases chunks@.len() - i,
    {
        let t = chunks[i].header.chunk_type.bytes();
        if chunk::tag_is(t, a, b, c, d) {
            assert(cs[i as int].kind == tag);
            return Some(i);
        }
        i = i + 1;
    }
    None
}

/// What looking up the palette of a chunk sequence gives.
pub open spec fn palette_value(cs: Seq<ChunkModel>) -> Result<Seq<PaletteEntry>, PngParseError> {
    match find_tag(cs, chunk::plte_tag(), 0) {
        None => Err(PngParseError::MissingPlte),
        Some(i) => {
            let p = cs[i].payload;
            if plte_length_ok(p.len() as int) {
                Ok(Seq::new(p.len() / 3, |k: int| plte_entry(p, k)))
            } else {
                Err(PngParseError::InvalidPlteLength { length: p.len() as usize })
            }
        },
    }
}

/// The palette entries of a result, as values.
pub open spec fn palette_view(r: Result<Vec<PaletteEntry>, PngParseError>) -> Result<Seq<PaletteEntry>, PngParseError> {
    match r {
        Ok(v) => Ok(v@),
        Err(e) => Err(e),
    }
}

/// Reads the first PLTE chunk.
pub fn find_palette(chunks: &[Chunk]) -> (r: Result<Vec<PaletteEntry>, PngParseError>)
    ensures
        palette_view(r) == palette_value(chunk_models(chunks@)),
{
    match find_chunk(chunks, 80, 76, 84, 69) {
        None => {
            assert(seq![80u8, 76u8, 84u8, 69u8] == chunk::plte_tag());
            Err(PngParseError::MissingPlte)
        },
        Some(i) => {
            assert(seq![80u8, 76u8, 84u8, 69u8] == chunk::plte_tag());
            let r = parse_plte(chunks[i].payload.as_slice());
            proof {
                let p = chunks@[i as int].payload@;
                assert(chunk_models(chunks@)[i as int].payload == p);
                if r is Ok {
                    assert(r->Ok_0@ =~= Seq::new(p.len() / 3, |k: int| plte_entry(p, k)));
                }
            }
            r
        },
    }
}

/// What looking up the transparency of a chunk sequence gives.
pub open spec fn transparency_value(cs: Seq<ChunkModel>, color_type: IhdrColorType) -> Result<Option<TransparencyModel>, PngParseError> {
    match find_tag(cs, chunk::trns_tag(), 0) {
        None => Ok(None),
        Some(i) => match trns_value(cs[i].payload, color_type) {
            Ok(t) => Ok(Some(t)),
            Err(e) => Err(e),
        },
    }
}

/// The transparency of a result, as a value.
pub open spec fn transparency_view(r: Result<Option<Transparency>, PngParseError>) -> Result<Option<TransparencyModel>, PngParseError> {
    match r {
        Ok(Some(t)) => Ok(Some(t@)),
        Ok(None) => Ok(None),
        Err(e) => Err(e),
    }
}

/// Reads the first tRNS chunk for an image of the header's color type.
pub fn find_transparency(chunks: &[Chunk], ihdr: Ihdr) -> (r: Result<Option<Transparency>, PngParseError>)
    ensures
        transparency_view(r) == transparency_value(chunk_models(chunks@), ihdr.color_type),
{
    assert(seq![116u8, 82u8, 78u8, 83u8] == chunk::trns_tag());
    match find_chunk(chunks, 116, 82, 78, 83) {
        None => Ok(None),
        Some(i) => {
            let r = parse_trns(chunks[i].payload.as_slice(), ihdr.color_type);
            assert(chunk_models(chunks@)[i as int].payload == chunks@[i as int].payload@);
            match r {
                Ok(t) => Ok(Some(t)),
                Err(e) => Err(e),
            }
        },
    }
}

} // verus!
