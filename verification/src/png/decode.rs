//! Decoding a whole PNG stream to pixels.
use vstd::prelude::*;
use super::types::{Chunk, ChunkModel, Ihdr, IhdrColorType, PaletteEntry, PngImage, PngImageModel, PngInterlaceMethod, PngParseError, chunk_models};
use super::chunk;
use super::chunk::{spec_parse_ihdr, tag_is};
use super::palette::TransparencyModel;
use super::pixels;
use super::pixels::{find_chunk, find_tag, layout_of, palette_value, transparency_value};
use super::structure::{png_chunk_stream, png_structure, chunks_result_models, parse_png_chunks, validate_png_chunks};
use super::unfilter;
use super::interlace;
use super::zlib;
use crate::octets;

verus! {

/// The IDAT payloads among the first `n` chunks, joined.
pub open spec fn idat_data(cs: Seq<ChunkModel>, n: int) -> Seq<u8>
    decreases n,
{
    if n <= 0 {
        Seq::empty()
    } else if cs[n - 1].kind == chunk::idat_tag() {
        idat_data(cs, n - 1) + cs[n - 1].payload
    } else {
        idat_data(cs, n - 1)
    }
}

/// The samples of an image, from its reconstructed scanlines.
pub open spec fn pixels_value(
    ihdr: Ihdr,
    t: Option<TransparencyModel>,
    pal: Result<Seq<PaletteEntry>, PngParseError>,
    rec: Seq<u8>,
) -> Result<Seq<u8>, PngParseError> {
    match ihdr.color_type {
        IhdrColorType::Grayscale => match t {
            Some(TransparencyModel::Grayscale { sample }) => Ok(pixels::gray_alpha(rec, sample)),
            _ => Ok(pixels::gray_samples(rec, ihdr.width as int, ihdr.bit_depth)),
        },
        IhdrColorType::Truecolor => match t {
            Some(TransparencyModel::Truecolor { red, green, blue }) => Ok(pixels::rgb_alpha(rec, red, green, blue)),
            _ => Ok(rec),
        },
        IhdrColorType::Indexed => match pal {
            Err(e) => Err(e),
            Ok(p) => {
                let ind = pixels::index_samples(rec, ihdr.width as int, ihdr.bit_depth);
                if !pixels::indices_in_palette(ind, p.len() as int, ind.len() as int) {
                    Err(pixels::palette_error_value(ind, p.len() as int))
                } else {
                    match t {
                        Some(TransparencyModel::Indexed { alpha }) => Ok(pixels::indexed_rgba(ind, p, alpha)),
                        _ => Ok(pixels::indexed_rgb(ind, p)),
                    }
                }
            },
        },
        _ => Ok(rec),
    }
}

/// The scanlines of the image data, with filters undone and passes placed.
pub open spec fn reconstructed_value(inf: Seq<u8>, ihdr: Ihdr, row_len: int, bpp: int) -> Result<Seq<u8>, PngParseError> {
    match ihdr.interlace_method {
        PngInterlaceMethod::NotInterlaced => unfilter::scanlines_value(inf, ihdr.height as int, row_len, bpp),
        PngInterlaceMethod::Adam7 => interlace::adam7_result_value(inf, ihdr, bpp),
    }
}

/// The image a valid chunk sequence decodes to.
pub open spec fn image_from_chunks(cs: Seq<ChunkModel>) -> Result<PngImageModel, PngParseError> {
    match find_tag(cs, chunk::ihdr_tag(), 0) {
        None => Err(PngParseError::MissingIhdr),
        Some(hi) => match spec_parse_ihdr(cs[hi].payload) {
            Err(e) => Err(e),
            Ok(ihdr) => match layout_of(ihdr) {
                Err(e) => Err(e),
                Ok(layout) => match transparency_value(cs, ihdr.color_type) {
                    Err(e) => Err(e),
                    Ok(t) => if t is Some && ihdr.bit_depth != 8 {
                        Err(pixels::unsupported(ihdr))
                    } else if idat_data(cs, cs.len() as int).len() == 0 {
                        Err(PngParseError::MissingImageData)
                    } else {
                        match zlib::zlib_inflated(idat_data(cs, cs.len() as int)) {
                            None => Err(PngParseError::InflateFailed),
                            Some(inf) => match reconstructed_value(
                                inf,
                                ihdr,
                                layout.row_data_len as int,
                                layout.filter_bytes_per_pixel as int,
                            ) {
                                Err(e) => Err(e),
                                Ok(rec) => match pixels_value(ihdr, t, palette_value(cs), rec) {
                                    Err(e) => Err(e),
                                    Ok(px) => Ok(PngImageModel {
                                        width: ihdr.width,
                                        height: ihdr.height,
                                        color_type: ihdr.color_type,
                                        bit_depth: ihdr.bit_depth,
                                        pixels: px,
                                    }),
                                },
                            },
                        }
                    },
                },
            },
        },
    }
}

/// `cr` is the chunk split of `input`, `sr` the validation of those
/// chunks when the split succeeded, and `r` follows from them: the first
/// error, or `f` of the chunks.
pub open spec fn decode_outcome<T>(
    input: Seq<u8>,
    cr: Result<Seq<ChunkModel>, PngParseError>,
    sr: Result<super::types::PngStructureSummary, PngParseError>,
    r: Result<T, PngParseError>,
    f: spec_fn(Seq<ChunkModel>) -> Result<T, PngParseError>,
) -> bool {
    &&& png_chunk_stream(input, cr)
    &&& match cr {
        Err(e) => r == Err::<T, PngParseError>(e),
        Ok(cs) => png_structure(cs, sr) && match sr {
            Err(e) => r == Err::<T, PngParseError>(e),
            Ok(_) => r == f(cs),
        },
    }
}

/// `r` is what reading the PNG stream `input` gives: the chunks are split
/// and validated, and `f` computes the result from them.
pub open spec fn decode_spec<T>(input: Seq<u8>, r: Result<T, PngParseError>, f: spec_fn(Seq<ChunkModel>) -> Result<T, PngParseError>) -> bool {
    exists|cr: Result<Seq<ChunkModel>, PngParseError>, sr: Result<super::types::PngStructureSummary, PngParseError>|
        #[trigger] decode_outcome(input, cr, sr, r, f)
}

/// The value of an image result.
pub open spec fn image_view(r: Result<PngImage, PngParseError>) -> Result<PngImageModel, PngParseError> {
    match r {
        Ok(img) => Ok(img@),
        Err(e) => Err(e),
    }
}

/// Joins the IDAT payloads.
fn collect_idat(chunks: &[Chunk]) -> (r: Vec<u8>)
    ensures
        r@ == idat_data(chunk_models(chunks@), chunks@.len() as int),
{
    let ghost cs = chunk_models(chunks@);
    let mut out: Vec<u8> = Vec::new();
    let mut i: usize = 0;
    while i < chunks.len()
        invariant
            cs == chunk_models(chunks@),
            i <= chunks@.len(),
            out@ == idat_data(cs, i as int),
        decreases chunks@.len() - i,
    {
        if tag_is(chunks[i].header.chunk_type.bytes(), 73, 68, 65, 84) {
            octets::extend_bytes(&mut out, chunks[i].payload.as_slice());
        }
        assert(cs[i as int].payload == chunks@[i as int].payload@);
        i = i + 1;
    }
    out
}

/// Turns reconstructed scanlines into samples.
fn expand_pixels(
    chunks: &[Chunk],
    ihdr: Ihdr,
    transparency: Option<super::types::Transparency>,
    reconstructed: Vec<u8>,
) -> (r: Result<Vec<u8>, PngParseError>)
    requires
        pixels::bits_per_pixel(ihdr) is Some,
    ensures
        unfilter::bytes_result(r) == pixels_value(
            ihdr,
            match transparency { Some(t) => Some(t@), None => None },
            palette_value(chunk_models(chunks@)),
            reconstructed@,
        ),
{
    let d = ihdr.bit_depth;
    match ihdr.color_type {
        IhdrColorType::Grayscale => match transparency {
            Some(super::types::Transparency::Grayscale { sample }) => {
                Ok(pixels::expand_grayscale_transparency(reconstructed.as_slice(), sample))
            },
            _ => Ok(pixels::expand_packed_grayscale_samples(reconstructed.as_slice(), ihdr.width, d)),
        },
        IhdrColorType::Truecolor => match transparency {
            Some(super::types::Transparency::Truecolor { red, green, blue }) => {
                Ok(pixels::expand_truecolor_transparency(reconstructed.as_slice(), red, green, blue))
            },
            _ => Ok(reconstructed),
        },
        IhdrColorType::Indexed => {
            let palette = pixels::find_palette(chunks);
            let palette = match palette {
                Ok(p) => p,
                Err(e) => return Err(e),
            };
            let indices = pixels::expand_packed_indices(reconstructed.as_slice(), ihdr.width, d);
            match transparency {
                Some(super::types::Transparency::Indexed { alpha }) => {
                    pixels::expand_indexed_pixels_with_alpha(indices.as_slice(), palette.as_slice(), alpha.as_slice())
                },
                _ => pixels::expand_indexed_pixels(indices.as_slice(), palette.as_slice()),
            }
        },
        _ => Ok(reconstructed),
    }
}

/// Decodes the image of a valid chunk sequence.
pub(crate) fn decode_chunks(chunks: &[Chunk]) -> (r: Result<PngImage, PngParseError>)
    ensures
        image_view(r) == image_from_chunks(chunk_models(chunks@)),
{
    let ghost cs = chunk_models(chunks@);
    assert(seq![73u8, 72u8, 68u8, 82u8] == chunk::ihdr_tag());
    let hi = match find_chunk(chunks, 73, 72, 68, 82) {
        Some(i) => i,
        None => return Err(PngParseError::MissingIhdr),
    };
    assert(cs[hi as int].payload == chunks@[hi as int].payload@);
    let ihdr = match Ihdr::parse(chunks[hi].payload.as_slice()) {
        Ok(h) => h,
        Err(e) => return Err(e),
    };
    let layout = match pixels::decode_layout(ihdr) {
        Ok(l) => l,
        Err(e) => return Err(e),
    };
    let transparency = match pixels::find_transparency(chunks, ihdr) {
        Ok(t) => t,
        Err(e) => return Err(e),
    };
    if transparency.is_some() && ihdr.bit_depth != 8 {
        return Err(PngParseError::UnsupportedDecodeFormat {
            bit_depth: ihdr.bit_depth,
            color_type: ihdr.color_type.byte(),
            interlace_method: ihdr.interlace_method.byte(),
        });
    }
    let compressed = collect_idat(chunks);
    if compressed.len() == 0 {
        return Err(PngParseError::MissingImageData);
    }
    let inflated = match zlib::inflate_zlib(compressed.as_slice()) {
        Some(v) => v,
        None => return Err(PngParseError::InflateFailed),
    };
    let reconstructed = match ihdr.interlace_method {
        PngInterlaceMethod::NotInterlaced => {
            let r = unfilter::reconstruct_scanlines(inflated.as_slice(), ihdr.height, layout.row_data_len, layout.filter_bytes_per_pixel);
            proof {
                unfilter::lemma_scanlines_value(inflated@, ihdr.height as int, layout.row_data_len as int, layout.filter_bytes_per_pixel as int, unfilter::bytes_result(r));
            }
            r
        },
        PngInterlaceMethod::Adam7 => {
            let r = interlace::reconstruct_adam7_scanlines(inflated.as_slice(), ihdr, layout.filter_bytes_per_pixel);
            proof {
                interlace::lemma_adam7_result_value(inflated@, ihdr, layout.filter_bytes_per_pixel as int, unfilter::bytes_result(r));
            }
            r
        },
    };
    let reconstructed = match reconstructed {
        Ok(v) => v,
        Err(e) => return Err(e),
    };
    let pixels = match expand_pixels(chunks, ihdr, transparency, reconstructed) {
        Ok(p) => p,
        Err(e) => return Err(e),
    };
    Ok(PngImage { width: ihdr.width, height: ihdr.height, color_type: ihdr.color_type, bit_depth: ihdr.bit_depth, pixels })
}

/// Decodes a PNG stream: the chunks are read and validated, the IDAT data
/// inflated, the filters undone, Adam7 passes placed, packed samples
/// unpacked, palettes looked up and tRNS turned into alpha.
pub fn decode_png_image(input: &[u8]) -> (r: Result<PngImage, PngParseError>)
    ensures
        decode_spec(input@, image_view(r), |cs: Seq<ChunkModel>| image_from_chunks(cs)),
{
    let ghost f = |cs: Seq<ChunkModel>| image_from_chunks(cs);
    let chunks = parse_png_chunks(input);
    let ghost cr = chunks_result_models(chunks);
    let chunks = match chunks {
        Ok(c) => c,
        Err(e) => {
            let r = Err(e);
            proof {
                lemma_decode_chunk_error(input@, cr, image_view(r), f);
            }
            return r;
        },
    };
    let ghost cs = chunk_models(chunks@);
    let v = validate_png_chunks(chunks.as_slice());
    let r = match v {
        Err(e) => Err(e),
        Ok(_) => decode_chunks(chunks.as_slice()),
    };
    proof {
        lemma_decode_valid(input@, cs, v, image_view(r), f);
    }
    r
}

/// A failed chunk split decides the result.
pub proof fn lemma_decode_chunk_error<T>(
    input: Seq<u8>,
    cr: Result<Seq<ChunkModel>, PngParseError>,
    r: Result<T, PngParseError>,
    f: spec_fn(Seq<ChunkModel>) -> Result<T, PngParseError>,
)
    requires
        png_chunk_stream(input, cr),
        cr is Err,
        r == Err::<T, PngParseError>(cr->Err_0),
    ensures
        decode_spec(input, r, f),
{
    let sr = Err::<super::types::PngStructureSummary, PngParseError>(PngParseError::MissingIhdr);
    assert(decode_outcome(input, cr, sr, r, f));
}

/// After a successful split, validation decides the result.
pub proof fn lemma_decode_valid<T>(
    input: Seq<u8>,
    cs: Seq<ChunkModel>,
    sr: Result<super::types::PngStructureSummary, PngParseError>,
    r: Result<T, PngParseError>,
    f: spec_fn(Seq<ChunkModel>) -> Result<T, PngParseError>,
)
    requires
        png_chunk_stream(input, Ok(cs)),
        png_structure(cs, sr),
        match sr {
            Err(e) => r == Err::<T, PngParseError>(e),
            Ok(_) => r == f(cs),
        },
    ensures
        decode_spec(input, r, f),
{
    let cr = Ok::<Seq<ChunkModel>, PngParseError>(cs);
    assert(decode_outcome(input, cr, sr, r, f));
}

} // verus!
