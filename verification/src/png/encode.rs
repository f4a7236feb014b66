//! Encoding images as PNG streams.
use vstd::prelude::*;
use crate::octets;
use crate::octets::{extend_bytes, push_be_u32};
use super::types::{IhdrColorType, PngFilterStrategy, PngImage, PngImageModel, PngInterlaceMethod, PngParseError};
use super::chunk;
use super::chunk::{ChunkType, calculate_chunk_crc, spec_chunk_crc, valid_chunk_type};
use super::filter;
use super::filter::{filter_scanlines, scanlines_filtered};
use super::interlace;
use super::interlace::{adam7_pass, pass_size, adam7_pass_size};
use super::pixels::channel_count;
use super::zlib;

verus! {

/// The bytes of a chunk: length, type, payload and CRC.
pub open spec fn chunk_frame(kind: Seq<u8>, payload: Seq<u8>) -> Seq<u8> {
    octets::be_bytes_u32(payload.len() as u32) + kind + payload + octets::be_bytes_u32(spec_chunk_crc(kind, payload))
}

/// What appending a chunk writes, or why it cannot be written.
pub open spec fn frame_value(kind: [u8; 4], payload: Seq<u8>) -> Result<Seq<u8>, PngParseError> {
    if !valid_chunk_type(kind@) {
        Err(PngParseError::InvalidChunkType { bytes: kind })
    } else if payload.len() > 0x7fff_ffff {
        Err(PngParseError::InvalidChunkLength { length: 0x8000_0000 })
    } else {
        Ok(chunk_frame(kind@, payload))
    }
}

/// Appends a chunk with its length and CRC; on failure the output is left
/// as it was.
pub fn append_png_chunk(output: &mut Vec<u8>, chunk_type: [u8; 4], payload: &[u8]) -> (r: Result<(), PngParseError>)
    ensures
        match frame_value(chunk_type, payload@) {
            Ok(b) => r is Ok && final(output)@ == old(output)@ + b,
            Err(e) => r == Err::<(), PngParseError>(e) && final(output)@ == old(output)@,
        },
{
    let ct = match ChunkType::from_bytes(chunk_type) {
        Ok(t) => t,
        Err(e) => return Err(e),
    };
    if payload.len() > 0x7fff_ffff {
        return Err(PngParseError::InvalidChunkLength { length: 0x8000_0000 });
    }
    let length = payload.len() as u32;
    let crc = calculate_chunk_crc(ct, payload);
    push_be_u32(output, length);
    let tb = ct.bytes();
    extend_bytes(output, tb.as_slice());
    extend_bytes(output, payload);
    push_be_u32(output, crc);
    assert(final(output)@ =~= old(output)@ + chunk_frame(chunk_type@, payload@));
    Ok(())
}

/// The thirteen IHDR payload bytes.
pub open spec fn ihdr_bytes(width: u32, height: u32, bit_depth: u8, color: u8, interlace: u8) -> Seq<u8> {
    octets::be_bytes_u32(width) + octets::be_bytes_u32(height) + seq![bit_depth, color, 0u8, 0u8, interlace]
}

/// Writes the IHDR payload of an image.
pub fn encode_ihdr_payload_with_interlace(image: &PngImage, interlace_method: PngInterlaceMethod) -> (r: Result<[u8; 13], PngParseError>)
    ensures
        r matches Ok(b) && b@ == ihdr_bytes(image.width, image.height, image.bit_depth, chunk::color_byte(image.color_type), chunk::interlace_byte(interlace_method)),
{
    let mut v: Vec<u8> = Vec::new();
    push_be_u32(&mut v, image.width);
    push_be_u32(&mut v, image.height);
    let b = [
        v[0],
        v[1],
        v[2],
        v[3],
        v[4],
        v[5],
        v[6],
        v[7],
        image.bit_depth,
        image.color_type.byte(),
        0,
        0,
        interlace_method.byte(),
    ];
    assert(b@ =~= ihdr_bytes(image.width, image.height, image.bit_depth, chunk::color_byte(image.color_type), chunk::interlace_byte(interlace_method)));
    Ok(b)
}

/// Writes the IHDR payload of a non-interlaced image.
pub fn encode_ihdr_payload(image: &PngImage) -> (r: Result<[u8; 13], PngParseError>)
    ensures
        r matches Ok(b) && b@ == ihdr_bytes(image.width, image.height, image.bit_depth, chunk::color_byte(image.color_type), 0),
{
    encode_ihdr_payload_with_interlace(image, PngInterlaceMethod::NotInterlaced)
}

/// Bytes per pixel, bytes per row and pixel bytes of an image the encoder
/// supports: 8- or 16-bit samples of a non-palette color type. A pixel
/// byte count beyond `usize::MAX` is refused as a length mismatch.
pub open spec fn encode_layout_value(img: PngImageModel) -> Result<(usize, usize, usize), PngParseError> {
    if img.width == 0 || img.height == 0 {
        Err(PngParseError::InvalidIhdrDimensions { width: img.width, height: img.height })
    } else if !chunk::allows_bit_depth(img.color_type, img.bit_depth) {
        Err(PngParseError::InvalidIhdrBitDepthColorType { bit_depth: img.bit_depth, color_type: chunk::color_byte(img.color_type) })
    } else if img.color_type == IhdrColorType::Indexed || (img.bit_depth != 8 && img.bit_depth != 16) {
        Err(PngParseError::UnsupportedEncodeFormat { bit_depth: img.bit_depth, color_type: chunk::color_byte(img.color_type) })
    } else {
        let bpp = channel_count(img.color_type) * (img.bit_depth / 8) as int;
        let row_len = img.width * bpp;
        let expected = row_len * img.height;
        if expected > usize::MAX {
            Err(PngParseError::InvalidImageDataLength { expected: usize::MAX, actual: img.pixels.len() as usize })
        } else {
            Ok((bpp as usize, row_len as usize, expected as usize))
        }
    }
}

/// Checks that the encoder supports the image and computes its layout.
pub fn encode_image_layout(image: &PngImage) -> (r: Result<(usize, usize, usize), PngParseError>)
    ensures
        r == encode_layout_value(image@),
{
    if image.width == 0 || image.height == 0 {
        return Err(PngParseError::InvalidIhdrDimensions { width: image.width, height: image.height });
    }
    if !image.color_type.allows_bit_depth(image.bit_depth) {
        return Err(PngParseError::InvalidIhdrBitDepthColorType { bit_depth: image.bit_depth, color_type: image.color_type.byte() });
    }
    let samples_per_pixel: u64 = match image.color_type {
        IhdrColorType::Grayscale => 1,
        IhdrColorType::Truecolor => 3,
        IhdrColorType::GrayscaleAlpha => 2,
        IhdrColorType::TruecolorAlpha => 4,
        IhdrColorType::Indexed => {
            return Err(PngParseError::UnsupportedEncodeFormat { bit_depth: image.bit_depth, color_type: image.color_type.byte() });
        },
    };
    if image.bit_depth != 8 && image.bit_depth != 16 {
        return Err(PngParseError::UnsupportedEncodeFormat { bit_depth: image.bit_depth, color_type: image.color_type.byte() });
    }
    let bytes_per_sample: u64 = (image.bit_depth / 8) as u64;
    let bpp: u64 = samples_per_pixel * bytes_per_sample;
    assert(bpp <= 8);
    assert((image.width as u64) * bpp <= 0xffff_ffff * 8) by (nonlinear_arith)
        requires
            bpp <= 8,
            image.width <= 0xffff_ffff,
    ;
    let row_len: u64 = (image.width as u64) * bpp;
    assert(row_len * image.height <= 0xffff_ffff * 8 * 0xffff_ffff) by (nonlinear_arith)
        requires
            row_len <= 0xffff_ffff * 8,
            image.height <= 0xffff_ffff,
    ;
    let expected: u128 = (row_len as u128) * (image.height as u128);
    if expected > usize::MAX as u128 {
        return Err(PngParseError::InvalidImageDataLength { expected: usize::MAX, actual: image.pixels.len() });
    }
    assert(row_len <= expected) by (nonlinear_arith)
        requires
            expected == row_len * image.height,
            image.height >= 1,
    ;
    Ok((bpp as usize, row_len as usize, expected as usize))
}

/// The filtered scanlines of an image the encoder supports, or the reason
/// it does not.
pub open spec fn idat_scanlines(img: PngImageModel, s: PngFilterStrategy) -> Result<Seq<u8>, PngParseError> {
    match encode_layout_value(img) {
        Err(e) => Err(e),
        Ok((bpp, row_len, expected)) => if img.pixels.len() != expected {
            Err(PngParseError::InvalidImageDataLength { expected, actual: img.pixels.len() as usize })
        } else {
            Ok(scanlines_filtered(img.pixels, row_len as int, bpp as int, s, img.height as int))
        },
    }
}

pub proof fn lemma_layout_facts(img: PngImageModel)
    requires
        encode_layout_value(img) is Ok,
    ensures
        ({
            let (bpp, row_len, expected) = encode_layout_value(img)->Ok_0;
            &&& 1 <= bpp <= 8
            &&& 0 < row_len <= 0x8_0000_0000
            &&& row_len == img.width * bpp
            &&& expected == row_len * img.height
            &&& (expected as int) / (row_len as int) == img.height
        }),
{
    let (bpp, row_len, expected) = encode_layout_value(img)->Ok_0;
    let b = channel_count(img.color_type) * (img.bit_depth / 8) as int;
    assert(1 <= b <= 8);
    assert(img.width * b <= img.width * b * img.height) by (nonlinear_arith)
        requires
            img.height >= 1,
            img.width * b >= 0,
    ;
    assert(row_len == img.width * bpp);
    assert(row_len >= 1) by (nonlinear_arith)
        requires
            row_len == img.width * bpp,
            img.width >= 1,
            bpp >= 1,
    ;
    assert(row_len <= 0x8_0000_0000) by (nonlinear_arith)
        requires
            row_len == img.width * bpp,
            img.width <= 0xffff_ffff,
            bpp <= 8,
    ;
    vstd::arithmetic::div_mod::lemma_div_multiples_vanish(img.height as int, row_len as int);
    assert(row_len * img.height == img.height * row_len) by (nonlinear_arith);
}

/// Filters the rows of an image and compresses them. Whether the
/// compressor fails is up to `flate2`.
pub fn encode_idat_payload(image: &PngImage, filter_strategy: PngFilterStrategy) -> (r: Result<Vec<u8>, PngParseError>)
    ensures
        match idat_scanlines(image@, filter_strategy) {
            Err(e) => r == Err::<Vec<u8>, PngParseError>(e),
            Ok(sc) => match r {
                Ok(v) => zlib::zlib_deflate_outcome(sc) == Some(v@) && zlib::zlib_inflated(v@) == Some(sc) && v@.len() > 0,
                Err(e) => e == PngParseError::DeflateFailed && zlib::zlib_deflate_outcome(sc) is None,
            },
        },
{
    let (bpp, row_len, expected) = match encode_image_layout(image) {
        Ok(l) => l,
        Err(e) => return Err(e),
    };
    if image.pixels.len() != expected {
        return Err(PngParseError::InvalidImageDataLength { expected, actual: image.pixels.len() });
    }
    proof {
        lemma_layout_facts(image@);
    }
    let scanlines = filter_scanlines(image.pixels.as_slice(), image.height as usize, row_len, bpp, filter_strategy);
    match zlib::deflate_zlib(scanlines.as_slice()) {
        Some(v) => Ok(v),
        None => Err(PngParseError::DeflateFailed),
    }
}

/// What encoding a non-interlaced image writes, given the compressed IDAT
/// payload: signature, IHDR, IDAT, IEND.
pub open spec fn png_bytes(img: PngImageModel, interlace: u8, idat: Seq<u8>) -> Seq<u8> {
    chunk::png_sig()
        + chunk_frame(chunk::ihdr_tag(), ihdr_bytes(img.width, img.height, img.bit_depth, chunk::color_byte(img.color_type), interlace))
        + chunk_frame(chunk::idat_tag(), idat)
        + chunk_frame(chunk::iend_tag(), Seq::empty())
}

/// `r` is what encoding writes when the uncompressed IDAT data is
/// `scan`: the stream, or the compressor's failure, or an IDAT payload
/// too long for one chunk.
pub open spec fn encoded_with(img: PngImageModel, interlace: u8, scan: Result<Seq<u8>, PngParseError>, r: Result<Seq<u8>, PngParseError>) -> bool {
    match scan {
        Err(e) => r == Err::<Seq<u8>, PngParseError>(e),
        Ok(sc) => match r {
            Ok(out) => zlib::zlib_deflate_outcome(sc) is Some && zlib::zlib_deflated(sc).len() <= 0x7fff_ffff && zlib::zlib_inflated(zlib::zlib_deflated(sc)) == Some(sc)
                && zlib::zlib_deflated(sc).len() > 0 && out == png_bytes(img, interlace, zlib::zlib_deflated(sc)),
            Err(e) => (e == PngParseError::DeflateFailed && zlib::zlib_deflate_outcome(sc) is None) || (e
                == PngParseError::InvalidChunkLength { length: 0x8000_0000 } && zlib::zlib_deflate_outcome(sc) is Some
                && zlib::zlib_deflated(sc).len() > 0x7fff_ffff),
        },
    }
}

/// The value of a byte-vector result.
pub open spec fn bytes_view(r: Result<Vec<u8>, PngParseError>) -> Result<Seq<u8>, PngParseError> {
    match r {
        Ok(v) => Ok(v@),
        Err(e) => Err(e),
    }
}

/// The PNG signature as a vector.
fn signature_vec() -> (r: Vec<u8>)
    ensures
        r@ == chunk::png_sig(),
{
    let v = vec![137u8, 80, 78, 71, 13, 10, 26, 10];
    assert(v@ =~= chunk::png_sig());
    v
}

proof fn lemma_tags()
    ensures
        valid_chunk_type(chunk::ihdr_tag()),
        valid_chunk_type(chunk::idat_tag()),
        valid_chunk_type(chunk::iend_tag()),
        valid_chunk_type(chunk::plte_tag()),
        valid_chunk_type(chunk::trns_tag()),
{
}

/// Writes signature, IHDR, IDAT with the compressed payload, and IEND.
fn write_single_idat_png(image: &PngImage, interlace: PngInterlaceMethod, idat: &[u8]) -> (r: Result<Vec<u8>, PngParseError>)
    ensures
        match r {
            Ok(out) => idat@.len() <= 0x7fff_ffff && out@ == png_bytes(image@, chunk::interlace_byte(interlace), idat@),
            Err(e) => idat@.len() > 0x7fff_ffff && e == (PngParseError::InvalidChunkLength { length: 0x8000_0000 }),
        },
{
    proof {
        lemma_tags();
    }
    let mut output = signature_vec();
    let ihdr = match encode_ihdr_payload_with_interlace(image, interlace) {
        Ok(b) => b,
        Err(e) => return Err(e),
    };
    assert([73u8, 72u8, 68u8, 82u8]@ == chunk::ihdr_tag());
    assert([73u8, 68u8, 65u8, 84u8]@ == chunk::idat_tag());
    assert([73u8, 69u8, 78u8, 68u8]@ == chunk::iend_tag());
    match append_png_chunk(&mut output, [73, 72, 68, 82], ihdr.as_slice()) {
        Ok(()) => {},
        Err(e) => return Err(e),
    }
    match append_png_chunk(&mut output, [73, 68, 65, 84], idat) {
        Ok(()) => {},
        Err(e) => return Err(e),
    }
    let empty: Vec<u8> = Vec::new();
    match append_png_chunk(&mut output, [73, 69, 78, 68], empty.as_slice()) {
        Ok(()) => {},
        Err(e) => return Err(e),
    }
    assert(empty@ =~= Seq::<u8>::empty());
    Ok(output)
}

/// Encodes an image with the given filter strategy: signature, IHDR, one
/// IDAT and IEND.
pub fn encode_png_image_with_filter_strategy(image: &PngImage, filter_strategy: PngFilterStrategy) -> (r: Result<Vec<u8>, PngParseError>)
    ensures
        encoded_with(image@, 0, idat_scanlines(image@, filter_strategy), bytes_view(r)),
{
    let idat = match encode_idat_payload(image, filter_strategy) {
        Ok(v) => v,
        Err(e) => return Err(e),
    };
    write_single_idat_png(image, PngInterlaceMethod::NotInterlaced, idat.as_slice())
}

/// Encodes an image without filtering.
pub fn encode_png_image(image: &PngImage) -> (r: Result<Vec<u8>, PngParseError>)
    ensures
        encoded_with(image@, 0, idat_scanlines(image@, PngFilterStrategy::NoFilter), bytes_view(r)),
{
    encode_png_image_with_filter_strategy(image, PngFilterStrategy::NoFilter)
}

/// The bytes of pixel row `py` of Adam7 pass `p`, `pw` pixels wide.
pub open spec fn adam7_row_bytes(px: Seq<u8>, rl: int, bpp: int, p: int, py: int, pw: int) -> Seq<u8> {
    let (sx, sy, stx, sty) = adam7_pass(p);
    let y = sy + py * sty;
    Seq::new((pw * bpp) as nat, |j: int| px[y * rl + (sx + (j / bpp) * stx) * bpp + j % bpp])
}

/// The first `n` rows of pass `p`, each behind a zero filter byte.
pub open spec fn adam7_pass_rows(px: Seq<u8>, w: int, rl: int, bpp: int, p: int, n: int) -> Seq<u8>
    decreases n,
{
    if n <= 0 {
        Seq::empty()
    } else {
        let (sx, sy, stx, sty) = adam7_pass(p);
        adam7_pass_rows(px, w, rl, bpp, p, n - 1).push(0u8) + adam7_row_bytes(px, rl, bpp, p, n - 1, pass_size(w, sx, stx))
    }
}

/// The unfiltered scanlines of the first `q` Adam7 passes.
pub open spec fn adam7_scanlines(px: Seq<u8>, w: int, h: int, rl: int, bpp: int, q: int) -> Seq<u8>
    decreases q,
{
    if q <= 0 {
        Seq::empty()
    } else {
        let (sx, sy, stx, sty) = adam7_pass(q - 1);
        let pw = pass_size(w, sx, stx);
        let ph = pass_size(h, sy, sty);
        if pw == 0 || ph == 0 {
            adam7_scanlines(px, w, h, rl, bpp, q - 1)
        } else {
            adam7_scanlines(px, w, h, rl, bpp, q - 1) + adam7_pass_rows(px, w, rl, bpp, q - 1, ph)
        }
    }
}

/// The Adam7 scanlines of an image the encoder supports.
pub open spec fn adam7_idat_scanlines(img: PngImageModel) -> Result<Seq<u8>, PngParseError> {
    match encode_layout_value(img) {
        Err(e) => Err(e),
        Ok((bpp, row_len, expected)) => if img.pixels.len() != expected {
            Err(PngParseError::InvalidImageDataLength { expected, actual: img.pixels.len() as usize })
        } else {
            Ok(adam7_scanlines(img.pixels, img.width as int, img.height as int, row_len as int, bpp as int, 7))
        },
    }
}

proof fn lemma_pass_bound(size: int, start: int, step: int, i: int)
    requires
        step >= 1,
        0 <= start,
        0 <= i < pass_size(size, start, step),
    ensures
        start + i * step < size,
{
    let d = size - start;
    assert(d > 0);
    assert(start + i * step < size) by (nonlinear_arith)
        requires
            d == size - start,
            d > 0,
            step >= 1,
            0 <= i,
            i < d / step + (if d % step != 0 { 1int } else { 0int }),
    {
        vstd::arithmetic::div_mod::lemma_fundamental_div_mod(d, step);
    }
}

/// Reorders the pixels into Adam7 passes, each row behind filter type 0,
/// and compresses them.
fn encode_adam7_idat_payload(image: &PngImage) -> (r: Result<Vec<u8>, PngParseError>)
    ensures
        match adam7_idat_scanlines(image@) {
            Err(e) => r == Err::<Vec<u8>, PngParseError>(e),
            Ok(sc) => match r {
                Ok(v) => zlib::zlib_deflate_outcome(sc) == Some(v@) && zlib::zlib_inflated(v@) == Some(sc) && v@.len() > 0,
                Err(e) => e == PngParseError::DeflateFailed && zlib::zlib_deflate_outcome(sc) is None,
            },
        },
{
    let (bpp, row_len, expected) = match encode_image_layout(image) {
        Ok(l) => l,
        Err(e) => return Err(e),
    };
    if image.pixels.len() != expected {
        return Err(PngParseError::InvalidImageDataLength { expected, actual: image.pixels.len() });
    }
    proof {
        lemma_layout_facts(image@);
    }
    let ghost px = image.pixels@;
    let ghost w = image.width as int;
    let ghost h = image.height as int;
    let mut scanlines: Vec<u8> = Vec::new();
    let mut p: usize = 0;
    while p < 7
        invariant
            px == image.pixels@,
            w == image.width as int,
            h == image.height as int,
            1 <= bpp <= 8,
            row_len == w * bpp,
            px.len() == row_len * h,
            px.len() == expected,
            p <= 7,
            scanlines@ == adam7_scanlines(px, w, h, row_len as int, bpp as int, p as int),
        decreases 7 - p,
    {
        let (sx, sy, stx, sty) = interlace::adam7_params(p);
        let pw = adam7_pass_size(image.width, sx, stx);
        let ph = adam7_pass_size(image.height, sy, sty);
        if pw == 0 || ph == 0 {
            p = p + 1;
            continue;
        }
        let ghost base = scanlines@;
        let mut py: u32 = 0;
        while py < ph
            invariant
                px == image.pixels@,
                w == image.width as int,
                h == image.height as int,
                1 <= bpp <= 8,
                row_len == w * bpp,
                px.len() == row_len * h,
                px.len() == expected,
                p < 7,
                (sx as int, sy as int, stx as int, sty as int) == adam7_pass(p as int),
                pw == pass_size(w, sx as int, stx as int),
                ph == pass_size(h, sy as int, sty as int),
                py <= ph,
                scanlines@ == base + adam7_pass_rows(px, w, row_len as int, bpp as int, p as int, py as int),
            decreases ph - py,
        {
            proof {
                lemma_pass_bound(h, sy as int, sty as int, py as int);
            }
            let image_y = (sy as usize) + (py as usize) * (sty as usize);
            scanlines.push(0);
            let ghost row_start = scanlines@;
            let ghost target = adam7_row_bytes(px, row_len as int, bpp as int, p as int, py as int, pw as int);
            let mut qx: u32 = 0;
            while qx < pw
                invariant
                    px == image.pixels@,
                    w == image.width as int,
                    h == image.height as int,
                    1 <= bpp <= 8,
                    row_len == w * bpp,
                    px.len() == row_len * h,
                    px.len() == expected,
                    p < 7,
                    (sx as int, sy as int, stx as int, sty as int) == adam7_pass(p as int),
                    pw == pass_size(w, sx as int, stx as int),
                    image_y == sy + py * sty,
                    image_y < h,
                    target == adam7_row_bytes(px, row_len as int, bpp as int, p as int, py as int, pw as int),
                    qx <= pw,
                    scanlines@ == row_start + target.subrange(0, qx * bpp),
                decreases pw - qx,
            {
                proof {
                    lemma_pass_bound(w, sx as int, stx as int, qx as int);
                    assert(image_y * row_len + (sx + qx * stx) * bpp + bpp <= px.len()) by (nonlinear_arith)
                        requires
                            image_y < h,
                            sx + qx * stx < w,
                            row_len == w * bpp,
                            px.len() == row_len * h,
                            bpp >= 1,
                            0 <= sx + qx * stx,
                    ;
                    assert(0 <= (sx + qx * stx) * bpp) by (nonlinear_arith)
                        requires
                            0 <= sx + qx * stx,
                            bpp >= 1,
                    ;
                    assert(0 <= image_y * row_len) by (nonlinear_arith)
                        requires
                            0 <= image_y,
                            0 <= row_len,
                    ;
                }
                let image_x = (sx as usize) + (qx as usize) * (stx as usize);
                let source_start = image_y * row_len + image_x * bpp;
                let src = &image.pixels.as_slice()[source_start..source_start + bpp];
                let ghost before = scanlines@;
                extend_bytes(&mut scanlines, src);
                proof {
                    assert(qx * bpp + bpp == (qx + 1) * bpp) by (nonlinear_arith);
                    assert((qx + 1) * bpp <= pw * bpp) by (nonlinear_arith)
                        requires
                            qx < pw,
                            bpp >= 1,
                    ;
                    assert forall|i: int| qx * bpp <= i < qx * bpp + bpp implies #[trigger] target[i] == src@[i - qx * bpp] by {
                        super::unfilter::lemma_row_col(qx as int, i - qx * bpp, bpp as int);
                    }
                    assert(scanlines@ =~= row_start + target.subrange(0, (qx + 1) * bpp));
                }
                qx = qx + 1;
            }
            proof {
                assert(target.subrange(0, pw * bpp) =~= target);
                assert(scanlines@ =~= base + adam7_pass_rows(px, w, row_len as int, bpp as int, p as int, py + 1));
            }
            py = py + 1;
        }
        p = p + 1;
    }
    match zlib::deflate_zlib(scanlines.as_slice()) {
        Some(v) => Ok(v),
        None => Err(PngParseError::DeflateFailed),
    }
}

/// Encodes an image interlaced with Adam7, each pass row unfiltered.
pub fn encode_adam7_png_image(image: &PngImage) -> (r: Result<Vec<u8>, PngParseError>)
    ensures
        encoded_with(image@, 1, adam7_idat_scanlines(image@), bytes_view(r)),
{
    let idat = match encode_adam7_idat_payload(image) {
        Ok(v) => v,
        Err(e) => return Err(e),
    };
    write_single_idat_png(image, PngInterlaceMethod::Adam7, idat.as_slice())
}

} // verus!
