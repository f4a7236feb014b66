//! Encoding palette images, metadata chunks and whole documents.
use vstd::prelude::*;
use crate::octets;
use crate::octets::{extend_bytes, push_be_u32};
use super::types::{
    IccProfile, InternationalTextChunk, PaletteEntry, PhysicalPixelDimensions, PhysicalPixelUnit,
    PngChromaticities, PngCompatUnknownChunkPolicy, PngDocument, PngFilterStrategy, PngIndexedImage,
    PngMetadata, PngParseError, PngTimestamp, SrgbRenderingIntent, TextChunk, UnknownAncillaryChunk,
};
use super::chunk;
use super::chunk::ChunkType;
use super::encode;
use super::encode::{append_png_chunk, chunk_frame, frame_value, ihdr_bytes};
use super::pixels::channel;
use super::unfilter::saturate;
use super::zlib;

verus! {

/// A palette image, as values.
pub struct IndexedModel {
    pub width: u32,
    pub height: u32,
    pub bit_depth: u8,
    pub palette: Seq<PaletteEntry>,
    pub indices: Seq<u8>,
    pub alpha: Option<Seq<u8>>,
}

impl View for PngIndexedImage {
    type V = IndexedModel;

    open spec fn view(&self) -> IndexedModel {
        IndexedModel {
            width: self.width,
            height: self.height,
            bit_depth: self.bit_depth,
            palette: self.palette@,
            indices: self.indices@,
            alpha: match self.alpha {
                Some(a) => Some(a@),
                None => None,
            },
        }
    }
}

/// `2^d` for the palette bit depths.
pub open spec fn index_limit(d: u8) -> int {
    if d == 1 { 2 } else if d == 2 { 4 } else if d == 4 { 16 } else { 256 }
}

/// The IHDR payload of a palette image, or why it cannot be written.
pub open spec fn indexed_ihdr_value(img: IndexedModel) -> Result<Seq<u8>, PngParseError> {
    if img.width == 0 || img.height == 0 {
        Err(PngParseError::InvalidIhdrDimensions { width: img.width, height: img.height })
    } else if !(img.bit_depth == 1 || img.bit_depth == 2 || img.bit_depth == 4 || img.bit_depth == 8) {
        Err(PngParseError::UnsupportedEncodeFormat { bit_depth: img.bit_depth, color_type: 3 })
    } else if img.palette.len() == 0 || img.palette.len() > index_limit(img.bit_depth) {
        Err(PngParseError::InvalidPlteLength { length: saturate(img.palette.len() * 3int) })
    } else {
        Ok(ihdr_bytes(img.width, img.height, img.bit_depth, 3, 0))
    }
}

/// Writes the IHDR payload of a palette image.
pub fn encode_indexed_ihdr_payload(image: &PngIndexedImage) -> (r: Result<[u8; 13], PngParseError>)
    ensures
        match r {
            Ok(b) => indexed_ihdr_value(image@) == Ok::<Seq<u8>, PngParseError>(b@),
            Err(e) => indexed_ihdr_value(image@) == Err::<Seq<u8>, PngParseError>(e),
        },
{
    if image.width == 0 || image.height == 0 {
        return Err(PngParseError::InvalidIhdrDimensions { width: image.width, height: image.height });
    }
    let d = image.bit_depth;
    let max_entries: usize = if d == 1 {
        2
    } else if d == 2 {
        4
    } else if d == 4 {
        16
    } else if d == 8 {
        256
    } else {
        return Err(PngParseError::UnsupportedEncodeFormat { bit_depth: d, color_type: 3 });
    };
    let plen = image.palette.len();
    if plen == 0 || plen > max_entries {
        return Err(PngParseError::InvalidPlteLength { length: octets_mul_saturating(plen, 3) });
    }
    let mut v: Vec<u8> = Vec::new();
    push_be_u32(&mut v, image.width);
    push_be_u32(&mut v, image.height);
    let b = [v[0], v[1], v[2], v[3], v[4], v[5], v[6], v[7], d, 3, 0, 0, 0];
    assert(b@ =~= ihdr_bytes(image.width, image.height, d, 3, 0));
    Ok(b)
}

fn octets_mul_saturating(a: usize, b: usize) -> (r: usize)
    ensures
        r == saturate(a * b),
{
    super::unfilter::mul_saturating(a, b)
}

/// The PLTE payload bytes of a palette.
pub open spec fn plte_bytes(pal: Seq<PaletteEntry>) -> Seq<u8> {
    Seq::new(3 * pal.len(), |k: int| channel(pal[k / 3], k % 3))
}

/// Writes a palette as a PLTE payload.
pub fn encode_plte_payload(palette: &[PaletteEntry]) -> (r: Result<Vec<u8>, PngParseError>)
    ensures
        match r {
            Ok(v) => 0 < palette@.len() <= 256 && v@ == plte_bytes(palette@),
            Err(e) => (palette@.len() == 0 || palette@.len() > 256)
                && e == (PngParseError::InvalidPlteLength { length: saturate(palette@.len() * 3int) }),
        },
{
    let n = palette.len();
    if n == 0 || n > 256 {
        return Err(PngParseError::InvalidPlteLength { length: octets_mul_saturating(n, 3) });
    }
    let mut out: Vec<u8> = Vec::new();
    let mut i: usize = 0;
    while i < n
        invariant
            n == palette@.len(),
            i <= n,
            out@.len() == 3 * i,
            forall|k: int| 0 <= k < out@.len() ==> #[trigger] out@[k] == plte_bytes(palette@)[k],
        decreases n - i,
    {
        let e = palette[i];
        out.push(e.red);
        out.push(e.green);
        out.push(e.blue);
        proof {
            assert forall|k: int| 3 * i <= k < 3 * i + 3 implies #[trigger] out@[k] == plte_bytes(palette@)[k] by {
                assert(k / 3 == i);
            }
        }
        i = i + 1;
    }
    assert(out@ =~= plte_bytes(palette@));
    Ok(out)
}

/// Writes the alpha values of a palette image as a tRNS payload.
pub fn encode_indexed_trns_payload(alpha: &[u8], palette_len: usize) -> (r: Result<Vec<u8>, PngParseError>)
    ensures
        match r {
            Ok(v) => 0 < alpha@.len() <= palette_len && v@ == alpha@,
            Err(e) => (alpha@.len() == 0 || alpha@.len() > palette_len)
                && e == (PngParseError::InvalidTrnsLength { color_type: 3, length: alpha@.len() as usize }),
        },
{
    if alpha.len() == 0 || alpha.len() > palette_len {
        return Err(PngParseError::InvalidTrnsLength { color_type: 3, length: alpha.len() });
    }
    Ok(vstd::slice::slice_to_vec(alpha))
}

/// The shift of sample `j` of a packed byte at bit depth `d`.
pub open spec fn pack_shift(d: u8, j: int) -> u8 {
    (8 - d * (j + 1)) as u8
}

/// The first `n` indices from `start` packed into one byte.
pub open spec fn packed_byte(ind: Seq<u8>, d: u8, start: int, n: int) -> u8
    decreases n,
{
    if n <= 0 { 0u8 } else { packed_byte(ind, d, start, n - 1) | (ind[start + n - 1] << pack_shift(d, n - 1)) }
}

/// Samples per byte at the packed palette depths.
pub open spec fn per_byte(d: u8) -> int {
    if d == 1 { 8 } else if d == 2 { 4 } else { 2 }
}

/// Indices packed `per_byte(d)` to a byte, most significant bits first;
/// the last byte may hold fewer.
pub open spec fn pack_row(ind: Seq<u8>, d: u8) -> Seq<u8> {
    let spb = per_byte(d);
    Seq::new(((ind.len() + spb - 1) / spb) as nat, |j: int| {
        let start = j * spb;
        let n = if ind.len() - start < spb { ind.len() - start } else { spb };
        packed_byte(ind, d, start, n)
    })
}

/// Packs palette indices of depth 1, 2 or 4.
pub fn pack_indexed_row(indices: &[u8], bit_depth: u8) -> (r: Vec<u8>)
    requires
        bit_depth == 1 || bit_depth == 2 || bit_depth == 4,
    ensures
        r@ == pack_row(indices@, bit_depth),
{
    let spb: usize = if bit_depth == 1 { 8 } else if bit_depth == 2 { 4 } else { 2 };
    let len = indices.len();
    let mut packed: Vec<u8> = Vec::new();
    let mut start: usize = 0;
    let ghost target = pack_row(indices@, bit_depth);
    while start < len
        invariant
            spb == per_byte(bit_depth),
            bit_depth == 1 || bit_depth == 2 || bit_depth == 4,
            len == indices@.len(),
            target == pack_row(indices@, bit_depth),
            start <= len,
            packed@.len() * spb == start || (start == len && packed@.len() == target.len()),
            start == 0 ==> packed@.len() == 0,
            packed@.len() <= target.len(),
            forall|k: int| 0 <= k < packed@.len() ==> #[trigger] packed@[k] == target[k],
        decreases len - start,
    {
        let n: usize = if len - start < spb { len - start } else { spb };
        let mut byte: u8 = 0;
        let mut j: usize = 0;
        while j < n
            invariant
                spb == per_byte(bit_depth),
                bit_depth == 1 || bit_depth == 2 || bit_depth == 4,
                len == indices@.len(),
                start < len,
                n <= spb,
                start + n <= len,
                j <= n,
                byte == packed_byte(indices@, bit_depth, start as int, j as int),
            decreases n - j,
        {
            assert(bit_depth * (j + 1) <= 8) by (nonlinear_arith)
                requires
                    bit_depth == 1 || bit_depth == 2 || bit_depth == 4,
                    spb == (if bit_depth == 1 { 8int } else if bit_depth == 2 { 4int } else { 2int }),
                    j < n,
                    n <= spb,
            ;
            let shift: u8 = 8 - bit_depth * ((j + 1) as u8);
            byte = byte | (indices[start + j] << shift);
            j = j + 1;
        }
        let ghost k = packed@.len() as int;
        proof {
            assert(k * spb == start);
            assert(k < target.len()) by (nonlinear_arith)
                requires
                    k * spb == start,
                    start < len,
                    spb >= 2,
                    target.len() == (len + spb - 1) / (spb as int),
            ;
            assert(target[k] == byte);
        }
        packed.push(byte);
        start = start + n;
        proof {
            if n < spb {
                assert(packed@.len() == target.len()) by (nonlinear_arith)
                    requires
                        packed@.len() == k + 1,
                        k * spb + n == len,
                        n < spb,
                        n >= 1,
                        spb >= 2,
                        target.len() == (len + spb - 1) / (spb as int),
                ;
            } else {
                assert(packed@.len() * spb == start) by (nonlinear_arith)
                    requires
                        packed@.len() == k + 1,
                        k * spb + spb == start,
                ;
            }
        }
    }
    proof {
        if packed@.len() * spb == start && start == len {
            assert(packed@.len() == target.len()) by (nonlinear_arith)
                requires
                    start == packed@.len() * spb,
                    start == len,
                    spb >= 2,
                    target.len() == (len + spb - 1) / (spb as int),
            ;
        }
    }
    assert(packed@ =~= target);
    packed
}

/// The first index out of the palette or beyond the bit depth, if any.
pub open spec fn index_ok(i: u8, plen: int, d: u8) -> bool {
    (i as int) < plen && (i as int) < index_limit(d)
}

/// The unfiltered scanlines of the first `k` rows of a palette image.
pub open spec fn indexed_rows(ind: Seq<u8>, w: int, d: u8, k: int) -> Seq<u8>
    decreases k,
{
    if k <= 0 {
        Seq::empty()
    } else {
        let row = ind.subrange((k - 1) * w, k * w);
        indexed_rows(ind, w, d, k - 1).push(0u8) + if d == 8 { row } else { pack_row(row, d) }
    }
}

/// The unfiltered IDAT data of a palette image, or why it cannot be
/// written. `w * h` beyond `usize::MAX` is refused as a length mismatch.
pub open spec fn indexed_scanlines(img: IndexedModel) -> Result<Seq<u8>, PngParseError> {
    let expected = img.width * img.height;
    if expected > usize::MAX {
        Err(PngParseError::InvalidImageDataLength { expected: usize::MAX, actual: img.indices.len() as usize })
    } else if img.indices.len() != expected {
        Err(PngParseError::InvalidImageDataLength { expected: expected as usize, actual: img.indices.len() as usize })
    } else if exists|i: int| 0 <= i < img.indices.len() && !index_ok(#[trigger] img.indices[i], img.palette.len() as int, img.bit_depth) {
        let i = choose|i: int|
            0 <= i < img.indices.len() && !index_ok(#[trigger] img.indices[i], img.palette.len() as int, img.bit_depth)
                && forall|j: int| 0 <= j < i ==> index_ok(#[trigger] img.indices[j], img.palette.len() as int, img.bit_depth);
        Err(PngParseError::InvalidPaletteIndex { index: img.indices[i], palette_len: img.palette.len() as usize })
    } else {
        Ok(indexed_rows(img.indices, img.width as int, img.bit_depth, img.height as int))
    }
}

/// Some first index fails whenever one does.
proof fn lemma_first_bad_index(ind: Seq<u8>, plen: int, d: u8, i: int)
    requires
        0 <= i < ind.len(),
        !index_ok(ind[i], plen, d),
    ensures
        exists|k: int|
            0 <= k < ind.len() && !index_ok(#[trigger] ind[k], plen, d)
                && forall|j: int| 0 <= j < k ==> index_ok(#[trigger] ind[j], plen, d),
    decreases i,
{
    if exists|j: int| 0 <= j < i && !index_ok(#[trigger] ind[j], plen, d) {
        let j = choose|j: int| 0 <= j < i && !index_ok(#[trigger] ind[j], plen, d);
        lemma_first_bad_index(ind, plen, d, j);
    } else {
        assert(forall|j: int| 0 <= j < i ==> index_ok(#[trigger] ind[j], plen, d));
    }
}

/// The first index out of range decides the error.
proof fn lemma_indexed_error(img: IndexedModel, i: int)
    requires
        img.width * img.height <= usize::MAX,
        img.indices.len() == img.width * img.height,
        0 <= i < img.indices.len(),
        !index_ok(img.indices[i], img.palette.len() as int, img.bit_depth),
        forall|j: int| 0 <= j < i ==> index_ok(#[trigger] img.indices[j], img.palette.len() as int, img.bit_depth),
    ensures
        indexed_scanlines(img) == Err::<Seq<u8>, PngParseError>(PngParseError::InvalidPaletteIndex { index: img.indices[i], palette_len: img.palette.len() as usize }),
{
    let k = choose|i: int|
        0 <= i < img.indices.len() && !index_ok(#[trigger] img.indices[i], img.palette.len() as int, img.bit_depth)
            && forall|j: int| 0 <= j < i ==> index_ok(#[trigger] img.indices[j], img.palette.len() as int, img.bit_depth);
    assert(exists|i: int| 0 <= i < img.indices.len() && !index_ok(#[trigger] img.indices[i], img.palette.len() as int, img.bit_depth));
    if k < i {
        assert(index_ok(img.indices[k], img.palette.len() as int, img.bit_depth));
    } else if k > i {
        assert(index_ok(img.indices[i], img.palette.len() as int, img.bit_depth));
    }
}

/// Packs the rows of a palette image and compresses them. The caller has
/// checked the dimensions and the bit depth.
fn encode_indexed_idat_payload(image: &PngIndexedImage) -> (r: Result<Vec<u8>, PngParseError>)
    requires
        image.width > 0,
        image.bit_depth == 1 || image.bit_depth == 2 || image.bit_depth == 4 || image.bit_depth == 8,
    ensures
        match indexed_scanlines(image@) {
            Err(e) => r == Err::<Vec<u8>, PngParseError>(e),
            Ok(sc) => match r {
                Ok(v) => zlib::zlib_deflate_outcome(sc) == Some(v@) && zlib::zlib_inflated(v@) == Some(sc) && v@.len() > 0,
                Err(e) => e == PngParseError::DeflateFailed && zlib::zlib_deflate_outcome(sc) is None,
            },
        },
{
    let w = image.width as u64;
    assert(w * (image.height as u64) <= 0xffff_ffff * 0xffff_ffff) by (nonlinear_arith)
        requires
            w <= 0xffff_ffff,
            image.height <= 0xffff_ffff,
    ;
    let expected64: u64 = w * (image.height as u64);
    if expected64 > usize::MAX as u64 {
        return Err(PngParseError::InvalidImageDataLength { expected: usize::MAX, actual: image.indices.len() });
    }
    let expected = expected64 as usize;
    if image.indices.len() != expected {
        return Err(PngParseError::InvalidImageDataLength { expected, actual: image.indices.len() });
    }
    let d = image.bit_depth;
    let limit: usize = if d == 1 { 2 } else if d == 2 { 4 } else if d == 4 { 16 } else { 256 };
    let plen = image.palette.len();
    let mut i: usize = 0;
    while i < image.indices.len()
        invariant
            limit == index_limit(d),
            expected == image.width * image.height,
            image.indices@.len() == expected,
            plen == image.palette@.len(),
            d == image.bit_depth,
            i <= image.indices@.len(),
            forall|j: int| 0 <= j < i ==> index_ok(#[trigger] image.indices@[j], plen as int, d),
        decreases image.indices@.len() - i,
    {
        let index = image.indices[i];
        if index as usize >= plen || index as usize >= limit {
            proof {
                lemma_indexed_error(image@, i as int);
            }
            return Err(PngParseError::InvalidPaletteIndex { index, palette_len: plen });
        }
        i = i + 1;
    }
    let wu = image.width as usize;
    let h = image.height as usize;
    let mut scanlines: Vec<u8> = Vec::new();
    let mut k: usize = 0;
    while k < h
        invariant
            wu == image.width,
            h == image.height,
            wu > 0,
            image.indices@.len() == wu * h,
            image.indices@.len() == expected,
            d == image.bit_depth,
            d == 1 || d == 2 || d == 4 || d == 8,
            k <= h,
            scanlines@ == indexed_rows(image.indices@, wu as int, d, k as int),
        decreases h - k,
    {
        assert((k + 1) * wu <= wu * h) by (nonlinear_arith)
            requires
                k < h,
                wu > 0,
        ;
        assert(k * wu + wu == (k + 1) * wu) by (nonlinear_arith);
        let start = k * wu;
        let row = &image.indices.as_slice()[start..start + wu];
        scanlines.push(0);
        if d == 8 {
            extend_bytes(&mut scanlines, row);
        } else {
            let packed = pack_indexed_row(row, d);
            extend_bytes(&mut scanlines, packed.as_slice());
        }
        k = k + 1;
    }
    proof {
        assert(wu * h == image.width * image.height);
    }
    match zlib::deflate_zlib(scanlines.as_slice()) {
        Some(v) => Ok(v),
        None => Err(PngParseError::DeflateFailed),
    }
}

/// The chunk payloads of a palette image before compression: IHDR, PLTE,
/// the optional tRNS, and the unfiltered IDAT data; or the first error.
pub open spec fn indexed_parts(img: IndexedModel) -> Result<(Seq<u8>, Seq<u8>, Option<Seq<u8>>, Seq<u8>), PngParseError> {
    match indexed_ihdr_value(img) {
        Err(e) => Err(e),
        Ok(ih) => {
            let trns: Result<Option<Seq<u8>>, PngParseError> = match img.alpha {
                None => Ok(None),
                Some(a) => if a.len() == 0 || a.len() > img.palette.len() {
                    Err(PngParseError::InvalidTrnsLength { color_type: 3, length: a.len() as usize })
                } else {
                    Ok(Some(a))
                },
            };
            match trns {
                Err(e) => Err(e),
                Ok(t) => match indexed_scanlines(img) {
                    Err(e) => Err(e),
                    Ok(sc) => Ok((ih, plte_bytes(img.palette), t, sc)),
                },
            }
        },
    }
}

/// The bytes of a palette image stream with the given IDAT payload.
pub open spec fn indexed_png_bytes(ih: Seq<u8>, pl: Seq<u8>, t: Option<Seq<u8>>, idat: Seq<u8>) -> Seq<u8> {
    chunk::png_sig() + chunk_frame(chunk::ihdr_tag(), ih) + chunk_frame(chunk::plte_tag(), pl) + match t {
        Some(a) => chunk_frame(chunk::trns_tag(), a),
        None => Seq::empty(),
    } + chunk_frame(chunk::idat_tag(), idat) + chunk_frame(chunk::iend_tag(), Seq::empty())
}

/// `r` is what encoding the palette image `img` writes: the stream, or the
/// first error, or the compressor's failure, or an IDAT payload too long for
/// one chunk.
pub open spec fn indexed_encoded_with(img: IndexedModel, r: Result<Seq<u8>, PngParseError>) -> bool {
    match indexed_parts(img) {
        Err(e) => r == Err::<Seq<u8>, PngParseError>(e),
        Ok((ih, pl, t, sc)) => match r {
            Ok(out) => zlib::zlib_deflate_outcome(sc) is Some && zlib::zlib_deflated(sc).len() <= 0x7fff_ffff && zlib::zlib_inflated(zlib::zlib_deflated(sc)) == Some(sc)
                && zlib::zlib_deflated(sc).len() > 0 && out == indexed_png_bytes(ih, pl, t, zlib::zlib_deflated(sc)),
            Err(e) => (e == PngParseError::DeflateFailed && zlib::zlib_deflate_outcome(sc) is None) || (e
                == PngParseError::InvalidChunkLength { length: 0x8000_0000 } && zlib::zlib_deflate_outcome(sc) is Some
                && zlib::zlib_deflated(sc).len() > 0x7fff_ffff),
        },
    }
}

/// Encodes a palette image: IHDR, PLTE, tRNS when there are alpha values,
/// one IDAT with unfiltered rows, IEND.
pub fn encode_indexed_png_image(image: &PngIndexedImage) -> (r: Result<Vec<u8>, PngParseError>)
    ensures
        indexed_encoded_with(image@, encode::bytes_view(r)),
{
    let ghost model = image@;
    let ihdr = match encode_indexed_ihdr_payload(image) {
        Ok(b) => b,
        Err(e) => return Err(e),
    };
    let plte = match encode_plte_payload(image.palette.as_slice()) {
        Ok(v) => v,
        Err(e) => return Err(e),
    };
    assert(plte@ == plte_bytes(image.palette@));
    let trns: Option<Vec<u8>> = match &image.alpha {
        None => None,
        Some(a) => match encode_indexed_trns_payload(a.as_slice(), image.palette.len()) {
            Ok(v) => Some(v),
            Err(e) => return Err(e),
        },
    };
    let idat = match encode_indexed_idat_payload(image) {
        Ok(v) => v,
        Err(e) => return Err(e),
    };
    assert([73u8, 72u8, 68u8, 82u8]@ == chunk::ihdr_tag());
    assert([80u8, 76u8, 84u8, 69u8]@ == chunk::plte_tag());
    assert([116u8, 82u8, 78u8, 83u8]@ == chunk::trns_tag());
    assert([73u8, 68u8, 65u8, 84u8]@ == chunk::idat_tag());
    assert([73u8, 69u8, 78u8, 68u8]@ == chunk::iend_tag());
    let mut output = vec![137u8, 80, 78, 71, 13, 10, 26, 10];
    assert(output@ =~= chunk::png_sig());
    match append_png_chunk(&mut output, [73, 72, 68, 82], ihdr.as_slice()) {
        Ok(()) => {},
        Err(e) => return Err(e),
    }
    match append_png_chunk(&mut output, [80, 76, 84, 69], plte.as_slice()) {
        Ok(()) => {},
        Err(e) => return Err(e),
    }
    let ghost after_plte = output@;
    match &trns {
        Some(t) => match append_png_chunk(&mut output, [116, 82, 78, 83], t.as_slice()) {
            Ok(()) => {},
            Err(e) => return Err(e),
        },
        None => {},
    }
    let ghost after_trns = output@;
    match append_png_chunk(&mut output, [73, 68, 65, 84], idat.as_slice()) {
        Ok(()) => {},
        Err(e) => return Err(e),
    }
    let empty: Vec<u8> = Vec::new();
    match append_png_chunk(&mut output, [73, 69, 78, 68], empty.as_slice()) {
        Ok(()) => {},
        Err(e) => return Err(e),
    }
    proof {
        assert(empty@ =~= Seq::<u8>::empty());
        let t = model.alpha;
        match t {
            Some(a) => assert(after_trns == after_plte + chunk_frame(chunk::trns_tag(), a)),
            None => assert(after_trns =~= after_plte + Seq::<u8>::empty()),
        }
    }
    Ok(output)
}

} // verus!
