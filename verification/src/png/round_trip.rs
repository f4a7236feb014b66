//! What decoding gives back of what encoding wrote.
use vstd::prelude::*;
use crate::octets;
use super::chunk;
use super::chunk::{spec_chunk_crc, spec_parse_ihdr, valid_chunk_type};
use super::decode::{decode_outcome, decode_spec, idat_data, image_from_chunks};
use super::encode::{
    adam7_idat_scanlines, adam7_pass_rows, adam7_row_bytes, adam7_scanlines, chunk_frame, encode_layout_value, encoded_with,
    idat_scanlines, ihdr_bytes, lemma_layout_facts, png_bytes,
};
use super::filter::{filtered, row_at};
use super::interlace::{adam7_byte, adam7_image, adam7_pass, adam7_value, pass_of, pass_size};
use super::filter::{lemma_filter_roundtrip, scanlines_filtered};
use super::pixels;
use super::stream;
use super::structure::{chunks_after, png_chunk_stream, png_structure, validate_from, ValidationState};
use super::types::{
    ChunkModel, Ihdr, IhdrColorType, PngCompressionMethod, PngFilterMethod, PngFilterStrategy, PngImageModel,
    PngInterlaceMethod, PngParseError, PngStructureSummary,
};
use super::unfilter;
use super::zlib;

verus! {

/// The chunk that `chunk_frame(kind, payload)` writes, as it is read back.
pub open spec fn framed_chunk(kind: Seq<u8>, payload: Seq<u8>) -> ChunkModel {
    ChunkModel { length: payload.len() as u32, kind, payload, crc: spec_chunk_crc(kind, payload) }
}

/// Reading the header, payload and CRC of a written chunk gives back what
/// was written, and what follows it.
proof fn lemma_frame_read(kind: Seq<u8>, payload: Seq<u8>, more: Seq<u8>)
    requires
        kind.len() == 4,
        payload.len() <= 0x7fff_ffff,
    ensures
        ({
            let rest = chunk_frame(kind, payload) + more;
            let body = rest.skip(8);
            &&& rest.len() >= 8
            &&& octets::be_u32_at(rest, 0) == payload.len()
            &&& rest.subrange(4, 8) == kind
            &&& body.len() == payload.len() + 4 + more.len()
            &&& body.subrange(0, payload.len() as int) == payload
            &&& octets::be_u32_at(body, payload.len() as int) == spec_chunk_crc(kind, payload)
            &&& body.skip(payload.len() as int + 4) == more
        }),
{
    let n = payload.len() as u32;
    let crc = spec_chunk_crc(kind, payload);
    let lb = octets::be_bytes_u32(n);
    let cb = octets::be_bytes_u32(crc);
    let rest = chunk_frame(kind, payload) + more;
    let body = rest.skip(8);
    let len = payload.len() as int;
    octets::lemma_be_u32_roundtrip(n);
    octets::lemma_be_u32_roundtrip(crc);
    assert(rest[0] == lb[0] && rest[1] == lb[1] && rest[2] == lb[2] && rest[3] == lb[3]);
    assert(rest.subrange(4, 8) =~= kind);
    assert(body.subrange(0, len) =~= payload);
    assert(body[len] == cb[0] && body[len + 1] == cb[1] && body[len + 2] == cb[2] && body[len + 3] == cb[3]);
    assert(body.skip(len + 4) =~= more);
}

/// The signature at the start of a stream has no mismatch.
pub(crate) proof fn lemma_signature_matches(b: Seq<u8>, i: int)
    requires
        0 <= i <= 8,
        b.len() >= 8,
        b.subrange(0, 8) == chunk::png_sig(),
    ensures
        stream::first_sig_mismatch(b, i, 8) == 8,
    decreases 8 - i,
{
    if i < 8 {
        assert(b[i] == b.subrange(0, 8)[i]);
        lemma_signature_matches(b, i + 1);
    }
}

/// The three chunks an encoded image consists of.
pub open spec fn encoded_chunks(ihdr: Seq<u8>, idat: Seq<u8>) -> Seq<ChunkModel> {
    seq![framed_chunk(chunk::ihdr_tag(), ihdr), framed_chunk(chunk::idat_tag(), idat), framed_chunk(chunk::iend_tag(), Seq::empty())]
}

/// Reading a written chunk that is not IEND goes on after it with the
/// chunk read.
pub(crate) proof fn lemma_read_chunk(kind: Seq<u8>, payload: Seq<u8>, more: Seq<u8>, acc: Seq<ChunkModel>, r: Result<Seq<ChunkModel>, PngParseError>)
    requires
        valid_chunk_type(kind),
        kind != chunk::iend_tag(),
        payload.len() <= 0x7fff_ffff,
    ensures
        chunks_after(chunk_frame(kind, payload) + more, acc, r) == chunks_after(more, acc.push(framed_chunk(kind, payload)), r),
{
    lemma_frame_read(kind, payload, more);
}

/// Reading a written IEND chunk with nothing after it ends the stream.
pub(crate) proof fn lemma_read_iend(acc: Seq<ChunkModel>, r: Result<Seq<ChunkModel>, PngParseError>)
    ensures
        chunks_after(chunk_frame(chunk::iend_tag(), Seq::empty()), acc, r)
            == (r == Ok::<Seq<ChunkModel>, PngParseError>(acc.push(framed_chunk(chunk::iend_tag(), Seq::empty())))),
{
    let f = chunk_frame(chunk::iend_tag(), Seq::empty());
    lemma_frame_read(chunk::iend_tag(), Seq::empty(), Seq::empty());
    assert(f + Seq::<u8>::empty() =~= f);
    assert(valid_chunk_type(chunk::iend_tag()));
}

/// Splitting an encoded stream into chunks can only give its three chunks.
proof fn lemma_encoded_chunk_stream(ihdr: Seq<u8>, idat: Seq<u8>, r: Result<Seq<ChunkModel>, PngParseError>)
    requires
        ihdr.len() == 13,
        idat.len() <= 0x7fff_ffff,
        png_chunk_stream(
            chunk::png_sig() + chunk_frame(chunk::ihdr_tag(), ihdr) + chunk_frame(chunk::idat_tag(), idat)
                + chunk_frame(chunk::iend_tag(), Seq::empty()),
            r,
        ),
    ensures
        r == Ok::<Seq<ChunkModel>, PngParseError>(encoded_chunks(ihdr, idat)),
{
    let f1 = chunk_frame(chunk::ihdr_tag(), ihdr);
    let f2 = chunk_frame(chunk::idat_tag(), idat);
    let f3 = chunk_frame(chunk::iend_tag(), Seq::empty());
    let b = chunk::png_sig() + f1 + f2 + f3;
    assert(b.subrange(0, 8) =~= chunk::png_sig());
    lemma_signature_matches(b, 0);
    assert(b.skip(8) =~= f1 + (f2 + f3));
    assert(valid_chunk_type(chunk::ihdr_tag()));
    assert(valid_chunk_type(chunk::idat_tag()));
    let a1 = Seq::<ChunkModel>::empty().push(framed_chunk(chunk::ihdr_tag(), ihdr));
    let a2 = a1.push(framed_chunk(chunk::idat_tag(), idat));
    lemma_read_chunk(chunk::ihdr_tag(), ihdr, f2 + f3, Seq::empty(), r);
    lemma_read_chunk(chunk::idat_tag(), idat, f3, a1, r);
    lemma_read_iend(a2, r);
    assert(a2.push(framed_chunk(chunk::iend_tag(), Seq::empty())) =~= encoded_chunks(ihdr, idat));
}

/// The header that the IHDR bytes of an image the encoder supports give,
/// with the interlace byte `interlace`.
pub open spec fn encoded_header(img: PngImageModel, interlace: u8) -> Ihdr {
    Ihdr {
        width: img.width,
        height: img.height,
        bit_depth: img.bit_depth,
        color_type: img.color_type,
        compression_method: PngCompressionMethod::Deflate,
        filter_method: PngFilterMethod::Adaptive,
        interlace_method: if interlace == 0 { PngInterlaceMethod::NotInterlaced } else { PngInterlaceMethod::Adam7 },
    }
}

/// The IHDR bytes the encoder writes for an image.
pub open spec fn encoded_ihdr(img: PngImageModel, interlace: u8) -> Seq<u8> {
    ihdr_bytes(img.width, img.height, img.bit_depth, chunk::color_byte(img.color_type), interlace)
}

/// Parsing the IHDR bytes the encoder writes gives back the image's
/// header.
pub(crate) proof fn lemma_ihdr_read(img: PngImageModel, interlace: u8)
    requires
        encode_layout_value(img) is Ok,
        interlace <= 1,
    ensures
        spec_parse_ihdr(encoded_ihdr(img, interlace)) == Ok::<Ihdr, PngParseError>(encoded_header(img, interlace)),
{
    let p = encoded_ihdr(img, interlace);
    let wb = octets::be_bytes_u32(img.width);
    let hb = octets::be_bytes_u32(img.height);
    octets::lemma_be_u32_roundtrip(img.width);
    octets::lemma_be_u32_roundtrip(img.height);
    assert(p[0] == wb[0] && p[1] == wb[1] && p[2] == wb[2] && p[3] == wb[3]);
    assert(p[4] == hb[0] && p[5] == hb[1] && p[6] == hb[2] && p[7] == hb[3]);
    assert(p[8] == img.bit_depth && p[9] == chunk::color_byte(img.color_type));
    assert(p[10] == 0 && p[11] == 0 && p[12] == interlace);
    assert(chunk::color_type_of(chunk::color_byte(img.color_type)) == Some(img.color_type));
}

/// Validating the chunks of an encoded stream can only accept them.
proof fn lemma_encoded_structure(img: PngImageModel, interlace: u8, idat: Seq<u8>, r: Result<PngStructureSummary, PngParseError>)
    requires
        encode_layout_value(img) is Ok,
        interlace <= 1,
        png_structure(encoded_chunks(encoded_ihdr(img, interlace), idat), r),
    ensures
        r == Ok::<PngStructureSummary, PngParseError>(PngStructureSummary { width: img.width, height: img.height, idat_count: 1, ancillary_count: 0 }),
{
    let cs = encoded_chunks(encoded_ihdr(img, interlace), idat);
    lemma_ihdr_read(img, interlace);
    let h = encoded_header(img, interlace);
    let s0 = ValidationState { ihdr: None, idat_count: 0, ancillary_count: 0, seen_plte: false, seen_iend: false };
    let s1 = ValidationState { ihdr: Some(h), ..s0 };
    let s2 = ValidationState { idat_count: 1, ..s1 };
    let s3 = ValidationState { seen_iend: true, ..s2 };
    assert(chunk::ihdr_tag() != chunk::idat_tag());
    assert(chunk::ihdr_tag() != chunk::iend_tag());
    assert(chunk::idat_tag() != chunk::iend_tag());
    assert(img.color_type != IhdrColorType::Indexed);
    assert(validate_from(cs, 3, s3, r) == (r == Ok::<PngStructureSummary, PngParseError>(PngStructureSummary { width: img.width, height: img.height, idat_count: 1, ancillary_count: 0 })));
    assert(validate_from(cs, 2, s2, r) == validate_from(cs, 3, s3, r));
    assert(validate_from(cs, 1, s1, r) == validate_from(cs, 2, s2, r));
    assert(validate_from(cs, 0, s0, r) == validate_from(cs, 1, s1, r));
}

/// The image the chunks of an encoded stream decode to is the image, once
/// the scanlines `sc` reconstruct to its pixels.
#[verifier::rlimit(60)]
pub(crate) proof fn lemma_encoded_image(img: PngImageModel, interlace: u8, sc: Seq<u8>)
    requires
        encode_layout_value(img) is Ok,
        img.pixels.len() == encode_layout_value(img)->Ok_0.2,
        interlace <= 1,
        zlib::zlib_deflated(sc).len() > 0,
        zlib::zlib_inflated(zlib::zlib_deflated(sc)) == Some(sc),
        super::decode::reconstructed_value(
            sc,
            encoded_header(img, interlace),
            encode_layout_value(img)->Ok_0.1 as int,
            encode_layout_value(img)->Ok_0.0 as int,
        ) == Ok::<Seq<u8>, PngParseError>(img.pixels),
    ensures
        image_from_chunks(encoded_chunks(encoded_ihdr(img, interlace), zlib::zlib_deflated(sc))) == Ok::<PngImageModel, PngParseError>(img),
{
    let z = zlib::zlib_deflated(sc);
    let cs = encoded_chunks(encoded_ihdr(img, interlace), z);
    let (bpp, row_len, expected) = encode_layout_value(img)->Ok_0;
    lemma_layout_facts(img);
    lemma_ihdr_read(img, interlace);
    let h = encoded_header(img, interlace);
    assert(chunk::ihdr_tag() != chunk::idat_tag());
    assert(chunk::ihdr_tag() != chunk::iend_tag());
    assert(chunk::idat_tag() != chunk::iend_tag());
    assert(chunk::ihdr_tag() != chunk::trns_tag());
    assert(chunk::idat_tag() != chunk::trns_tag());
    assert(chunk::iend_tag() != chunk::trns_tag());
    assert(pixels::find_tag(cs, chunk::ihdr_tag(), 0) == Some(0int));
    assert(pixels::find_tag(cs, chunk::trns_tag(), 3) is None);
    assert(pixels::find_tag(cs, chunk::trns_tag(), 2) is None);
    assert(pixels::find_tag(cs, chunk::trns_tag(), 1) is None);
    assert(pixels::find_tag(cs, chunk::trns_tag(), 0) is None);
    assert(idat_data(cs, 0) =~= Seq::<u8>::empty());
    assert(idat_data(cs, 1) =~= Seq::<u8>::empty());
    assert(idat_data(cs, 2) =~= z);
    assert(idat_data(cs, 3) =~= z);
    let c = pixels::channel_count(img.color_type);
    let bits = if img.bit_depth == 8 { c * 8 } else { c * 16 };
    assert(pixels::bits_per_pixel(h) == Some(bits));
    if img.bit_depth == 8 {
        assert(bpp == c);
    } else {
        assert(bpp == c * 2);
    }
    assert(bpp == bits / 8);
    assert(pixels::bytes_for_bits(bits) == bpp);
    assert(row_len == img.width * bpp);
    assert(img.width * bits == 8 * (img.width * bpp)) by (nonlinear_arith)
        requires
            bits == 8 * bpp,
    ;
    assert(pixels::bytes_for_bits(img.width * bits) == row_len);
    assert(row_len <= expected) by (nonlinear_arith)
        requires
            expected == row_len * img.height,
            img.height >= 1,
            row_len >= 0,
    ;
    assert(unfilter::saturate(row_len as int) == row_len);
    assert(pixels::layout_of(h) is Ok);
    let layout = pixels::layout_of(h)->Ok_0;
    assert(layout.row_data_len == row_len && layout.filter_bytes_per_pixel == bpp);
}

/// What decoding gives of a stream that encoding a non-interlaced image
/// wrote, with any filter strategy, is that image.
pub proof fn law_decode_reads_back_encode(
    img: PngImageModel,
    s: PngFilterStrategy,
    bytes: Seq<u8>,
    r: Result<PngImageModel, PngParseError>,
)
    requires
        encoded_with(img, 0, idat_scanlines(img, s), Ok(bytes)),
        decode_spec(bytes, r, |cs: Seq<ChunkModel>| image_from_chunks(cs)),
    ensures
        r == Ok::<PngImageModel, PngParseError>(img),
{
    let sc = idat_scanlines(img, s)->Ok_0;
    let z = zlib::zlib_deflated(sc);
    let ih = encoded_ihdr(img, 0);
    let f = |cs: Seq<ChunkModel>| image_from_chunks(cs);
    let (cr, sr) = choose|cr: Result<Seq<ChunkModel>, PngParseError>, sr: Result<PngStructureSummary, PngParseError>|
        #[trigger] decode_outcome(bytes, cr, sr, r, f);
    assert(bytes == png_bytes(img, 0, z));
    assert(ih.len() == 13);
    lemma_encoded_chunk_stream(ih, z, cr);
    lemma_encoded_structure(img, 0, z, sr);
    let (bpp, row_len, expected) = encode_layout_value(img)->Ok_0;
    lemma_layout_facts(img);
    lemma_filter_roundtrip(img.pixels, row_len as int, bpp as int, s, img.height as int);
    assert(sc == scanlines_filtered(img.pixels, row_len as int, bpp as int, s, img.height as int));
    lemma_encoded_image(img, 0, sc);
}

/// What decoding gives of a stream that encoding an image interlaced with
/// Adam7 wrote is that image.
pub proof fn law_decode_reads_back_adam7_encode(img: PngImageModel, bytes: Seq<u8>, r: Result<PngImageModel, PngParseError>)
    requires
        encoded_with(img, 1, adam7_idat_scanlines(img), Ok(bytes)),
        decode_spec(bytes, r, |cs: Seq<ChunkModel>| image_from_chunks(cs)),
    ensures
        r == Ok::<PngImageModel, PngParseError>(img),
{
    let sc = adam7_idat_scanlines(img)->Ok_0;
    let z = zlib::zlib_deflated(sc);
    let ih = encoded_ihdr(img, 1);
    let f = |cs: Seq<ChunkModel>| image_from_chunks(cs);
    let (cr, sr) = choose|cr: Result<Seq<ChunkModel>, PngParseError>, sr: Result<PngStructureSummary, PngParseError>|
        #[trigger] decode_outcome(bytes, cr, sr, r, f);
    assert(bytes == png_bytes(img, 1, z));
    assert(ih.len() == 13);
    lemma_encoded_chunk_stream(ih, z, cr);
    lemma_encoded_structure(img, 1, z, sr);
    let (bpp, row_len, expected) = encode_layout_value(img)->Ok_0;
    lemma_layout_facts(img);
    let w = img.width as int;
    let h = img.height as int;
    assert(img.pixels.len() == w * h * bpp) by (nonlinear_arith)
        requires
            img.pixels.len() == row_len * img.height,
            row_len == img.width * bpp,
            w == img.width,
            h == img.height,
    ;
    assert(sc == adam7_scanlines(img.pixels, w, h, row_len as int, bpp as int, 7));
    lemma_adam7_walk(img.pixels, w, h, row_len as int, bpp as int, 0);
    assert(image_passes(img.pixels, w, h, row_len as int, bpp as int, 0) =~= Seq::<Seq<u8>>::empty());
    assert(adam7_scanlines(img.pixels, w, h, row_len as int, bpp as int, 0).len() == 0);
    lemma_adam7_image(img.pixels, w, h, bpp as int);
    assert(w * bpp == row_len);
    let hd = encoded_header(img, 1);
    assert(hd.bit_depth >= 8);
    assert(hd.width * hd.height * bpp <= usize::MAX) by (nonlinear_arith)
        requires
            hd.width * hd.height * bpp == img.pixels.len(),
            img.pixels.len() <= usize::MAX,
    ;
    lemma_encoded_image(img, 1, sc);
}

/// The bytes of the first `n` rows of Adam7 pass `p`, `pw` pixels wide, one
/// row after another.
pub open spec fn pass_data(px: Seq<u8>, rl: int, bpp: int, p: int, n: int, pw: int) -> Seq<u8>
    decreases n,
{
    if n <= 0 {
        Seq::empty()
    } else {
        pass_data(px, rl, bpp, p, n - 1, pw) + adam7_row_bytes(px, rl, bpp, p, n - 1, pw)
    }
}

/// Pass `p` of an image: its rows one after another, or nothing where the
/// pass is empty.
pub open spec fn pass_pixels(px: Seq<u8>, w: int, h: int, rl: int, bpp: int, p: int) -> Seq<u8> {
    let (sx, sy, stx, sty) = adam7_pass(p);
    let pw = pass_size(w, sx, stx);
    let ph = pass_size(h, sy, sty);
    if pw == 0 || ph == 0 {
        Seq::empty()
    } else {
        pass_data(px, rl, bpp, p, ph, pw)
    }
}

/// The first `q` passes of an image.
pub open spec fn image_passes(px: Seq<u8>, w: int, h: int, rl: int, bpp: int, q: int) -> Seq<Seq<u8>> {
    Seq::new(q as nat, |p: int| pass_pixels(px, w, h, rl, bpp, p))
}

/// The first `n` rows of a pass are `n` rows long.
proof fn lemma_pass_data_len(px: Seq<u8>, rl: int, bpp: int, p: int, n: int, pw: int)
    requires
        n >= 0,
        pw >= 0,
        bpp >= 0,
    ensures
        pass_data(px, rl, bpp, p, n, pw).len() == n * (pw * bpp),
    decreases n,
{
    if n > 0 {
        lemma_pass_data_len(px, rl, bpp, p, n - 1, pw);
        assert(pw * bpp >= 0) by (nonlinear_arith)
            requires
                pw >= 0,
                bpp >= 0,
        ;
        assert(adam7_row_bytes(px, rl, bpp, p, n - 1, pw).len() == pw * bpp);
        assert((n - 1) * (pw * bpp) + pw * bpp == n * (pw * bpp)) by (nonlinear_arith);
    } else {
        assert(n * (pw * bpp) == 0) by (nonlinear_arith)
            requires
                n == 0,
        ;
    }
}

/// Row `k` of the first `n` rows of a pass is that row.
proof fn lemma_pass_data_row(px: Seq<u8>, rl: int, bpp: int, p: int, n: int, pw: int, k: int)
    requires
        0 <= k < n,
        pw >= 0,
        bpp >= 0,
    ensures
        row_at(pass_data(px, rl, bpp, p, n, pw), pw * bpp, k) == adam7_row_bytes(px, rl, bpp, p, k, pw),
    decreases n,
{
    let l = pw * bpp;
    let d = pass_data(px, rl, bpp, p, n, pw);
    let prev = pass_data(px, rl, bpp, p, n - 1, pw);
    lemma_pass_data_len(px, rl, bpp, p, n - 1, pw);
    assert(l >= 0) by (nonlinear_arith)
        requires
            pw >= 0,
            bpp >= 0,
            l == pw * bpp,
    ;
    if k == n - 1 {
        assert(d.subrange(k * l, k * l + l) =~= adam7_row_bytes(px, rl, bpp, p, k, pw));
    } else {
        lemma_pass_data_row(px, rl, bpp, p, n - 1, pw, k);
        assert(k * l + l <= (n - 1) * l) by (nonlinear_arith)
            requires
                k < n - 1,
                l >= 0,
        ;
        assert(d.subrange(k * l, k * l + l) =~= prev.subrange(k * l, k * l + l));
    }
}

/// A row written with no filter reads back as it is.
pub(crate) proof fn lemma_no_filter(row: Seq<u8>, prev: Seq<u8>, bpp: int)
    ensures
        filtered(row, prev, bpp, 0) == row,
{
    assert(filtered(row, prev, bpp, 0) =~= row);
}

/// The rows of a pass as the encoder writes them are the pass filtered with
/// no filter.
proof fn lemma_pass_rows_unfiltered(px: Seq<u8>, w: int, rl: int, bpp: int, p: int, n: int, total: int)
    requires
        0 <= n <= total,
        pass_size(w, adam7_pass(p).0, adam7_pass(p).2) >= 1,
        bpp >= 1,
    ensures
        adam7_pass_rows(px, w, rl, bpp, p, n) == scanlines_filtered(
            pass_data(px, rl, bpp, p, total, pass_size(w, adam7_pass(p).0, adam7_pass(p).2)),
            pass_size(w, adam7_pass(p).0, adam7_pass(p).2) * bpp,
            bpp,
            PngFilterStrategy::NoFilter,
            n,
        ),
    decreases n,
{
    let pw = pass_size(w, adam7_pass(p).0, adam7_pass(p).2);
    let d = pass_data(px, rl, bpp, p, total, pw);
    let l = pw * bpp;
    if n > 0 {
        lemma_pass_rows_unfiltered(px, w, rl, bpp, p, n - 1, total);
        lemma_pass_data_row(px, rl, bpp, p, total, pw, n - 1);
        lemma_no_filter(row_at(d, l, n - 1), super::filter::prev_row_at(d, l, n - 1), bpp);
    }
}

/// A pass step divides the distance from its start to any of its pixels,
/// and such a pixel lies within the pass.
proof fn lemma_in_pass(v: int, size: int, start: int, step: int)
    requires
        0 <= start <= v < size,
        step >= 1,
        (v - start) % step == 0,
    ensures
        (v - start) / step < pass_size(size, start, step),
{
    let d = size - start;
    let t = (v - start) / step;
    let q = d / step;
    let r = d % step;
    vstd::arithmetic::div_mod::lemma_fundamental_div_mod(v - start, step);
    vstd::arithmetic::div_mod::lemma_fundamental_div_mod(d, step);
    assert(0 <= r < step);
    assert(step * t == v - start);
    assert(step * t < step * q + r);
    if r == 0 {
        assert(t < q) by (nonlinear_arith)
            requires
                step * t < step * q,
                step >= 1,
        ;
    } else {
        assert(t < q + 1) by (nonlinear_arith)
            requires
                step * t < step * q + r,
                r < step,
                step >= 1,
        ;
    }
}

/// Every pixel lies in exactly the pass that `pass_of` names: its column
/// and row are reached from the pass's start by whole steps, within the
/// pass's size.
proof fn lemma_pass_of(x: int, y: int, w: int, h: int)
    requires
        0 <= x < w,
        0 <= y < h,
    ensures
        ({
            let p = pass_of(x, y);
            let (sx, sy, stx, sty) = adam7_pass(p);
            &&& 0 <= p < 7
            &&& stx >= 1 && sty >= 1
            &&& sx <= x && sy <= y
            &&& (x - sx) % stx == 0 && (y - sy) % sty == 0
            &&& (x - sx) / stx < pass_size(w, sx, stx)
            &&& (y - sy) / sty < pass_size(h, sy, sty)
        }),
{
    let p = pass_of(x, y);
    if y % 2 == 1 {
        assert(p == 6);
        assert((y - 1) % 2 == 0);
    } else if x % 2 == 1 {
        assert(p == 5);
        assert((x - 1) % 2 == 0);
    } else if y % 4 == 2 {
        assert(p == 4);
        assert((y - 2) % 4 == 0);
    } else if x % 4 == 2 {
        assert(p == 3);
        assert((x - 2) % 4 == 0 && y % 4 == 0);
    } else if y % 8 == 4 {
        assert(p == 2);
        assert((y - 4) % 8 == 0 && x % 4 == 0);
    } else if x % 8 == 4 {
        assert(p == 1);
        assert((x - 4) % 8 == 0 && y % 8 == 0);
    } else {
        assert(p == 0);
        assert(x % 8 == 0 && y % 8 == 0);
    }
    let (sx, sy, stx, sty) = adam7_pass(p);
    lemma_in_pass(x, w, sx, stx);
    lemma_in_pass(y, h, sy, sty);
}

/// The scanlines of the first `q` passes begin the scanlines of the
/// first `r`.
proof fn lemma_scanlines_prefix(px: Seq<u8>, w: int, h: int, rl: int, bpp: int, q: int, r: int)
    requires
        0 <= q <= r,
    ensures
        adam7_scanlines(px, w, h, rl, bpp, q).len() <= adam7_scanlines(px, w, h, rl, bpp, r).len(),
        adam7_scanlines(px, w, h, rl, bpp, r).subrange(0, adam7_scanlines(px, w, h, rl, bpp, q).len() as int)
            == adam7_scanlines(px, w, h, rl, bpp, q),
    decreases r - q,
{
    let a = adam7_scanlines(px, w, h, rl, bpp, q);
    let b = adam7_scanlines(px, w, h, rl, bpp, r);
    if q == r {
        assert(b.subrange(0, a.len() as int) =~= a);
    } else {
        lemma_scanlines_prefix(px, w, h, rl, bpp, q, r - 1);
        let m = adam7_scanlines(px, w, h, rl, bpp, r - 1);
        assert(b.subrange(0, m.len() as int) =~= m);
        assert(b.subrange(0, a.len() as int) =~= m.subrange(0, a.len() as int));
    }
}

/// Reconstructing the scanlines the encoder writes, pass by pass from pass
/// `p` on, finds every pass as it was.
proof fn lemma_adam7_walk(px: Seq<u8>, w: int, h: int, rl: int, bpp: int, p: int)
    requires
        0 <= p <= 7,
        bpp >= 1,
    ensures
        adam7_value(
            adam7_scanlines(px, w, h, rl, bpp, 7),
            w,
            h,
            bpp,
            p,
            adam7_scanlines(px, w, h, rl, bpp, p).len() as int,
            image_passes(px, w, h, rl, bpp, p),
        ) == Ok::<Seq<u8>, PngParseError>(adam7_image(image_passes(px, w, h, rl, bpp, 7), w, h, bpp)),
    decreases 7 - p,
{
    let inf = adam7_scanlines(px, w, h, rl, bpp, 7);
    let off = adam7_scanlines(px, w, h, rl, bpp, p).len() as int;
    if p < 7 {
        let (sx, sy, stx, sty) = adam7_pass(p);
        let pw = pass_size(w, sx, stx);
        let ph = pass_size(h, sy, sty);
        assert(image_passes(px, w, h, rl, bpp, p).push(pass_pixels(px, w, h, rl, bpp, p)) =~= image_passes(px, w, h, rl, bpp, p + 1));
        if pw == 0 || ph == 0 {
            assert(adam7_scanlines(px, w, h, rl, bpp, p + 1) == adam7_scanlines(px, w, h, rl, bpp, p));
            lemma_adam7_walk(px, w, h, rl, bpp, p + 1);
        } else {
            let l = pw * bpp;
            let block = adam7_pass_rows(px, w, rl, bpp, p, ph);
            let data = pass_data(px, rl, bpp, p, ph, pw);
            assert(pw >= 1 && ph >= 1);
            assert(l >= 1) by (nonlinear_arith)
                requires
                    l == pw * bpp,
                    pw >= 1,
                    bpp >= 1,
            ;
            assert(adam7_scanlines(px, w, h, rl, bpp, p + 1) == adam7_scanlines(px, w, h, rl, bpp, p) + block);
            lemma_scanlines_prefix(px, w, h, rl, bpp, p + 1, 7);
            lemma_pass_data_len(px, rl, bpp, p, ph, pw);
            assert(data.len() == l * ph) by (nonlinear_arith)
                requires
                    data.len() == ph * (pw * bpp),
                    l == pw * bpp,
            ;
            lemma_pass_rows_unfiltered(px, w, rl, bpp, p, ph, ph);
            lemma_filter_roundtrip(data, l, bpp, PngFilterStrategy::NoFilter, ph);
            assert(unfilter::scanlines_value(block, ph, l, bpp) == Ok::<Seq<u8>, PngParseError>(data));
            assert(block.len() == (l + 1) * ph);
            let a1 = adam7_scanlines(px, w, h, rl, bpp, p + 1);
            assert(inf.subrange(0, a1.len() as int) == a1);
            assert(a1.len() == off + block.len());
            assert forall|j: int| 0 <= j < block.len() implies #[trigger] inf.subrange(off, off + (l + 1) * ph)[j] == block[j] by {
                assert(inf.subrange(0, a1.len() as int)[off + j] == inf[off + j]);
                assert(a1[off + j] == block[j]);
            }
            assert(inf.subrange(off, off + (l + 1) * ph) =~= block);
            assert(pass_pixels(px, w, h, rl, bpp, p) == data);
            lemma_adam7_walk(px, w, h, rl, bpp, p + 1);
        }
    }
}

/// Byte `i` of the image the passes make up is byte `i` of the pixels.
proof fn lemma_adam7_byte(px: Seq<u8>, w: int, h: int, bpp: int, i: int)
    requires
        w >= 1,
        h >= 1,
        bpp >= 1,
        px.len() == w * h * bpp,
        0 <= i < w * h * bpp,
    ensures
        adam7_byte(image_passes(px, w, h, w * bpp, bpp, 7), w, h, bpp, i) == px[i],
{
    let rl = w * bpp;
    let passes = image_passes(px, w, h, rl, bpp, 7);
    let pix = i / bpp;
    let k = i % bpp;
    let y = pix / w;
    let x = pix % w;
    vstd::arithmetic::div_mod::lemma_fundamental_div_mod(i, bpp);
    vstd::arithmetic::div_mod::lemma_fundamental_div_mod(pix, w);
    assert(0 <= k < bpp && 0 <= x < w);
    assert(0 <= pix < w * h) by (nonlinear_arith)
        requires
            i == bpp * pix + k,
            0 <= k < bpp,
            0 <= i < w * h * bpp,
            bpp >= 1,
    ;
    assert(0 <= y < h) by (nonlinear_arith)
        requires
            pix == w * y + x,
            0 <= x < w,
            0 <= pix < w * h,
            w >= 1,
    ;
    lemma_pass_of(x, y, w, h);
    let p = pass_of(x, y);
    let (sx, sy, stx, sty) = adam7_pass(p);
    let pw = pass_size(w, sx, stx);
    let ph = pass_size(h, sy, sty);
    let py = (y - sy) / sty;
    let qx = (x - sx) / stx;
    vstd::arithmetic::div_mod::lemma_fundamental_div_mod(y - sy, sty);
    vstd::arithmetic::div_mod::lemma_fundamental_div_mod(x - sx, stx);
    assert(y == sy + py * sty && x == sx + qx * stx);
    assert(0 <= py < ph && 0 <= qx < pw);
    let l = pw * bpp;
    let c = qx * bpp + k;
    assert(0 <= c < l) by (nonlinear_arith)
        requires
            0 <= qx < pw,
            0 <= k < bpp,
            c == qx * bpp + k,
            l == pw * bpp,
    ;
    let j = (py * pw + qx) * bpp + k;
    assert(j == py * l + c) by (nonlinear_arith)
        requires
            j == (py * pw + qx) * bpp + k,
            l == pw * bpp,
            c == qx * bpp + k,
    ;
    let data = pass_data(px, rl, bpp, p, ph, pw);
    assert(passes[p] == data);
    lemma_pass_data_len(px, rl, bpp, p, ph, pw);
    lemma_pass_data_row(px, rl, bpp, p, ph, pw, py);
    assert(py * l + l <= ph * l) by (nonlinear_arith)
        requires
            py < ph,
            l >= 0,
    ;
    assert(ph * (pw * bpp) == ph * l);
    assert(row_at(data, l, py)[c] == data[py * l + c]);
    let row = adam7_row_bytes(px, rl, bpp, p, py, pw);
    assert(c / bpp == qx && c % bpp == k) by {
        vstd::arithmetic::div_mod::lemma_fundamental_div_mod_converse(c, bpp, qx, k);
    }
    assert(row[c] == px[(sy + py * sty) * rl + (sx + (c / bpp) * stx) * bpp + c % bpp]);
    assert((sy + py * sty) * rl + (sx + qx * stx) * bpp + k == i) by (nonlinear_arith)
        requires
            y == sy + py * sty,
            x == sx + qx * stx,
            rl == w * bpp,
            pix == w * y + x,
            i == bpp * pix + k,
    ;
    assert(adam7_byte(passes, w, h, bpp, i) == passes[p][j]);
}

/// The passes the encoder writes make up the image again.
proof fn lemma_adam7_image(px: Seq<u8>, w: int, h: int, bpp: int)
    requires
        w >= 1,
        h >= 1,
        bpp >= 1,
        px.len() == w * h * bpp,
    ensures
        adam7_image(image_passes(px, w, h, w * bpp, bpp, 7), w, h, bpp) == px,
{
    let img = adam7_image(image_passes(px, w, h, w * bpp, bpp, 7), w, h, bpp);
    assert forall|i: int| 0 <= i < px.len() implies #[trigger] img[i] == px[i] by {
        lemma_adam7_byte(px, w, h, bpp, i);
    }
    assert(img =~= px);
}

} // verus!
