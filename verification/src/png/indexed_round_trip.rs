//! What decoding gives back of a palette image that encoding wrote.
use vstd::prelude::*;
use crate::octets;
use super::chunk;
use super::chunk::{spec_parse_ihdr, valid_chunk_type};
use super::encode::{chunk_frame, ihdr_bytes};
use super::decode::{decode_outcome, decode_spec, idat_data, image_from_chunks, pixels_value, reconstructed_value};
use super::encode_meta::{
    index_limit, index_ok, indexed_encoded_with, indexed_ihdr_value, indexed_parts, indexed_png_bytes, indexed_rows, indexed_scanlines, pack_row,
    pack_shift, packed_byte, per_byte, plte_bytes, IndexedModel,
};
use super::filter::{lemma_filter_roundtrip, prev_row_at, row_at, scanlines_filtered};
use super::palette::{plte_entry, plte_length_ok, TransparencyModel};
use super::pixels::{
    bits_per_pixel, channel, find_tag, index_samples, indexed_rgb, indexed_rgba, indices_in_palette, layout_of, packed_sample, packed_samples, palette_value, sample_mask,
    samples_per_byte, transparency_value,
};
use super::round_trip::{framed_chunk, lemma_no_filter, lemma_read_chunk, lemma_read_iend, lemma_signature_matches};
use super::structure::{chunks_after, png_chunk_stream, png_structure, validate_from, ValidationState};
use super::types::{
    ChunkModel, Ihdr, IhdrColorType, PaletteEntry, PngCompressionMethod, PngFilterMethod, PngFilterStrategy, PngImageModel,
    PngInterlaceMethod, PngParseError, PngStructureSummary,
};
use super::unfilter::scanlines_value;
use super::zlib;

verus! {

/// Setting a sample below shift `t` leaves what is read at `t` as it was.
proof fn lemma_or_keeps_above(b: u8, x: u8, s: u8, t: u8, d: u8, mask: u8)
    by (bit_vector)
    requires
        d == 1 || d == 2 || d == 4,
        mask == (if d == 1 { 1u8 } else if d == 2 { 3u8 } else { 15u8 }),
        x <= mask,
        s + d <= t,
        t <= 7,
    ensures
        ((b | (x << s)) >> t) & mask == (b >> t) & mask,
{
}

/// A sample set at shift `s`, into a byte whose bits below `k = s + d` are
/// clear, is read back, and the bits below `s` stay clear.
proof fn lemma_or_reads_back(b: u8, x: u8, s: u8, k: u8, d: u8, mask: u8)
    by (bit_vector)
    requires
        d == 1 || d == 2 || d == 4,
        mask == (if d == 1 { 1u8 } else if d == 2 { 3u8 } else { 15u8 }),
        x <= mask,
        k == s + d,
        k <= 8,
        (b >> k) << k == b,
    ensures
        ((b | (x << s)) >> s) & mask == x,
        ((b | (x << s)) >> s) << s == b | (x << s),
{
}

/// Every sample of a packed byte reads back, and the bits below its last
/// sample are clear.
proof fn lemma_packed_byte(ind: Seq<u8>, d: u8, start: int, n: int)
    requires
        d == 1 || d == 2 || d == 4,
        0 <= n <= per_byte(d),
        0 <= start,
        start + n <= ind.len(),
        forall|m: int| 0 <= m < n ==> #[trigger] ind[start + m] <= sample_mask(d),
    ensures
        (packed_byte(ind, d, start, n) >> ((8 - d * n) as u8)) << ((8 - d * n) as u8) == packed_byte(ind, d, start, n),
        forall|m: int| 0 <= m < n ==> (#[trigger] (packed_byte(ind, d, start, n) >> pack_shift(d, m))) & sample_mask(d) == ind[start + m],
    decreases n,
{
    if n == 0 {
        assert((0u8 >> 8u8) << 8u8 == 0u8) by (bit_vector);
    } else {
        lemma_packed_byte(ind, d, start, n - 1);
        let b = packed_byte(ind, d, start, n - 1);
        let x = ind[start + (n - 1)];
        let s = pack_shift(d, n - 1);
        let k = (8 - d * (n - 1)) as u8;
        assert(s == 8 - d * n && k == 8 - d * (n - 1) && k == s + d && k <= 8) by {
            if d == 1 {
            } else if d == 2 {
            } else {
            }
        }
        assert(x <= sample_mask(d));
        lemma_or_reads_back(b, x, s, k, d, sample_mask(d));
        assert(packed_byte(ind, d, start, n) == b | (x << s));
        assert forall|m: int| 0 <= m < n implies (#[trigger] (packed_byte(ind, d, start, n) >> pack_shift(d, m))) & sample_mask(d) == ind[start + m] by {
            if m < n - 1 {
                let t = pack_shift(d, m);
                assert(t == 8 - d * (m + 1) && s + d <= t && t <= 7) by {
                    if d == 1 {
                    } else if d == 2 {
                    } else {
                    }
                }
                lemma_or_keeps_above(b, x, s, t, d, sample_mask(d));
                assert((b >> pack_shift(d, m)) & sample_mask(d) == ind[start + m]);
            }
        }
    }
}

/// Unpacking a packed row of indices gives the indices back.
pub proof fn lemma_unpack_row(ind: Seq<u8>, d: u8)
    requires
        d == 1 || d == 2 || d == 4,
        forall|i: int| 0 <= i < ind.len() ==> #[trigger] ind[i] <= sample_mask(d),
    ensures
        packed_samples(pack_row(ind, d), ind.len() as int, d) == ind,
{
    let spb = per_byte(d);
    let p = pack_row(ind, d);
    let len = ind.len() as int;
    assert(samples_per_byte(d) == spb);
    let q = (len + spb - 1) / spb;
    vstd::arithmetic::div_mod::lemma_fundamental_div_mod(len + spb - 1, spb);
    assert(p.len() == q);
    assert(p.len() * spb >= len) by (nonlinear_arith)
        requires
            len + spb - 1 == spb * q + (len + spb - 1) % spb,
            0 <= (len + spb - 1) % spb < spb,
            p.len() == q,
    ;
    let out = packed_samples(p, len, d);
    assert(out.len() == len);
    assert forall|i: int| 0 <= i < len implies #[trigger] out[i] == ind[i] by {
        let j = i / spb;
        let m = i % spb;
        vstd::arithmetic::div_mod::lemma_fundamental_div_mod(i, spb);
        assert(i == j * spb + m) by (nonlinear_arith)
            requires
                i == spb * j + m,
        ;
        assert(0 <= j) by (nonlinear_arith)
            requires
                i >= 0,
                spb > 0,
                j == i / spb,
        ;
        assert(j < q) by (nonlinear_arith)
            requires
                i == j * spb + m,
                0 <= m < spb,
                i < len,
                p.len() * spb >= len,
                p.len() == q,
        ;
        let start = j * spb;
        let nj = if len - start < spb { len - start } else { spb };
        assert(p[j] == packed_byte(ind, d, start, nj));
        assert forall|mm: int| 0 <= mm < nj implies #[trigger] ind[start + mm] <= sample_mask(d) by {
            assert(0 <= start + mm < len);
        }
        assert(0 <= start) by (nonlinear_arith)
            requires
                j >= 0,
                spb > 0,
                start == j * spb,
        ;
        lemma_packed_byte(ind, d, start, nj);
        assert(m < nj);
        assert(pack_shift(d, m) == (8 - d * (i % samples_per_byte(d) + 1)) as u8);
        assert((packed_byte(ind, d, start, nj) >> pack_shift(d, m)) & sample_mask(d) == ind[start + m]);
        assert(out[i] == packed_sample(p, d, i));
    }
    assert(out =~= ind);
}

/// The chunks of an encoded palette image: IHDR, PLTE, tRNS when there
/// are alpha values, IDAT, IEND.
pub open spec fn indexed_chunks(ih: Seq<u8>, pl: Seq<u8>, t: Option<Seq<u8>>, idat: Seq<u8>) -> Seq<ChunkModel> {
    let head = seq![framed_chunk(chunk::ihdr_tag(), ih), framed_chunk(chunk::plte_tag(), pl)];
    let mid = match t {
        Some(a) => head.push(framed_chunk(chunk::trns_tag(), a)),
        None => head,
    };
    mid.push(framed_chunk(chunk::idat_tag(), idat)).push(framed_chunk(chunk::iend_tag(), Seq::empty()))
}

/// Reading a written IDAT chunk and the IEND after it ends the stream.
proof fn lemma_read_idat_tail(idat: Seq<u8>, acc: Seq<ChunkModel>, r: Result<Seq<ChunkModel>, PngParseError>)
    requires
        idat.len() <= 0x7fff_ffff,
    ensures
        chunks_after(chunk_frame(chunk::idat_tag(), idat) + chunk_frame(chunk::iend_tag(), Seq::empty()), acc, r)
            == (r == Ok::<Seq<ChunkModel>, PngParseError>(
                acc.push(framed_chunk(chunk::idat_tag(), idat)).push(framed_chunk(chunk::iend_tag(), Seq::empty())),
            )),
{
    assert(valid_chunk_type(chunk::idat_tag()));
    let f5 = chunk_frame(chunk::iend_tag(), Seq::empty());
    lemma_read_chunk(chunk::idat_tag(), idat, f5, acc, r);
    lemma_read_iend(acc.push(framed_chunk(chunk::idat_tag(), idat)), r);
}

/// After the signature, splitting a stream reads chunks from an empty list.
proof fn lemma_after_signature(rest: Seq<u8>, r: Result<Seq<ChunkModel>, PngParseError>)
    ensures
        png_chunk_stream(chunk::png_sig() + rest, r) == chunks_after(rest, Seq::empty(), r),
{
    let b = chunk::png_sig() + rest;
    assert(b.subrange(0, 8) =~= chunk::png_sig());
    lemma_signature_matches(b, 0);
    assert(b.skip(8) =~= rest);
}

/// The frames of the optional tRNS chunk, IDAT and IEND.
pub open spec fn indexed_tail_frames(t: Option<Seq<u8>>, idat: Seq<u8>) -> Seq<u8> {
    let tail = chunk_frame(chunk::idat_tag(), idat) + chunk_frame(chunk::iend_tag(), Seq::empty());
    match t {
        Some(a) => chunk_frame(chunk::trns_tag(), a) + tail,
        None => tail,
    }
}

/// The chunks of the optional tRNS, IDAT and IEND after `acc`.
pub open spec fn indexed_tail_chunks(acc: Seq<ChunkModel>, t: Option<Seq<u8>>, idat: Seq<u8>) -> Seq<ChunkModel> {
    let mid = match t {
        Some(a) => acc.push(framed_chunk(chunk::trns_tag(), a)),
        None => acc,
    };
    mid.push(framed_chunk(chunk::idat_tag(), idat)).push(framed_chunk(chunk::iend_tag(), Seq::empty()))
}

/// Reading the optional tRNS, IDAT and IEND frames ends the stream with
/// their chunks.
proof fn lemma_read_indexed_tail(t: Option<Seq<u8>>, idat: Seq<u8>, acc: Seq<ChunkModel>, r: Result<Seq<ChunkModel>, PngParseError>)
    requires
        t matches Some(a) ==> a.len() <= 256,
        idat.len() <= 0x7fff_ffff,
    ensures
        chunks_after(indexed_tail_frames(t, idat), acc, r) == (r == Ok::<Seq<ChunkModel>, PngParseError>(indexed_tail_chunks(acc, t, idat))),
{
    let tail = chunk_frame(chunk::idat_tag(), idat) + chunk_frame(chunk::iend_tag(), Seq::empty());
    match t {
        Some(a) => {
            assert(valid_chunk_type(chunk::trns_tag()));
            lemma_read_chunk(chunk::trns_tag(), a, tail, acc, r);
            lemma_read_idat_tail(idat, acc.push(framed_chunk(chunk::trns_tag(), a)), r);
        },
        None => {
            lemma_read_idat_tail(idat, acc, r);
        },
    }
}

/// Splitting an encoded palette image stream into chunks can only give its
/// chunks.
proof fn lemma_indexed_chunk_stream(
    ih: Seq<u8>,
    pl: Seq<u8>,
    t: Option<Seq<u8>>,
    idat: Seq<u8>,
    r: Result<Seq<ChunkModel>, PngParseError>,
)
    requires
        ih.len() == 13,
        pl.len() <= 768,
        t matches Some(a) ==> a.len() <= 256,
        idat.len() <= 0x7fff_ffff,
        png_chunk_stream(indexed_png_bytes(ih, pl, t, idat), r),
    ensures
        r == Ok::<Seq<ChunkModel>, PngParseError>(indexed_chunks(ih, pl, t, idat)),
{
    let sig = chunk::png_sig();
    let f1 = chunk_frame(chunk::ihdr_tag(), ih);
    let f2 = chunk_frame(chunk::plte_tag(), pl);
    let ft = match t {
        Some(a) => chunk_frame(chunk::trns_tag(), a),
        None => Seq::<u8>::empty(),
    };
    let f4 = chunk_frame(chunk::idat_tag(), idat);
    let f5 = chunk_frame(chunk::iend_tag(), Seq::empty());
    let tf = indexed_tail_frames(t, idat);
    assert(ft + (f4 + f5) == tf) by {
        if t is None {
            assert(ft + (f4 + f5) =~= f4 + f5);
        }
    }
    assert(indexed_png_bytes(ih, pl, t, idat) == sig + f1 + f2 + ft + f4 + f5);
    vstd::seq_lib::lemma_concat_associative(sig + f1 + f2 + ft, f4, f5);
    vstd::seq_lib::lemma_concat_associative(sig + f1 + f2, ft, f4 + f5);
    vstd::seq_lib::lemma_concat_associative(sig + f1, f2, tf);
    vstd::seq_lib::lemma_concat_associative(sig, f1, f2 + tf);
    assert(indexed_png_bytes(ih, pl, t, idat) == sig + (f1 + (f2 + tf)));
    lemma_after_signature(f1 + (f2 + tf), r);
    lemma_indexed_chunks_after(ih, pl, t, idat, r);
}

/// Reading the frames of an encoded palette image after its signature
/// gives its chunks.
proof fn lemma_indexed_chunks_after(ih: Seq<u8>, pl: Seq<u8>, t: Option<Seq<u8>>, idat: Seq<u8>, r: Result<Seq<ChunkModel>, PngParseError>)
    requires
        ih.len() == 13,
        pl.len() <= 768,
        t matches Some(a) ==> a.len() <= 256,
        idat.len() <= 0x7fff_ffff,
    ensures
        chunks_after(
            chunk_frame(chunk::ihdr_tag(), ih) + (chunk_frame(chunk::plte_tag(), pl) + indexed_tail_frames(t, idat)),
            Seq::empty(),
            r,
        ) == (r == Ok::<Seq<ChunkModel>, PngParseError>(indexed_chunks(ih, pl, t, idat))),
{
    let f2 = chunk_frame(chunk::plte_tag(), pl);
    let tf = indexed_tail_frames(t, idat);
    assert(valid_chunk_type(chunk::ihdr_tag()));
    assert(valid_chunk_type(chunk::plte_tag()));
    let a1 = Seq::<ChunkModel>::empty().push(framed_chunk(chunk::ihdr_tag(), ih));
    let a2 = a1.push(framed_chunk(chunk::plte_tag(), pl));
    lemma_read_chunk(chunk::ihdr_tag(), ih, f2 + tf, Seq::empty(), r);
    lemma_read_chunk(chunk::plte_tag(), pl, tf, a1, r);
    lemma_read_indexed_tail(t, idat, a2, r);
    assert(indexed_tail_chunks(a2, t, idat) =~= indexed_chunks(ih, pl, t, idat));
}

/// The header of a palette image the encoder writes.
pub open spec fn indexed_header(img: IndexedModel) -> Ihdr {
    Ihdr {
        width: img.width,
        height: img.height,
        bit_depth: img.bit_depth,
        color_type: IhdrColorType::Indexed,
        compression_method: PngCompressionMethod::Deflate,
        filter_method: PngFilterMethod::Adaptive,
        interlace_method: PngInterlaceMethod::NotInterlaced,
    }
}

/// Parsing the IHDR bytes written for a palette image gives its header.
proof fn lemma_indexed_ihdr_read(img: IndexedModel)
    requires
        indexed_ihdr_value(img) is Ok,
    ensures
        spec_parse_ihdr(ihdr_bytes(img.width, img.height, img.bit_depth, 3, 0)) == Ok::<Ihdr, PngParseError>(indexed_header(img)),
{
    let p = ihdr_bytes(img.width, img.height, img.bit_depth, 3, 0);
    let wb = octets::be_bytes_u32(img.width);
    let hb = octets::be_bytes_u32(img.height);
    octets::lemma_be_u32_roundtrip(img.width);
    octets::lemma_be_u32_roundtrip(img.height);
    assert(p[0] == wb[0] && p[1] == wb[1] && p[2] == wb[2] && p[3] == wb[3]);
    assert(p[4] == hb[0] && p[5] == hb[1] && p[6] == hb[2] && p[7] == hb[3]);
    assert(p[8] == img.bit_depth && p[9] == 3);
    assert(p[10] == 0 && p[11] == 0 && p[12] == 0);
}

/// Validating the chunks of an encoded palette image accepts them.
proof fn lemma_indexed_structure(
    img: IndexedModel,
    ih: Seq<u8>,
    pl: Seq<u8>,
    t: Option<Seq<u8>>,
    idat: Seq<u8>,
    r: Result<PngStructureSummary, PngParseError>,
)
    requires
        indexed_ihdr_value(img) == Ok::<Seq<u8>, PngParseError>(ih),
        plte_length_ok(pl.len() as int),
        png_structure(indexed_chunks(ih, pl, t, idat), r),
    ensures
        r is Ok,
{
    let cs = indexed_chunks(ih, pl, t, idat);
    lemma_indexed_ihdr_read(img);
    let h = indexed_header(img);
    assert(chunk::ihdr_tag() != chunk::idat_tag());
    assert(chunk::ihdr_tag() != chunk::iend_tag());
    assert(chunk::ihdr_tag() != chunk::plte_tag());
    assert(chunk::ihdr_tag() != chunk::trns_tag());
    assert(chunk::plte_tag() != chunk::idat_tag());
    assert(chunk::plte_tag() != chunk::iend_tag());
    assert(chunk::plte_tag() != chunk::trns_tag());
    assert(chunk::idat_tag() != chunk::iend_tag());
    assert(chunk::idat_tag() != chunk::trns_tag());
    assert(chunk::iend_tag() != chunk::trns_tag());
    assert(!octets::is_upper(chunk::trns_tag()[0]));
    let s0 = ValidationState { ihdr: None, idat_count: 0, ancillary_count: 0, seen_plte: false, seen_iend: false };
    let s1 = ValidationState { ihdr: Some(h), ..s0 };
    let s2 = ValidationState { seen_plte: true, ..s1 };
    let a: nat = if t is Some { 1 } else { 0 };
    let s3 = ValidationState { ancillary_count: a, ..s2 };
    let s4 = ValidationState { idat_count: 1, ..s3 };
    let s5 = ValidationState { seen_iend: true, ..s4 };
    let k: int = if t is Some { 3 } else { 2 };
    let ok = Ok::<PngStructureSummary, PngParseError>(PngStructureSummary { width: img.width, height: img.height, idat_count: 1, ancillary_count: a as usize });
    assert(cs.len() == k + 2);
    assert(validate_from(cs, k + 2, s5, r) == (r == ok));
    assert(validate_from(cs, k + 1, s4, r) == validate_from(cs, k + 2, s5, r));
    assert(validate_from(cs, k, s3, r) == validate_from(cs, k + 1, s4, r));
    if t is Some {
        assert(validate_from(cs, 2, s2, r) == validate_from(cs, 3, s3, r));
    } else {
        assert(s3 == s2);
    }
    assert(validate_from(cs, 1, s1, r) == validate_from(cs, 2, s2, r));
    assert(validate_from(cs, 0, s0, r) == validate_from(cs, 1, s1, r));
}

/// The unfiltered rows of a palette image at depth 8 are its indices
/// filtered with no filter.
proof fn lemma_rows_unfiltered(ind: Seq<u8>, w: int, k: int)
    requires
        w > 0,
        0 <= k,
        k * w <= ind.len(),
    ensures
        indexed_rows(ind, w, 8, k) == scanlines_filtered(ind, w, 1, PngFilterStrategy::NoFilter, k),
    decreases k,
{
    if k > 0 {
        assert((k - 1) * w + w == k * w) by (nonlinear_arith);
        lemma_rows_unfiltered(ind, w, k - 1);
        lemma_no_filter(row_at(ind, w, k - 1), prev_row_at(ind, w, k - 1), 1);
        assert(row_at(ind, w, k - 1) == ind.subrange((k - 1) * w, k * w));
    }
}

/// A row of `w` samples of `d` bits takes as many bytes as the packed row
/// of `w` indices.
proof fn lemma_packed_row_len(w: int, d: u8)
    requires
        w >= 1,
        d == 1 || d == 2 || d == 4,
    ensures
        (w * d + 7) / 8 == (w + per_byte(d) - 1) / per_byte(d),
        (w + per_byte(d) - 1) / per_byte(d) >= 1,
{
    if d == 1 {
        assert(w * d == w);
    } else if d == 2 {
        let q = (w + 3) / 4;
        let r = (w + 3) % 4;
        vstd::arithmetic::div_mod::lemma_fundamental_div_mod(w + 3, 4);
        assert(w * d + 7 == q * 8 + (2 * r + 1));
        vstd::arithmetic::div_mod::lemma_fundamental_div_mod_converse(w * d + 7, 8, q, 2 * r + 1);
    } else {
        let q = (w + 1) / 2;
        let r = (w + 1) % 2;
        vstd::arithmetic::div_mod::lemma_fundamental_div_mod(w + 1, 2);
        assert(w * d + 7 == q * 8 + (4 * r + 3));
        vstd::arithmetic::div_mod::lemma_fundamental_div_mod_converse(w * d + 7, 8, q, 4 * r + 3);
    }
}

/// The scanline bytes a palette image decodes to: its indices at depth 8,
/// its packed row otherwise.
pub open spec fn indexed_row_data(img: IndexedModel) -> Seq<u8> {
    if img.bit_depth == 8 { img.indices } else { pack_row(img.indices, img.bit_depth) }
}

/// The unfiltered data of a palette image, at depth 8 or in one row,
/// reconstructs to its row data, and that unpacks to its indices.
proof fn lemma_indexed_scanlines(img: IndexedModel)
    requires
        indexed_scanlines(img) is Ok,
        img.width >= 1,
        img.height >= 1,
        img.bit_depth == 1 || img.bit_depth == 2 || img.bit_depth == 4 || img.bit_depth == 8,
        img.bit_depth == 8 || img.height == 1,
    ensures
        scanlines_value(
            indexed_scanlines(img)->Ok_0,
            img.height as int,
            (img.width * img.bit_depth + 7) / 8,
            1,
        ) == Ok::<Seq<u8>, PngParseError>(indexed_row_data(img)),
        index_samples(indexed_row_data(img), img.width as int, img.bit_depth) == img.indices,
        indices_in_palette(img.indices, img.palette.len() as int, img.indices.len() as int),
{
    let ind = img.indices;
    let w = img.width as int;
    let h = img.height as int;
    let d = img.bit_depth;
    let sc = indexed_scanlines(img)->Ok_0;
    assert(ind.len() == w * h);
    assert forall|j: int| 0 <= j < ind.len() implies #[trigger] ind[j] < img.palette.len() && (d != 8 ==> ind[j] <= sample_mask(d)) by {
        assert(index_ok(ind[j], img.palette.len() as int, d));
        assert(ind[j] < index_limit(d));
    }
    if d == 8 {
        assert((w * d + 7) / 8 == w);
        assert(h * w <= ind.len()) by (nonlinear_arith)
            requires
                ind.len() == w * h,
        ;
        lemma_rows_unfiltered(ind, w, h);
        lemma_filter_roundtrip(ind, w, 1, PngFilterStrategy::NoFilter, h);
    } else {
        assert(ind.len() == w);
        let p = pack_row(ind, d);
        lemma_packed_row_len(w, d);
        assert(p.len() == (w * d + 7) / 8);
        assert(ind.subrange(0, w) =~= ind);
        lemma_no_filter(row_at(p, p.len() as int, 0), prev_row_at(p, p.len() as int, 0), 1);
        assert(row_at(p, p.len() as int, 0) =~= p);
        assert(indexed_rows(ind, w, d, 1) == indexed_rows(ind, w, d, 0).push(0u8) + p);
        let rl = p.len() as int;
        let tf = super::filter::filter_row_value(row_at(p, rl, 0), prev_row_at(p, rl, 0), 1, PngFilterStrategy::NoFilter);
        assert(tf.0 == 0 && tf.1 == p);
        assert(scanlines_filtered(p, rl, 1, PngFilterStrategy::NoFilter, 0) == Seq::<u8>::empty());
        assert(scanlines_filtered(p, rl, 1, PngFilterStrategy::NoFilter, 1) == Seq::<u8>::empty().push(0u8) + p);
        assert(sc == Seq::<u8>::empty().push(0u8) + p);
        lemma_filter_roundtrip(p, p.len() as int, 1, PngFilterStrategy::NoFilter, 1);
        lemma_unpack_row(ind, d);
    }
}

/// Reading the PLTE payload written for a palette gives the palette back.
proof fn lemma_plte_read(pal: Seq<PaletteEntry>)
    requires
        1 <= pal.len() <= 256,
    ensures
        plte_length_ok(plte_bytes(pal).len() as int),
        Seq::new(plte_bytes(pal).len() / 3, |k: int| plte_entry(plte_bytes(pal), k)) == pal,
{
    let p = plte_bytes(pal);
    assert(p.len() / 3 == pal.len());
    let q = Seq::new(p.len() / 3, |k: int| plte_entry(p, k));
    assert forall|k: int| 0 <= k < pal.len() implies #[trigger] q[k] == pal[k] by {
        assert((3 * k) / 3 == k && (3 * k) % 3 == 0);
        assert((3 * k + 1) / 3 == k && (3 * k + 1) % 3 == 1);
        assert((3 * k + 2) / 3 == k && (3 * k + 2) % 3 == 2);
        assert(p[3 * k] == channel(pal[k], 0));
        assert(p[3 * k + 1] == channel(pal[k], 1));
        assert(p[3 * k + 2] == channel(pal[k], 2));
    }
    assert(q =~= pal);
}

/// What the decoder looks up in the chunks of an encoded palette image:
/// the IHDR first, the IDAT data, the palette and the alpha values.
proof fn lemma_indexed_lookups(img: IndexedModel, ih: Seq<u8>, pl: Seq<u8>, t: Option<Seq<u8>>, z: Seq<u8>)
    requires
        pl == plte_bytes(img.palette),
        1 <= img.palette.len() <= 256,
        t == img.alpha,
        t matches Some(a) ==> 1 <= a.len() <= 256,
    ensures
        ({
            let cs = indexed_chunks(ih, pl, t, z);
            &&& find_tag(cs, chunk::ihdr_tag(), 0) == Some(0int)
            &&& cs[0].payload == ih
            &&& idat_data(cs, cs.len() as int) == z
            &&& palette_value(cs) == Ok::<Seq<PaletteEntry>, PngParseError>(img.palette)
            &&& transparency_value(cs, IhdrColorType::Indexed) == Ok::<Option<TransparencyModel>, PngParseError>(
                match t {
                    Some(a) => Some(TransparencyModel::Indexed { alpha: a }),
                    None => None,
                },
            )
        }),
{
    let cs = indexed_chunks(ih, pl, t, z);
    assert(chunk::ihdr_tag() != chunk::idat_tag());
    assert(chunk::ihdr_tag() != chunk::iend_tag());
    assert(chunk::ihdr_tag() != chunk::plte_tag());
    assert(chunk::ihdr_tag() != chunk::trns_tag());
    assert(chunk::plte_tag() != chunk::idat_tag());
    assert(chunk::plte_tag() != chunk::iend_tag());
    assert(chunk::plte_tag() != chunk::trns_tag());
    assert(chunk::idat_tag() != chunk::iend_tag());
    assert(chunk::idat_tag() != chunk::trns_tag());
    assert(chunk::iend_tag() != chunk::trns_tag());
    assert(find_tag(cs, chunk::ihdr_tag(), 0) == Some(0int));
    assert(find_tag(cs, chunk::plte_tag(), 1) == Some(1int));
    assert(find_tag(cs, chunk::plte_tag(), 0) == Some(1int));
    lemma_plte_read(img.palette);
    assert(idat_data(cs, 0) =~= Seq::<u8>::empty());
    assert(idat_data(cs, 1) =~= Seq::<u8>::empty());
    assert(idat_data(cs, 2) =~= Seq::<u8>::empty());
    match t {
        Some(a) => {
            assert(cs.len() == 5);
            assert(find_tag(cs, chunk::trns_tag(), 2) == Some(2int));
            assert(find_tag(cs, chunk::trns_tag(), 1) == Some(2int));
            assert(find_tag(cs, chunk::trns_tag(), 0) == Some(2int));
            assert(idat_data(cs, 3) =~= Seq::<u8>::empty());
            assert(idat_data(cs, 4) =~= z);
            assert(idat_data(cs, 5) =~= z);
        },
        None => {
            assert(cs.len() == 4);
            assert(find_tag(cs, chunk::trns_tag(), 4) is None);
            assert(find_tag(cs, chunk::trns_tag(), 3) is None);
            assert(find_tag(cs, chunk::trns_tag(), 2) is None);
            assert(find_tag(cs, chunk::trns_tag(), 1) is None);
            assert(find_tag(cs, chunk::trns_tag(), 0) is None);
            assert(idat_data(cs, 3) =~= z);
            assert(idat_data(cs, 4) =~= z);
        },
    }
}

/// The image the decoder gives for a palette image: its indices looked up
/// in its palette, with the alpha values as a fourth channel where it has
/// them.
pub open spec fn indexed_decoded(img: IndexedModel) -> PngImageModel {
    PngImageModel {
        width: img.width,
        height: img.height,
        color_type: IhdrColorType::Indexed,
        bit_depth: img.bit_depth,
        pixels: match img.alpha {
            Some(a) => indexed_rgba(img.indices, img.palette, a),
            None => indexed_rgb(img.indices, img.palette),
        },
    }
}

/// The chunks of an encoded palette image decode to its colors, at depth 8
/// or in one row without alpha values.
#[verifier::rlimit(40)]
proof fn lemma_indexed_image(img: IndexedModel)
    requires
        indexed_parts(img) is Ok,
        img.bit_depth == 8 || (img.height == 1 && img.alpha is None),
        zlib::zlib_deflated(indexed_parts(img)->Ok_0.3).len() > 0,
        zlib::zlib_inflated(zlib::zlib_deflated(indexed_parts(img)->Ok_0.3)) == Some(indexed_parts(img)->Ok_0.3),
    ensures
        ({
            let (ih, pl, t, sc) = indexed_parts(img)->Ok_0;
            image_from_chunks(indexed_chunks(ih, pl, t, zlib::zlib_deflated(sc))) == Ok::<PngImageModel, PngParseError>(indexed_decoded(img))
        }),
{
    let (ih, pl, t, sc) = indexed_parts(img)->Ok_0;
    let z = zlib::zlib_deflated(sc);
    let cs = indexed_chunks(ih, pl, t, z);
    assert(indexed_ihdr_value(img) == Ok::<Seq<u8>, PngParseError>(ih));
    assert(t == img.alpha);
    assert(sc == indexed_scanlines(img)->Ok_0);
    assert(pl == plte_bytes(img.palette));
    let d = img.bit_depth;
    let w = img.width as int;
    assert(index_limit(d) <= 256);
    lemma_indexed_lookups(img, ih, pl, t, z);
    lemma_indexed_ihdr_read(img);
    lemma_indexed_scanlines(img);
    let h = indexed_header(img);
    assert(bits_per_pixel(h) == Some(d as int));
    let rl = (w * d + 7) / 8;
    assert(rl <= w) by (nonlinear_arith)
        requires
            w >= 1,
            d <= 8,
            rl == (w * d + 7) / 8,
    ;
    assert(layout_of(h) is Ok);
    let layout = layout_of(h)->Ok_0;
    assert(layout.row_data_len == rl && layout.filter_bytes_per_pixel == 1);
    assert(reconstructed_value(sc, h, rl, 1) == Ok::<Seq<u8>, PngParseError>(indexed_row_data(img)));
    let tm = transparency_value(cs, IhdrColorType::Indexed)->Ok_0;
    assert(pixels_value(h, tm, Ok(img.palette), indexed_row_data(img)) == Ok::<Seq<u8>, PngParseError>(indexed_decoded(img).pixels));
}

/// What decoding gives of a stream that encoding a palette image wrote is
/// the image's colors: its indices looked up in its palette, with its
/// alpha values as a fourth channel when it has them. At bit depths below
/// eight this holds of images of one row without alpha values.
pub proof fn law_decode_reads_back_indexed_encode(img: IndexedModel, bytes: Seq<u8>, r: Result<PngImageModel, PngParseError>)
    requires
        indexed_encoded_with(img, Ok(bytes)),
        img.bit_depth == 8 || (img.height == 1 && img.alpha is None),
        decode_spec(bytes, r, |cs: Seq<ChunkModel>| image_from_chunks(cs)),
    ensures
        r == Ok::<PngImageModel, PngParseError>(indexed_decoded(img)),
{
    let (ih, pl, t, sc) = indexed_parts(img)->Ok_0;
    let z = zlib::zlib_deflated(sc);
    let f = |cs: Seq<ChunkModel>| image_from_chunks(cs);
    let (cr, sr) = choose|cr: Result<Seq<ChunkModel>, PngParseError>, sr: Result<PngStructureSummary, PngParseError>|
        #[trigger] decode_outcome(bytes, cr, sr, r, f);
    assert(indexed_ihdr_value(img) == Ok::<Seq<u8>, PngParseError>(ih));
    assert(t == img.alpha);
    assert(pl == plte_bytes(img.palette));
    assert(bytes == indexed_png_bytes(ih, pl, t, z));
    assert(index_limit(img.bit_depth) <= 256);
    lemma_plte_read(img.palette);
    lemma_indexed_chunk_stream(ih, pl, t, z, cr);
    lemma_indexed_structure(img, ih, pl, t, z, sr);
    lemma_indexed_image(img);
}

} // verus!
