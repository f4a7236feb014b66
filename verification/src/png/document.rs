//! Whole documents: metadata extraction, unknown ancillary chunks, rows.
use vstd::prelude::*;
use crate::octets;
use super::types::{
    Chunk, ChunkModel, DecodedRow, PngDocument, PngImage, PngImageModel, PngMetadata, PngParseError,
    UnknownAncillaryChunk, chunk_models,
};
use super::chunk::tag_is;
use super::metadata;
use super::metadata::{MetadataModel, TextModel, InternationalTextModel};
use super::decode;
use super::decode::{decode_spec, image_from_chunks, image_view};
use super::structure::{chunks_result_models, parse_png_chunks, validate_png_chunks, png_chunk_stream, png_structure};

verus! {

/// Metadata with nothing in it.
pub open spec fn empty_metadata() -> MetadataModel {
    MetadataModel {
        gamma_scaled: None,
        chromaticities: None,
        srgb_rendering_intent: None,
        icc_profile: None,
        physical_pixel_dimensions: None,
        timestamp: None,
        text_chunks: Seq::empty(),
        compressed_text_chunks: Seq::empty(),
        international_text_chunks: Seq::empty(),
    }
}

/// The metadata after reading one more chunk; chunks of other types leave
/// it as it is, and a later chunk of a single-valued type replaces an
/// earlier one.
pub open spec fn metadata_step(m: MetadataModel, c: ChunkModel) -> Result<MetadataModel, PngParseError> {
    let k = c.kind;
    let p = c.payload;
    if k == seq![103u8, 65u8, 77u8, 65u8] {
        match metadata::gama_value(p) { Err(e) => Err(e), Ok(v) => Ok(MetadataModel { gamma_scaled: Some(v), ..m }) }
    } else if k == seq![99u8, 72u8, 82u8, 77u8] {
        match metadata::chrm_value(p) { Err(e) => Err(e), Ok(v) => Ok(MetadataModel { chromaticities: Some(v), ..m }) }
    } else if k == seq![115u8, 82u8, 71u8, 66u8] {
        match metadata::srgb_value(p) { Err(e) => Err(e), Ok(v) => Ok(MetadataModel { srgb_rendering_intent: Some(v), ..m }) }
    } else if k == seq![105u8, 67u8, 67u8, 80u8] {
        match metadata::iccp_value(p) { Err(e) => Err(e), Ok(v) => Ok(MetadataModel { icc_profile: Some(v), ..m }) }
    } else if k == seq![112u8, 72u8, 89u8, 115u8] {
        match metadata::phys_value(p) { Err(e) => Err(e), Ok(v) => Ok(MetadataModel { physical_pixel_dimensions: Some(v), ..m }) }
    } else if k == seq![116u8, 73u8, 77u8, 69u8] {
        match metadata::time_value(p) { Err(e) => Err(e), Ok(v) => Ok(MetadataModel { timestamp: Some(v), ..m }) }
    } else if k == seq![116u8, 69u8, 88u8, 116u8] {
        match metadata::text_value(p) { Err(e) => Err(e), Ok(v) => Ok(MetadataModel { text_chunks: m.text_chunks.push(v), ..m }) }
    } else if k == seq![122u8, 84u8, 88u8, 116u8] {
        match metadata::ztxt_value(p) {
            Err(e) => Err(e),
            Ok(v) => Ok(MetadataModel { compressed_text_chunks: m.compressed_text_chunks.push(v), ..m }),
        }
    } else if k == seq![105u8, 84u8, 88u8, 116u8] {
        match metadata::itxt_value(p) {
            Err(e) => Err(e),
            Ok(v) => Ok(MetadataModel { international_text_chunks: m.international_text_chunks.push(v), ..m }),
        }
    } else {
        Ok(m)
    }
}

/// The metadata of the first `n` chunks, or the first error.
pub open spec fn metadata_of(cs: Seq<ChunkModel>, n: int) -> Result<MetadataModel, PngParseError>
    decreases n,
{
    if n <= 0 {
        Ok(empty_metadata())
    } else {
        match metadata_of(cs, n - 1) {
            Err(e) => Err(e),
            Ok(m) => metadata_step(m, cs[n - 1]),
        }
    }
}

/// Once a chunk fails to parse, the metadata of every longer prefix is
/// that error.
pub proof fn lemma_metadata_error_stays(cs: Seq<ChunkModel>, k: int, n: int)
    requires
        0 <= k <= n,
        metadata_of(cs, k) is Err,
    ensures
        metadata_of(cs, n) == metadata_of(cs, k),
    decreases n - k,
{
    if n > k {
        lemma_metadata_error_stays(cs, k, n - 1);
    }
}

/// The value of a metadata result.
pub open spec fn metadata_view(r: Result<PngMetadata, PngParseError>) -> Result<MetadataModel, PngParseError> {
    match r {
        Ok(m) => Ok(m@),
        Err(e) => Err(e),
    }
}

proof fn lemma_push_view<A, B>(v: Seq<A>, x: A, f: spec_fn(A) -> B)
    ensures
        v.push(x).map_values(f) == v.map_values(f).push(f(x)),
{
    assert(v.push(x).map_values(f) =~= v.map_values(f).push(f(x)));
}

/// Reads the metadata chunks, in order.
pub fn extract_png_metadata(chunks: &[Chunk]) -> (r: Result<PngMetadata, PngParseError>)
    ensures
        metadata_view(r) == metadata_of(chunk_models(chunks@), chunks@.len() as int),
{
    let ghost cs = chunk_models(chunks@);
    let mut m = PngMetadata {
        gamma_scaled: None,
        chromaticities: None,
        srgb_rendering_intent: None,
        icc_profile: None,
        physical_pixel_dimensions: None,
        timestamp: None,
        text_chunks: Vec::new(),
        compressed_text_chunks: Vec::new(),
        international_text_chunks: Vec::new(),
    };
    assert(m@.text_chunks =~= Seq::<TextModel>::empty());
    assert(m@.compressed_text_chunks =~= Seq::<TextModel>::empty());
    assert(m@.international_text_chunks =~= Seq::<InternationalTextModel>::empty());
    let mut i: usize = 0;
    while i < chunks.len()
        invariant
            cs == chunk_models(chunks@),
            i <= chunks@.len(),
            metadata_of(cs, i as int) == Ok::<MetadataModel, PngParseError>(m@),
        decreases chunks@.len() - i,
    {
        let t = chunks[i].header.chunk_type.bytes();
        let p = chunks[i].payload.as_slice();
        let ghost old_m = m@;
        let mut err: Option<PngParseError> = None;
        assert(cs[i as int].kind == t@ && cs[i as int].payload == p@);
        if tag_is(t, 103, 65, 77, 65) {
            match metadata::parse_gama(p) {
                Ok(v) => m.gamma_scaled = Some(v),
                Err(e) => err = Some(e),
            }
        } else if tag_is(t, 99, 72, 82, 77) {
            match metadata::parse_chrm(p) {
                Ok(v) => m.chromaticities = Some(v),
                Err(e) => err = Some(e),
            }
        } else if tag_is(t, 115, 82, 71, 66) {
            match metadata::parse_srgb(p) {
                Ok(v) => m.srgb_rendering_intent = Some(v),
                Err(e) => err = Some(e),
            }
        } else if tag_is(t, 105, 67, 67, 80) {
            match metadata::parse_iccp(p) {
                Ok(v) => m.icc_profile = Some(v),
                Err(e) => err = Some(e),
            }
        } else if tag_is(t, 112, 72, 89, 115) {
            match metadata::parse_phys(p) {
                Ok(v) => m.physical_pixel_dimensions = Some(v),
                Err(e) => err = Some(e),
            }
        } else if tag_is(t, 116, 73, 77, 69) {
            match metadata::parse_time(p) {
                Ok(v) => m.timestamp = Some(v),
                Err(e) => err = Some(e),
            }
        } else if tag_is(t, 116, 69, 88, 116) {
            match metadata::parse_text(p) {
                Ok(v) => {
                    proof {
                        lemma_push_view(m.text_chunks@, v, |x: super::types::TextChunk| x@);
                    }
                    m.text_chunks.push(v);
                },
                Err(e) => err = Some(e),
            }
        } else if tag_is(t, 122, 84, 88, 116) {
            match metadata::parse_ztxt(p) {
                Ok(v) => {
                    proof {
                        lemma_push_view(m.compressed_text_chunks@, v, |x: super::types::TextChunk| x@);
                    }
                    m.compressed_text_chunks.push(v);
                },
                Err(e) => err = Some(e),
            }
        } else if tag_is(t, 105, 84, 88, 116) {
            match metadata::parse_itxt(p) {
                Ok(v) => {
                    proof {
                        lemma_push_view(m.international_text_chunks@, v, |x: super::types::InternationalTextChunk| x@);
                    }
                    m.international_text_chunks.push(v);
                },
                Err(e) => err = Some(e),
            }
        }
        if let Some(e) = err {
            proof {
                assert(metadata_of(cs, i + 1) == Err::<MetadataModel, PngParseError>(e));
                lemma_metadata_error_stays(cs, i + 1, chunks@.len() as int);
            }
            return Err(e);
        }
        assert(metadata_step(old_m, cs[i as int]) == Ok::<MetadataModel, PngParseError>(m@));
        i = i + 1;
    }
    Ok(m)
}

/// Types of the ancillary chunks this library reads: gAMA, cHRM, sRGB,
/// iCCP, pHYs, tIME, tEXt, zTXt, iTXt, and PLTE and tRNS.
pub open spec fn known_ancillary(t: Seq<u8>) -> bool {
    ||| t == seq![103u8, 65u8, 77u8, 65u8]
    ||| t == seq![99u8, 72u8, 82u8, 77u8]
    ||| t == seq![115u8, 82u8, 71u8, 66u8]
    ||| t == seq![105u8, 67u8, 67u8, 80u8]
    ||| t == seq![112u8, 72u8, 89u8, 115u8]
    ||| t == seq![116u8, 73u8, 77u8, 69u8]
    ||| t == seq![116u8, 69u8, 88u8, 116u8]
    ||| t == seq![122u8, 84u8, 88u8, 116u8]
    ||| t == seq![105u8, 84u8, 88u8, 116u8]
    ||| t == seq![80u8, 76u8, 84u8, 69u8]
    ||| t == seq![116u8, 82u8, 78u8, 83u8]
}

/// Whether this library reads chunks of this type itself.
pub fn is_known_ancillary_chunk(chunk_type: [u8; 4]) -> (r: bool)
    ensures
        r == known_ancillary(chunk_type@),
{
    tag_is(chunk_type, 103, 65, 77, 65) || tag_is(chunk_type, 99, 72, 82, 77) || tag_is(chunk_type, 115, 82, 71, 66)
        || tag_is(chunk_type, 105, 67, 67, 80) || tag_is(chunk_type, 112, 72, 89, 115) || tag_is(
        chunk_type,
        116,
        73,
        77,
        69,
    ) || tag_is(chunk_type, 116, 69, 88, 116) || tag_is(chunk_type, 122, 84, 88, 116) || tag_is(chunk_type, 105, 84, 88, 116)
        || tag_is(chunk_type, 80, 76, 84, 69) || tag_is(chunk_type, 116, 82, 78, 83)
}

/// An unknown ancillary chunk, as values.
pub struct UnknownModel {
    pub kind: Seq<u8>,
    pub payload: Seq<u8>,
}

impl View for UnknownAncillaryChunk {
    type V = UnknownModel;

    open spec fn view(&self) -> UnknownModel {
        UnknownModel { kind: self.chunk_type@, payload: self.payload@ }
    }
}

/// The ancillary chunks among the first `n` that this library does not
/// read, in order.
pub open spec fn unknown_of(cs: Seq<ChunkModel>, n: int) -> Seq<UnknownModel>
    decreases n,
{
    if n <= 0 {
        Seq::empty()
    } else {
        let c = cs[n - 1];
        if !octets::is_upper(c.kind[0]) && !known_ancillary(c.kind) {
            unknown_of(cs, n - 1).push(UnknownModel { kind: c.kind, payload: c.payload })
        } else {
            unknown_of(cs, n - 1)
        }
    }
}

/// Keeps the ancillary chunks this library does not read, as they are.
pub fn preserve_unknown_ancillary_chunks(chunks: &[Chunk]) -> (r: Vec<UnknownAncillaryChunk>)
    ensures
        r@.map_values(|u: UnknownAncillaryChunk| u@) == unknown_of(chunk_models(chunks@), chunks@.len() as int),
{
    let ghost cs = chunk_models(chunks@);
    let mut out: Vec<UnknownAncillaryChunk> = Vec::new();
    let mut i: usize = 0;
    while i < chunks.len()
        invariant
            cs == chunk_models(chunks@),
            i <= chunks@.len(),
            out@.map_values(|u: UnknownAncillaryChunk| u@) == unknown_of(cs, i as int),
        decreases chunks@.len() - i,
    {
        let ct = chunks[i].header.chunk_type;
        let t = ct.bytes();
        assert(cs[i as int].kind == t@ && cs[i as int].payload == chunks@[i as int].payload@);
        if ct.is_ancillary() && !is_known_ancillary_chunk(t) {
            let u = UnknownAncillaryChunk { chunk_type: t, payload: vstd::slice::slice_to_vec(chunks[i].payload.as_slice()) };
            proof {
                lemma_push_view(out@, u, |x: UnknownAncillaryChunk| x@);
            }
            out.push(u);
        }
        i = i + 1;
    }
    out
}

/// Reads the metadata of a PNG stream after checking its structure.
pub fn inspect_png_metadata(input: &[u8]) -> (r: Result<PngMetadata, PngParseError>)
    ensures
        decode_spec(input@, metadata_view(r), |cs: Seq<ChunkModel>| metadata_of(cs, cs.len() as int)),
{
    let ghost f = |cs: Seq<ChunkModel>| metadata_of(cs, cs.len() as int);
    let chunks = parse_png_chunks(input);
    let ghost cr = chunks_result_models(chunks);
    let chunks = match chunks {
        Ok(c) => c,
        Err(e) => {
            let r = Err(e);
            proof {
                decode::lemma_decode_chunk_error(input@, cr, metadata_view(r), f);
            }
            return r;
        },
    };
    let ghost cs = chunk_models(chunks@);
    let v = validate_png_chunks(chunks.as_slice());
    let r = match v {
        Err(e) => Err(e),
        Ok(_) => extract_png_metadata(chunks.as_slice()),
    };
    proof {
        decode::lemma_decode_valid(input@, cs, v, metadata_view(r), f);
    }
    r
}

/// A document, as values.
pub struct DocumentModel {
    pub image: PngImageModel,
    pub metadata: MetadataModel,
    pub unknown_ancillary_chunks: Seq<UnknownModel>,
}

impl View for PngDocument {
    type V = DocumentModel;

    open spec fn view(&self) -> DocumentModel {
        DocumentModel {
            image: self.image@,
            metadata: self.metadata@,
            unknown_ancillary_chunks: self.unknown_ancillary_chunks@.map_values(|u: UnknownAncillaryChunk| u@),
        }
    }
}

/// The document a valid chunk sequence decodes to.
pub open spec fn document_from_chunks(cs: Seq<ChunkModel>) -> Result<DocumentModel, PngParseError> {
    match image_from_chunks(cs) {
        Err(e) => Err(e),
        Ok(img) => match metadata_of(cs, cs.len() as int) {
            Err(e) => Err(e),
            Ok(m) => Ok(DocumentModel { image: img, metadata: m, unknown_ancillary_chunks: unknown_of(cs, cs.len() as int) }),
        },
    }
}

/// `r` is what decoding `input` as a document gives.
pub open spec fn document_decodes(input: Seq<u8>, r: Result<DocumentModel, PngParseError>) -> bool {
    decode_spec(input, r, |cs: Seq<ChunkModel>| document_from_chunks(cs))
}

/// The value of a document result.
pub open spec fn document_view(r: Result<PngDocument, PngParseError>) -> Result<DocumentModel, PngParseError> {
    match r {
        Ok(d) => Ok(d@),
        Err(e) => Err(e),
    }
}

/// Decodes the image, reads the metadata and keeps the unknown ancillary
/// chunks of a PNG stream.
pub fn decode_png_document(input: &[u8]) -> (r: Result<PngDocument, PngParseError>)
    ensures
        decode_spec(input@, document_view(r), |cs: Seq<ChunkModel>| document_from_chunks(cs)),
{
    let ghost f = |cs: Seq<ChunkModel>| document_from_chunks(cs);
    let chunks = parse_png_chunks(input);
    let ghost cr = chunks_result_models(chunks);
    let chunks = match chunks {
        Ok(c) => c,
        Err(e) => {
            let r = Err(e);
            proof {
                decode::lemma_decode_chunk_error(input@, cr, document_view(r), f);
            }
            return r;
        },
    };
    let ghost cs = chunk_models(chunks@);
    let v = validate_png_chunks(chunks.as_slice());
    let r = match v {
        Err(e) => Err(e),
        Ok(_) => match decode::decode_chunks(chunks.as_slice()) {
            Err(e) => Err(e),
            Ok(image) => match extract_png_metadata(chunks.as_slice()) {
                Err(e) => Err(e),
                Ok(metadata) => Ok(PngDocument {
                    image,
                    metadata,
                    unknown_ancillary_chunks: preserve_unknown_ancillary_chunks(chunks.as_slice()),
                }),
            },
        },
    };
    proof {
        decode::lemma_decode_valid(input@, cs, v, document_view(r), f);
    }
    r
}

/// The rows of `pixels`, `row_len` bytes each; a partial row at the end is
/// dropped.
pub open spec fn rows_of(pixels: Seq<u8>, row_len: int) -> Seq<(int, Seq<u8>)> {
    Seq::new(((pixels.len() as int) / row_len) as nat, |i: int| (i, pixels.subrange(i * row_len, i * row_len + row_len)))
}

/// The values of decoded rows.
pub open spec fn row_views(rows: Seq<DecodedRow>) -> Seq<(int, Seq<u8>)> {
    rows.map_values(|r: DecodedRow| (r.row_index as int, r.pixels@))
}

/// Splits pixels into rows of `row_len` bytes.
pub fn split_rows(pixels: &[u8], row_len: usize) -> (r: Vec<DecodedRow>)
    requires
        row_len > 0,
    ensures
        row_views(r@) == rows_of(pixels@, row_len as int),
{
    let plen = pixels.len();
    let n = plen / row_len;
    let mut out: Vec<DecodedRow> = Vec::new();
    let mut i: usize = 0;
    while i < n
        invariant
            row_len > 0,
            n == (pixels@.len() as int) / (row_len as int),
            plen == pixels@.len(),
            i <= n,
            out@.len() == i,
            forall|k: int| 0 <= k < i ==> #[trigger] row_views(out@)[k] == rows_of(pixels@, row_len as int)[k],
        decreases n - i,
    {
        assert((i + 1) * row_len <= pixels@.len()) by (nonlinear_arith)
            requires
                i < n,
                n == (pixels@.len() as int) / (row_len as int),
                row_len > 0,
        ;
        assert(i * row_len + row_len == (i + 1) * row_len) by (nonlinear_arith);
        let start = i * row_len;
        let row = vstd::slice::slice_to_vec(&pixels[start..start + row_len]);
        let ghost before = out@;
        assert(row@ == pixels@.subrange(i * row_len, i * row_len + row_len));
        out.push(DecodedRow { row_index: i, pixels: row });
        proof {
            assert(row_views(out@)[i as int] == (i as int, row@));
            assert forall|k: int| 0 <= k < i + 1 implies #[trigger] row_views(out@)[k] == rows_of(pixels@, row_len as int)[k] by {
                if k < i {
                    assert(out@[k] == before[k]);
                    assert(row_views(before)[k] == rows_of(pixels@, row_len as int)[k]);
                    assert(row_views(out@)[k] == row_views(before)[k]);
                } else {
                    assert(k == i);
                    assert(rows_of(pixels@, row_len as int)[k] == (k, pixels@.subrange(k * row_len, k * row_len + row_len)));
                }
            }
        }
        i = i + 1;
    }
    assert(row_views(out@) =~= rows_of(pixels@, row_len as int));
    out
}

/// What splitting a decoded image into rows gives: rows of
/// `pixels.len() / height` bytes. An image with fewer pixel bytes than rows
/// is refused with `InvalidImageDataLength`.
pub open spec fn rows_value(img: PngImageModel) -> Result<Seq<(int, Seq<u8>)>, PngParseError> {
    let row_len = (img.pixels.len() as int) / (img.height as int);
    if img.height == 0 || row_len == 0 {
        Err(PngParseError::InvalidImageDataLength { expected: img.height as usize, actual: img.pixels.len() as usize })
    } else {
        Ok(rows_of(img.pixels, row_len))
    }
}

/// The value of a rows result.
pub open spec fn rows_view(r: Result<Vec<DecodedRow>, PngParseError>) -> Result<Seq<(int, Seq<u8>)>, PngParseError> {
    match r {
        Ok(v) => Ok(row_views(v@)),
        Err(e) => Err(e),
    }
}

/// Decodes a PNG stream and hands out its rows in order.
pub fn decode_png_rows(input: &[u8]) -> (r: Result<Vec<DecodedRow>, PngParseError>)
    ensures
        decode_spec(
            input@,
            rows_view(r),
            |cs: Seq<ChunkModel>| match image_from_chunks(cs) {
                Err(e) => Err(e),
                Ok(img) => rows_value(img),
            },
        ),
{
    let ghost f = |cs: Seq<ChunkModel>| match image_from_chunks(cs) {
        Err(e) => Err(e),
        Ok(img) => rows_value(img),
    };
    let chunks = parse_png_chunks(input);
    let ghost cr = chunks_result_models(chunks);
    let chunks = match chunks {
        Ok(c) => c,
        Err(e) => {
            let r = Err(e);
            proof {
                decode::lemma_decode_chunk_error(input@, cr, rows_view(r), f);
            }
            return r;
        },
    };
    let ghost cs = chunk_models(chunks@);
    let v = validate_png_chunks(chunks.as_slice());
    let r = match v {
        Err(e) => Err(e),
        Ok(_) => match decode::decode_chunks(chunks.as_slice()) {
            Err(e) => Err(e),
            Ok(image) => {
                let h = image.height as usize;
                if h == 0 || image.pixels.len() / h == 0 {
                    Err(PngParseError::InvalidImageDataLength { expected: h, actual: image.pixels.len() })
                } else {
                    Ok(split_rows(image.pixels.as_slice(), image.pixels.len() / h))
                }
            },
        },
    };
    proof {
        decode::lemma_decode_valid(input@, cs, v, rows_view(r), f);
    }
    r
}

} // verus!
