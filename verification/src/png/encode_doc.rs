//! Encoding metadata chunks and whole documents.
use vstd::prelude::*;
use crate::octets;
use crate::octets::{extend_bytes, push_be_u32};
use super::types::{
    IccProfile, InternationalTextChunk, PhysicalPixelDimensions, PhysicalPixelUnit, PngChromaticities,
    PngCompatUnknownChunkPolicy, PngDocument, PngFilterStrategy, PngImageModel, PngMetadata, PngParseError, PngTimestamp,
    SrgbRenderingIntent, TextChunk, UnknownAncillaryChunk,
};
use super::chunk;
use super::chunk::ChunkType;
use super::encode;
use super::encode::{append_png_chunk, chunk_frame, frame_value, ihdr_bytes, idat_scanlines};
use super::metadata::{IccModel, InternationalTextModel, MetadataModel, TextModel};
use super::document::{DocumentModel, UnknownModel};
use super::zlib;

verus! {

/// The eight big-endian values of a cHRM payload.
pub open spec fn chrm_bytes(c: PngChromaticities) -> Seq<u8> {
    octets::be_bytes_u32(c.white_x) + octets::be_bytes_u32(c.white_y) + octets::be_bytes_u32(c.red_x)
        + octets::be_bytes_u32(c.red_y) + octets::be_bytes_u32(c.green_x) + octets::be_bytes_u32(c.green_y)
        + octets::be_bytes_u32(c.blue_x) + octets::be_bytes_u32(c.blue_y)
}

/// Writes a cHRM payload.
pub fn encode_chrm_payload(chromaticities: PngChromaticities) -> (r: Vec<u8>)
    ensures
        r@ == chrm_bytes(chromaticities),
{
    let mut out: Vec<u8> = Vec::new();
    push_be_u32(&mut out, chromaticities.white_x);
    push_be_u32(&mut out, chromaticities.white_y);
    push_be_u32(&mut out, chromaticities.red_x);
    push_be_u32(&mut out, chromaticities.red_y);
    push_be_u32(&mut out, chromaticities.green_x);
    push_be_u32(&mut out, chromaticities.green_y);
    push_be_u32(&mut out, chromaticities.blue_x);
    push_be_u32(&mut out, chromaticities.blue_y);
    assert(out@ =~= chrm_bytes(chromaticities));
    out
}

/// The byte of a rendering intent.
pub open spec fn srgb_byte(i: SrgbRenderingIntent) -> u8 {
    match i {
        SrgbRenderingIntent::Perceptual => 0,
        SrgbRenderingIntent::RelativeColorimetric => 1,
        SrgbRenderingIntent::Saturation => 2,
        SrgbRenderingIntent::AbsoluteColorimetric => 3,
    }
}

/// The byte of a rendering intent.
pub fn encode_srgb_intent(intent: SrgbRenderingIntent) -> (r: u8)
    ensures
        r == srgb_byte(intent),
{
    match intent {
        SrgbRenderingIntent::Perceptual => 0,
        SrgbRenderingIntent::RelativeColorimetric => 1,
        SrgbRenderingIntent::Saturation => 2,
        SrgbRenderingIntent::AbsoluteColorimetric => 3,
    }
}

/// The bytes of a pHYs payload.
pub open spec fn phys_bytes(p: PhysicalPixelDimensions) -> Seq<u8> {
    octets::be_bytes_u32(p.pixels_per_unit_x) + octets::be_bytes_u32(p.pixels_per_unit_y)
        + seq![if p.unit == PhysicalPixelUnit::Unknown { 0u8 } else { 1u8 }]
}

/// Writes a pHYs payload.
pub fn encode_phys_payload(physical: PhysicalPixelDimensions) -> (r: Vec<u8>)
    ensures
        r@ == phys_bytes(physical),
{
    let mut out: Vec<u8> = Vec::new();
    push_be_u32(&mut out, physical.pixels_per_unit_x);
    push_be_u32(&mut out, physical.pixels_per_unit_y);
    out.push(match physical.unit {
        PhysicalPixelUnit::Unknown => 0,
        PhysicalPixelUnit::Meter => 1,
    });
    assert(out@ =~= phys_bytes(physical));
    out
}

/// The bytes of a tIME payload.
pub open spec fn time_bytes(t: PngTimestamp) -> Seq<u8> {
    seq![(t.year / 256) as u8, (t.year % 256) as u8, t.month, t.day, t.hour, t.minute, t.second]
}

/// Writes a tIME payload.
pub fn encode_time_payload(timestamp: PngTimestamp) -> (r: [u8; 7])
    ensures
        r@ == time_bytes(timestamp),
{
    let r = [
        (timestamp.year / 256) as u8,
        (timestamp.year % 256) as u8,
        timestamp.month,
        timestamp.day,
        timestamp.hour,
        timestamp.minute,
        timestamp.second,
    ];
    assert(r@ =~= time_bytes(timestamp));
    r
}

/// A keyword's UTF-8 bytes and the zero byte after them, when it has 1 to
/// 79 bytes and no zero byte.
pub open spec fn keyword_value(kw: Seq<char>) -> Result<Seq<u8>, PngParseError> {
    let b = vstd::utf8::encode_utf8(kw);
    if kw.len() == 0 || b.len() > 79 || b.contains(0u8) {
        Err(PngParseError::InvalidTextChunk)
    } else {
        Ok(b.push(0u8))
    }
}

/// Writes a keyword and its terminating zero byte.
pub fn encode_text_keyword(keyword: &str) -> (r: Result<Vec<u8>, PngParseError>)
    ensures
        match r {
            Ok(v) => keyword_value(keyword@) == Ok::<Seq<u8>, PngParseError>(v@),
            Err(e) => keyword_value(keyword@) == Err::<Seq<u8>, PngParseError>(e),
        },
{
    let bytes = keyword.as_bytes();
    proof {
        assert(bytes@ == vstd::utf8::encode_utf8(keyword@));
    }
    let empty = keyword.is_empty();
    if empty || bytes.len() > 79 {
        assert(keyword@.len() == 0 || vstd::utf8::encode_utf8(keyword@).len() > 79);
        assert(keyword_value(keyword@) is Err);
        return Err(PngParseError::InvalidTextChunk);
    }
    let mut i: usize = 0;
    while i < bytes.len()
        invariant
            bytes@ == vstd::utf8::encode_utf8(keyword@),
            keyword@.len() != 0,
            bytes@.len() <= 79,
            i <= bytes@.len(),
            forall|k: int| 0 <= k < i ==> #[trigger] bytes@[k] != 0u8,
        decreases bytes@.len() - i,
    {
        if bytes[i] == 0 {
            assert(bytes@.contains(0u8));
            return Err(PngParseError::InvalidTextChunk);
        }
        i = i + 1;
    }
    let mut out: Vec<u8> = Vec::new();
    extend_bytes(&mut out, bytes);
    out.push(0);
    assert(out@ =~= bytes@.push(0u8));
    Ok(out)
}

/// The UTF-8 bytes of a string.
fn string_bytes(s: &String) -> (r: &[u8])
    ensures
        r@ == vstd::utf8::encode_utf8(s@),
{
    s.as_str().as_bytes()
}

/// A tEXt payload.
pub open spec fn text_bytes(t: TextModel) -> Result<Seq<u8>, PngParseError> {
    match keyword_value(t.keyword) {
        Err(e) => Err(e),
        Ok(k) => Ok(k + vstd::utf8::encode_utf8(t.text)),
    }
}

/// Writes a tEXt payload.
pub fn encode_text_payload(text: &TextChunk) -> (r: Result<Vec<u8>, PngParseError>)
    ensures
        match r {
            Ok(v) => text_bytes(text@) == Ok::<Seq<u8>, PngParseError>(v@),
            Err(e) => text_bytes(text@) == Err::<Seq<u8>, PngParseError>(e),
        },
{
    let mut payload = match encode_text_keyword(text.keyword.as_str()) {
        Ok(v) => v,
        Err(e) => return Err(e),
    };
    extend_bytes(&mut payload, string_bytes(&text.text));
    Ok(payload)
}

/// What compressing `data` gives: the zlib stream, or `DeflateFailed`
/// where `flate2` reports an error.
pub open spec fn deflated_value(data: Seq<u8>) -> Result<Seq<u8>, PngParseError> {
    match zlib::zlib_deflate_outcome(data) {
        Some(z) => Ok(z),
        None => Err(PngParseError::DeflateFailed),
    }
}

/// Compresses with `flate2`; a failure of the compressor is reported as
/// `DeflateFailed`.
fn deflate_zlib_payload(payload: &[u8]) -> (r: Result<Vec<u8>, PngParseError>)
    ensures
        bytes_view(r) == deflated_value(payload@),
{
    match zlib::deflate_zlib(payload) {
        Some(v) => Ok(v),
        None => Err(PngParseError::DeflateFailed),
    }
}

/// A zTXt payload, with the text compressed.
pub open spec fn ztxt_bytes(t: TextModel) -> Result<Seq<u8>, PngParseError> {
    match keyword_value(t.keyword) {
        Err(e) => Err(e),
        Ok(k) => match deflated_value(vstd::utf8::encode_utf8(t.text)) {
            Err(e) => Err(e),
            Ok(z) => Ok(k.push(0u8) + z),
        },
    }
}

/// The value of a byte-vector result.
pub open spec fn bytes_view(r: Result<Vec<u8>, PngParseError>) -> Result<Seq<u8>, PngParseError> {
    encode::bytes_view(r)
}

/// Writes a zTXt payload.
pub fn encode_ztxt_payload(text: &TextChunk) -> (r: Result<Vec<u8>, PngParseError>)
    ensures
        bytes_view(r) == ztxt_bytes(text@),
{
    let mut payload = match encode_text_keyword(text.keyword.as_str()) {
        Ok(v) => v,
        Err(e) => return Err(e),
    };
    payload.push(0);
    let compressed = match deflate_zlib_payload(string_bytes(&text.text)) {
        Ok(v) => v,
        Err(e) => return Err(e),
    };
    extend_bytes(&mut payload, compressed.as_slice());
    Ok(payload)
}

/// An iTXt payload.
pub open spec fn itxt_bytes(t: InternationalTextModel) -> Result<Seq<u8>, PngParseError> {
    match keyword_value(t.keyword) {
        Err(e) => Err(e),
        Ok(k) => {
            let text = vstd::utf8::encode_utf8(t.text);
            let head = k + seq![if t.compressed { 1u8 } else { 0u8 }, 0u8] + vstd::utf8::encode_utf8(t.language_tag).push(0u8)
                + vstd::utf8::encode_utf8(t.translated_keyword).push(0u8);
            if t.compressed {
                match deflated_value(text) {
                    Err(e) => Err(e),
                    Ok(z) => Ok(head + z),
                }
            } else {
                Ok(head + text)
            }
        },
    }
}

/// Writes an iTXt payload, compressing the text when asked to.
pub fn encode_itxt_payload(text: &InternationalTextChunk) -> (r: Result<Vec<u8>, PngParseError>)
    ensures
        bytes_view(r) == itxt_bytes(text@),
{
    let mut payload = match encode_text_keyword(text.keyword.as_str()) {
        Ok(v) => v,
        Err(e) => return Err(e),
    };
    let ghost k = payload@;
    payload.push(if text.compressed { 1 } else { 0 });
    payload.push(0);
    extend_bytes(&mut payload, string_bytes(&text.language_tag));
    payload.push(0);
    extend_bytes(&mut payload, string_bytes(&text.translated_keyword));
    payload.push(0);
    let ghost head = payload@;
    if text.compressed {
        let compressed = match deflate_zlib_payload(string_bytes(&text.text)) {
            Ok(v) => v,
            Err(e) => return Err(e),
        };
        extend_bytes(&mut payload, compressed.as_slice());
    } else {
        extend_bytes(&mut payload, string_bytes(&text.text));
    }
    proof {
        let t = text@;
        assert(head =~= k + seq![if t.compressed { 1u8 } else { 0u8 }, 0u8] + vstd::utf8::encode_utf8(t.language_tag).push(0u8)
            + vstd::utf8::encode_utf8(t.translated_keyword).push(0u8));
    }
    Ok(payload)
}

/// An iCCP payload, with the profile compressed.
pub open spec fn iccp_bytes(p: IccModel) -> Result<Seq<u8>, PngParseError> {
    match keyword_value(p.name) {
        Err(e) => Err(e),
        Ok(k) => match deflated_value(p.profile) {
            Err(e) => Err(e),
            Ok(z) => Ok(k.push(0u8) + z),
        },
    }
}

/// Writes an iCCP payload.
pub fn encode_iccp_payload(profile: &IccProfile) -> (r: Result<Vec<u8>, PngParseError>)
    ensures
        bytes_view(r) == iccp_bytes(profile@),
{
    let mut payload = match encode_text_keyword(profile.name.as_str()) {
        Ok(v) => v,
        Err(e) => return Err(e),
    };
    payload.push(0);
    let compressed = match deflate_zlib_payload(profile.profile.as_slice()) {
        Ok(v) => v,
        Err(e) => return Err(e),
    };
    extend_bytes(&mut payload, compressed.as_slice());
    Ok(payload)
}

/// Appending a chunk whose payload is `payload` to `acc`.
pub open spec fn then_frame(acc: Result<Seq<u8>, PngParseError>, kind: [u8; 4], payload: Result<Seq<u8>, PngParseError>) -> Result<Seq<u8>, PngParseError> {
    match acc {
        Err(e) => Err(e),
        Ok(a) => match payload {
            Err(e) => Err(e),
            Ok(p) => match frame_value(kind, p) {
                Err(e) => Err(e),
                Ok(b) => Ok(a + b),
            },
        },
    }
}

/// The chunks of the first `n` text chunks of a kind appended to `acc`.
pub open spec fn text_frames(acc: Result<Seq<u8>, PngParseError>, kind: [u8; 4], ts: Seq<TextModel>, compressed: bool, n: int) -> Result<Seq<u8>, PngParseError>
    decreases n,
{
    if n <= 0 {
        acc
    } else {
        let prev = text_frames(acc, kind, ts, compressed, n - 1);
        then_frame(prev, kind, if compressed { ztxt_bytes(ts[n - 1]) } else { text_bytes(ts[n - 1]) })
    }
}

/// The chunks of the first `n` international text chunks appended to `acc`.
pub open spec fn itxt_frames(acc: Result<Seq<u8>, PngParseError>, ts: Seq<InternationalTextModel>, n: int) -> Result<Seq<u8>, PngParseError>
    decreases n,
{
    if n <= 0 {
        acc
    } else {
        then_frame(itxt_frames(acc, ts, n - 1), [105u8, 84u8, 88u8, 116u8], itxt_bytes(ts[n - 1]))
    }
}

/// The metadata chunks written after stage `s` of nine: gAMA, cHRM,
/// sRGB, iCCP, pHYs, tIME, the tEXt, zTXt and iTXt chunks, or the first
/// error, a failure of the compressor among them.
pub open spec fn meta_stage(m: MetadataModel, s: int) -> Result<Seq<u8>, PngParseError>
    decreases s,
{
    if s <= 0 {
        Ok(Seq::empty())
    } else {
        let prev = meta_stage(m, s - 1);
        if s == 1 {
            match m.gamma_scaled { Some(g) => then_frame(prev, [103u8, 65u8, 77u8, 65u8], Ok(octets::be_bytes_u32(g))), None => prev }
        } else if s == 2 {
            match m.chromaticities { Some(c) => then_frame(prev, [99u8, 72u8, 82u8, 77u8], Ok(chrm_bytes(c))), None => prev }
        } else if s == 3 {
            match m.srgb_rendering_intent { Some(i) => then_frame(prev, [115u8, 82u8, 71u8, 66u8], Ok(seq![srgb_byte(i)])), None => prev }
        } else if s == 4 {
            match m.icc_profile { Some(p) => then_frame(prev, [105u8, 67u8, 67u8, 80u8], iccp_bytes(p)), None => prev }
        } else if s == 5 {
            match m.physical_pixel_dimensions { Some(p) => then_frame(prev, [112u8, 72u8, 89u8, 115u8], Ok(phys_bytes(p))), None => prev }
        } else if s == 6 {
            match m.timestamp { Some(t) => then_frame(prev, [116u8, 73u8, 77u8, 69u8], Ok(time_bytes(t))), None => prev }
        } else if s == 7 {
            text_frames(prev, [116u8, 69u8, 88u8, 116u8], m.text_chunks, false, m.text_chunks.len() as int)
        } else if s == 8 {
            text_frames(prev, [122u8, 84u8, 88u8, 116u8], m.compressed_text_chunks, true, m.compressed_text_chunks.len() as int)
        } else {
            itxt_frames(prev, m.international_text_chunks, m.international_text_chunks.len() as int)
        }
    }
}

/// The metadata chunks, in the order the encoder writes them, or the first
/// error.
pub open spec fn metadata_bytes(m: MetadataModel) -> Result<Seq<u8>, PngParseError> {
    meta_stage(m, 9)
}

pub(crate) proof fn lemma_text_frames_err(acc: Result<Seq<u8>, PngParseError>, kind: [u8; 4], ts: Seq<TextModel>, c: bool, n: int)
    requires
        acc is Err,
    ensures
        text_frames(acc, kind, ts, c, n) == acc,
    decreases n,
{
    if n > 0 {
        lemma_text_frames_err(acc, kind, ts, c, n - 1);
    }
}

pub(crate) proof fn lemma_itxt_frames_err(acc: Result<Seq<u8>, PngParseError>, ts: Seq<InternationalTextModel>, n: int)
    requires
        acc is Err,
    ensures
        itxt_frames(acc, ts, n) == acc,
    decreases n,
{
    if n > 0 {
        lemma_itxt_frames_err(acc, ts, n - 1);
    }
}

/// An error at one stage is the error of the whole.
proof fn lemma_meta_err(m: MetadataModel, s: int, t: int)
    requires
        0 <= s <= t,
        meta_stage(m, s) is Err,
    ensures
        meta_stage(m, t) == meta_stage(m, s),
    decreases t - s,
{
    if t > s {
        lemma_meta_err(m, s, t - 1);
        let prev = meta_stage(m, t - 1);
        lemma_text_frames_err(prev, [116u8, 69u8, 88u8, 116u8], m.text_chunks, false, m.text_chunks.len() as int);
        lemma_text_frames_err(prev, [122u8, 84u8, 88u8, 116u8], m.compressed_text_chunks, true, m.compressed_text_chunks.len() as int);
        lemma_itxt_frames_err(prev, m.international_text_chunks, m.international_text_chunks.len() as int);
    }
}

/// `out` after `r` from writing, when the expected outcome is `expected`:
/// the expected bytes were appended, or the expected error came.
pub open spec fn wrote(before: Seq<u8>, after: Seq<u8>, expected: Result<Seq<u8>, PngParseError>, r: Result<(), PngParseError>) -> bool {
    match r {
        Ok(()) => expected == Ok::<Seq<u8>, PngParseError>(after.subrange(before.len() as int, after.len() as int))
            && after.subrange(0, before.len() as int) == before,
        Err(e) => expected == Err::<Seq<u8>, PngParseError>(e),
    }
}

/// Appends one chunk to the bytes `acc` already written after `base`.
fn append_step(
    output: &mut Vec<u8>,
    kind: [u8; 4],
    payload: Result<Vec<u8>, PngParseError>,
    Ghost(base): Ghost<Seq<u8>>,
    Ghost(acc): Ghost<Seq<u8>>,
    Ghost(expected): Ghost<Result<Seq<u8>, PngParseError>>,
) -> (r: Result<(), PngParseError>)
    requires
        old(output)@ == base + acc,
        bytes_view(payload) == expected,
    ensures
        match r {
            Ok(()) => then_frame(Ok(acc), kind, expected) matches Ok(a) && final(output)@ == base + a,
            Err(e) => then_frame(Ok(acc), kind, expected) == Err::<Seq<u8>, PngParseError>(e),
        },
{
    let p = match payload {
        Ok(p) => p,
        Err(e) => return Err(e),
    };
    let r = append_png_chunk(output, kind, p.as_slice());
    proof {
        if r is Ok {
            assert(final(output)@ =~= base + (acc + frame_value(kind, p@)->Ok_0));
        }
    }
    r
}

/// `output` holds `base` and the bytes of metadata stage `k - 1`; after `r`
/// it holds the bytes of stage `k`, or `r` is that stage's error or the
/// compressor's failure.
pub open spec fn stage_written(m: MetadataModel, k: int, base: Seq<u8>, after: Seq<u8>, r: Result<(), PngParseError>) -> bool {
    match r {
        Ok(()) => meta_stage(m, k) matches Ok(a) && after == base + a,
        Err(e) => meta_stage(m, k) == Err::<Seq<u8>, PngParseError>(e),
    }
}

fn append_gamma_stage(output: &mut Vec<u8>, metadata: &PngMetadata, Ghost(base): Ghost<Seq<u8>>) -> (r: Result<(), PngParseError>)
    requires
        meta_stage(metadata@, 0) matches Ok(a) && old(output)@ == base + a,
    ensures
        stage_written(metadata@, 1, base, final(output)@, r),
{
    let ghost acc = meta_stage(metadata@, 0)->Ok_0;
    if let Some(g) = metadata.gamma_scaled {
        let mut p: Vec<u8> = Vec::new();
        push_be_u32(&mut p, g);
        assert(p@ =~= octets::be_bytes_u32(g));
        return append_step(output, [103, 65, 77, 65], Ok(p), Ghost(base), Ghost(acc), Ghost(Ok(octets::be_bytes_u32(g))));
    }
    Ok(())
}

fn append_chromaticities_stage(output: &mut Vec<u8>, metadata: &PngMetadata, Ghost(base): Ghost<Seq<u8>>) -> (r: Result<(), PngParseError>)
    requires
        meta_stage(metadata@, 1) matches Ok(a) && old(output)@ == base + a,
    ensures
        stage_written(metadata@, 2, base, final(output)@, r),
{
    let ghost acc = meta_stage(metadata@, 1)->Ok_0;
    if let Some(c) = metadata.chromaticities {
        return append_step(output, [99, 72, 82, 77], Ok(encode_chrm_payload(c)), Ghost(base), Ghost(acc), Ghost(Ok(chrm_bytes(c))));
    }
    Ok(())
}

fn append_srgb_stage(output: &mut Vec<u8>, metadata: &PngMetadata, Ghost(base): Ghost<Seq<u8>>) -> (r: Result<(), PngParseError>)
    requires
        meta_stage(metadata@, 2) matches Ok(a) && old(output)@ == base + a,
    ensures
        stage_written(metadata@, 3, base, final(output)@, r),
{
    let ghost acc = meta_stage(metadata@, 2)->Ok_0;
    if let Some(i) = metadata.srgb_rendering_intent {
        let b = encode_srgb_intent(i);
        let p = vec![b];
        assert(p@ =~= seq![srgb_byte(i)]);
        return append_step(output, [115, 82, 71, 66], Ok(p), Ghost(base), Ghost(acc), Ghost(Ok(seq![srgb_byte(i)])));
    }
    Ok(())
}

fn append_icc_stage(output: &mut Vec<u8>, metadata: &PngMetadata, Ghost(base): Ghost<Seq<u8>>) -> (r: Result<(), PngParseError>)
    requires
        meta_stage(metadata@, 3) matches Ok(a) && old(output)@ == base + a,
    ensures
        stage_written(metadata@, 4, base, final(output)@, r),
{
    let ghost acc = meta_stage(metadata@, 3)->Ok_0;
    if let Some(profile) = &metadata.icc_profile {
        return append_step(output, [105, 67, 67, 80], encode_iccp_payload(profile), Ghost(base), Ghost(acc), Ghost(iccp_bytes(profile@)));
    }
    Ok(())
}

fn append_phys_stage(output: &mut Vec<u8>, metadata: &PngMetadata, Ghost(base): Ghost<Seq<u8>>) -> (r: Result<(), PngParseError>)
    requires
        meta_stage(metadata@, 4) matches Ok(a) && old(output)@ == base + a,
    ensures
        stage_written(metadata@, 5, base, final(output)@, r),
{
    let ghost acc = meta_stage(metadata@, 4)->Ok_0;
    if let Some(ph) = metadata.physical_pixel_dimensions {
        return append_step(output, [112, 72, 89, 115], Ok(encode_phys_payload(ph)), Ghost(base), Ghost(acc), Ghost(Ok(phys_bytes(ph))));
    }
    Ok(())
}

fn append_time_stage(output: &mut Vec<u8>, metadata: &PngMetadata, Ghost(base): Ghost<Seq<u8>>) -> (r: Result<(), PngParseError>)
    requires
        meta_stage(metadata@, 5) matches Ok(a) && old(output)@ == base + a,
    ensures
        stage_written(metadata@, 6, base, final(output)@, r),
{
    let ghost acc = meta_stage(metadata@, 5)->Ok_0;
    if let Some(t) = metadata.timestamp {
        let tb = encode_time_payload(t);
        let p = vstd::slice::slice_to_vec(tb.as_slice());
        return append_step(output, [116, 73, 77, 69], Ok(p), Ghost(base), Ghost(acc), Ghost(Ok(time_bytes(t))));
    }
    Ok(())
}

fn append_text_stage(output: &mut Vec<u8>, metadata: &PngMetadata, Ghost(base): Ghost<Seq<u8>>) -> (r: Result<(), PngParseError>)
    requires
        meta_stage(metadata@, 6) matches Ok(a) && old(output)@ == base + a,
    ensures
        stage_written(metadata@, 7, base, final(output)@, r),
{
    let ghost m = metadata@;
    let ghost start = meta_stage(m, 6);
    let mut i: usize = 0;
    while i < metadata.text_chunks.len()
        invariant
            m == metadata@,
            start == meta_stage(m, 6),
            i <= metadata.text_chunks@.len(),
            text_frames(start, [116u8, 69u8, 88u8, 116u8], m.text_chunks, false, i as int) matches Ok(a) && output@ == base + a,
        decreases metadata.text_chunks@.len() - i,
    {
        let ghost acc = text_frames(start, [116u8, 69u8, 88u8, 116u8], m.text_chunks, false, i as int)->Ok_0;
        assert(m.text_chunks[i as int] == metadata.text_chunks@[i as int]@);
        let r = append_step(output, [116, 69, 88, 116], encode_text_payload(&metadata.text_chunks[i]), Ghost(base), Ghost(acc), Ghost(text_bytes(metadata.text_chunks@[i as int]@)));
        if let Err(e) = r {
            proof {
                let t = text_frames(start, [116u8, 69u8, 88u8, 116u8], m.text_chunks, false, i + 1);
                if t is Err {
                    lemma_text_frames_tail_err(start, [116u8, 69u8, 88u8, 116u8], m.text_chunks, false, i + 1, m.text_chunks.len() as int);
                }
            }
            return Err(e);
        }
        i = i + 1;
    }
    Ok(())
}

fn append_ztxt_stage(output: &mut Vec<u8>, metadata: &PngMetadata, Ghost(base): Ghost<Seq<u8>>) -> (r: Result<(), PngParseError>)
    requires
        meta_stage(metadata@, 7) matches Ok(a) && old(output)@ == base + a,
    ensures
        stage_written(metadata@, 8, base, final(output)@, r),
{
    let ghost m = metadata@;
    let ghost start = meta_stage(m, 7);
    let mut i: usize = 0;
    while i < metadata.compressed_text_chunks.len()
        invariant
            m == metadata@,
            start == meta_stage(m, 7),
            i <= metadata.compressed_text_chunks@.len(),
            text_frames(start, [122u8, 84u8, 88u8, 116u8], m.compressed_text_chunks, true, i as int) matches Ok(a) && output@ == base + a,
        decreases metadata.compressed_text_chunks@.len() - i,
    {
        let ghost acc = text_frames(start, [122u8, 84u8, 88u8, 116u8], m.compressed_text_chunks, true, i as int)->Ok_0;
        assert(m.compressed_text_chunks[i as int] == metadata.compressed_text_chunks@[i as int]@);
        let r = append_step(output, [122, 84, 88, 116], encode_ztxt_payload(&metadata.compressed_text_chunks[i]), Ghost(base), Ghost(acc), Ghost(ztxt_bytes(metadata.compressed_text_chunks@[i as int]@)));
        if let Err(e) = r {
            proof {
                let t = text_frames(start, [122u8, 84u8, 88u8, 116u8], m.compressed_text_chunks, true, i + 1);
                if t is Err {
                    lemma_text_frames_tail_err(start, [122u8, 84u8, 88u8, 116u8], m.compressed_text_chunks, true, i + 1, m.compressed_text_chunks.len() as int);
                }
            }
            return Err(e);
        }
        i = i + 1;
    }
    Ok(())
}

fn append_itxt_stage(output: &mut Vec<u8>, metadata: &PngMetadata, Ghost(base): Ghost<Seq<u8>>) -> (r: Result<(), PngParseError>)
    requires
        meta_stage(metadata@, 8) matches Ok(a) && old(output)@ == base + a,
    ensures
        stage_written(metadata@, 9, base, final(output)@, r),
{
    let ghost m = metadata@;
    let ghost start = meta_stage(m, 8);
    let mut i: usize = 0;
    while i < metadata.international_text_chunks.len()
        invariant
            m == metadata@,
            start == meta_stage(m, 8),
            i <= metadata.international_text_chunks@.len(),
            itxt_frames(start, m.international_text_chunks, i as int) matches Ok(a) && output@ == base + a,
        decreases metadata.international_text_chunks@.len() - i,
    {
        let ghost acc = itxt_frames(start, m.international_text_chunks, i as int)->Ok_0;
        assert(m.international_text_chunks[i as int] == metadata.international_text_chunks@[i as int]@);
        let r = append_step(output, [105, 84, 88, 116], encode_itxt_payload(&metadata.international_text_chunks[i]), Ghost(base), Ghost(acc), Ghost(itxt_bytes(metadata.international_text_chunks@[i as int]@)));
        if let Err(e) = r {
            proof {
                let t = itxt_frames(start, m.international_text_chunks, i + 1);
                if t is Err {
                    lemma_itxt_frames_tail_err(start, m.international_text_chunks, i + 1, m.international_text_chunks.len() as int);
                }
            }
            return Err(e);
        }
        i = i + 1;
    }
    Ok(())
}

/// Writes the metadata chunks: gAMA, cHRM, sRGB, iCCP, pHYs, tIME, then
/// each tEXt, zTXt and iTXt chunk.
pub fn append_metadata_chunks(output: &mut Vec<u8>, metadata: &PngMetadata) -> (r: Result<(), PngParseError>)
    ensures
        match r {
            Ok(()) => metadata_bytes(metadata@) matches Ok(a) && final(output)@ == old(output)@ + a,
            Err(e) => metadata_bytes(metadata@) == Err::<Seq<u8>, PngParseError>(e),
        },
{
    let ghost m = metadata@;
    let ghost base = output@;
    assert(output@ =~= base + Seq::<u8>::empty());
    if let Err(e) = append_gamma_stage(output, metadata, Ghost(base)) {
        proof {
            if meta_stage(m, 1) is Err {
                lemma_meta_err(m, 1, 9);
            }
        }
        return Err(e);
    }
    if let Err(e) = append_chromaticities_stage(output, metadata, Ghost(base)) {
        proof {
            if meta_stage(m, 2) is Err {
                lemma_meta_err(m, 2, 9);
            }
        }
        return Err(e);
    }
    if let Err(e) = append_srgb_stage(output, metadata, Ghost(base)) {
        proof {
            if meta_stage(m, 3) is Err {
                lemma_meta_err(m, 3, 9);
            }
        }
        return Err(e);
    }
    if let Err(e) = append_icc_stage(output, metadata, Ghost(base)) {
        proof {
            if meta_stage(m, 4) is Err {
                lemma_meta_err(m, 4, 9);
            }
        }
        return Err(e);
    }
    if let Err(e) = append_phys_stage(output, metadata, Ghost(base)) {
        proof {
            if meta_stage(m, 5) is Err {
                lemma_meta_err(m, 5, 9);
            }
        }
        return Err(e);
    }
    if let Err(e) = append_time_stage(output, metadata, Ghost(base)) {
        proof {
            if meta_stage(m, 6) is Err {
                lemma_meta_err(m, 6, 9);
            }
        }
        return Err(e);
    }
    if let Err(e) = append_text_stage(output, metadata, Ghost(base)) {
        proof {
            if meta_stage(m, 7) is Err {
                lemma_meta_err(m, 7, 9);
            }
        }
        return Err(e);
    }
    if let Err(e) = append_ztxt_stage(output, metadata, Ghost(base)) {
        proof {
            if meta_stage(m, 8) is Err {
                lemma_meta_err(m, 8, 9);
            }
        }
        return Err(e);
    }
    if let Err(e) = append_itxt_stage(output, metadata, Ghost(base)) {
        proof {
            if meta_stage(m, 9) is Err {
                lemma_meta_err(m, 9, 9);
            }
        }
        return Err(e);
    }
    Ok(())
}

proof fn lemma_text_frames_tail_err(acc: Result<Seq<u8>, PngParseError>, kind: [u8; 4], ts: Seq<TextModel>, c: bool, k: int, n: int)
    requires
        0 <= k <= n,
        text_frames(acc, kind, ts, c, k) is Err,
    ensures
        text_frames(acc, kind, ts, c, n) == text_frames(acc, kind, ts, c, k),
    decreases n - k,
{
    if n > k {
        lemma_text_frames_tail_err(acc, kind, ts, c, k, n - 1);
    }
}

proof fn lemma_itxt_frames_tail_err(acc: Result<Seq<u8>, PngParseError>, ts: Seq<InternationalTextModel>, k: int, n: int)
    requires
        0 <= k <= n,
        itxt_frames(acc, ts, k) is Err,
    ensures
        itxt_frames(acc, ts, n) == itxt_frames(acc, ts, k),
    decreases n - k,
{
    if n > k {
        lemma_itxt_frames_tail_err(acc, ts, k, n - 1);
    }
}

/// Whether the policy copies an unknown chunk of this type.
pub open spec fn copy_value(kind: [u8; 4], policy: PngCompatUnknownChunkPolicy) -> Result<bool, PngParseError> {
    if !chunk::valid_chunk_type(kind@) {
        Err(PngParseError::InvalidChunkType { bytes: kind })
    } else {
        match policy {
            PngCompatUnknownChunkPolicy::SafeToCopy => Ok(octets::is_lower(kind@[3])),
            PngCompatUnknownChunkPolicy::AllAncillary => Ok(!octets::is_upper(kind@[0])),
            PngCompatUnknownChunkPolicy::CopyNone => Ok(false),
        }
    }
}

/// Decides whether to copy an unknown ancillary chunk.
pub fn should_copy_unknown_chunk(chunk: &UnknownAncillaryChunk, policy: PngCompatUnknownChunkPolicy) -> (r: Result<bool, PngParseError>)
    ensures
        r == copy_value(chunk.chunk_type, policy),
{
    let chunk_type = match ChunkType::from_bytes(chunk.chunk_type) {
        Ok(t) => t,
        Err(e) => return Err(e),
    };
    match policy {
        PngCompatUnknownChunkPolicy::SafeToCopy => Ok(chunk_type.is_safe_to_copy()),
        PngCompatUnknownChunkPolicy::AllAncillary => Ok(chunk_type.is_ancillary()),
        PngCompatUnknownChunkPolicy::CopyNone => Ok(false),
    }
}

/// The bytes after the first `n` unknown chunks are considered, from `acc`.
pub open spec fn unknown_frames(acc: Result<Seq<u8>, PngParseError>, us: Seq<UnknownAncillaryChunk>, policy: PngCompatUnknownChunkPolicy, n: int) -> Result<Seq<u8>, PngParseError>
    decreases n,
{
    if n <= 0 {
        acc
    } else {
        let prev = unknown_frames(acc, us, policy, n - 1);
        match prev {
            Err(e) => Err(e),
            Ok(_) => match copy_value(us[n - 1].chunk_type, policy) {
                Err(e) => Err(e),
                Ok(false) => prev,
                Ok(true) => then_frame(prev, us[n - 1].chunk_type, Ok(us[n - 1].payload@)),
            },
        }
    }
}

pub(crate) proof fn lemma_unknown_frames_tail_err(acc: Result<Seq<u8>, PngParseError>, us: Seq<UnknownAncillaryChunk>, policy: PngCompatUnknownChunkPolicy, k: int, n: int)
    requires
        0 <= k <= n,
        unknown_frames(acc, us, policy, k) is Err,
    ensures
        unknown_frames(acc, us, policy, n) == unknown_frames(acc, us, policy, k),
    decreases n - k,
{
    if n > k {
        lemma_unknown_frames_tail_err(acc, us, policy, k, n - 1);
    }
}

/// Appends the unknown chunks the policy copies.
fn append_unknown_chunks(
    output: &mut Vec<u8>,
    chunks: &Vec<UnknownAncillaryChunk>,
    policy: PngCompatUnknownChunkPolicy,
    Ghost(a1): Ghost<Result<Seq<u8>, PngParseError>>,
) -> (r: Result<(), PngParseError>)
    requires
        a1 == Ok::<Seq<u8>, PngParseError>(old(output)@),
    ensures
        match r {
            Ok(()) => unknown_frames(a1, chunks@, policy, chunks@.len() as int) == Ok::<Seq<u8>, PngParseError>(final(output)@),
            Err(e) => unknown_frames(a1, chunks@, policy, chunks@.len() as int) == Err::<Seq<u8>, PngParseError>(e),
        },
{
    let ghost us = chunks@;
    let mut i: usize = 0;
    while i < chunks.len()
        invariant
            us == chunks@,
            i <= us.len(),
            unknown_frames(a1, us, policy, i as int) == Ok::<Seq<u8>, PngParseError>(output@),
        decreases us.len() - i,
    {
        let c = &chunks[i];
        let copy = match should_copy_unknown_chunk(c, policy) {
            Ok(b) => b,
            Err(e) => {
                proof {
                    lemma_unknown_frames_tail_err(a1, us, policy, i + 1, us.len() as int);
                }
                return Err(e);
            },
        };
        if copy {
            match append_png_chunk(output, c.chunk_type, c.payload.as_slice()) {
                Ok(()) => {},
                Err(e) => {
                    proof {
                        lemma_unknown_frames_tail_err(a1, us, policy, i + 1, us.len() as int);
                    }
                    return Err(e);
                },
            }
        }
        i = i + 1;
    }
    Ok(())
}

/// The bytes of a document with the unknown-chunk policy: signature, IHDR,
/// metadata chunks, the copied unknown chunks, one IDAT of unfiltered rows,
/// IEND; or the first error, a failure of the compressor among them.
pub open spec fn document_bytes(doc: PngDocument, policy: PngCompatUnknownChunkPolicy) -> Result<Seq<u8>, PngParseError> {
    let img = doc.image@;
    let head = chunk::png_sig() + chunk_frame(chunk::ihdr_tag(), ihdr_bytes(img.width, img.height, img.bit_depth, chunk::color_byte(img.color_type), 0));
    let a1 = match metadata_bytes(doc.metadata@) {
        Err(e) => Err(e),
        Ok(a) => Ok(head + a),
    };
    let a2 = unknown_frames(a1, doc.unknown_ancillary_chunks@, policy, doc.unknown_ancillary_chunks@.len() as int);
    let a3 = match idat_scanlines(img, PngFilterStrategy::NoFilter) {
        Err(e) => match a2 {
            Err(e2) => Err(e2),
            Ok(_) => Err(e),
        },
        Ok(sc) => then_frame(a2, [73u8, 68u8, 65u8, 84u8], deflated_value(sc)),
    };
    then_frame(a3, [73u8, 69u8, 78u8, 68u8], Ok(Seq::empty()))
}

/// Encodes a document, copying unknown ancillary chunks as the policy says.
pub fn encode_png_document_with_unknown_policy(document: &PngDocument, unknown_chunk_policy: PngCompatUnknownChunkPolicy) -> (r: Result<Vec<u8>, PngParseError>)
    ensures
        match r {
            Ok(out) => document_bytes(*document, unknown_chunk_policy) == Ok::<Seq<u8>, PngParseError>(out@),
            Err(e) => document_bytes(*document, unknown_chunk_policy) == Err::<Seq<u8>, PngParseError>(e),
        },
{
    let ghost doc = *document;
    let ghost img = document.image@;
    let mut output = vec![137u8, 80, 78, 71, 13, 10, 26, 10];
    assert(output@ =~= chunk::png_sig());
    let ihdr = match encode::encode_ihdr_payload(&document.image) {
        Ok(b) => b,
        Err(e) => return Err(e),
    };
    assert([73u8, 72u8, 68u8, 82u8]@ == chunk::ihdr_tag());
    assert([73u8, 68u8, 65u8, 84u8]@ == chunk::idat_tag());
    assert([73u8, 69u8, 78u8, 68u8]@ == chunk::iend_tag());
    match append_png_chunk(&mut output, [73, 72, 68, 82], ihdr.as_slice()) {
        Ok(()) => {},
        Err(e) => return Err(e),
    }
    let ghost head = output@;
    match append_metadata_chunks(&mut output, &document.metadata) {
        Ok(()) => {},
        Err(e) => {
            proof {
                let us = document.unknown_ancillary_chunks@;
                if metadata_bytes(document.metadata@) is Err {
                    lemma_unknown_frames_tail_err(Err(e), us, unknown_chunk_policy, 0, us.len() as int);
                }
            }
            return Err(e);
        },
    }
    let ghost a1 = match metadata_bytes(document.metadata@) {
        Err(e) => Err(e),
        Ok(a) => Ok::<Seq<u8>, PngParseError>(head + a),
    };
    assert(a1 == Ok::<Seq<u8>, PngParseError>(output@));
    let ghost us = document.unknown_ancillary_chunks@;
    match append_unknown_chunks(&mut output, &document.unknown_ancillary_chunks, unknown_chunk_policy, Ghost(a1)) {
        Ok(()) => {},
        Err(e) => return Err(e),
    }
    let ghost a2 = unknown_frames(a1, us, unknown_chunk_policy, us.len() as int);
    let idat = match encode::encode_idat_payload(&document.image, PngFilterStrategy::NoFilter) {
        Ok(v) => v,
        Err(e) => return Err(e),
    };
    match append_png_chunk(&mut output, [73, 68, 65, 84], idat.as_slice()) {
        Ok(()) => {},
        Err(e) => return Err(e),
    }
    let empty: Vec<u8> = Vec::new();
    match append_png_chunk(&mut output, [73, 69, 78, 68], empty.as_slice()) {
        Ok(()) => {},
        Err(e) => return Err(e),
    }
    assert(empty@ =~= Seq::<u8>::empty());
    Ok(output)
}

/// Encodes a document, copying the unknown ancillary chunks that are safe
/// to copy.
pub fn encode_png_document(document: &PngDocument) -> (r: Result<Vec<u8>, PngParseError>)
    ensures
        match r {
            Ok(out) => document_bytes(*document, PngCompatUnknownChunkPolicy::SafeToCopy) == Ok::<Seq<u8>, PngParseError>(out@),
            Err(e) => document_bytes(*document, PngCompatUnknownChunkPolicy::SafeToCopy) == Err::<Seq<u8>, PngParseError>(e),
        },
{
    encode_png_document_with_unknown_policy(document, PngCompatUnknownChunkPolicy::SafeToCopy)
}

} // verus!
