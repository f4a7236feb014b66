//! Metadata chunks: gAMA, cHRM, sRGB, iCCP, pHYs, tIME, tEXt, zTXt, iTXt.
use vstd::prelude::*;
use crate::octets;
use super::types::{
    Chunk, ChunkModel, IccProfile, InternationalTextChunk, PhysicalPixelDimensions, PhysicalPixelUnit,
    PngChromaticities, PngMetadata, PngParseError, PngTimestamp, SrgbRenderingIntent, TextChunk, chunk_models,
};
use super::chunk::tag_is;
use super::zlib;

verus! {

/// Decodes UTF-8 with `String::from_utf8`. Trusted: the result is present
/// exactly when the bytes are valid UTF-8, and then holds the characters
/// they encode.
#[verifier::external_body]
pub(crate) fn utf8_string(bytes: &[u8]) -> (r: Option<String>)
    ensures
        r is Some <==> vstd::utf8::valid_utf8(bytes@),
        r matches Some(s) ==> s@ == vstd::utf8::decode_utf8(bytes@),
{
    String::from_utf8(bytes.to_vec()).ok()
}

/// The characters of valid UTF-8 bytes.
pub open spec fn utf8_value(b: Seq<u8>) -> Option<Seq<char>> {
    if vstd::utf8::valid_utf8(b) { Some(vstd::utf8::decode_utf8(b)) } else { None }
}

/// A text chunk, as values.
pub struct TextModel {
    pub keyword: Seq<char>,
    pub text: Seq<char>,
}

impl View for TextChunk {
    type V = TextModel;

    open spec fn view(&self) -> TextModel {
        TextModel { keyword: self.keyword@, text: self.text@ }
    }
}

/// An international text chunk, as values.
pub struct InternationalTextModel {
    pub keyword: Seq<char>,
    pub language_tag: Seq<char>,
    pub translated_keyword: Seq<char>,
    pub text: Seq<char>,
    pub compressed: bool,
}

impl View for InternationalTextChunk {
    type V = InternationalTextModel;

    open spec fn view(&self) -> InternationalTextModel {
        InternationalTextModel {
            keyword: self.keyword@,
            language_tag: self.language_tag@,
            translated_keyword: self.translated_keyword@,
            text: self.text@,
            compressed: self.compressed,
        }
    }
}

/// An ICC profile chunk, as values.
pub struct IccModel {
    pub name: Seq<char>,
    pub profile: Seq<u8>,
}

impl View for IccProfile {
    type V = IccModel;

    open spec fn view(&self) -> IccModel {
        IccModel { name: self.name@, profile: self.profile@ }
    }
}

/// Metadata, as values.
pub struct MetadataModel {
    pub gamma_scaled: Option<u32>,
    pub chromaticities: Option<PngChromaticities>,
    pub srgb_rendering_intent: Option<SrgbRenderingIntent>,
    pub icc_profile: Option<IccModel>,
    pub physical_pixel_dimensions: Option<PhysicalPixelDimensions>,
    pub timestamp: Option<PngTimestamp>,
    pub text_chunks: Seq<TextModel>,
    pub compressed_text_chunks: Seq<TextModel>,
    pub international_text_chunks: Seq<InternationalTextModel>,
}

impl View for PngMetadata {
    type V = MetadataModel;

    open spec fn view(&self) -> MetadataModel {
        MetadataModel {
            gamma_scaled: self.gamma_scaled,
            chromaticities: self.chromaticities,
            srgb_rendering_intent: self.srgb_rendering_intent,
            icc_profile: match self.icc_profile {
                Some(p) => Some(p@),
                None => None,
            },
            physical_pixel_dimensions: self.physical_pixel_dimensions,
            timestamp: self.timestamp,
            text_chunks: self.text_chunks@.map_values(|t: TextChunk| t@),
            compressed_text_chunks: self.compressed_text_chunks@.map_values(|t: TextChunk| t@),
            international_text_chunks: self.international_text_chunks@.map_values(|t: InternationalTextChunk| t@),
        }
    }
}

/// The error for a metadata payload of the wrong length or contents.
pub open spec fn bad_length(kind: [u8; 4], len: int) -> PngParseError {
    PngParseError::InvalidMetadataLength { chunk_type: kind, length: len as usize }
}

pub open spec fn gama_kind() -> [u8; 4] { [103u8, 65u8, 77u8, 65u8] }
pub open spec fn chrm_kind() -> [u8; 4] { [99u8, 72u8, 82u8, 77u8] }
pub open spec fn srgb_kind() -> [u8; 4] { [115u8, 82u8, 71u8, 66u8] }
pub open spec fn iccp_kind() -> [u8; 4] { [105u8, 67u8, 67u8, 80u8] }
pub open spec fn phys_kind() -> [u8; 4] { [112u8, 72u8, 89u8, 115u8] }
pub open spec fn time_kind() -> [u8; 4] { [116u8, 73u8, 77u8, 69u8] }
pub open spec fn text_kind() -> [u8; 4] { [116u8, 69u8, 88u8, 116u8] }
pub open spec fn ztxt_kind() -> [u8; 4] { [122u8, 84u8, 88u8, 116u8] }
pub open spec fn itxt_kind() -> [u8; 4] { [105u8, 84u8, 88u8, 116u8] }

/// A gAMA payload: one big-endian `u32`.
pub open spec fn gama_value(p: Seq<u8>) -> Result<u32, PngParseError> {
    if p.len() != 4 { Err(bad_length(gama_kind(), p.len() as int)) } else { Ok(octets::be_u32_at(p, 0) as u32) }
}

/// Reads a gAMA payload.
pub fn parse_gama(payload: &[u8]) -> (r: Result<u32, PngParseError>)
    ensures
        r == gama_value(payload@),
{
    if payload.len() != 4 {
        return Err(PngParseError::InvalidMetadataLength { chunk_type: [103, 65, 77, 65], length: payload.len() });
    }
    Ok(octets::read_be_u32(payload, 0))
}

/// A cHRM payload: eight big-endian `u32` values.
pub open spec fn chrm_value(p: Seq<u8>) -> Result<PngChromaticities, PngParseError> {
    if p.len() != 32 {
        Err(bad_length(chrm_kind(), p.len() as int))
    } else {
        Ok(PngChromaticities {
            white_x: octets::be_u32_at(p, 0) as u32,
            white_y: octets::be_u32_at(p, 4) as u32,
            red_x: octets::be_u32_at(p, 8) as u32,
            red_y: octets::be_u32_at(p, 12) as u32,
            green_x: octets::be_u32_at(p, 16) as u32,
            green_y: octets::be_u32_at(p, 20) as u32,
            blue_x: octets::be_u32_at(p, 24) as u32,
            blue_y: octets::be_u32_at(p, 28) as u32,
        })
    }
}

/// Reads a cHRM payload.
pub fn parse_chrm(payload: &[u8]) -> (r: Result<PngChromaticities, PngParseError>)
    ensures
        r == chrm_value(payload@),
{
    if payload.len() != 32 {
        return Err(PngParseError::InvalidMetadataLength { chunk_type: [99, 72, 82, 77], length: payload.len() });
    }
    Ok(PngChromaticities {
        white_x: octets::read_be_u32(payload, 0),
        white_y: octets::read_be_u32(payload, 4),
        red_x: octets::read_be_u32(payload, 8),
        red_y: octets::read_be_u32(payload, 12),
        green_x: octets::read_be_u32(payload, 16),
        green_y: octets::read_be_u32(payload, 20),
        blue_x: octets::read_be_u32(payload, 24),
        blue_y: octets::read_be_u32(payload, 28),
    })
}

/// An sRGB payload: one rendering-intent byte below 4.
pub open spec fn srgb_value(p: Seq<u8>) -> Result<SrgbRenderingIntent, PngParseError> {
    if p.len() != 1 {
        Err(bad_length(srgb_kind(), p.len() as int))
    } else if p[0] == 0 {
        Ok(SrgbRenderingIntent::Perceptual)
    } else if p[0] == 1 {
        Ok(SrgbRenderingIntent::RelativeColorimetric)
    } else if p[0] == 2 {
        Ok(SrgbRenderingIntent::Saturation)
    } else if p[0] == 3 {
        Ok(SrgbRenderingIntent::AbsoluteColorimetric)
    } else {
        Err(bad_length(srgb_kind(), 1))
    }
}

/// Reads an sRGB payload.
pub fn parse_srgb(payload: &[u8]) -> (r: Result<SrgbRenderingIntent, PngParseError>)
    ensures
        r == srgb_value(payload@),
{
    if payload.len() != 1 {
        return Err(PngParseError::InvalidMetadataLength { chunk_type: [115, 82, 71, 66], length: payload.len() });
    }
    match payload[0] {
        0 => Ok(SrgbRenderingIntent::Perceptual),
        1 => Ok(SrgbRenderingIntent::RelativeColorimetric),
        2 => Ok(SrgbRenderingIntent::Saturation),
        3 => Ok(SrgbRenderingIntent::AbsoluteColorimetric),
        _ => Err(PngParseError::InvalidMetadataLength { chunk_type: [115, 82, 71, 66], length: payload.len() }),
    }
}

/// A pHYs payload: two big-endian `u32` values and a unit byte below 2.
pub open spec fn phys_value(p: Seq<u8>) -> Result<PhysicalPixelDimensions, PngParseError> {
    if p.len() != 9 || p[8] > 1 {
        Err(bad_length(phys_kind(), p.len() as int))
    } else {
        Ok(PhysicalPixelDimensions {
            pixels_per_unit_x: octets::be_u32_at(p, 0) as u32,
            pixels_per_unit_y: octets::be_u32_at(p, 4) as u32,
            unit: if p[8] == 0 { PhysicalPixelUnit::Unknown } else { PhysicalPixelUnit::Meter },
        })
    }
}

/// Reads a pHYs payload.
pub fn parse_phys(payload: &[u8]) -> (r: Result<PhysicalPixelDimensions, PngParseError>)
    ensures
        r == phys_value(payload@),
{
    if payload.len() != 9 {
        return Err(PngParseError::InvalidMetadataLength { chunk_type: [112, 72, 89, 115], length: payload.len() });
    }
    let x = octets::read_be_u32(payload, 0);
    let y = octets::read_be_u32(payload, 4);
    let unit = match payload[8] {
        0 => PhysicalPixelUnit::Unknown,
        1 => PhysicalPixelUnit::Meter,
        _ => {
            return Err(PngParseError::InvalidMetadataLength { chunk_type: [112, 72, 89, 115], length: payload.len() });
        },
    };
    Ok(PhysicalPixelDimensions { pixels_per_unit_x: x, pixels_per_unit_y: y, unit })
}

/// A tIME payload: a big-endian year and five bytes.
pub open spec fn time_value(p: Seq<u8>) -> Result<PngTimestamp, PngParseError> {
    if p.len() != 7 {
        Err(bad_length(time_kind(), p.len() as int))
    } else {
        Ok(PngTimestamp {
            year: octets::be_u16_at(p, 0) as u16,
            month: p[2],
            day: p[3],
            hour: p[4],
            minute: p[5],
            second: p[6],
        })
    }
}

/// Reads a tIME payload.
pub fn parse_time(payload: &[u8]) -> (r: Result<PngTimestamp, PngParseError>)
    ensures
        r == time_value(payload@),
{
    if payload.len() != 7 {
        return Err(PngParseError::InvalidMetadataLength { chunk_type: [116, 73, 77, 69], length: payload.len() });
    }
    let year = (payload[0] as u16) * 256 + (payload[1] as u16);
    Ok(PngTimestamp { year, month: payload[2], day: payload[3], hour: payload[4], minute: payload[5], second: payload[6] })
}

/// The position of the first zero byte of `p` at or after `i`.
pub open spec fn first_zero(p: Seq<u8>, i: int) -> Option<int>
    decreases p.len() - i,
{
    if i < 0 || i >= p.len() {
        None
    } else if p[i] == 0 {
        Some(i)
    } else {
        first_zero(p, i + 1)
    }
}

/// The bytes before the first zero byte and the bytes after it.
pub open spec fn null_split(p: Seq<u8>) -> Option<(Seq<u8>, Seq<u8>)> {
    match first_zero(p, 0) {
        None => None,
        Some(z) => Some((p.subrange(0, z), p.subrange(z + 1, p.len() as int))),
    }
}

/// Splits at the first zero byte.
pub fn split_null_terminated(input: &[u8]) -> (r: Result<(&[u8], &[u8]), PngParseError>)
    ensures
        match r {
            Ok((a, b)) => null_split(input@) == Some((a@, b@)),
            Err(e) => null_split(input@) is None && e == PngParseError::InvalidTextChunk,
        },
{
    let mut i: usize = 0;
    while i < input.len()
        invariant
            i <= input@.len(),
            first_zero(input@, 0) == first_zero(input@, i as int),
        decreases input@.len() - i,
    {
        if input[i] == 0 {
            let a = &input[0..i];
            let b = &input[i + 1..input.len()];
            assert(a@ == input@.subrange(0, i as int));
            assert(b@ == input@.subrange(i + 1, input@.len() as int));
            return Ok((a, b));
        }
        i = i + 1;
    }
    Err(PngParseError::InvalidTextChunk)
}

/// A keyword of 1 to 79 bytes of UTF-8, ended by a zero byte, and what
/// follows it.
pub open spec fn keyword_split(p: Seq<u8>) -> Result<(Seq<char>, Seq<u8>), PngParseError> {
    match null_split(p) {
        None => Err(PngParseError::InvalidTextChunk),
        Some((k, rest)) => if k.len() == 0 || k.len() > 79 {
            Err(PngParseError::InvalidTextChunk)
        } else {
            match utf8_value(k) {
                None => Err(PngParseError::InvalidTextChunk),
                Some(kw) => Ok((kw, rest)),
            }
        },
    }
}

/// Splits a keyword from the rest of a payload.
pub fn split_keyword_payload(payload: &[u8]) -> (r: Result<(String, &[u8]), PngParseError>)
    ensures
        match r {
            Ok((k, rest)) => keyword_split(payload@) == Ok::<(Seq<char>, Seq<u8>), PngParseError>((k@, rest@)),
            Err(e) => keyword_split(payload@) == Err::<(Seq<char>, Seq<u8>), PngParseError>(e),
        },
{
    let (keyword, remainder) = match split_null_terminated(payload) {
        Ok(p) => p,
        Err(e) => return Err(e),
    };
    if keyword.len() == 0 || keyword.len() > 79 {
        return Err(PngParseError::InvalidTextChunk);
    }
    match utf8_string(keyword) {
        Some(k) => Ok((k, remainder)),
        None => Err(PngParseError::InvalidTextChunk),
    }
}

/// A tEXt payload.
pub open spec fn text_value(p: Seq<u8>) -> Result<TextModel, PngParseError> {
    match keyword_split(p) {
        Err(e) => Err(e),
        Ok((kw, rest)) => match utf8_value(rest) {
            None => Err(PngParseError::InvalidTextChunk),
            Some(t) => Ok(TextModel { keyword: kw, text: t }),
        },
    }
}

/// The value of a text-chunk result.
pub open spec fn text_view(r: Result<TextChunk, PngParseError>) -> Result<TextModel, PngParseError> {
    match r {
        Ok(t) => Ok(t@),
        Err(e) => Err(e),
    }
}

/// Reads a tEXt payload.
pub fn parse_text(payload: &[u8]) -> (r: Result<TextChunk, PngParseError>)
    ensures
        text_view(r) == text_value(payload@),
{
    let (keyword, rest) = match split_keyword_payload(payload) {
        Ok(p) => p,
        Err(e) => return Err(e),
    };
    match utf8_string(rest) {
        Some(text) => Ok(TextChunk { keyword, text }),
        None => Err(PngParseError::InvalidTextChunk),
    }
}

/// A compression-method byte, then a zlib stream.
pub open spec fn compressed_value(kind: [u8; 4], rest: Seq<u8>) -> Result<Seq<u8>, PngParseError> {
    if rest.len() == 0 {
        Err(PngParseError::InvalidTextChunk)
    } else if rest[0] != 0 {
        Err(PngParseError::InvalidMetadataCompressionMethod { chunk_type: kind, method: rest[0] })
    } else {
        match zlib::zlib_inflated(rest.subrange(1, rest.len() as int)) {
            None => Err(PngParseError::InflateFailed),
            Some(d) => Ok(d),
        }
    }
}

/// Reads the compression-method byte and inflates the zlib stream after it.
fn inflate_after_method(kind: [u8; 4], rest: &[u8]) -> (r: Result<Vec<u8>, PngParseError>)
    ensures
        match r {
            Ok(v) => compressed_value(kind, rest@) == Ok::<Seq<u8>, PngParseError>(v@),
            Err(e) => compressed_value(kind, rest@) == Err::<Seq<u8>, PngParseError>(e),
        },
{
    if rest.len() == 0 {
        return Err(PngParseError::InvalidTextChunk);
    }
    let method = rest[0];
    if method != 0 {
        return Err(PngParseError::InvalidMetadataCompressionMethod { chunk_type: kind, method });
    }
    let data = &rest[1..rest.len()];
    assert(data@ == rest@.subrange(1, rest@.len() as int));
    match zlib::inflate_zlib(data) {
        Some(v) => Ok(v),
        None => Err(PngParseError::InflateFailed),
    }
}

/// A zTXt payload.
pub open spec fn ztxt_value(p: Seq<u8>) -> Result<TextModel, PngParseError> {
    match keyword_split(p) {
        Err(e) => Err(e),
        Ok((kw, rest)) => match compressed_value(ztxt_kind(), rest) {
            Err(e) => Err(e),
            Ok(d) => match utf8_value(d) {
                None => Err(PngParseError::InvalidTextChunk),
                Some(t) => Ok(TextModel { keyword: kw, text: t }),
            },
        },
    }
}

/// Reads a zTXt payload.
pub fn parse_ztxt(payload: &[u8]) -> (r: Result<TextChunk, PngParseError>)
    ensures
        text_view(r) == ztxt_value(payload@),
{
    let (keyword, rest) = match split_keyword_payload(payload) {
        Ok(p) => p,
        Err(e) => return Err(e),
    };
    let data = match inflate_after_method([122, 84, 88, 116], rest) {
        Ok(d) => d,
        Err(e) => return Err(e),
    };
    match utf8_string(data.as_slice()) {
        Some(text) => Ok(TextChunk { keyword, text }),
        None => Err(PngParseError::InvalidTextChunk),
    }
}

/// An iTXt payload.
pub open spec fn itxt_value(p: Seq<u8>) -> Result<InternationalTextModel, PngParseError> {
    match keyword_split(p) {
        Err(e) => Err(e),
        Ok((kw, rest)) => if rest.len() < 2 || rest[0] > 1 {
            Err(PngParseError::InvalidTextChunk)
        } else if rest[1] != 0 {
            Err(PngParseError::InvalidMetadataCompressionMethod { chunk_type: itxt_kind(), method: rest[1] })
        } else {
            match null_split(rest.subrange(2, rest.len() as int)) {
                None => Err(PngParseError::InvalidTextChunk),
                Some((lang, after)) => match null_split(after) {
                    None => Err(PngParseError::InvalidTextChunk),
                    Some((tk, body)) => {
                        let text = if rest[0] == 1 {
                            match zlib::zlib_inflated(body) {
                                None => Err(PngParseError::InflateFailed),
                                Some(d) => Ok(d),
                            }
                        } else {
                            Ok(body)
                        };
                        match text {
                            Err(e) => Err(e),
                            Ok(tb) => match (utf8_value(lang), utf8_value(tk), utf8_value(tb)) {
                                (Some(l), Some(t), Some(x)) => Ok(InternationalTextModel {
                                    keyword: kw,
                                    language_tag: l,
                                    translated_keyword: t,
                                    text: x,
                                    compressed: rest[0] == 1,
                                }),
                                _ => Err(PngParseError::InvalidTextChunk),
                            },
                        }
                    },
                },
            }
        },
    }
}

/// The value of an international-text result.
pub open spec fn itxt_view(r: Result<InternationalTextChunk, PngParseError>) -> Result<InternationalTextModel, PngParseError> {
    match r {
        Ok(t) => Ok(t@),
        Err(e) => Err(e),
    }
}

/// Reads an iTXt payload.
pub fn parse_itxt(payload: &[u8]) -> (r: Result<InternationalTextChunk, PngParseError>)
    ensures
        itxt_view(r) == itxt_value(payload@),
{
    let (keyword, rest) = match split_keyword_payload(payload) {
        Ok(p) => p,
        Err(e) => return Err(e),
    };
    if rest.len() < 2 {
        return Err(PngParseError::InvalidTextChunk);
    }
    let flag = rest[0];
    let method = rest[1];
    if flag > 1 {
        return Err(PngParseError::InvalidTextChunk);
    }
    if method != 0 {
        return Err(PngParseError::InvalidMetadataCompressionMethod { chunk_type: [105, 84, 88, 116], method });
    }
    let tail = &rest[2..rest.len()];
    assert(tail@ == rest@.subrange(2, rest@.len() as int));
    let (lang, after) = match split_null_terminated(tail) {
        Ok(p) => p,
        Err(e) => return Err(e),
    };
    let (tk, body) = match split_null_terminated(after) {
        Ok(p) => p,
        Err(e) => return Err(e),
    };
    let text_bytes = if flag == 1 {
        match zlib::inflate_zlib(body) {
            Some(v) => v,
            None => return Err(PngParseError::InflateFailed),
        }
    } else {
        vstd::slice::slice_to_vec(body)
    };
    let language_tag = match utf8_string(lang) {
        Some(s) => s,
        None => return Err(PngParseError::InvalidTextChunk),
    };
    let translated_keyword = match utf8_string(tk) {
        Some(s) => s,
        None => return Err(PngParseError::InvalidTextChunk),
    };
    let text = match utf8_string(text_bytes.as_slice()) {
        Some(s) => s,
        None => return Err(PngParseError::InvalidTextChunk),
    };
    Ok(InternationalTextChunk { keyword, language_tag, translated_keyword, text, compressed: flag == 1 })
}

/// An iCCP payload.
pub open spec fn iccp_value(p: Seq<u8>) -> Result<IccModel, PngParseError> {
    match keyword_split(p) {
        Err(e) => Err(e),
        Ok((name, rest)) => match compressed_value(iccp_kind(), rest) {
            Err(e) => Err(e),
            Ok(d) => Ok(IccModel { name, profile: d }),
        },
    }
}

/// The value of a profile result.
pub open spec fn icc_view(r: Result<IccProfile, PngParseError>) -> Result<IccModel, PngParseError> {
    match r {
        Ok(t) => Ok(t@),
        Err(e) => Err(e),
    }
}

/// Reads an iCCP payload.
pub fn parse_iccp(payload: &[u8]) -> (r: Result<IccProfile, PngParseError>)
    ensures
        icc_view(r) == iccp_value(payload@),
{
    let (name, rest) = match split_keyword_payload(payload) {
        Ok(p) => p,
        Err(e) => return Err(e),
    };
    match inflate_after_method([105, 67, 67, 80], rest) {
        Ok(profile) => Ok(IccProfile { name, profile }),
        Err(e) => Err(e),
    }
}

} // verus!
