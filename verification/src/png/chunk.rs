//! Chunk types, chunk headers, the image header and the signature.
use vstd::prelude::*;
use crate::octets;
use crate::octets::{ascii_lower, ascii_upper, extend_bytes, read_be_u32};
use super::checksum;
use super::types::{
    Chunk, ChunkHeader, Ihdr, IhdrColorType, PngCompressionMethod, PngFilterMethod,
    PngInterlaceMethod, PngParseError, PNG_UINT_31_MAX,
};

verus! {

/// The PNG signature as values.
pub open spec fn png_sig() -> Seq<u8> {
    seq![137u8, 80u8, 78u8, 71u8, 13u8, 10u8, 26u8, 10u8]
}

/// Byte `i` of the PNG signature.
pub fn signature_byte(i: usize) -> (r: u8)
    requires
        i < 8,
    ensures
        r == png_sig()[i as int],
{
    match i {
        0 => 137,
        1 => 80,
        2 => 78,
        3 => 71,
        4 => 13,
        5 => 10,
        6 => 26,
        _ => 10,
    }
}

/// Four letters, the third uppercase.
pub open spec fn valid_chunk_type(b: Seq<u8>) -> bool {
    &&& b.len() == 4
    &&& octets::is_letter(b[0])
    &&& octets::is_letter(b[1])
    &&& octets::is_upper(b[2])
    &&& octets::is_letter(b[3])
}

/// A four-letter chunk type whose third letter (the reserved bit) is uppercase.
#[derive(Debug, Copy, Clone, PartialEq, Eq)]
pub struct ChunkType {
    bytes: [u8; 4],
}

impl ChunkType {
    #[verifier::type_invariant]
    spec fn wf(self) -> bool {
        valid_chunk_type(self.bytes@)
    }

    /// The four bytes of the type.
    pub closed spec fn tag(self) -> Seq<u8> {
        self.bytes@
    }

    /// Accepts four bytes that form a valid chunk type.
    pub fn from_bytes(bytes: [u8; 4]) -> (r: Result<Self, PngParseError>)
        ensures
            match r {
                Ok(t) => valid_chunk_type(bytes@) && t@ == bytes@,
                Err(e) => !valid_chunk_type(bytes@) && e == (PngParseError::InvalidChunkType { bytes }),
            },
    {
        let b0 = bytes[0];
        let b1 = bytes[1];
        let b2 = bytes[2];
        let b3 = bytes[3];
        if !(ascii_upper(b0) || ascii_lower(b0)) || !(ascii_upper(b1) || ascii_lower(b1))
            || !ascii_upper(b2) || !(ascii_upper(b3) || ascii_lower(b3)) {
            return Err(PngParseError::InvalidChunkType { bytes });
        }
        Ok(ChunkType { bytes })
    }

    /// The four bytes of the type.
    pub fn bytes(self) -> (r: [u8; 4])
        ensures
            r@ == self@,
            valid_chunk_type(r@),
    {
        proof {
            use_type_invariant(&self);
        }
        self.bytes
    }

    /// The first letter is uppercase.
    pub fn is_critical(self) -> (r: bool)
        ensures
            r == octets::is_upper(self@[0]),
    {
        ascii_upper(self.bytes[0])
    }

    /// The first letter is lowercase.
    pub fn is_ancillary(self) -> (r: bool)
        ensures
            r == !octets::is_upper(self@[0]),
    {
        !self.is_critical()
    }

    /// The second letter is uppercase.
    pub fn is_public(self) -> (r: bool)
        ensures
            r == octets::is_upper(self@[1]),
    {
        ascii_upper(self.bytes[1])
    }

    /// The second letter is lowercase.
    pub fn is_private(self) -> (r: bool)
        ensures
            r == !octets::is_upper(self@[1]),
    {
        !self.is_public()
    }

    /// The third letter is uppercase.
    pub fn has_valid_reserved_bit(self) -> (r: bool)
        ensures
            r == octets::is_upper(self@[2]),
    {
        ascii_upper(self.bytes[2])
    }

    /// The fourth letter is lowercase.
    pub fn is_safe_to_copy(self) -> (r: bool)
        ensures
            r == octets::is_lower(self@[3]),
    {
        ascii_lower(self.bytes[3])
    }
}

impl View for ChunkType {
    type V = Seq<u8>;

    open spec fn view(&self) -> Seq<u8> {
        self.tag()
    }
}

/// `r` is what parsing the eight header bytes `b` gives: a length above
/// 2^31 - 1 is refused first, then an invalid type.
pub open spec fn header_parse_result(b: Seq<u8>, r: Result<ChunkHeader, PngParseError>) -> bool {
    let length = octets::be_u32_at(b, 0);
    if length > 0x7fff_ffff {
        r == Err::<ChunkHeader, PngParseError>(PngParseError::InvalidChunkLength { length: length as u32 })
    } else if !valid_chunk_type(b.subrange(4, 8)) {
        r matches Err(PngParseError::InvalidChunkType { bytes }) && bytes@ == b.subrange(4, 8)
    } else {
        r matches Ok(h) && h.length == length && h.chunk_type@ == b.subrange(4, 8)
    }
}

impl ChunkHeader {
    /// Reads the big-endian length and the type from eight header bytes.
    pub fn parse(bytes: [u8; 8]) -> (r: Result<Self, PngParseError>)
        ensures
            header_parse_result(bytes@, r),
    {
        let length = read_be_u32(bytes.as_slice(), 0);
        if length > PNG_UINT_31_MAX {
            return Err(PngParseError::InvalidChunkLength { length });
        }
        let tb = [bytes[4], bytes[5], bytes[6], bytes[7]];
        assert(tb@ =~= bytes@.subrange(4, 8));
        let chunk_type = ChunkType::from_bytes(tb)?;
        Ok(ChunkHeader { length, chunk_type })
    }
}

/// The color type a header byte names.
pub open spec fn color_type_of(b: u8) -> Option<IhdrColorType> {
    if b == 0 {
        Some(IhdrColorType::Grayscale)
    } else if b == 2 {
        Some(IhdrColorType::Truecolor)
    } else if b == 3 {
        Some(IhdrColorType::Indexed)
    } else if b == 4 {
        Some(IhdrColorType::GrayscaleAlpha)
    } else if b == 6 {
        Some(IhdrColorType::TruecolorAlpha)
    } else {
        None
    }
}

/// The header byte of a color type.
pub open spec fn color_byte(c: IhdrColorType) -> u8 {
    match c {
        IhdrColorType::Grayscale => 0,
        IhdrColorType::Truecolor => 2,
        IhdrColorType::Indexed => 3,
        IhdrColorType::GrayscaleAlpha => 4,
        IhdrColorType::TruecolorAlpha => 6,
    }
}

/// The bit depths the PNG specification allows for a color type.
pub open spec fn allows_bit_depth(c: IhdrColorType, d: u8) -> bool {
    match c {
        IhdrColorType::Grayscale => d == 1 || d == 2 || d == 4 || d == 8 || d == 16,
        IhdrColorType::Truecolor => d == 8 || d == 16,
        IhdrColorType::Indexed => d == 1 || d == 2 || d == 4 || d == 8,
        IhdrColorType::GrayscaleAlpha => d == 8 || d == 16,
        IhdrColorType::TruecolorAlpha => d == 8 || d == 16,
    }
}

pub open spec fn interlace_byte(m: PngInterlaceMethod) -> u8 {
    match m {
        PngInterlaceMethod::NotInterlaced => 0,
        PngInterlaceMethod::Adam7 => 1,
    }
}

impl IhdrColorType {
    pub fn from_byte(byte: u8) -> (r: Result<Self, PngParseError>)
        ensures
            match color_type_of(byte) {
                Some(c) => r == Ok::<Self, PngParseError>(c),
                None => r == Err::<Self, PngParseError>(PngParseError::InvalidIhdrColorType { color_type: byte }),
            },
    {
        match byte {
            0 => Ok(IhdrColorType::Grayscale),
            2 => Ok(IhdrColorType::Truecolor),
            3 => Ok(IhdrColorType::Indexed),
            4 => Ok(IhdrColorType::GrayscaleAlpha),
            6 => Ok(IhdrColorType::TruecolorAlpha),
            _ => Err(PngParseError::InvalidIhdrColorType { color_type: byte }),
        }
    }

    pub fn byte(self) -> (r: u8)
        ensures
            r == color_byte(self),
    {
        match self {
            IhdrColorType::Grayscale => 0,
            IhdrColorType::Truecolor => 2,
            IhdrColorType::Indexed => 3,
            IhdrColorType::GrayscaleAlpha => 4,
            IhdrColorType::TruecolorAlpha => 6,
        }
    }

    pub fn allows_bit_depth(self, bit_depth: u8) -> (r: bool)
        ensures
            r == allows_bit_depth(self, bit_depth),
    {
        match self {
            IhdrColorType::Grayscale => bit_depth == 1 || bit_depth == 2 || bit_depth == 4
                || bit_depth == 8 || bit_depth == 16,
            IhdrColorType::Truecolor => bit_depth == 8 || bit_depth == 16,
            IhdrColorType::Indexed => bit_depth == 1 || bit_depth == 2 || bit_depth == 4 || bit_depth == 8,
            IhdrColorType::GrayscaleAlpha => bit_depth == 8 || bit_depth == 16,
            IhdrColorType::TruecolorAlpha => bit_depth == 8 || bit_depth == 16,
        }
    }
}

impl PngInterlaceMethod {
    pub fn byte(self) -> (r: u8)
        ensures
            r == interlace_byte(self),
    {
        match self {
            PngInterlaceMethod::NotInterlaced => 0,
            PngInterlaceMethod::Adam7 => 1,
        }
    }
}

/// What parsing an IHDR payload gives; the checks run in this order.
pub open spec fn spec_parse_ihdr(p: Seq<u8>) -> Result<Ihdr, PngParseError> {
    if p.len() != 13 {
        Err(PngParseError::InvalidIhdrLength { length: p.len() as usize })
    } else {
        let width = octets::be_u32_at(p, 0) as u32;
        let height = octets::be_u32_at(p, 4) as u32;
        if width == 0 || height == 0 {
            Err(PngParseError::InvalidIhdrDimensions { width, height })
        } else {
            match color_type_of(p[9]) {
                None => Err(PngParseError::InvalidIhdrColorType { color_type: p[9] }),
                Some(c) => if !allows_bit_depth(c, p[8]) {
                    Err(PngParseError::InvalidIhdrBitDepthColorType { bit_depth: p[8], color_type: color_byte(c) })
                } else if p[10] != 0 {
                    Err(PngParseError::InvalidIhdrCompressionMethod { method: p[10] })
                } else if p[11] != 0 {
                    Err(PngParseError::InvalidIhdrFilterMethod { method: p[11] })
                } else if p[12] > 1 {
                    Err(PngParseError::InvalidIhdrInterlaceMethod { method: p[12] })
                } else {
                    Ok(Ihdr {
                        width,
                        height,
                        bit_depth: p[8],
                        color_type: c,
                        compression_method: PngCompressionMethod::Deflate,
                        filter_method: PngFilterMethod::Adaptive,
                        interlace_method: if p[12] == 0 { PngInterlaceMethod::NotInterlaced } else { PngInterlaceMethod::Adam7 },
                    })
                },
            }
        }
    }
}

impl Ihdr {
    /// Parses a thirteen-byte IHDR payload.
    pub fn parse(payload: &[u8]) -> (r: Result<Self, PngParseError>)
        ensures
            r == spec_parse_ihdr(payload@),
    {
        if payload.len() != 13 {
            return Err(PngParseError::InvalidIhdrLength { length: payload.len() });
        }
        let width = read_be_u32(payload, 0);
        let height = read_be_u32(payload, 4);
        if width == 0 || height == 0 {
            return Err(PngParseError::InvalidIhdrDimensions { width, height });
        }
        let bit_depth = payload[8];
        let color_type = IhdrColorType::from_byte(payload[9])?;
        if !color_type.allows_bit_depth(bit_depth) {
            return Err(PngParseError::InvalidIhdrBitDepthColorType { bit_depth, color_type: color_type.byte() });
        }
        if payload[10] != 0 {
            return Err(PngParseError::InvalidIhdrCompressionMethod { method: payload[10] });
        }
        if payload[11] != 0 {
            return Err(PngParseError::InvalidIhdrFilterMethod { method: payload[11] });
        }
        let interlace_method = match payload[12] {
            0 => PngInterlaceMethod::NotInterlaced,
            1 => PngInterlaceMethod::Adam7,
            _ => {
                return Err(PngParseError::InvalidIhdrInterlaceMethod { method: payload[12] });
            },
        };
        Ok(Ihdr {
            width,
            height,
            bit_depth,
            color_type,
            compression_method: PngCompressionMethod::Deflate,
            filter_method: PngFilterMethod::Adaptive,
            interlace_method,
        })
    }
}

/// The CRC a chunk of type `kind` with `payload` must carry.
pub open spec fn spec_chunk_crc(kind: Seq<u8>, payload: Seq<u8>) -> u32 {
    checksum::crc32(kind + payload)
}

/// The CRC-32 of the chunk type followed by the payload.
pub fn calculate_chunk_crc(chunk_type: ChunkType, payload: &[u8]) -> (r: u32)
    ensures
        r == spec_chunk_crc(chunk_type@, payload@),
{
    let tb = chunk_type.bytes();
    let mut data: Vec<u8> = Vec::new();
    extend_bytes(&mut data, tb.as_slice());
    extend_bytes(&mut data, payload);
    checksum::crc32_of(data.as_slice())
}

/// Checks the CRC a chunk carries.
pub fn validate_chunk_crc(chunk: &Chunk) -> (r: Result<(), PngParseError>)
    ensures
        r is Ok <==> chunk.crc == spec_chunk_crc(chunk@.kind, chunk@.payload),
        r matches Err(e) ==> e matches PngParseError::CrcMismatch { chunk_type, expected, actual }
            && chunk_type@ == chunk@.kind && expected == spec_chunk_crc(chunk@.kind, chunk@.payload)
            && actual == chunk.crc,
{
    let expected = calculate_chunk_crc(chunk.header.chunk_type, chunk.payload.as_slice());
    if chunk.crc != expected {
        return Err(PngParseError::CrcMismatch {
            chunk_type: chunk.header.chunk_type.bytes(),
            expected,
            actual: chunk.crc,
        });
    }
    Ok(())
}

} // verus!

verus! {

pub open spec fn ihdr_tag() -> Seq<u8> {
    seq![73u8, 72u8, 68u8, 82u8]
}

pub open spec fn idat_tag() -> Seq<u8> {
    seq![73u8, 68u8, 65u8, 84u8]
}

pub open spec fn iend_tag() -> Seq<u8> {
    seq![73u8, 69u8, 78u8, 68u8]
}

pub open spec fn plte_tag() -> Seq<u8> {
    seq![80u8, 76u8, 84u8, 69u8]
}

pub open spec fn trns_tag() -> Seq<u8> {
    seq![116u8, 82u8, 78u8, 83u8]
}

/// `t` spells the four bytes `a b c d`.
pub fn tag_is(t: [u8; 4], a: u8, b: u8, c: u8, d: u8) -> (r: bool)
    ensures
        r == (t@ == seq![a, b, c, d]),
{
    let r = t[0] == a && t[1] == b && t[2] == c && t[3] == d;
    proof {
        if r {
            assert(t@ =~= seq![a, b, c, d]);
        } else {
            if t@ == seq![a, b, c, d] {
                assert(t@[0] == a && t@[1] == b && t@[2] == c && t@[3] == d);
            }
        }
    }
    r
}

} // verus!
