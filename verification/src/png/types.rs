//! Data types of the PNG module.
use vstd::prelude::*;
use super::chunk::ChunkType;

verus! {

/// The eight bytes that open every PNG stream.
pub const PNG_SIGNATURE: [u8; 8] = [137, 80, 78, 71, 13, 10, 26, 10];

/// Largest chunk length a PNG stream may carry (2^31 - 1).
pub const PNG_UINT_31_MAX: u32 = 0x7fff_ffff;

/// Errors of every PNG operation.
#[derive(Debug, PartialEq, Eq)]
pub enum PngParseError {
    InvalidSignature { offset: usize, expected: u8, actual: u8 },
    InvalidChunkLength { length: u32 },
    InvalidChunkType { bytes: [u8; 4] },
    InvalidIhdrLength { length: usize },
    InvalidIhdrDimensions { width: u32, height: u32 },
    InvalidIhdrColorType { color_type: u8 },
    InvalidIhdrBitDepthColorType { bit_depth: u8, color_type: u8 },
    InvalidIhdrCompressionMethod { method: u8 },
    InvalidIhdrFilterMethod { method: u8 },
    InvalidIhdrInterlaceMethod { method: u8 },
    MissingIhdr,
    IhdrNotFirst,
    DuplicateIhdr,
    MissingIdatBeforeIend,
    MissingIend,
    ChunkAfterIend { chunk_type: [u8; 4] },
    CrcMismatch { chunk_type: [u8; 4], expected: u32, actual: u32 },
    UnknownCriticalChunk { chunk_type: [u8; 4] },
    TrailingBytesAfterIend { byte_count: usize },
    MissingImageData,
    UnsupportedDecodeFormat { bit_depth: u8, color_type: u8, interlace_method: u8 },
    UnsupportedEncodeFormat { bit_depth: u8, color_type: u8 },
    InflateFailed,
    DeflateFailed,
    InvalidInflatedDataLength { expected: usize, actual: usize },
    InvalidImageDataLength { expected: usize, actual: usize },
    InvalidPlteLength { length: usize },
    MissingPlte,
    DuplicatePlte,
    PlteAfterIdat,
    PlteNotAllowed { color_type: u8 },
    InvalidPaletteIndex { index: u8, palette_len: usize },
    InvalidTrnsLength { color_type: u8, length: usize },
    TrnsNotAllowed { color_type: u8 },
    InvalidMetadataLength { chunk_type: [u8; 4], length: usize },
    InvalidMetadataCompressionMethod { chunk_type: [u8; 4], method: u8 },
    InvalidTextChunk,
    InvalidFilterType { row: usize, filter_type: u8 },
    UnexpectedEndOfInput { buffered_len: usize },
}

/// A chunk header: payload length and type.
#[derive(Debug, Copy, Clone, PartialEq, Eq)]
pub struct ChunkHeader {
    pub length: u32,
    pub chunk_type: ChunkType,
}

/// A complete chunk with its payload and the CRC read from the stream.
#[derive(Debug, PartialEq, Eq)]
pub struct Chunk {
    pub header: ChunkHeader,
    pub payload: Vec<u8>,
    pub crc: u32,
}

/// What a chunk holds, as values.
pub struct ChunkModel {
    pub length: u32,
    pub kind: Seq<u8>,
    pub payload: Seq<u8>,
    pub crc: u32,
}

impl View for Chunk {
    type V = ChunkModel;

    open spec fn view(&self) -> ChunkModel {
        ChunkModel {
            length: self.header.length,
            kind: self.header.chunk_type@,
            payload: self.payload@,
            crc: self.crc,
        }
    }
}

/// The models of a sequence of chunks.
pub open spec fn chunk_models(chunks: Seq<Chunk>) -> Seq<ChunkModel> {
    chunks.map_values(|c: Chunk| c@)
}

#[derive(Debug, Copy, Clone, PartialEq, Eq)]
pub enum IhdrColorType {
    Grayscale,
    Truecolor,
    Indexed,
    GrayscaleAlpha,
    TruecolorAlpha,
}

#[derive(Debug, Copy, Clone, PartialEq, Eq)]
pub enum PngCompressionMethod {
    Deflate,
}

#[derive(Debug, Copy, Clone, PartialEq, Eq)]
pub enum PngFilterMethod {
    Adaptive,
}

/// Interlacing of the image data. `NotInterlaced` is header byte 0.
#[derive(Debug, Copy, Clone, PartialEq, Eq)]
pub enum PngInterlaceMethod {
    NotInterlaced,
    Adam7,
}

/// The image header.
#[derive(Debug, Copy, Clone, PartialEq, Eq)]
pub struct Ihdr {
    pub width: u32,
    pub height: u32,
    pub bit_depth: u8,
    pub color_type: IhdrColorType,
    pub compression_method: PngCompressionMethod,
    pub filter_method: PngFilterMethod,
    pub interlace_method: PngInterlaceMethod,
}

/// What structure validation reports of a well-formed chunk sequence.
#[derive(Debug, Copy, Clone, PartialEq, Eq)]
pub struct PngStructureSummary {
    pub width: u32,
    pub height: u32,
    pub idat_count: usize,
    pub ancillary_count: usize,
}

/// A palette entry.
#[derive(Debug, Copy, Clone, PartialEq, Eq)]
pub struct PaletteEntry {
    pub red: u8,
    pub green: u8,
    pub blue: u8,
}

/// The contents of a tRNS chunk.
#[derive(Debug, Clone, PartialEq, Eq)]
pub enum Transparency {
    Grayscale { sample: u8 },
    Truecolor { red: u8, green: u8, blue: u8 },
    Indexed { alpha: Vec<u8> },
}


/// A decoded image: `pixels` holds the samples row by row.
#[derive(Debug, PartialEq, Eq)]
pub struct PngImage {
    pub width: u32,
    pub height: u32,
    pub color_type: IhdrColorType,
    pub bit_depth: u8,
    pub pixels: Vec<u8>,
}

/// What an image holds, as values.
pub struct PngImageModel {
    pub width: u32,
    pub height: u32,
    pub color_type: IhdrColorType,
    pub bit_depth: u8,
    pub pixels: Seq<u8>,
}

impl View for PngImage {
    type V = PngImageModel;

    open spec fn view(&self) -> PngImageModel {
        PngImageModel {
            width: self.width,
            height: self.height,
            color_type: self.color_type,
            bit_depth: self.bit_depth,
            pixels: self.pixels@,
        }
    }
}

/// A palette image to encode: one index per pixel, and optional alpha
/// values for the first palette entries.
#[derive(Debug, PartialEq, Eq)]
pub struct PngIndexedImage {
    pub width: u32,
    pub height: u32,
    pub bit_depth: u8,
    pub palette: Vec<PaletteEntry>,
    pub indices: Vec<u8>,
    pub alpha: Option<Vec<u8>>,
}

/// The scanline filter the encoder applies. `NoFilter` is filter type 0;
/// `Adaptive` picks, per row, the type with the smallest sum of absolute
/// filtered values.
#[derive(Debug, Copy, Clone, PartialEq, Eq)]
pub enum PngFilterStrategy {
    NoFilter,
    Sub,
    Up,
    Average,
    Paeth,
    Adaptive,
}

/// A transform the compatibility reader can be asked to apply.
#[derive(Debug, Copy, Clone, PartialEq, Eq, Structural)]
pub enum PngCompatTransform {
    Strip16,
    ExpandGrayTo8,
    PaletteToRgb,
    TrnsToAlpha,
}

/// Which unknown ancillary chunks the compatibility writer copies.
/// `CopyNone` copies none of them.
#[derive(Debug, Copy, Clone, PartialEq, Eq)]
pub enum PngCompatUnknownChunkPolicy {
    SafeToCopy,
    AllAncillary,
    CopyNone,
}

/// One decoded image row.
#[derive(Debug, Clone, PartialEq, Eq)]
pub struct DecodedRow {
    pub row_index: usize,
    pub pixels: Vec<u8>,
}

/// Rendering intent of an sRGB chunk.
#[derive(Debug, Copy, Clone, PartialEq, Eq)]
pub enum SrgbRenderingIntent {
    Perceptual,
    RelativeColorimetric,
    Saturation,
    AbsoluteColorimetric,
}

/// Unit of a pHYs chunk.
#[derive(Debug, Copy, Clone, PartialEq, Eq)]
pub enum PhysicalPixelUnit {
    Unknown,
    Meter,
}

/// Contents of a pHYs chunk.
#[derive(Debug, Copy, Clone, PartialEq, Eq)]
pub struct PhysicalPixelDimensions {
    pub pixels_per_unit_x: u32,
    pub pixels_per_unit_y: u32,
    pub unit: PhysicalPixelUnit,
}

/// Contents of a tIME chunk.
#[derive(Debug, Copy, Clone, PartialEq, Eq)]
pub struct PngTimestamp {
    pub year: u16,
    pub month: u8,
    pub day: u8,
    pub hour: u8,
    pub minute: u8,
    pub second: u8,
}

/// Contents of a tEXt or zTXt chunk.
#[derive(Debug, Clone, PartialEq, Eq)]
pub struct TextChunk {
    pub keyword: String,
    pub text: String,
}

/// Contents of an iTXt chunk.
#[derive(Debug, Clone, PartialEq, Eq)]
pub struct InternationalTextChunk {
    pub keyword: String,
    pub language_tag: String,
    pub translated_keyword: String,
    pub text: String,
    pub compressed: bool,
}

/// Contents of a cHRM chunk.
#[derive(Debug, Copy, Clone, PartialEq, Eq)]
pub struct PngChromaticities {
    pub white_x: u32,
    pub white_y: u32,
    pub red_x: u32,
    pub red_y: u32,
    pub green_x: u32,
    pub green_y: u32,
    pub blue_x: u32,
    pub blue_y: u32,
}

/// Contents of an iCCP chunk, with the profile decompressed.
#[derive(Debug, Clone, PartialEq, Eq)]
pub struct IccProfile {
    pub name: String,
    pub profile: Vec<u8>,
}

/// The metadata chunks of a PNG stream.
#[derive(Debug, Clone, PartialEq, Eq, Default)]
pub struct PngMetadata {
    pub gamma_scaled: Option<u32>,
    pub chromaticities: Option<PngChromaticities>,
    pub srgb_rendering_intent: Option<SrgbRenderingIntent>,
    pub icc_profile: Option<IccProfile>,
    pub physical_pixel_dimensions: Option<PhysicalPixelDimensions>,
    pub timestamp: Option<PngTimestamp>,
    pub text_chunks: Vec<TextChunk>,
    pub compressed_text_chunks: Vec<TextChunk>,
    pub international_text_chunks: Vec<InternationalTextChunk>,
}

/// An ancillary chunk this library does not interpret.
#[derive(Debug, Clone, PartialEq, Eq)]
pub struct UnknownAncillaryChunk {
    pub chunk_type: [u8; 4],
    pub payload: Vec<u8>,
}

/// A decoded image with its metadata and the ancillary chunks kept as is.
#[derive(Debug, PartialEq, Eq)]
pub struct PngDocument {
    pub image: PngImage,
    pub metadata: PngMetadata,
    pub unknown_ancillary_chunks: Vec<UnknownAncillaryChunk>,
}

/// Notices the compatibility facade records.
#[derive(Debug, Copy, Clone, PartialEq, Eq, Structural)]
pub enum PngCompatibilityWarning {
    RustNativeFacadeOnly,
    CAbiNotProvided,
    WarningCallbackRustOnly,
    TransformApplied { transform: PngCompatTransform },
    UnsafeAncillaryCopyAllowed,
}

/// What `png_compat_read_info` reports.
#[derive(Debug, Copy, Clone, PartialEq, Eq)]
pub struct PngCompatInfo {
    pub width: u32,
    pub height: u32,
    pub bit_depth: u8,
    pub color_type: IhdrColorType,
    pub rowbytes: usize,
    pub text_chunk_count: usize,
    pub unknown_ancillary_count: usize,
}

} // verus!
