use parsekit::png::chunk::{ChunkType, calculate_chunk_crc, validate_chunk_crc};
use parsekit::png::compat::{png_compat_create_read_struct, png_compat_create_write_struct, png_compat_destroy_read_struct, png_compat_destroy_write_struct, png_compat_read_image, png_compat_read_info, png_compat_read_warnings, png_compat_set_expand_gray_1_2_4_to_8, png_compat_set_palette_to_rgb, png_compat_set_read_buffer, png_compat_set_strip_16, png_compat_set_trns_to_alpha, png_compat_set_unknown_chunk_policy, png_compat_set_warning_handler, png_compat_take_warning_notifications, png_compat_write_document, png_compat_write_image, png_compat_write_indexed_image, png_compat_write_output, png_compat_write_warnings};
use parsekit::png::decode::{decode_png_image};
use parsekit::png::document::{decode_png_document, decode_png_rows, extract_png_metadata, inspect_png_metadata};
use parsekit::png::encode::{encode_adam7_png_image, encode_png_image, encode_png_image_with_filter_strategy};
use parsekit::png::encode_doc::{encode_png_document, encode_png_document_with_unknown_policy};
use parsekit::png::encode_meta::{encode_indexed_png_image};
use parsekit::png::palette::{parse_plte, parse_trns};
use parsekit::png::signature::{png_sig_cmp};
use parsekit::png::stream::{ParseOutcome, PngStreamParser};
use parsekit::png::structure::{parse_png_chunks, validate_png_chunks, validate_png_structure};
use parsekit::png::types::{Chunk, ChunkHeader, IccProfile, Ihdr, IhdrColorType, InternationalTextChunk, PNG_SIGNATURE, PaletteEntry, PhysicalPixelDimensions, PhysicalPixelUnit, PngChromaticities, PngCompatInfo, PngCompatTransform, PngCompatUnknownChunkPolicy, PngCompatibilityWarning, PngCompressionMethod, PngDocument, PngFilterMethod, PngFilterStrategy, PngImage, PngIndexedImage, PngInterlaceMethod, PngMetadata, PngParseError, PngStructureSummary, PngTimestamp, SrgbRenderingIntent, TextChunk, Transparency, UnknownAncillaryChunk};
use std::io::Write;

const CHUNK_HEADER_LEN: usize = 8;
const IHDR_PAYLOAD_LEN: usize = 13;

fn ihdr_payload(
    width: u32,
    height: u32,
    bit_depth: u8,
    color_type: u8,
    compression_method: u8,
    filter_method: u8,
    interlace_method: u8,
) -> [u8; IHDR_PAYLOAD_LEN] {
    let width_bytes = width.to_be_bytes();
    let height_bytes = height.to_be_bytes();

    [
        width_bytes[0],
        width_bytes[1],
        width_bytes[2],
        width_bytes[3],
        height_bytes[0],
        height_bytes[1],
        height_bytes[2],
        height_bytes[3],
        bit_depth,
        color_type,
        compression_method,
        filter_method,
        interlace_method,
    ]
}

fn chunk(chunk_type: [u8; 4], payload: Vec<u8>) -> Chunk {
    let chunk_type = ChunkType::from_bytes(chunk_type).expect("test chunk type is valid");
    let crc = calculate_chunk_crc(chunk_type, &payload);

    Chunk {
        header: ChunkHeader {
            length: payload.len() as u32,
            chunk_type,
        },
        payload,
        crc,
    }
}

fn minimal_chunks() -> Vec<Chunk> {
    vec![
        chunk(*b"IHDR", ihdr_payload(32, 16, 8, 2, 0, 0, 0).to_vec()),
        chunk(*b"IDAT", vec![1, 2, 3]),
        chunk(*b"IEND", Vec::new()),
    ]
}

fn phys_payload(pixels_per_unit_x: u32, pixels_per_unit_y: u32, unit: u8) -> Vec<u8> {
    let mut payload = Vec::with_capacity(9);
    payload.extend_from_slice(&pixels_per_unit_x.to_be_bytes());
    payload.extend_from_slice(&pixels_per_unit_y.to_be_bytes());
    payload.push(unit);
    payload
}

fn chrm_payload(values: [u32; 8]) -> Vec<u8> {
    let mut payload = Vec::with_capacity(32);
    for value in values {
        payload.extend_from_slice(&value.to_be_bytes());
    }
    payload
}

fn append_chunk_bytes(input: &mut Vec<u8>, chunk: &Chunk) {
    input.extend_from_slice(&chunk.header.length.to_be_bytes());
    input.extend_from_slice(&chunk.header.chunk_type.bytes());
    input.extend_from_slice(&chunk.payload);
    input.extend_from_slice(&chunk.crc.to_be_bytes());
}

fn png_bytes_from_chunks(chunks: &[Chunk]) -> Vec<u8> {
    let mut input = PNG_SIGNATURE.to_vec();

    for chunk in chunks {
        append_chunk_bytes(&mut input, chunk);
    }

    input
}

fn minimal_png_bytes() -> Vec<u8> {
    png_bytes_from_chunks(&minimal_chunks())
}

fn zlib_compress(input: &[u8]) -> Vec<u8> {
    let mut encoder =
        flate2::write::ZlibEncoder::new(Vec::new(), flate2::Compression::default());
    encoder
        .write_all(input)
        .expect("test scanline bytes should compress");
    encoder.finish().expect("test zlib stream should finish")
}

fn image_png_bytes(width: u32, height: u32, color_type: u8, scanlines: &[u8]) -> Vec<u8> {
    image_png_bytes_with_bit_depth(width, height, 8, color_type, scanlines)
}

fn image_png_bytes_with_bit_depth(
    width: u32,
    height: u32,
    bit_depth: u8,
    color_type: u8,
    scanlines: &[u8],
) -> Vec<u8> {
    image_png_bytes_with_interlace(width, height, bit_depth, color_type, 0, scanlines)
}

fn image_png_bytes_with_interlace(
    width: u32,
    height: u32,
    bit_depth: u8,
    color_type: u8,
    interlace_method: u8,
    scanlines: &[u8],
) -> Vec<u8> {
    let chunks = vec![
        chunk(
            *b"IHDR",
            ihdr_payload(width, height, bit_depth, color_type, 0, 0, interlace_method).to_vec(),
        ),
        chunk(*b"IDAT", zlib_compress(scanlines)),
        chunk(*b"IEND", Vec::new()),
    ];

    png_bytes_from_chunks(&chunks)
}

fn image_png_bytes_with_extra_chunks(
    width: u32,
    height: u32,
    color_type: u8,
    extra_chunks: Vec<Chunk>,
    scanlines: &[u8],
) -> Vec<u8> {
    let mut chunks = vec![chunk(
        *b"IHDR",
        ihdr_payload(width, height, 8, color_type, 0, 0, 0).to_vec(),
    )];
    chunks.extend(extra_chunks);
    chunks.push(chunk(*b"IDAT", zlib_compress(scanlines)));
    chunks.push(chunk(*b"IEND", Vec::new()));

    png_bytes_from_chunks(&chunks)
}

fn indexed_png_bytes(width: u32, height: u32, palette: Vec<u8>, scanlines: &[u8]) -> Vec<u8> {
    let chunks = vec![
        chunk(
            *b"IHDR",
            ihdr_payload(width, height, 8, 3, 0, 0, 0).to_vec(),
        ),
        chunk(*b"PLTE", palette),
        chunk(*b"IDAT", zlib_compress(scanlines)),
        chunk(*b"IEND", Vec::new()),
    ];

    png_bytes_from_chunks(&chunks)
}

#[test]
fn signature_comparison_accepts_full_and_partial_matches() {
    assert_eq!(png_sig_cmp(&PNG_SIGNATURE, 0, PNG_SIGNATURE.len()), 0);
    assert_eq!(png_sig_cmp(&PNG_SIGNATURE, 0, 4), 0);
    assert_eq!(png_sig_cmp(&PNG_SIGNATURE, 4, 4), 0);
    assert_eq!(png_sig_cmp(&PNG_SIGNATURE, 6, 8), 0);
}

#[test]
fn signature_comparison_rejects_invalid_bytes() {
    let mut corrupted = PNG_SIGNATURE;
    corrupted[1] = b'X';

    assert_ne!(png_sig_cmp(&corrupted, 0, PNG_SIGNATURE.len()), 0);
    assert_eq!(png_sig_cmp(&PNG_SIGNATURE, 8, 1), -1);
    assert_eq!(png_sig_cmp(&PNG_SIGNATURE, 0, 0), -1);
}

#[test]
fn chunk_type_property_helpers_reflect_png_bits() {
    let ihdr = ChunkType::from_bytes(*b"IHDR").expect("IHDR is valid");
    assert!(ihdr.is_critical());
    assert!(!ihdr.is_ancillary());
    assert!(ihdr.is_public());
    assert!(!ihdr.is_private());
    assert!(ihdr.has_valid_reserved_bit());
    assert!(!ihdr.is_safe_to_copy());

    let text = ChunkType::from_bytes(*b"tEXt").expect("tEXt is valid");
    assert!(text.is_ancillary());
    assert!(text.is_public());
    assert!(text.has_valid_reserved_bit());
    assert!(text.is_safe_to_copy());

    let private = ChunkType::from_bytes(*b"vpAg").expect("vpAg is valid");
    assert!(private.is_private());
}

#[test]
fn chunk_type_rejects_invalid_reserved_bit() {
    assert_eq!(
        ChunkType::from_bytes(*b"IHdR"),
        Err(PngParseError::InvalidChunkType { bytes: *b"IHdR" })
    );
    assert_eq!(
        ChunkType::from_bytes(*b"IH1R"),
        Err(PngParseError::InvalidChunkType { bytes: *b"IH1R" })
    );
}

#[test]
fn chunk_header_parse_returns_owned_metadata() {
    let header =
        ChunkHeader::parse([0, 0, 0, 13, b'I', b'H', b'D', b'R']).expect("valid IHDR header");

    assert_eq!(header.length, 13);
    assert_eq!(header.chunk_type.bytes(), *b"IHDR");
}

#[test]
fn chunk_header_rejects_length_overflow() {
    assert_eq!(
        ChunkHeader::parse([0x80, 0, 0, 0, b'I', b'H', b'D', b'R']),
        Err(PngParseError::InvalidChunkLength {
            length: 0x8000_0000
        })
    );
}

#[test]
fn ihdr_parse_returns_payload_metadata_fields() {
    let payload = ihdr_payload(800, 600, 8, 6, 0, 0, 1);

    assert_eq!(
        Ihdr::parse(&payload),
        Ok(Ihdr {
            width: 800,
            height: 600,
            bit_depth: 8,
            color_type: IhdrColorType::TruecolorAlpha,
            compression_method: PngCompressionMethod::Deflate,
            filter_method: PngFilterMethod::Adaptive,
            interlace_method: PngInterlaceMethod::Adam7,
        })
    );
}

#[test]
fn ihdr_payload_length_must_be_exactly_thirteen_bytes() {
    assert_eq!(
        Ihdr::parse(&ihdr_payload(1, 1, 8, 2, 0, 0, 0)[..12]),
        Err(PngParseError::InvalidIhdrLength { length: 12 })
    );

    let mut payload = ihdr_payload(1, 1, 8, 2, 0, 0, 0).to_vec();
    payload.push(0);

    assert_eq!(
        Ihdr::parse(&payload),
        Err(PngParseError::InvalidIhdrLength { length: 14 })
    );
}

#[test]
fn ihdr_dimensions_must_be_nonzero() {
    assert_eq!(
        Ihdr::parse(&ihdr_payload(0, 1, 8, 2, 0, 0, 0)),
        Err(PngParseError::InvalidIhdrDimensions {
            width: 0,
            height: 1,
        })
    );
    assert_eq!(
        Ihdr::parse(&ihdr_payload(1, 0, 8, 2, 0, 0, 0)),
        Err(PngParseError::InvalidIhdrDimensions {
            width: 1,
            height: 0,
        })
    );
}

#[test]
fn ihdr_accepts_common_bit_depth_color_type_combinations() {
    let valid_pairs = [
        (1, 0),
        (2, 0),
        (4, 0),
        (8, 0),
        (16, 0),
        (8, 2),
        (16, 2),
        (1, 3),
        (2, 3),
        (4, 3),
        (8, 3),
        (8, 4),
        (16, 4),
        (8, 6),
        (16, 6),
    ];

    for (bit_depth, color_type) in valid_pairs {
        assert!(
            Ihdr::parse(&ihdr_payload(1, 1, bit_depth, color_type, 0, 0, 0)).is_ok(),
            "bit depth {bit_depth} and color type {color_type} should be valid"
        );
    }
}

#[test]
fn ihdr_rejects_invalid_bit_depth_color_type_combinations() {
    let invalid_pairs = [(3, 0), (4, 2), (16, 3), (4, 4), (4, 6)];

    for (bit_depth, color_type) in invalid_pairs {
        assert_eq!(
            Ihdr::parse(&ihdr_payload(1, 1, bit_depth, color_type, 0, 0, 0)),
            Err(PngParseError::InvalidIhdrBitDepthColorType {
                bit_depth,
                color_type,
            })
        );
    }

    assert_eq!(
        Ihdr::parse(&ihdr_payload(1, 1, 8, 5, 0, 0, 0)),
        Err(PngParseError::InvalidIhdrColorType { color_type: 5 })
    );
}

#[test]
fn ihdr_rejects_invalid_compression_filter_and_interlace_methods() {
    assert_eq!(
        Ihdr::parse(&ihdr_payload(1, 1, 8, 2, 1, 0, 0)),
        Err(PngParseError::InvalidIhdrCompressionMethod { method: 1 })
    );
    assert_eq!(
        Ihdr::parse(&ihdr_payload(1, 1, 8, 2, 0, 1, 0)),
        Err(PngParseError::InvalidIhdrFilterMethod { method: 1 })
    );
    assert_eq!(
        Ihdr::parse(&ihdr_payload(1, 1, 8, 2, 0, 0, 2)),
        Err(PngParseError::InvalidIhdrInterlaceMethod { method: 2 })
    );
}

#[test]
fn parser_reports_invalid_signature_bytes() {
    let mut parser = PngStreamParser::new();
    let mut corrupted = PNG_SIGNATURE;
    corrupted[0] = 0;

    assert_eq!(
        parser.feed(&corrupted),
        Err(PngParseError::InvalidSignature {
            offset: 0,
            expected: PNG_SIGNATURE[0],
            actual: 0,
        })
    );
}

#[test]
fn parser_handles_partial_signature_and_chunk_header_input() {
    let mut parser = PngStreamParser::new();

    assert_eq!(
        parser.feed(&PNG_SIGNATURE[..3]),
        Ok(ParseOutcome::NeedMoreData)
    );
    assert_eq!(parser.buffered_len(), 3);

    assert_eq!(
        parser.feed(&PNG_SIGNATURE[3..]),
        Ok(ParseOutcome::SignatureComplete)
    );
    assert_eq!(parser.buffered_len(), 0);

    assert_eq!(parser.feed(&[0, 0, 0]), Ok(ParseOutcome::NeedMoreData));
    assert_eq!(parser.buffered_len(), 3);

    let outcome = parser.feed(&[13, b'I', b'H', b'D', b'R']);
    assert_eq!(
        outcome,
        Ok(ParseOutcome::ChunkHeader(ChunkHeader {
            length: 13,
            chunk_type: ChunkType::from_bytes(*b"IHDR").expect("IHDR is valid"),
        }))
    );
    assert_eq!(parser.buffered_len(), 0);
}

#[test]
fn parser_keeps_chunk_header_bytes_when_signature_arrives_with_extra_input() {
    let mut parser = PngStreamParser::new();
    let mut input = PNG_SIGNATURE.to_vec();
    input.extend_from_slice(&[0, 0, 0, 13, b'I', b'H', b'D', b'R']);

    assert_eq!(parser.feed(&input), Ok(ParseOutcome::SignatureComplete));
    assert_eq!(parser.buffered_len(), CHUNK_HEADER_LEN);
    assert_eq!(
        parser.next_outcome(),
        Ok(ParseOutcome::ChunkHeader(ChunkHeader {
            length: 13,
            chunk_type: ChunkType::from_bytes(*b"IHDR").expect("IHDR is valid"),
        }))
    );
    assert_eq!(parser.buffered_len(), 0);
}

#[test]
fn parser_returns_owned_chunk_after_payload_and_crc_are_available() {
    let mut parser = PngStreamParser::new();
    let mut input = PNG_SIGNATURE.to_vec();
    input.extend_from_slice(&[0, 0, 0, 5, b't', b'E', b'X', b't']);
    input.extend_from_slice(b"hello");
    input.extend_from_slice(&[0x12, 0x34, 0x56, 0x78]);

    assert_eq!(parser.feed(&input), Ok(ParseOutcome::SignatureComplete));
    assert_eq!(
        parser.next_outcome(),
        Ok(ParseOutcome::ChunkHeader(ChunkHeader {
            length: 5,
            chunk_type: ChunkType::from_bytes(*b"tEXt").expect("tEXt is valid"),
        }))
    );
    assert_eq!(
        parser.next_outcome(),
        Ok(ParseOutcome::Chunk(Chunk {
            header: ChunkHeader {
                length: 5,
                chunk_type: ChunkType::from_bytes(*b"tEXt").expect("tEXt is valid"),
            },
            payload: b"hello".to_vec(),
            crc: 0x1234_5678,
        }))
    );
    assert_eq!(parser.buffered_len(), 0);
}

#[test]
fn parser_reports_need_more_data_for_partial_payload_and_crc() {
    let mut parser = PngStreamParser::new();

    assert_eq!(
        parser.feed(&PNG_SIGNATURE),
        Ok(ParseOutcome::SignatureComplete)
    );
    assert_eq!(
        parser.feed(&[0, 0, 0, 3, b'I', b'D', b'A', b'T']),
        Ok(ParseOutcome::ChunkHeader(ChunkHeader {
            length: 3,
            chunk_type: ChunkType::from_bytes(*b"IDAT").expect("IDAT is valid"),
        }))
    );

    assert_eq!(parser.feed(&[1, 2]), Ok(ParseOutcome::NeedMoreData));
    assert_eq!(parser.buffered_len(), 2);
    assert_eq!(parser.feed(&[3, 0xaa]), Ok(ParseOutcome::NeedMoreData));
    assert_eq!(parser.buffered_len(), 4);
    assert_eq!(parser.feed(&[0xbb, 0xcc]), Ok(ParseOutcome::NeedMoreData));
    assert_eq!(parser.buffered_len(), 6);
    assert_eq!(
        parser.feed(&[0xdd]),
        Ok(ParseOutcome::Chunk(Chunk {
            header: ChunkHeader {
                length: 3,
                chunk_type: ChunkType::from_bytes(*b"IDAT").expect("IDAT is valid"),
            },
            payload: vec![1, 2, 3],
            crc: 0xaabb_ccdd,
        }))
    );
    assert_eq!(parser.buffered_len(), 0);
}

#[test]
fn parser_can_return_following_chunk_header_after_full_chunk() {
    let mut parser = PngStreamParser::new();
    let mut input = PNG_SIGNATURE.to_vec();
    input.extend_from_slice(&[0, 0, 0, 0, b'I', b'D', b'A', b'T']);
    input.extend_from_slice(&[0, 0, 0, 1]);
    input.extend_from_slice(&[0, 0, 0, 0, b'I', b'E', b'N', b'D']);

    assert_eq!(parser.feed(&input), Ok(ParseOutcome::SignatureComplete));
    assert_eq!(
        parser.next_outcome(),
        Ok(ParseOutcome::ChunkHeader(ChunkHeader {
            length: 0,
            chunk_type: ChunkType::from_bytes(*b"IDAT").expect("IDAT is valid"),
        }))
    );
    assert_eq!(
        parser.next_outcome(),
        Ok(ParseOutcome::Chunk(Chunk {
            header: ChunkHeader {
                length: 0,
                chunk_type: ChunkType::from_bytes(*b"IDAT").expect("IDAT is valid"),
            },
            payload: Vec::new(),
            crc: 1,
        }))
    );
    assert_eq!(
        parser.next_outcome(),
        Ok(ParseOutcome::ChunkHeader(ChunkHeader {
            length: 0,
            chunk_type: ChunkType::from_bytes(*b"IEND").expect("IEND is valid"),
        }))
    );
}

#[test]
fn chunk_crc_validation_accepts_matching_crc() {
    let chunk = chunk(*b"tEXt", b"hello".to_vec());

    assert_eq!(validate_chunk_crc(&chunk), Ok(()));
}

#[test]
fn chunk_crc_validation_rejects_mismatched_crc() {
    let mut chunks = minimal_chunks();
    chunks[1].crc ^= 1;

    assert_eq!(
        validate_png_chunks(&chunks),
        Err(PngParseError::CrcMismatch {
            chunk_type: *b"IDAT",
            expected: calculate_chunk_crc(chunks[1].header.chunk_type, &chunks[1].payload),
            actual: chunks[1].crc,
        })
    );
}

#[test]
fn structure_validator_accepts_ordered_png_chunks_and_returns_summary() {
    assert_eq!(
        validate_png_chunks(&minimal_chunks()),
        Ok(PngStructureSummary {
            width: 32,
            height: 16,
            idat_count: 1,
            ancillary_count: 0,
        })
    );
}

#[test]
fn structure_validator_uses_signature_and_stream_parser_for_full_png_bytes() {
    assert_eq!(
        validate_png_structure(&minimal_png_bytes()),
        Ok(PngStructureSummary {
            width: 32,
            height: 16,
            idat_count: 1,
            ancillary_count: 0,
        })
    );
}

#[test]
fn structure_validator_requires_ihdr_first_and_exactly_once() {
    let mut chunks = minimal_chunks();
    chunks.insert(0, chunk(*b"tEXt", b"before IHDR".to_vec()));

    assert_eq!(
        validate_png_chunks(&chunks),
        Err(PngParseError::IhdrNotFirst)
    );

    let mut duplicate = minimal_chunks();
    duplicate.insert(
        1,
        chunk(*b"IHDR", ihdr_payload(1, 1, 8, 2, 0, 0, 0).to_vec()),
    );

    assert_eq!(
        validate_png_chunks(&duplicate),
        Err(PngParseError::DuplicateIhdr)
    );
}

#[test]
fn structure_validator_requires_idat_before_iend_and_iend_final() {
    let chunks_without_idat = vec![
        chunk(*b"IHDR", ihdr_payload(1, 1, 8, 2, 0, 0, 0).to_vec()),
        chunk(*b"IEND", Vec::new()),
    ];

    assert_eq!(
        validate_png_chunks(&chunks_without_idat),
        Err(PngParseError::MissingIdatBeforeIend)
    );

    let mut chunks_after_iend = minimal_chunks();
    chunks_after_iend.push(chunk(*b"tEXt", b"late".to_vec()));

    assert_eq!(
        validate_png_chunks(&chunks_after_iend),
        Err(PngParseError::ChunkAfterIend {
            chunk_type: *b"tEXt",
        })
    );
}

#[test]
fn structure_validator_accepts_unknown_ancillary_chunks() {
    let chunks = vec![
        chunk(*b"IHDR", ihdr_payload(2, 2, 8, 6, 0, 0, 0).to_vec()),
        chunk(*b"vpAg", b"private ancillary payload".to_vec()),
        chunk(*b"IDAT", vec![0]),
        chunk(*b"IEND", Vec::new()),
    ];

    assert_eq!(
        validate_png_chunks(&chunks),
        Ok(PngStructureSummary {
            width: 2,
            height: 2,
            idat_count: 1,
            ancillary_count: 1,
        })
    );
}

#[test]
fn structure_validator_rejects_unknown_critical_chunks() {
    let chunks = vec![
        chunk(*b"IHDR", ihdr_payload(1, 1, 8, 2, 0, 0, 0).to_vec()),
        chunk(*b"ABCD", Vec::new()),
        chunk(*b"IDAT", vec![0]),
        chunk(*b"IEND", Vec::new()),
    ];

    assert_eq!(
        validate_png_chunks(&chunks),
        Err(PngParseError::UnknownCriticalChunk {
            chunk_type: *b"ABCD",
        })
    );
}

#[test]
fn structure_validator_rejects_trailing_bytes_after_iend() {
    let mut input = minimal_png_bytes();
    input.extend_from_slice(b"extra");

    assert_eq!(
        validate_png_structure(&input),
        Err(PngParseError::TrailingBytesAfterIend { byte_count: 5 })
    );
}

#[test]
fn structure_validator_validates_ihdr_payload() {
    let chunks = vec![
        chunk(*b"IHDR", ihdr_payload(0, 1, 8, 2, 0, 0, 0).to_vec()),
        chunk(*b"IDAT", vec![0]),
        chunk(*b"IEND", Vec::new()),
    ];

    assert_eq!(
        validate_png_chunks(&chunks),
        Err(PngParseError::InvalidIhdrDimensions {
            width: 0,
            height: 1,
        })
    );
}

#[test]
fn structure_validator_requires_plte_before_indexed_idat() {
    let chunks = vec![
        chunk(*b"IHDR", ihdr_payload(1, 1, 8, 3, 0, 0, 0).to_vec()),
        chunk(*b"IDAT", vec![0]),
        chunk(*b"IEND", Vec::new()),
    ];

    assert_eq!(
        validate_png_chunks(&chunks),
        Err(PngParseError::MissingPlte)
    );
}

#[test]
fn structure_validator_rejects_duplicate_plte() {
    let chunks = vec![
        chunk(*b"IHDR", ihdr_payload(1, 1, 8, 3, 0, 0, 0).to_vec()),
        chunk(*b"PLTE", vec![255, 0, 0]),
        chunk(*b"PLTE", vec![0, 255, 0]),
        chunk(*b"IDAT", vec![0]),
        chunk(*b"IEND", Vec::new()),
    ];

    assert_eq!(
        validate_png_chunks(&chunks),
        Err(PngParseError::DuplicatePlte)
    );
}

#[test]
fn structure_validator_rejects_plte_after_idat() {
    let chunks = vec![
        chunk(*b"IHDR", ihdr_payload(1, 1, 8, 2, 0, 0, 0).to_vec()),
        chunk(*b"IDAT", vec![0]),
        chunk(*b"PLTE", vec![255, 0, 0]),
        chunk(*b"IEND", Vec::new()),
    ];

    assert_eq!(
        validate_png_chunks(&chunks),
        Err(PngParseError::PlteAfterIdat)
    );
}

#[test]
fn structure_validator_rejects_plte_for_grayscale() {
    let chunks = vec![
        chunk(*b"IHDR", ihdr_payload(1, 1, 8, 0, 0, 0, 0).to_vec()),
        chunk(*b"PLTE", vec![255, 0, 0]),
        chunk(*b"IDAT", vec![0]),
        chunk(*b"IEND", Vec::new()),
    ];

    assert_eq!(
        validate_png_chunks(&chunks),
        Err(PngParseError::PlteNotAllowed { color_type: 0 })
    );
}

#[test]
fn metadata_inspection_collects_common_chunks() {
    let chunks = vec![
        chunk(*b"IHDR", ihdr_payload(1, 1, 8, 2, 0, 0, 0).to_vec()),
        chunk(*b"gAMA", 45_455_u32.to_be_bytes().to_vec()),
        chunk(*b"sRGB", vec![0]),
        chunk(*b"pHYs", phys_payload(3_780, 3_780, 1)),
        chunk(*b"tIME", vec![0x07, 0xe9, 5, 27, 7, 45, 30]),
        chunk(*b"tEXt", b"Title\0Tiny PNG".to_vec()),
        chunk(*b"IDAT", vec![0]),
        chunk(*b"IEND", Vec::new()),
    ];
    let input = png_bytes_from_chunks(&chunks);

    assert_eq!(
        inspect_png_metadata(&input),
        Ok(PngMetadata {
            gamma_scaled: Some(45_455),
            srgb_rendering_intent: Some(SrgbRenderingIntent::Perceptual),
            physical_pixel_dimensions: Some(PhysicalPixelDimensions {
                pixels_per_unit_x: 3_780,
                pixels_per_unit_y: 3_780,
                unit: PhysicalPixelUnit::Meter,
            }),
            timestamp: Some(PngTimestamp {
                year: 2025,
                month: 5,
                day: 27,
                hour: 7,
                minute: 45,
                second: 30,
            }),
            text_chunks: vec![TextChunk {
                keyword: "Title".to_string(),
                text: "Tiny PNG".to_string(),
            }],
            ..PngMetadata::default()
        })
    );
}

#[test]
fn metadata_inspection_collects_rich_metadata_chunks() {
    let mut ztxt_payload = b"Comment\0".to_vec();
    ztxt_payload.push(0);
    ztxt_payload.extend_from_slice(&zlib_compress(b"compressed note"));

    let mut itxt_payload = b"Description\0".to_vec();
    itxt_payload.extend_from_slice(&[1, 0]);
    itxt_payload.extend_from_slice(b"en\0Description\0");
    itxt_payload.extend_from_slice(&zlib_compress(b"international note"));

    let mut iccp_payload = b"Display\0".to_vec();
    iccp_payload.push(0);
    iccp_payload.extend_from_slice(&zlib_compress(&[1, 2, 3, 4]));

    let chunks = vec![
        chunk(*b"IHDR", ihdr_payload(1, 1, 8, 2, 0, 0, 0).to_vec()),
        chunk(
            *b"cHRM",
            chrm_payload([
                31_270, 32_900, 64_000, 33_000, 30_000, 60_000, 15_000, 6_000,
            ]),
        ),
        chunk(*b"zTXt", ztxt_payload),
        chunk(*b"iTXt", itxt_payload),
        chunk(*b"iCCP", iccp_payload),
        chunk(*b"IDAT", vec![0]),
        chunk(*b"IEND", Vec::new()),
    ];

    assert_eq!(
        extract_png_metadata(&chunks),
        Ok(PngMetadata {
            chromaticities: Some(PngChromaticities {
                white_x: 31_270,
                white_y: 32_900,
                red_x: 64_000,
                red_y: 33_000,
                green_x: 30_000,
                green_y: 60_000,
                blue_x: 15_000,
                blue_y: 6_000,
            }),
            icc_profile: Some(IccProfile {
                name: "Display".to_string(),
                profile: vec![1, 2, 3, 4],
            }),
            compressed_text_chunks: vec![TextChunk {
                keyword: "Comment".to_string(),
                text: "compressed note".to_string(),
            }],
            international_text_chunks: vec![InternationalTextChunk {
                keyword: "Description".to_string(),
                language_tag: "en".to_string(),
                translated_keyword: "Description".to_string(),
                text: "international note".to_string(),
                compressed: true,
            }],
            ..PngMetadata::default()
        })
    );
}

#[test]
fn metadata_inspection_rejects_unsupported_compression_method() {
    let chunks = vec![
        chunk(*b"IHDR", ihdr_payload(1, 1, 8, 2, 0, 0, 0).to_vec()),
        chunk(*b"zTXt", b"Comment\0\x01bad".to_vec()),
        chunk(*b"IDAT", vec![0]),
        chunk(*b"IEND", Vec::new()),
    ];

    assert_eq!(
        extract_png_metadata(&chunks),
        Err(PngParseError::InvalidMetadataCompressionMethod {
            chunk_type: *b"zTXt",
            method: 1,
        })
    );
}

#[test]
fn metadata_inspection_rejects_malformed_payloads() {
    let chunks = vec![
        chunk(*b"IHDR", ihdr_payload(1, 1, 8, 2, 0, 0, 0).to_vec()),
        chunk(*b"gAMA", vec![0, 1]),
        chunk(*b"IDAT", vec![0]),
        chunk(*b"IEND", Vec::new()),
    ];

    assert_eq!(
        extract_png_metadata(&chunks),
        Err(PngParseError::InvalidMetadataLength {
            chunk_type: *b"gAMA",
            length: 2,
        })
    );
}

#[test]
fn metadata_inspection_rejects_malformed_text_chunk() {
    let chunks = vec![
        chunk(*b"IHDR", ihdr_payload(1, 1, 8, 2, 0, 0, 0).to_vec()),
        chunk(*b"tEXt", b"missing separator".to_vec()),
        chunk(*b"IDAT", vec![0]),
        chunk(*b"IEND", Vec::new()),
    ];

    assert_eq!(
        extract_png_metadata(&chunks),
        Err(PngParseError::InvalidTextChunk)
    );
}

#[test]
fn encode_png_image_writes_grayscale_round_trip_png() {
    let image = PngImage {
        width: 2,
        height: 2,
        color_type: IhdrColorType::Grayscale,
        bit_depth: 8,
        pixels: vec![0, 64, 128, 255],
    };

    let encoded = encode_png_image(&image).expect("grayscale image should encode");

    assert_eq!(decode_png_image(&encoded), Ok(image));
}

#[test]
fn encode_png_image_writes_truecolor_round_trip_png() {
    let image = PngImage {
        width: 2,
        height: 1,
        color_type: IhdrColorType::Truecolor,
        bit_depth: 8,
        pixels: vec![255, 0, 0, 0, 128, 255],
    };

    let encoded = encode_png_image(&image).expect("truecolor image should encode");

    assert_eq!(decode_png_image(&encoded), Ok(image));
}

#[test]
fn encode_png_image_rejects_indexed_without_palette_write_support() {
    let image = PngImage {
        width: 1,
        height: 1,
        color_type: IhdrColorType::Indexed,
        bit_depth: 8,
        pixels: vec![0],
    };

    assert_eq!(
        encode_png_image(&image),
        Err(PngParseError::UnsupportedEncodeFormat {
            bit_depth: 8,
            color_type: 3,
        })
    );
}

#[test]
fn encode_png_image_rejects_incorrect_pixel_length() {
    let image = PngImage {
        width: 2,
        height: 1,
        color_type: IhdrColorType::Truecolor,
        bit_depth: 8,
        pixels: vec![255, 0, 0],
    };

    assert_eq!(
        encode_png_image(&image),
        Err(PngParseError::InvalidImageDataLength {
            expected: 6,
            actual: 3,
        })
    );
}

#[test]
fn encode_indexed_png_image_writes_palette_round_trip_png() {
    let image = PngIndexedImage {
        width: 2,
        height: 1,
        bit_depth: 8,
        palette: vec![
            PaletteEntry {
                red: 255,
                green: 0,
                blue: 0,
            },
            PaletteEntry {
                red: 0,
                green: 0,
                blue: 255,
            },
        ],
        indices: vec![0, 1],
        alpha: None,
    };

    let encoded = encode_indexed_png_image(&image).expect("indexed image should encode");

    assert_eq!(
        decode_png_image(&encoded),
        Ok(PngImage {
            width: 2,
            height: 1,
            color_type: IhdrColorType::Indexed,
            bit_depth: 8,
            pixels: vec![255, 0, 0, 0, 0, 255],
        })
    );
}

#[test]
fn encode_indexed_png_image_writes_trns_alpha_round_trip_png() {
    let image = PngIndexedImage {
        width: 2,
        height: 1,
        bit_depth: 8,
        palette: vec![
            PaletteEntry {
                red: 255,
                green: 0,
                blue: 0,
            },
            PaletteEntry {
                red: 0,
                green: 0,
                blue: 255,
            },
        ],
        indices: vec![0, 1],
        alpha: Some(vec![0, 128]),
    };

    let encoded = encode_indexed_png_image(&image).expect("indexed alpha image should encode");

    assert_eq!(
        decode_png_image(&encoded),
        Ok(PngImage {
            width: 2,
            height: 1,
            color_type: IhdrColorType::Indexed,
            bit_depth: 8,
            pixels: vec![255, 0, 0, 0, 0, 0, 255, 128],
        })
    );
}

#[test]
fn encode_indexed_png_image_writes_packed_two_bit_rows() {
    let image = PngIndexedImage {
        width: 4,
        height: 1,
        bit_depth: 2,
        palette: vec![
            PaletteEntry {
                red: 0,
                green: 0,
                blue: 0,
            },
            PaletteEntry {
                red: 85,
                green: 0,
                blue: 0,
            },
            PaletteEntry {
                red: 170,
                green: 0,
                blue: 0,
            },
            PaletteEntry {
                red: 255,
                green: 0,
                blue: 0,
            },
        ],
        indices: vec![0, 1, 2, 3],
        alpha: None,
    };

    let encoded = encode_indexed_png_image(&image).expect("packed indexed image should encode");

    assert_eq!(
        decode_png_image(&encoded),
        Ok(PngImage {
            width: 4,
            height: 1,
            color_type: IhdrColorType::Indexed,
            bit_depth: 2,
            pixels: vec![0, 0, 0, 85, 0, 0, 170, 0, 0, 255, 0, 0],
        })
    );
}

#[test]
fn encode_indexed_png_image_rejects_invalid_palette_index() {
    let image = PngIndexedImage {
        width: 1,
        height: 1,
        bit_depth: 8,
        palette: vec![PaletteEntry {
            red: 255,
            green: 0,
            blue: 0,
        }],
        indices: vec![3],
        alpha: None,
    };

    assert_eq!(
        encode_indexed_png_image(&image),
        Err(PngParseError::InvalidPaletteIndex {
            index: 3,
            palette_len: 1,
        })
    );
}

#[test]
fn encode_png_image_supports_explicit_filter_strategies() {
    let image = PngImage {
        width: 3,
        height: 2,
        color_type: IhdrColorType::Grayscale,
        bit_depth: 8,
        pixels: vec![10, 20, 35, 35, 40, 80],
    };

    for strategy in [
        PngFilterStrategy::Sub,
        PngFilterStrategy::Up,
        PngFilterStrategy::Average,
        PngFilterStrategy::Paeth,
    ] {
        let encoded = encode_png_image_with_filter_strategy(&image, strategy)
            .expect("filtered image should encode");

        assert_eq!(
            decode_png_image(&encoded),
            Ok(PngImage {
                width: image.width,
                height: image.height,
                color_type: image.color_type,
                bit_depth: image.bit_depth,
                pixels: Vec::from(image.pixels.as_slice()),
            })
        );
    }
}

#[test]
fn encode_png_image_supports_adaptive_filter_strategy() {
    let image = PngImage {
        width: 3,
        height: 2,
        color_type: IhdrColorType::Grayscale,
        bit_depth: 8,
        pixels: vec![10, 20, 35, 35, 40, 80],
    };

    let encoded = encode_png_image_with_filter_strategy(&image, PngFilterStrategy::Adaptive)
        .expect("adaptive filtered image should encode");

    assert_eq!(
        decode_png_image(&encoded),
        Ok(PngImage {
            width: image.width,
            height: image.height,
            color_type: image.color_type,
            bit_depth: image.bit_depth,
            pixels: Vec::from(image.pixels.as_slice()),
        })
    );
}

#[test]
fn encode_adam7_png_image_writes_interlaced_round_trip_png() {
    let image = PngImage {
        width: 2,
        height: 2,
        color_type: IhdrColorType::Grayscale,
        bit_depth: 8,
        pixels: vec![10, 20, 30, 40],
    };

    let encoded = encode_adam7_png_image(&image).expect("Adam7 image should encode");
    let chunks = parse_png_chunks(&encoded).expect("encoded Adam7 chunks should parse");
    let ihdr = chunks
        .iter()
        .find(|chunk| chunk.header.chunk_type.bytes() == *b"IHDR")
        .map(|chunk| Ihdr::parse(&chunk.payload))
        .expect("IHDR should be present")
        .expect("IHDR should parse");

    assert_eq!(ihdr.interlace_method, PngInterlaceMethod::Adam7);
    assert_eq!(decode_png_image(&encoded), Ok(image));
}

#[test]
fn decode_png_rows_invokes_callback_for_each_row() {
    let input = image_png_bytes(2, 2, 0, &[0, 10, 20, 0, 30, 40]);
    let mut rows = Vec::new();

    for row in decode_png_rows(&input).expect("rows should decode") {
        rows.push((row.row_index, row.pixels));
    }

    assert_eq!(rows, vec![(0, vec![10, 20]), (1, vec![30, 40])]);
}

#[test]
fn png_compat_read_lifecycle_returns_info_and_rows() {
    let chunks = vec![
        chunk(*b"IHDR", ihdr_payload(2, 1, 8, 0, 0, 0, 0).to_vec()),
        chunk(*b"tEXt", b"Title\0Compat".to_vec()),
        chunk(*b"vpAg", vec![1, 2, 3]),
        chunk(*b"IDAT", zlib_compress(&[0, 10, 20])),
        chunk(*b"IEND", Vec::new()),
    ];
    let input = png_bytes_from_chunks(&chunks);
    let mut reader = png_compat_create_read_struct();

    png_compat_set_read_buffer(&mut reader, &input);

    assert_eq!(
        png_compat_read_info(&mut reader),
        Ok(PngCompatInfo {
            width: 2,
            height: 1,
            bit_depth: 8,
            color_type: IhdrColorType::Grayscale,
            rowbytes: 2,
            text_chunk_count: 1,
            unknown_ancillary_count: 1,
        })
    );
    assert_eq!(png_compat_read_image(&mut reader), Ok(vec![vec![10, 20]]));
    assert_eq!(
        png_compat_read_warnings(&reader),
        &[
            PngCompatibilityWarning::RustNativeFacadeOnly,
            PngCompatibilityWarning::CAbiNotProvided,
        ]
    );

    png_compat_destroy_read_struct(&mut reader);

    assert!(png_compat_read_warnings(&reader).is_empty());
}

#[test]
fn png_compat_read_transforms_strip_16_samples_and_warns() {
    let input = image_png_bytes_with_bit_depth(2, 1, 16, 0, &[0, 0x12, 0x34, 0xab, 0xcd]);
    let mut reader = png_compat_create_read_struct();
    
    png_compat_set_warning_handler(&mut reader);
    png_compat_set_strip_16(&mut reader);
    png_compat_set_read_buffer(&mut reader, &input);

    assert_eq!(
        png_compat_read_info(&mut reader),
        Ok(PngCompatInfo {
            width: 2,
            height: 1,
            bit_depth: 8,
            color_type: IhdrColorType::Grayscale,
            rowbytes: 2,
            text_chunk_count: 0,
            unknown_ancillary_count: 0,
        })
    );
    assert_eq!(
        png_compat_read_image(&mut reader),
        Ok(vec![vec![0x12, 0xab]])
    );
    assert!(png_compat_read_warnings(&reader).contains(
        &PngCompatibilityWarning::TransformApplied {
            transform: PngCompatTransform::Strip16,
        }
    ));
    assert_eq!(png_compat_take_warning_notifications(&mut reader).len(), 2);
}

#[test]
fn png_compat_read_transforms_expand_gray_to_eight_bit_info() {
    let input = image_png_bytes_with_bit_depth(2, 1, 4, 0, &[0, 0x0f]);
    let mut reader = png_compat_create_read_struct();

    png_compat_set_expand_gray_1_2_4_to_8(&mut reader);
    png_compat_set_read_buffer(&mut reader, &input);

    assert_eq!(
        png_compat_read_info(&mut reader).map(|info| (info.bit_depth, info.rowbytes)),
        Ok((8, 2))
    );
    assert_eq!(png_compat_read_image(&mut reader), Ok(vec![vec![0, 255]]));
}

#[test]
fn png_compat_read_transforms_palette_and_trns_outputs() {
    let input = indexed_png_bytes(2, 1, vec![255, 0, 0, 0, 0, 255], &[0, 0, 1]);
    let mut reader = png_compat_create_read_struct();

    png_compat_set_palette_to_rgb(&mut reader);
    png_compat_set_read_buffer(&mut reader, &input);

    assert_eq!(
        png_compat_read_info(&mut reader).map(|info| (info.color_type, info.rowbytes)),
        Ok((IhdrColorType::Truecolor, 6))
    );
    assert_eq!(
        png_compat_read_image(&mut reader),
        Ok(vec![vec![255, 0, 0, 0, 0, 255]])
    );

    let chunks = vec![
        chunk(*b"IHDR", ihdr_payload(2, 1, 8, 3, 0, 0, 0).to_vec()),
        chunk(*b"PLTE", vec![255, 0, 0, 0, 0, 255]),
        chunk(*b"tRNS", vec![0, 128]),
        chunk(*b"IDAT", zlib_compress(&[0, 0, 1])),
        chunk(*b"IEND", Vec::new()),
    ];
    let input = png_bytes_from_chunks(&chunks);
    let mut reader = png_compat_create_read_struct();

    png_compat_set_trns_to_alpha(&mut reader);
    png_compat_set_read_buffer(&mut reader, &input);

    assert_eq!(
        png_compat_read_info(&mut reader).map(|info| (info.color_type, info.rowbytes)),
        Ok((IhdrColorType::TruecolorAlpha, 8))
    );
    assert_eq!(
        png_compat_read_image(&mut reader),
        Ok(vec![vec![255, 0, 0, 0, 0, 0, 255, 128]])
    );
}

#[test]
fn png_compat_write_lifecycle_writes_image_document_and_indexed_output() {
    let mut writer = png_compat_create_write_struct();
    let image = PngImage {
        width: 1,
        height: 1,
        color_type: IhdrColorType::Grayscale,
        bit_depth: 8,
        pixels: vec![42],
    };

    png_compat_write_image(&mut writer, &image).expect("compat image should write");
    assert_eq!(
        decode_png_image(png_compat_write_output(&writer)),
        Ok(image)
    );

    let document = PngDocument {
        image: PngImage {
            width: 1,
            height: 1,
            color_type: IhdrColorType::Grayscale,
            bit_depth: 8,
            pixels: vec![64],
        },
        metadata: PngMetadata {
            text_chunks: vec![TextChunk {
                keyword: "Title".to_string(),
                text: "Compat".to_string(),
            }],
            ..PngMetadata::default()
        },
        unknown_ancillary_chunks: Vec::new(),
    };

    png_compat_write_document(&mut writer, &document).expect("compat document should write");
    assert_eq!(
        decode_png_document(png_compat_write_output(&writer))
            .map(|document| document.metadata.text_chunks.len()),
        Ok(1)
    );

    let indexed = PngIndexedImage {
        width: 1,
        height: 1,
        bit_depth: 1,
        palette: vec![PaletteEntry {
            red: 0,
            green: 0,
            blue: 0,
        }],
        indices: vec![0],
        alpha: None,
    };

    png_compat_write_indexed_image(&mut writer, &indexed)
        .expect("compat indexed image should write");
    assert_eq!(
        decode_png_image(png_compat_write_output(&writer)).map(|image| image.color_type),
        Ok(IhdrColorType::Indexed)
    );
    assert_eq!(
        png_compat_write_warnings(&writer),
        &[
            PngCompatibilityWarning::RustNativeFacadeOnly,
            PngCompatibilityWarning::CAbiNotProvided,
        ]
    );

    png_compat_destroy_write_struct(&mut writer);

    assert!(png_compat_write_output(&writer).is_empty());
}

#[test]
fn png_compat_write_unknown_chunk_policy_controls_copying() {
    let document = PngDocument {
        image: PngImage {
            width: 1,
            height: 1,
            color_type: IhdrColorType::Grayscale,
            bit_depth: 8,
            pixels: vec![7],
        },
        metadata: PngMetadata::default(),
        unknown_ancillary_chunks: vec![
            UnknownAncillaryChunk {
                chunk_type: *b"vpAg",
                payload: vec![1],
            },
            UnknownAncillaryChunk {
                chunk_type: *b"vpAG",
                payload: vec![2],
            },
        ],
    };
    let mut writer = png_compat_create_write_struct();

    png_compat_write_document(&mut writer, &document)
        .expect("default safe-copy policy should write");
    assert_eq!(
        decode_png_document(png_compat_write_output(&writer))
            .map(|document| document.unknown_ancillary_chunks),
        Ok(vec![UnknownAncillaryChunk {
            chunk_type: *b"vpAg",
            payload: vec![1],
        }])
    );

    png_compat_set_unknown_chunk_policy(&mut writer, PngCompatUnknownChunkPolicy::CopyNone);
    png_compat_write_document(&mut writer, &document).expect("none-copy policy should write");
    assert_eq!(
        decode_png_document(png_compat_write_output(&writer))
            .map(|document| document.unknown_ancillary_chunks),
        Ok(Vec::new())
    );

    png_compat_set_unknown_chunk_policy(&mut writer, PngCompatUnknownChunkPolicy::AllAncillary);
    png_compat_write_document(&mut writer, &document)
        .expect("all ancillary copy policy should write");
    assert_eq!(
        decode_png_document(png_compat_write_output(&writer))
            .map(|document| document.unknown_ancillary_chunks),
        Ok(document.unknown_ancillary_chunks)
    );
    assert!(
        png_compat_write_warnings(&writer)
            .contains(&PngCompatibilityWarning::UnsafeAncillaryCopyAllowed)
    );
}

#[test]
fn decode_png_document_preserves_unknown_ancillary_chunks() {
    let chunks = vec![
        chunk(*b"IHDR", ihdr_payload(1, 1, 8, 0, 0, 0, 0).to_vec()),
        chunk(*b"tEXt", b"Title\0Document".to_vec()),
        chunk(*b"vpAg", vec![9, 8, 7]),
        chunk(*b"IDAT", zlib_compress(&[0, 42])),
        chunk(*b"IEND", Vec::new()),
    ];
    let input = png_bytes_from_chunks(&chunks);

    assert_eq!(
        decode_png_document(&input),
        Ok(PngDocument {
            image: PngImage {
                width: 1,
                height: 1,
                color_type: IhdrColorType::Grayscale,
                bit_depth: 8,
                pixels: vec![42],
            },
            metadata: PngMetadata {
                text_chunks: vec![TextChunk {
                    keyword: "Title".to_string(),
                    text: "Document".to_string(),
                }],
                ..PngMetadata::default()
            },
            unknown_ancillary_chunks: vec![UnknownAncillaryChunk {
                chunk_type: *b"vpAg",
                payload: vec![9, 8, 7],
            }],
        })
    );
}

#[test]
fn encode_png_document_writes_metadata_and_safe_unknown_chunks() {
    let document = PngDocument {
        image: PngImage {
            width: 1,
            height: 1,
            color_type: IhdrColorType::Grayscale,
            bit_depth: 8,
            pixels: vec![77],
        },
        metadata: PngMetadata {
            gamma_scaled: Some(45_455),
            text_chunks: vec![TextChunk {
                keyword: "Title".to_string(),
                text: "Encoded".to_string(),
            }],
            compressed_text_chunks: vec![TextChunk {
                keyword: "Comment".to_string(),
                text: "stored compressed".to_string(),
            }],
            international_text_chunks: vec![InternationalTextChunk {
                keyword: "Description".to_string(),
                language_tag: "en".to_string(),
                translated_keyword: "Description".to_string(),
                text: "encoded document".to_string(),
                compressed: false,
            }],
            ..PngMetadata::default()
        },
        unknown_ancillary_chunks: vec![
            UnknownAncillaryChunk {
                chunk_type: *b"vpAg",
                payload: vec![1, 2, 3],
            },
            UnknownAncillaryChunk {
                chunk_type: *b"vpAG",
                payload: vec![4, 5, 6],
            },
        ],
    };

    let encoded = encode_png_document(&document).expect("document should encode");
    let chunks = parse_png_chunks(&encoded).expect("encoded chunks should parse");

    assert!(
        chunks
            .iter()
            .any(|chunk| chunk.header.chunk_type.bytes() == *b"vpAg")
    );
    assert!(
        !chunks
            .iter()
            .any(|chunk| chunk.header.chunk_type.bytes() == *b"vpAG")
    );

    assert_eq!(
        decode_png_document(&encoded),
        Ok(PngDocument {
            image: PngImage {
                width: 1,
                height: 1,
                color_type: IhdrColorType::Grayscale,
                bit_depth: 8,
                pixels: vec![77],
            },
            metadata: PngMetadata {
                gamma_scaled: Some(45_455),
                text_chunks: vec![TextChunk {
                    keyword: "Title".to_string(),
                    text: "Encoded".to_string(),
                }],
                compressed_text_chunks: vec![TextChunk {
                    keyword: "Comment".to_string(),
                    text: "stored compressed".to_string(),
                }],
                international_text_chunks: vec![InternationalTextChunk {
                    keyword: "Description".to_string(),
                    language_tag: "en".to_string(),
                    translated_keyword: "Description".to_string(),
                    text: "encoded document".to_string(),
                    compressed: false,
                }],
                ..PngMetadata::default()
            },
            unknown_ancillary_chunks: vec![UnknownAncillaryChunk {
                chunk_type: *b"vpAg",
                payload: vec![1, 2, 3],
            }],
        })
    );
}

#[test]
fn decode_png_image_reads_tiny_grayscale_pixels() {
    let input = image_png_bytes(2, 2, 0, &[0, 10, 20, 0, 30, 40]);

    assert_eq!(
        decode_png_image(&input),
        Ok(PngImage {
            width: 2,
            height: 2,
            color_type: IhdrColorType::Grayscale,
            bit_depth: 8,
            pixels: vec![10, 20, 30, 40],
        })
    );
}

#[test]
fn decode_png_image_expands_one_bit_grayscale_samples() {
    let input = image_png_bytes_with_bit_depth(4, 1, 1, 0, &[0, 0b1010_0000]);

    assert_eq!(
        decode_png_image(&input),
        Ok(PngImage {
            width: 4,
            height: 1,
            color_type: IhdrColorType::Grayscale,
            bit_depth: 1,
            pixels: vec![255, 0, 255, 0],
        })
    );
}

#[test]
fn decode_png_image_expands_four_bit_grayscale_samples() {
    let input = image_png_bytes_with_bit_depth(3, 1, 4, 0, &[0, 0x0f, 0x80]);

    assert_eq!(
        decode_png_image(&input),
        Ok(PngImage {
            width: 3,
            height: 1,
            color_type: IhdrColorType::Grayscale,
            bit_depth: 4,
            pixels: vec![0, 255, 136],
        })
    );
}

#[test]
fn decode_png_image_preserves_16_bit_grayscale_sample_bytes() {
    let input = image_png_bytes_with_bit_depth(2, 1, 16, 0, &[0, 0x12, 0x34, 0xab, 0xcd]);

    assert_eq!(
        decode_png_image(&input),
        Ok(PngImage {
            width: 2,
            height: 1,
            color_type: IhdrColorType::Grayscale,
            bit_depth: 16,
            pixels: vec![0x12, 0x34, 0xab, 0xcd],
        })
    );
}

#[test]
fn decode_png_image_reconstructs_adam7_grayscale_pixels() {
    let adam7_scanlines = [
        0, 1, // pass 1: (0,0)
        0, 3, // pass 4: (2,0)
        0, 7, 9, // pass 5: (0,2), (2,2)
        0, 2, // pass 6 row 0: (1,0)
        0, 8, // pass 6 row 1: (1,2)
        0, 4, 5, 6, // pass 7: y=1, x=0..2
    ];
    let input = image_png_bytes_with_interlace(3, 3, 8, 0, 1, &adam7_scanlines);

    assert_eq!(
        decode_png_image(&input),
        Ok(PngImage {
            width: 3,
            height: 3,
            color_type: IhdrColorType::Grayscale,
            bit_depth: 8,
            pixels: vec![1, 2, 3, 4, 5, 6, 7, 8, 9],
        })
    );
}

#[test]
fn decode_png_image_reconstructs_truecolor_sub_filter() {
    let input = image_png_bytes(2, 1, 2, &[1, 10, 20, 30, 5, 5, 5]);

    assert_eq!(
        decode_png_image(&input),
        Ok(PngImage {
            width: 2,
            height: 1,
            color_type: IhdrColorType::Truecolor,
            bit_depth: 8,
            pixels: vec![10, 20, 30, 15, 25, 35],
        })
    );
}

#[test]
fn decode_png_image_preserves_16_bit_truecolor_sample_bytes() {
    let input =
        image_png_bytes_with_bit_depth(1, 1, 16, 2, &[0, 0x00, 0x10, 0x00, 0x20, 0x00, 0x30]);

    assert_eq!(
        decode_png_image(&input),
        Ok(PngImage {
            width: 1,
            height: 1,
            color_type: IhdrColorType::Truecolor,
            bit_depth: 16,
            pixels: vec![0x00, 0x10, 0x00, 0x20, 0x00, 0x30],
        })
    );
}

#[test]
fn decode_png_image_reads_tiny_grayscale_alpha_pixels() {
    let input = image_png_bytes(2, 1, 4, &[0, 10, 255, 20, 128]);

    assert_eq!(
        decode_png_image(&input),
        Ok(PngImage {
            width: 2,
            height: 1,
            color_type: IhdrColorType::GrayscaleAlpha,
            bit_depth: 8,
            pixels: vec![10, 255, 20, 128],
        })
    );
}

#[test]
fn decode_png_image_preserves_16_bit_grayscale_alpha_sample_bytes() {
    let input = image_png_bytes_with_bit_depth(1, 1, 16, 4, &[0, 0x00, 0x80, 0xff, 0xff]);

    assert_eq!(
        decode_png_image(&input),
        Ok(PngImage {
            width: 1,
            height: 1,
            color_type: IhdrColorType::GrayscaleAlpha,
            bit_depth: 16,
            pixels: vec![0x00, 0x80, 0xff, 0xff],
        })
    );
}

#[test]
fn decode_png_image_reconstructs_truecolor_alpha_sub_filter() {
    let input = image_png_bytes(2, 1, 6, &[1, 10, 20, 30, 255, 5, 5, 5, 0]);

    assert_eq!(
        decode_png_image(&input),
        Ok(PngImage {
            width: 2,
            height: 1,
            color_type: IhdrColorType::TruecolorAlpha,
            bit_depth: 8,
            pixels: vec![10, 20, 30, 255, 15, 25, 35, 255],
        })
    );
}

#[test]
fn decode_png_image_preserves_16_bit_truecolor_alpha_sample_bytes() {
    let input = image_png_bytes_with_bit_depth(
        1,
        1,
        16,
        6,
        &[0, 0x00, 0x10, 0x00, 0x20, 0x00, 0x30, 0xff, 0xff],
    );

    assert_eq!(
        decode_png_image(&input),
        Ok(PngImage {
            width: 1,
            height: 1,
            color_type: IhdrColorType::TruecolorAlpha,
            bit_depth: 16,
            pixels: vec![0x00, 0x10, 0x00, 0x20, 0x00, 0x30, 0xff, 0xff],
        })
    );
}

#[test]
fn plte_parser_returns_palette_entries() {
    assert_eq!(
        parse_plte(&[255, 0, 0, 0, 255, 0]),
        Ok(vec![
            PaletteEntry {
                red: 255,
                green: 0,
                blue: 0,
            },
            PaletteEntry {
                red: 0,
                green: 255,
                blue: 0,
            },
        ])
    );

    assert_eq!(
        parse_plte(&[255, 0, 0, 1]),
        Err(PngParseError::InvalidPlteLength { length: 4 })
    );
}

#[test]
fn decode_png_image_expands_indexed_pixels_to_rgb() {
    let input = indexed_png_bytes(2, 1, vec![255, 0, 0, 0, 255, 0], &[0, 0, 1]);

    assert_eq!(
        decode_png_image(&input),
        Ok(PngImage {
            width: 2,
            height: 1,
            color_type: IhdrColorType::Indexed,
            bit_depth: 8,
            pixels: vec![255, 0, 0, 0, 255, 0],
        })
    );
}

#[test]
fn decode_png_image_expands_two_bit_indexed_pixels_to_rgb() {
    let chunks = vec![
        chunk(*b"IHDR", ihdr_payload(4, 1, 2, 3, 0, 0, 0).to_vec()),
        chunk(
            *b"PLTE",
            vec![255, 0, 0, 0, 255, 0, 0, 0, 255, 255, 255, 255],
        ),
        chunk(*b"IDAT", zlib_compress(&[0, 0b0001_1011])),
        chunk(*b"IEND", Vec::new()),
    ];
    let input = png_bytes_from_chunks(&chunks);

    assert_eq!(
        decode_png_image(&input),
        Ok(PngImage {
            width: 4,
            height: 1,
            color_type: IhdrColorType::Indexed,
            bit_depth: 2,
            pixels: vec![255, 0, 0, 0, 255, 0, 0, 0, 255, 255, 255, 255],
        })
    );
}

#[test]
fn decode_png_image_requires_plte_for_indexed_color() {
    let input = image_png_bytes(1, 1, 3, &[0, 0]);

    assert_eq!(decode_png_image(&input), Err(PngParseError::MissingPlte));
}

#[test]
fn decode_png_image_rejects_invalid_palette_index() {
    let input = indexed_png_bytes(1, 1, vec![255, 0, 0], &[0, 1]);

    assert_eq!(
        decode_png_image(&input),
        Err(PngParseError::InvalidPaletteIndex {
            index: 1,
            palette_len: 1,
        })
    );
}

#[test]
fn trns_parser_returns_transparency_metadata() {
    assert_eq!(
        parse_trns(&[0, 20], IhdrColorType::Grayscale),
        Ok(Transparency::Grayscale { sample: 20 })
    );
    assert_eq!(
        parse_trns(&[0, 10, 0, 20, 0, 30], IhdrColorType::Truecolor),
        Ok(Transparency::Truecolor {
            red: 10,
            green: 20,
            blue: 30,
        })
    );
    assert_eq!(
        parse_trns(&[0, 128], IhdrColorType::Indexed),
        Ok(Transparency::Indexed {
            alpha: vec![0, 128],
        })
    );
}

#[test]
fn decode_png_image_expands_grayscale_trns_to_alpha() {
    let input = image_png_bytes_with_extra_chunks(
        2,
        1,
        0,
        vec![chunk(*b"tRNS", vec![0, 20])],
        &[0, 10, 20],
    );

    assert_eq!(
        decode_png_image(&input),
        Ok(PngImage {
            width: 2,
            height: 1,
            color_type: IhdrColorType::Grayscale,
            bit_depth: 8,
            pixels: vec![10, 255, 20, 0],
        })
    );
}

#[test]
fn decode_png_image_expands_truecolor_trns_to_alpha() {
    let input = image_png_bytes_with_extra_chunks(
        2,
        1,
        2,
        vec![chunk(*b"tRNS", vec![0, 10, 0, 20, 0, 30])],
        &[0, 10, 20, 30, 1, 2, 3],
    );

    assert_eq!(
        decode_png_image(&input),
        Ok(PngImage {
            width: 2,
            height: 1,
            color_type: IhdrColorType::Truecolor,
            bit_depth: 8,
            pixels: vec![10, 20, 30, 0, 1, 2, 3, 255],
        })
    );
}

#[test]
fn decode_png_image_expands_indexed_trns_to_rgba() {
    let chunks = vec![
        chunk(*b"IHDR", ihdr_payload(2, 1, 8, 3, 0, 0, 0).to_vec()),
        chunk(*b"PLTE", vec![255, 0, 0, 0, 255, 0]),
        chunk(*b"tRNS", vec![0, 128]),
        chunk(*b"IDAT", zlib_compress(&[0, 0, 1])),
        chunk(*b"IEND", Vec::new()),
    ];
    let input = png_bytes_from_chunks(&chunks);

    assert_eq!(
        decode_png_image(&input),
        Ok(PngImage {
            width: 2,
            height: 1,
            color_type: IhdrColorType::Indexed,
            bit_depth: 8,
            pixels: vec![255, 0, 0, 0, 0, 255, 0, 128],
        })
    );
}

#[test]
fn decode_png_image_rejects_invalid_trns_length() {
    let input =
        image_png_bytes_with_extra_chunks(1, 1, 0, vec![chunk(*b"tRNS", vec![0])], &[0, 10]);

    assert_eq!(
        decode_png_image(&input),
        Err(PngParseError::InvalidTrnsLength {
            color_type: 0,
            length: 1,
        })
    );
}

#[test]
fn decode_png_image_rejects_trns_for_alpha_color_types() {
    let input = image_png_bytes_with_extra_chunks(
        1,
        1,
        6,
        vec![chunk(*b"tRNS", vec![0, 10, 0, 20, 0, 30])],
        &[0, 10, 20, 30, 255],
    );

    assert_eq!(
        decode_png_image(&input),
        Err(PngParseError::TrnsNotAllowed { color_type: 6 })
    );
}

#[test]
fn indexed_round_trip_keeps_every_row_and_alpha() {
    let palette = vec![
        PaletteEntry { red: 1, green: 2, blue: 3 },
        PaletteEntry { red: 4, green: 5, blue: 6 },
        PaletteEntry { red: 7, green: 8, blue: 9 },
    ];
    let image = PngIndexedImage {
        width: 3,
        height: 2,
        bit_depth: 8,
        palette,
        indices: vec![0, 1, 2, 2, 1, 0],
        alpha: Some(vec![10, 20]),
    };
    let encoded = encode_indexed_png_image(&image).expect("indexed image should encode");
    assert_eq!(
        decode_png_image(&encoded),
        Ok(PngImage {
            width: 3,
            height: 2,
            color_type: IhdrColorType::Indexed,
            bit_depth: 8,
            pixels: vec![
                1, 2, 3, 10, 4, 5, 6, 20, 7, 8, 9, 255, 7, 8, 9, 255, 4, 5, 6, 20, 1, 2, 3, 10,
            ],
        })
    );
}

#[test]
fn indexed_round_trip_unpacks_one_packed_row() {
    let palette = vec![
        PaletteEntry { red: 0, green: 0, blue: 0 },
        PaletteEntry { red: 255, green: 255, blue: 255 },
    ];
    let image = PngIndexedImage {
        width: 10,
        height: 1,
        bit_depth: 1,
        palette,
        indices: vec![1, 0, 1, 1, 0, 0, 0, 1, 1, 0],
        alpha: None,
    };
    let encoded = encode_indexed_png_image(&image).expect("packed indexed image should encode");
    let mut expected = Vec::new();
    for index in [1u8, 0, 1, 1, 0, 0, 0, 1, 1, 0] {
        let v = if index == 1 { 255 } else { 0 };
        expected.extend_from_slice(&[v, v, v]);
    }
    assert_eq!(
        decode_png_image(&encoded),
        Ok(PngImage { width: 10, height: 1, color_type: IhdrColorType::Indexed, bit_depth: 1, pixels: expected })
    );
}

#[test]
fn document_round_trip_keeps_all_metadata_and_copied_chunks() {
    let document = PngDocument {
        image: PngImage {
            width: 2,
            height: 1,
            color_type: IhdrColorType::Truecolor,
            bit_depth: 16,
            pixels: vec![1, 2, 3, 4, 5, 6, 7, 8, 9, 10, 11, 12],
        },
        metadata: PngMetadata {
            gamma_scaled: Some(100_000),
            chromaticities: Some(PngChromaticities {
                white_x: 31_270,
                white_y: 32_900,
                red_x: 64_000,
                red_y: 33_000,
                green_x: 30_000,
                green_y: 60_000,
                blue_x: 15_000,
                blue_y: 6_000,
            }),
            srgb_rendering_intent: Some(SrgbRenderingIntent::Saturation),
            icc_profile: Some(IccProfile { name: "icc".to_string(), profile: vec![9, 8, 7, 6, 5] }),
            physical_pixel_dimensions: Some(PhysicalPixelDimensions {
                pixels_per_unit_x: 2835,
                pixels_per_unit_y: 2835,
                unit: PhysicalPixelUnit::Meter,
            }),
            timestamp: Some(PngTimestamp { year: 2024, month: 2, day: 29, hour: 23, minute: 59, second: 60 }),
            text_chunks: vec![
                TextChunk { keyword: "Title".to_string(), text: "one".to_string() },
                TextChunk { keyword: "Author".to_string(), text: "two".to_string() },
            ],
            compressed_text_chunks: vec![TextChunk { keyword: "Comment".to_string(), text: "squeezed".to_string() }],
            international_text_chunks: vec![InternationalTextChunk {
                keyword: "Description".to_string(),
                language_tag: "de".to_string(),
                translated_keyword: "Beschreibung".to_string(),
                text: "gepackt".to_string(),
                compressed: true,
            }],
        },
        unknown_ancillary_chunks: vec![
            UnknownAncillaryChunk { chunk_type: *b"vpAg", payload: vec![1] },
            UnknownAncillaryChunk { chunk_type: *b"prVT", payload: vec![2, 3] },
        ],
    };
    let encoded = encode_png_document_with_unknown_policy(&document, PngCompatUnknownChunkPolicy::AllAncillary)
        .expect("document should encode");
    assert_eq!(decode_png_document(&encoded), Ok(document));
}

#[test]
fn serialized_chunks_split_back_with_their_crcs_as_written() {
    let mut bytes = PNG_SIGNATURE.to_vec();
    bytes.extend_from_slice(&[0, 0, 0, 2]);
    bytes.extend_from_slice(b"abCd");
    bytes.extend_from_slice(&[1, 2]);
    bytes.extend_from_slice(&0xdead_beef_u32.to_be_bytes());
    bytes.extend_from_slice(&[0, 0, 0, 0]);
    bytes.extend_from_slice(b"IEND");
    bytes.extend_from_slice(&7u32.to_be_bytes());

    let chunks = parse_png_chunks(&bytes).expect("serialized chunks should split");
    assert_eq!(chunks.len(), 2);
    assert_eq!(chunks[0].header.length, 2);
    assert_eq!(chunks[0].header.chunk_type.bytes(), *b"abCd");
    assert_eq!(chunks[0].payload, vec![1, 2]);
    assert_eq!(chunks[0].crc, 0xdead_beef);
    assert_eq!(chunks[1].header.chunk_type.bytes(), *b"IEND");
    assert_eq!(chunks[1].crc, 7);
}
