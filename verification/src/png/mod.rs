//! PNG: signature comparison, chunk framing, stream parsing, structure
//! validation, metadata, decoding and encoding.

pub mod types;
pub mod checksum;
pub mod chunk;
pub mod signature;
pub mod stream;
pub mod palette;
pub mod structure;
pub mod unfilter;
pub mod interlace;
pub mod zlib;
pub mod pixels;
pub mod decode;
pub mod metadata;
pub mod document;
pub mod filter;
pub mod encode;
pub mod encode_meta;
pub mod encode_doc;
pub mod compat;
pub mod round_trip;
pub mod indexed_round_trip;
pub mod metadata_round_trip;
pub mod document_round_trip;
pub mod chunk_round_trip;
