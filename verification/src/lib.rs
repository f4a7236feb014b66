//! Verified parsers and state machines for a handful of wire and file formats:
//! PNG chunk streams, zlib stored blocks, RESP commands, HTTP/1.1 request heads,
//! a queued SAX tokenizer, a DOM tree builder, JSON text and arithmetic
//! expressions.

pub mod octets;
pub mod text;
pub mod png;

pub mod redis;
pub mod miniz;
pub mod dom;
pub mod sax;
pub mod http;
pub mod json;
pub mod expr;
