//! The zlib streams of IDAT, zTXt, iTXt and iCCP chunks, through `flate2`.
use vstd::prelude::*;

verus! {

/// The bytes a zlib stream decompresses to, or `None` where `flate2`
/// rejects the stream.
pub uninterp spec fn zlib_inflated(data: Seq<u8>) -> Option<Seq<u8>>;

/// What compressing `data` with `flate2` at the default level gives: the
/// zlib stream it writes, or `None` where it reports an error.
pub uninterp spec fn zlib_deflate_outcome(data: Seq<u8>) -> Option<Seq<u8>>;

/// The zlib stream `flate2` writes for `data`, where compressing succeeds.
pub open spec fn zlib_deflated(data: Seq<u8>) -> Seq<u8> {
    zlib_deflate_outcome(data)->Some_0
}

/// Decompresses a zlib stream with `flate2::read::ZlibDecoder` and
/// `read_to_end`. Trusted: the result is `zlib_inflated` of the input, a
/// value that depends on the input bytes alone.
#[verifier::external_body]
pub(crate) fn inflate_zlib(data: &[u8]) -> (r: Option<Vec<u8>>)
    ensures
        match r {
            Some(v) => zlib_inflated(data@) == Some(v@),
            None => zlib_inflated(data@) is None,
        },
{
    let mut decoder = flate2::read::ZlibDecoder::new(data);
    let mut inflated = Vec::new();
    match std::io::Read::read_to_end(&mut decoder, &mut inflated) {
        Ok(_) => Some(inflated),
        Err(_) => None,
    }
}

/// Compresses `data` with `flate2::write::ZlibEncoder` at
/// `Compression::default()`. Trusted: the outcome is `zlib_deflate_outcome`
/// of the input, a value that depends on the input bytes alone; what it
/// writes is not empty (a zlib stream holds at least its header and
/// checksum), and decompressing it gives the input back.
#[verifier::external_body]
pub(crate) fn deflate_zlib(data: &[u8]) -> (r: Option<Vec<u8>>)
    ensures
        match r {
            Some(v) => zlib_deflate_outcome(data@) == Some(v@) && v@.len() > 0 && zlib_inflated(v@) == Some(data@),
            None => zlib_deflate_outcome(data@) is None,
        },
{
    let mut encoder = flate2::write::ZlibEncoder::new(Vec::new(), flate2::Compression::default());
    match std::io::Write::write_all(&mut encoder, data) {
        Ok(()) => {},
        Err(_) => return None,
    }
    encoder.finish().ok()
}

} // verus!
