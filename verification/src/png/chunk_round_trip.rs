//! What splitting serialized chunks gives back.
use vstd::prelude::*;
use crate::octets;
use super::chunk;
use super::chunk::valid_chunk_type;
use super::structure::{chunks_after, png_chunk_stream};
use super::types::{ChunkModel, PngParseError};

verus! {

/// The bytes of one chunk as it stands in a stream: its length and its CRC
/// as written, big-endian, around its type and payload.
pub open spec fn chunk_bytes(c: ChunkModel) -> Seq<u8> {
    octets::be_bytes_u32(c.length) + c.kind + c.payload + octets::be_bytes_u32(c.crc)
}

/// The bytes of chunks one after the other.
pub open spec fn serialized(cs: Seq<ChunkModel>) -> Seq<u8>
    decreases cs.len(),
{
    if cs.len() == 0 {
        Seq::empty()
    } else {
        chunk_bytes(cs[0]) + serialized(cs.drop_first())
    }
}

/// Chunks that can be serialized and read back: valid types, lengths that
/// are their payloads' and fit a chunk, and IEND, if anywhere, last.
pub open spec fn serializable(cs: Seq<ChunkModel>) -> bool {
    forall|i: int|
        0 <= i < cs.len() ==> {
            &&& valid_chunk_type(#[trigger] cs[i].kind)
            &&& cs[i].length == cs[i].payload.len()
            &&& cs[i].payload.len() <= 0x7fff_ffff
            &&& cs[i].kind == chunk::iend_tag() ==> i == cs.len() - 1
        }
}

/// Reading one serialized chunk finds its length, type, payload and CRC,
/// and what follows it.
proof fn lemma_chunk_bytes_read(c: ChunkModel, more: Seq<u8>)
    requires
        c.kind.len() == 4,
        c.length == c.payload.len(),
    ensures
        ({
            let rest = chunk_bytes(c) + more;
            let body = rest.skip(8);
            &&& rest.len() >= 8
            &&& octets::be_u32_at(rest, 0) == c.length
            &&& rest.subrange(4, 8) == c.kind
            &&& body.len() == c.payload.len() + 4 + more.len()
            &&& body.subrange(0, c.payload.len() as int) == c.payload
            &&& octets::be_u32_at(body, c.payload.len() as int) == c.crc
            &&& body.skip(c.payload.len() as int + 4) == more
        }),
{
    let lb = octets::be_bytes_u32(c.length);
    let cb = octets::be_bytes_u32(c.crc);
    let rest = chunk_bytes(c) + more;
    let body = rest.skip(8);
    let len = c.payload.len() as int;
    octets::lemma_be_u32_roundtrip(c.length);
    octets::lemma_be_u32_roundtrip(c.crc);
    assert(rest[0] == lb[0] && rest[1] == lb[1] && rest[2] == lb[2] && rest[3] == lb[3]);
    assert(rest.subrange(4, 8) =~= c.kind);
    assert(body.subrange(0, len) =~= c.payload);
    assert(body[len] == cb[0] && body[len + 1] == cb[1] && body[len + 2] == cb[2] && body[len + 3] == cb[3]);
    assert(body.skip(len + 4) =~= more);
}

/// Reading serialized chunks after `acc` gives `acc` and those chunks.
proof fn lemma_read_serialized(cs: Seq<ChunkModel>, acc: Seq<ChunkModel>, r: Result<Seq<ChunkModel>, PngParseError>)
    requires
        serializable(cs),
    ensures
        chunks_after(serialized(cs), acc, r) == (r == Ok::<Seq<ChunkModel>, PngParseError>(acc + cs)),
    decreases cs.len(),
{
    if cs.len() == 0 {
        assert(acc + cs =~= acc);
    } else {
        let c = cs[0];
        let rest = cs.drop_first();
        assert(valid_chunk_type(c.kind));
        assert(serializable(rest)) by {
            assert forall|i: int| 0 <= i < rest.len() implies {
                &&& valid_chunk_type(#[trigger] rest[i].kind)
                &&& rest[i].length == rest[i].payload.len()
                &&& rest[i].payload.len() <= 0x7fff_ffff
                &&& rest[i].kind == chunk::iend_tag() ==> i == rest.len() - 1
            } by {
                assert(rest[i] == cs[i + 1]);
            }
        }
        lemma_chunk_bytes_read(c, serialized(rest));
        let b = serialized(cs);
        assert(b == chunk_bytes(c) + serialized(rest));
        let body = b.skip(8);
        let read = ChunkModel {
            length: octets::be_u32_at(b, 0) as u32,
            kind: b.subrange(4, 8),
            payload: body.subrange(0, octets::be_u32_at(b, 0)),
            crc: octets::be_u32_at(body, octets::be_u32_at(b, 0)) as u32,
        };
        assert(read == c);
        assert(acc.push(c) + rest =~= acc + cs);
        if c.kind == chunk::iend_tag() {
            assert(rest.len() == 0);
            assert(serialized(rest) == Seq::<u8>::empty());
            assert(acc.push(c) =~= acc + cs);
        } else {
            lemma_read_serialized(rest, acc.push(c), r);
        }
    }
}

/// Splitting the signature followed by serialized chunks gives back those
/// chunks, each with its length and CRC as written (the split does not
/// check CRCs), wherever their types are valid, their lengths are their
/// payloads' and fit a chunk, and IEND, if present, comes last.
pub proof fn law_chunks_read_back(cs: Seq<ChunkModel>, r: Result<Seq<ChunkModel>, PngParseError>)
    requires
        serializable(cs),
        png_chunk_stream(chunk::png_sig() + serialized(cs), r),
    ensures
        r == Ok::<Seq<ChunkModel>, PngParseError>(cs),
{
    let b = chunk::png_sig() + serialized(cs);
    assert(b.subrange(0, 8) =~= chunk::png_sig());
    super::round_trip::lemma_signature_matches(b, 0);
    assert(b.skip(8) =~= serialized(cs));
    lemma_read_serialized(cs, Seq::empty(), r);
    assert(Seq::<ChunkModel>::empty() + cs =~= cs);
}

} // verus!
