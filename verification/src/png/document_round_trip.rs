//! What decoding gives back of a document that encoding wrote: the image,
//! the metadata, and the unknown ancillary chunks the policy copied.
use vstd::prelude::*;
use crate::octets;
use super::chunk;
use super::chunk::valid_chunk_type;
use super::encode::chunk_frame;
use super::encode::{encode_layout_value, idat_scanlines, ihdr_bytes, lemma_layout_facts};
use super::document::{document_decodes, document_from_chunks, known_ancillary, unknown_of, DocumentModel, UnknownModel};
use super::types::{IhdrColorType, PngDocument, PngFilterStrategy, PngImageModel, PngStructureSummary};
use super::zlib;
use super::encode_doc::{
    chrm_bytes, copy_value, document_bytes, iccp_bytes, itxt_bytes, itxt_frames, lemma_itxt_frames_err, lemma_text_frames_err,
    lemma_unknown_frames_tail_err, meta_stage, metadata_bytes, phys_bytes, srgb_byte, text_bytes, text_frames, then_frame,
    time_bytes, unknown_frames, ztxt_bytes,
};
use super::metadata;
use super::metadata::{IccModel, InternationalTextModel, MetadataModel, TextModel};
use super::metadata_round_trip::{
    law_chrm_reads_back, law_gama_reads_back, law_iccp_reads_back, law_itxt_reads_back, law_phys_reads_back, law_srgb_reads_back,
    law_text_reads_back, law_time_reads_back, law_ztxt_reads_back,
};
use vstd::utf8::encode_utf8;
use super::document::{metadata_of, metadata_step};
use super::round_trip::{encoded_header, encoded_ihdr, framed_chunk, lemma_ihdr_read, lemma_read_chunk};
use super::decode::{decode_outcome, decode_spec, idat_data, image_from_chunks};
use super::filter::{lemma_filter_roundtrip, scanlines_filtered};
use super::pixels;
use super::structure::{chunks_after, png_chunk_stream, png_structure, validate_from, ValidationState};
use super::types::{ChunkModel, PngCompatUnknownChunkPolicy, PngParseError, UnknownAncillaryChunk};

verus! {

/// The frames of chunks given by their types and payloads, in order.
pub open spec fn frames_of(l: Seq<(Seq<u8>, Seq<u8>)>) -> Seq<u8>
    decreases l.len(),
{
    if l.len() == 0 {
        Seq::empty()
    } else {
        frames_of(l.drop_last()) + chunk_frame(l.last().0, l.last().1)
    }
}

/// The chunks that reading those frames gives.
pub open spec fn models_of(l: Seq<(Seq<u8>, Seq<u8>)>) -> Seq<ChunkModel> {
    Seq::new(l.len(), |i: int| framed_chunk(l[i].0, l[i].1))
}

/// Chunks that can be written and read back: a valid type other than IEND
/// and a payload short enough.
pub open spec fn writable(l: Seq<(Seq<u8>, Seq<u8>)>) -> bool {
    forall|i: int| 0 <= i < l.len() ==> valid_chunk_type(#[trigger] l[i].0) && l[i].0 != chunk::iend_tag() && l[i].1.len() <= 0x7fff_ffff
}

/// The frames of two lists one after the other.
proof fn lemma_frames_concat(a: Seq<(Seq<u8>, Seq<u8>)>, b: Seq<(Seq<u8>, Seq<u8>)>)
    ensures
        frames_of(a + b) == frames_of(a) + frames_of(b),
    decreases b.len(),
{
    if b.len() == 0 {
        assert(a + b =~= a);
    } else {
        lemma_frames_concat(a, b.drop_last());
        assert((a + b).drop_last() =~= a + b.drop_last());
        assert((a + b).last() == b.last());
        assert(frames_of(a) + frames_of(b.drop_last()) + chunk_frame(b.last().0, b.last().1)
            =~= frames_of(a) + (frames_of(b.drop_last()) + chunk_frame(b.last().0, b.last().1)));
    }
}

/// The frames of a list are the frame of its first chunk, then the frames
/// of the rest.
proof fn lemma_frames_front(l: Seq<(Seq<u8>, Seq<u8>)>)
    requires
        l.len() > 0,
    ensures
        frames_of(l) == chunk_frame(l[0].0, l[0].1) + frames_of(l.drop_first()),
        writable(l) ==> writable(l.drop_first()),
{
    let x = l[0];
    let rest = l.drop_first();
    assert(l =~= seq![x] + rest);
    lemma_frames_concat(seq![x], rest);
    assert(frames_of(seq![x].drop_last()) == Seq::<u8>::empty());
    assert(frames_of(seq![x]) =~= chunk_frame(x.0, x.1));
    if writable(l) {
        assert forall|i: int| 0 <= i < rest.len() implies valid_chunk_type(#[trigger] rest[i].0) && rest[i].0 != chunk::iend_tag()
            && rest[i].1.len() <= 0x7fff_ffff by {
            assert(rest[i] == l[i + 1]);
        }
    }
}

/// Reading frames that can be read back goes on after them with their
/// chunks read.
proof fn lemma_read_frames(
    l: Seq<(Seq<u8>, Seq<u8>)>,
    more: Seq<u8>,
    acc: Seq<ChunkModel>,
    r: Result<Seq<ChunkModel>, PngParseError>,
)
    requires
        writable(l),
    ensures
        chunks_after(frames_of(l) + more, acc, r) == chunks_after(more, acc + models_of(l), r),
    decreases l.len(),
{
    if l.len() == 0 {
        assert(frames_of(l) + more =~= more);
        assert(acc + models_of(l) =~= acc);
    } else {
        let x = l[0];
        let rest = l.drop_first();
        lemma_frames_front(l);
        assert(valid_chunk_type(l[0].0) && l[0].0 != chunk::iend_tag() && l[0].1.len() <= 0x7fff_ffff);
        lemma_read_chunk(x.0, x.1, frames_of(rest) + more, acc, r);
        assert(chunk_frame(x.0, x.1) + (frames_of(rest) + more) =~= frames_of(l) + more);
        lemma_read_frames(rest, more, acc.push(framed_chunk(x.0, x.1)), r);
        assert(acc.push(framed_chunk(x.0, x.1)) + models_of(rest) =~= acc + models_of(l));
    }
}

/// A chunk appended to bytes written so far: the frame of its type and
/// payload, when both are fine.
proof fn lemma_then_frame(a: Seq<u8>, kind: [u8; 4], p: Result<Seq<u8>, PngParseError>, b: Seq<u8>)
    requires
        then_frame(Ok(a), kind, p) == Ok::<Seq<u8>, PngParseError>(b),
    ensures
        p is Ok,
        b == a + chunk_frame(kind@, p->Ok_0),
        valid_chunk_type(kind@),
        p->Ok_0.len() <= 0x7fff_ffff,
{
}

/// The payload the encoder writes for a text chunk, compressed or not.
pub open spec fn text_payload(t: TextModel, compressed: bool) -> Result<Seq<u8>, PngParseError> {
    if compressed { ztxt_bytes(t) } else { text_bytes(t) }
}

/// The chunks the encoder writes for the first `n` text chunks.
pub open spec fn text_list(kind: [u8; 4], ts: Seq<TextModel>, compressed: bool, n: int) -> Seq<(Seq<u8>, Seq<u8>)>
    decreases n,
{
    if n <= 0 {
        Seq::empty()
    } else {
        text_list(kind, ts, compressed, n - 1).push((kind@, text_payload(ts[n - 1], compressed)->Ok_0))
    }
}

/// The chunks the encoder writes for the first `n` international text
/// chunks.
pub open spec fn itxt_list(ts: Seq<InternationalTextModel>, n: int) -> Seq<(Seq<u8>, Seq<u8>)>
    decreases n,
{
    if n <= 0 {
        Seq::empty()
    } else {
        itxt_list(ts, n - 1).push(([105u8, 84u8, 88u8, 116u8]@, itxt_bytes(ts[n - 1])->Ok_0))
    }
}

/// The chunks the encoder copies of the first `n` unknown chunks.
pub open spec fn unknown_list(us: Seq<UnknownAncillaryChunk>, policy: PngCompatUnknownChunkPolicy, n: int) -> Seq<(Seq<u8>, Seq<u8>)>
    decreases n,
{
    if n <= 0 {
        Seq::empty()
    } else if copy_value(us[n - 1].chunk_type, policy) == Ok::<bool, PngParseError>(true) {
        unknown_list(us, policy, n - 1).push((us[n - 1].chunk_type@, us[n - 1].payload@))
    } else {
        unknown_list(us, policy, n - 1)
    }
}

/// The chunks the encoder writes at stage `s` of the metadata.
pub open spec fn meta_piece(m: MetadataModel, s: int) -> Seq<(Seq<u8>, Seq<u8>)> {
    if s == 1 {
        match m.gamma_scaled { Some(g) => seq![([103u8, 65u8, 77u8, 65u8]@, octets::be_bytes_u32(g))], None => Seq::empty() }
    } else if s == 2 {
        match m.chromaticities { Some(c) => seq![([99u8, 72u8, 82u8, 77u8]@, chrm_bytes(c))], None => Seq::empty() }
    } else if s == 3 {
        match m.srgb_rendering_intent { Some(i) => seq![([115u8, 82u8, 71u8, 66u8]@, seq![srgb_byte(i)])], None => Seq::empty() }
    } else if s == 4 {
        match m.icc_profile { Some(p) => seq![([105u8, 67u8, 67u8, 80u8]@, iccp_bytes(p)->Ok_0)], None => Seq::empty() }
    } else if s == 5 {
        match m.physical_pixel_dimensions { Some(p) => seq![([112u8, 72u8, 89u8, 115u8]@, phys_bytes(p))], None => Seq::empty() }
    } else if s == 6 {
        match m.timestamp { Some(t) => seq![([116u8, 73u8, 77u8, 69u8]@, time_bytes(t))], None => Seq::empty() }
    } else if s == 7 {
        text_list([116u8, 69u8, 88u8, 116u8], m.text_chunks, false, m.text_chunks.len() as int)
    } else if s == 8 {
        text_list([122u8, 84u8, 88u8, 116u8], m.compressed_text_chunks, true, m.compressed_text_chunks.len() as int)
    } else {
        itxt_list(m.international_text_chunks, m.international_text_chunks.len() as int)
    }
}

/// The chunks the encoder writes for the first `s` stages of the metadata.
pub open spec fn meta_list(m: MetadataModel, s: int) -> Seq<(Seq<u8>, Seq<u8>)>
    decreases s,
{
    if s <= 0 {
        Seq::empty()
    } else {
        meta_list(m, s - 1) + meta_piece(m, s)
    }
}

/// The frames of a list with one more chunk.
proof fn lemma_frames_push(l: Seq<(Seq<u8>, Seq<u8>)>, x: (Seq<u8>, Seq<u8>))
    ensures
        frames_of(l.push(x)) == frames_of(l) + chunk_frame(x.0, x.1),
{
    assert(l.push(x).drop_last() =~= l);
}

/// What writing the first `n` text chunks appends, when it succeeds.
proof fn lemma_text_frames(a: Seq<u8>, kind: [u8; 4], ts: Seq<TextModel>, compressed: bool, n: int, b: Seq<u8>)
    requires
        0 <= n <= ts.len(),
        text_frames(Ok(a), kind, ts, compressed, n) == Ok::<Seq<u8>, PngParseError>(b),
    ensures
        b == a + frames_of(text_list(kind, ts, compressed, n)),
        n > 0 ==> valid_chunk_type(kind@),
        forall|i: int| 0 <= i < n ==> (#[trigger] text_payload(ts[i], compressed)) is Ok && text_payload(ts[i], compressed)->Ok_0.len() <= 0x7fff_ffff,
    decreases n,
{
    if n == 0 {
        assert(a + frames_of(text_list(kind, ts, compressed, 0)) =~= a);
    } else {
        let prev = text_frames(Ok(a), kind, ts, compressed, n - 1);
        assert(prev is Ok);
        let b0 = prev->Ok_0;
        lemma_text_frames(a, kind, ts, compressed, n - 1, b0);
        lemma_then_frame(b0, kind, text_payload(ts[n - 1], compressed), b);
        let l = text_list(kind, ts, compressed, n - 1);
        lemma_frames_push(l, (kind@, text_payload(ts[n - 1], compressed)->Ok_0));
        assert(b =~= a + frames_of(text_list(kind, ts, compressed, n)));
    }
}

/// What writing the first `n` international text chunks appends, when it
/// succeeds.
proof fn lemma_itxt_frames(a: Seq<u8>, ts: Seq<InternationalTextModel>, n: int, b: Seq<u8>)
    requires
        0 <= n <= ts.len(),
        itxt_frames(Ok(a), ts, n) == Ok::<Seq<u8>, PngParseError>(b),
    ensures
        b == a + frames_of(itxt_list(ts, n)),
        forall|i: int| 0 <= i < n ==> (#[trigger] itxt_bytes(ts[i])) is Ok && itxt_bytes(ts[i])->Ok_0.len() <= 0x7fff_ffff,
    decreases n,
{
    if n == 0 {
        assert(a + frames_of(itxt_list(ts, 0)) =~= a);
    } else {
        let prev = itxt_frames(Ok(a), ts, n - 1);
        assert(prev is Ok);
        let b0 = prev->Ok_0;
        lemma_itxt_frames(a, ts, n - 1, b0);
        lemma_then_frame(b0, [105u8, 84u8, 88u8, 116u8], itxt_bytes(ts[n - 1]), b);
        lemma_frames_push(itxt_list(ts, n - 1), ([105u8, 84u8, 88u8, 116u8]@, itxt_bytes(ts[n - 1])->Ok_0));
        assert(b =~= a + frames_of(itxt_list(ts, n)));
    }
}

/// What copying the first `n` unknown chunks appends, when it succeeds.
proof fn lemma_unknown_frames(a: Seq<u8>, us: Seq<UnknownAncillaryChunk>, policy: PngCompatUnknownChunkPolicy, n: int, b: Seq<u8>)
    requires
        0 <= n <= us.len(),
        unknown_frames(Ok(a), us, policy, n) == Ok::<Seq<u8>, PngParseError>(b),
    ensures
        b == a + frames_of(unknown_list(us, policy, n)),
        forall|i: int| 0 <= i < n ==> (#[trigger] copy_value(us[i].chunk_type, policy)) is Ok,
        forall|i: int| 0 <= i < n && copy_value(us[i].chunk_type, policy) == Ok::<bool, PngParseError>(true)
            ==> valid_chunk_type((#[trigger] us[i]).chunk_type@) && us[i].payload@.len() <= 0x7fff_ffff,
    decreases n,
{
    if n == 0 {
        assert(a + frames_of(unknown_list(us, policy, 0)) =~= a);
    } else {
        let prev = unknown_frames(Ok(a), us, policy, n - 1);
        assert(prev is Ok);
        let b0 = prev->Ok_0;
        lemma_unknown_frames(a, us, policy, n - 1, b0);
        if copy_value(us[n - 1].chunk_type, policy) == Ok::<bool, PngParseError>(true) {
            lemma_then_frame(b0, us[n - 1].chunk_type, Ok(us[n - 1].payload@), b);
            lemma_frames_push(unknown_list(us, policy, n - 1), (us[n - 1].chunk_type@, us[n - 1].payload@));
            assert(b =~= a + frames_of(unknown_list(us, policy, n)));
        }
    }
}

/// The frames of one chunk.
proof fn lemma_frames_one(x: (Seq<u8>, Seq<u8>))
    ensures
        frames_of(seq![x]) == chunk_frame(x.0, x.1),
{
    assert(frames_of(seq![x].drop_last()) == Seq::<u8>::empty());
    assert(frames_of(seq![x]) =~= chunk_frame(x.0, x.1));
}

/// A stage that writes one chunk of type `kind` when it has a payload:
/// the frame of that chunk, when writing succeeds.
proof fn lemma_optional_frame(b0: Seq<u8>, b: Seq<u8>, kind: [u8; 4], p: Option<Result<Seq<u8>, PngParseError>>)
    requires
        Ok::<Seq<u8>, PngParseError>(b) == match p {
            Some(q) => then_frame(Ok(b0), kind, q),
            None => Ok(b0),
        },
    ensures
        p matches Some(q) ==> q is Ok && b == b0 + frames_of(seq![(kind@, q->Ok_0)]) && q->Ok_0.len() <= 0x7fff_ffff,
        p is None ==> b == b0 + frames_of(Seq::<(Seq<u8>, Seq<u8>)>::empty()),
{
    if p is Some {
        let q = p->Some_0;
        lemma_then_frame(b0, kind, q, b);
        lemma_frames_one((kind@, q->Ok_0));
    } else {
        assert(b0 + frames_of(Seq::<(Seq<u8>, Seq<u8>)>::empty()) =~= b0);
    }
}

/// One of the first six metadata stages, when it succeeds: the frame of
/// its chunk, if the metadata has that value.
#[verifier::spinoff_prover]
#[verifier::rlimit(40)]
proof fn lemma_single_piece(m: MetadataModel, s: int, b0: Seq<u8>, b: Seq<u8>)
    requires
        1 <= s <= 6,
        meta_stage(m, s - 1) == Ok::<Seq<u8>, PngParseError>(b0),
        meta_stage(m, s) == Ok::<Seq<u8>, PngParseError>(b),
    ensures
        b == b0 + frames_of(meta_piece(m, s)),
        meta_piece(m, s).len() <= 1,
        meta_piece(m, s).len() == 1 ==> meta_piece(m, s)[0].1.len() <= 0x7fff_ffff,
        s == 4 ==> (m.icc_profile matches Some(p) ==> iccp_bytes(p) is Ok),
{
    if s == 1 {
        let p = match m.gamma_scaled { Some(g) => Some(Ok::<Seq<u8>, PngParseError>(octets::be_bytes_u32(g))), None => None };
        lemma_optional_frame(b0, b, [103u8, 65u8, 77u8, 65u8], p);
    } else if s == 2 {
        let p = match m.chromaticities { Some(c) => Some(Ok::<Seq<u8>, PngParseError>(chrm_bytes(c))), None => None };
        lemma_optional_frame(b0, b, [99u8, 72u8, 82u8, 77u8], p);
    } else if s == 3 {
        let p = match m.srgb_rendering_intent { Some(i) => Some(Ok::<Seq<u8>, PngParseError>(seq![srgb_byte(i)])), None => None };
        lemma_optional_frame(b0, b, [115u8, 82u8, 71u8, 66u8], p);
    } else if s == 4 {
        let p = match m.icc_profile { Some(q) => Some(iccp_bytes(q)), None => None };
        lemma_optional_frame(b0, b, [105u8, 67u8, 67u8, 80u8], p);
    } else if s == 5 {
        let p = match m.physical_pixel_dimensions { Some(q) => Some(Ok::<Seq<u8>, PngParseError>(phys_bytes(q))), None => None };
        lemma_optional_frame(b0, b, [112u8, 72u8, 89u8, 115u8], p);
    } else {
        let p = match m.timestamp { Some(t) => Some(Ok::<Seq<u8>, PngParseError>(time_bytes(t))), None => None };
        lemma_optional_frame(b0, b, [116u8, 73u8, 77u8, 69u8], p);
    }
}

/// One metadata stage, when it succeeds: the frames of its chunks, whose
/// payloads could all be written.
proof fn lemma_meta_piece(m: MetadataModel, s: int, b0: Seq<u8>, b: Seq<u8>)
    requires
        1 <= s <= 9,
        meta_stage(m, s - 1) == Ok::<Seq<u8>, PngParseError>(b0),
        meta_stage(m, s) == Ok::<Seq<u8>, PngParseError>(b),
    ensures
        b == b0 + frames_of(meta_piece(m, s)),
        forall|i: int| 0 <= i < meta_piece(m, s).len() ==> (#[trigger] meta_piece(m, s)[i]).1.len() <= 0x7fff_ffff,
        s == 4 ==> (m.icc_profile matches Some(p) ==> iccp_bytes(p) is Ok),
        s == 7 ==> forall|i: int| 0 <= i < m.text_chunks.len() ==> (#[trigger] text_payload(m.text_chunks[i], false)) is Ok,
        s == 8 ==> forall|i: int| 0 <= i < m.compressed_text_chunks.len() ==> (#[trigger] text_payload(m.compressed_text_chunks[i], true)) is Ok,
        s == 9 ==> forall|i: int| 0 <= i < m.international_text_chunks.len() ==> (#[trigger] itxt_bytes(m.international_text_chunks[i])) is Ok,
{
    if s <= 6 {
        lemma_single_piece(m, s, b0, b);
    } else if s == 7 {
        lemma_text_frames(b0, [116u8, 69u8, 88u8, 116u8], m.text_chunks, false, m.text_chunks.len() as int, b);
        lemma_text_list_facts([116u8, 69u8, 88u8, 116u8], m.text_chunks, false, m.text_chunks.len() as int);
    } else if s == 8 {
        lemma_text_frames(b0, [122u8, 84u8, 88u8, 116u8], m.compressed_text_chunks, true, m.compressed_text_chunks.len() as int, b);
        lemma_text_list_facts([122u8, 84u8, 88u8, 116u8], m.compressed_text_chunks, true, m.compressed_text_chunks.len() as int);
    } else {
        lemma_itxt_frames(b0, m.international_text_chunks, m.international_text_chunks.len() as int, b);
        lemma_itxt_list_facts(m.international_text_chunks, m.international_text_chunks.len() as int);
    }
}

/// What writing the first `s` metadata stages gives, when it succeeds: the
/// frames of their chunks, whose payloads could all be written.
proof fn lemma_meta_stage(m: MetadataModel, s: int, b: Seq<u8>)
    requires
        0 <= s <= 9,
        meta_stage(m, s) == Ok::<Seq<u8>, PngParseError>(b),
    ensures
        b == frames_of(meta_list(m, s)),
        s >= 4 ==> (m.icc_profile matches Some(p) ==> iccp_bytes(p) is Ok),
        s >= 7 ==> forall|i: int| 0 <= i < m.text_chunks.len() ==> (#[trigger] text_payload(m.text_chunks[i], false)) is Ok,
        s >= 8 ==> forall|i: int| 0 <= i < m.compressed_text_chunks.len() ==> (#[trigger] text_payload(m.compressed_text_chunks[i], true)) is Ok,
        s >= 9 ==> forall|i: int| 0 <= i < m.international_text_chunks.len() ==> (#[trigger] itxt_bytes(m.international_text_chunks[i])) is Ok,
        forall|i: int| 0 <= i < meta_list(m, s).len() ==> (#[trigger] meta_list(m, s)[i]).1.len() <= 0x7fff_ffff,
    decreases s,
{
    if s == 0 {
        assert(frames_of(meta_list(m, 0)) =~= Seq::<u8>::empty());
    } else {
        let prev = meta_stage(m, s - 1);
        if prev is Err {
            lemma_text_frames_err(prev, [116u8, 69u8, 88u8, 116u8], m.text_chunks, false, m.text_chunks.len() as int);
            lemma_text_frames_err(prev, [122u8, 84u8, 88u8, 116u8], m.compressed_text_chunks, true, m.compressed_text_chunks.len() as int);
            lemma_itxt_frames_err(prev, m.international_text_chunks, m.international_text_chunks.len() as int);
            assert(false);
        }
        let b0 = prev->Ok_0;
        lemma_meta_stage(m, s - 1, b0);
        lemma_meta_piece(m, s, b0, b);
        let l0 = meta_list(m, s - 1);
        let piece = meta_piece(m, s);
        lemma_frames_concat(l0, piece);
        assert(meta_list(m, s) == l0 + piece);
        assert(b =~= frames_of(meta_list(m, s)));
        assert forall|i: int| 0 <= i < meta_list(m, s).len() implies (#[trigger] meta_list(m, s)[i]).1.len() <= 0x7fff_ffff by {
            if i >= l0.len() {
                assert(meta_list(m, s)[i] == piece[i - l0.len()]);
            } else {
                assert(meta_list(m, s)[i] == l0[i]);
            }
        }
    }
}

/// The entries of a text chunk list: their type and payload.
proof fn lemma_text_list_facts(kind: [u8; 4], ts: Seq<TextModel>, compressed: bool, n: int)
    requires
        0 <= n <= ts.len(),
    ensures
        text_list(kind, ts, compressed, n).len() == n,
        forall|i: int| 0 <= i < n ==> (#[trigger] text_list(kind, ts, compressed, n)[i]) == (kind@, text_payload(ts[i], compressed)->Ok_0),
    decreases n,
{
    if n > 0 {
        lemma_text_list_facts(kind, ts, compressed, n - 1);
    }
}

/// The entries of an international text chunk list.
proof fn lemma_itxt_list_facts(ts: Seq<InternationalTextModel>, n: int)
    requires
        0 <= n <= ts.len(),
    ensures
        itxt_list(ts, n).len() == n,
        forall|i: int| 0 <= i < n ==> (#[trigger] itxt_list(ts, n)[i]) == ([105u8, 84u8, 88u8, 116u8]@, itxt_bytes(ts[i])->Ok_0),
    decreases n,
{
    if n > 0 {
        lemma_itxt_list_facts(ts, n - 1);
    }
}

/// The nine types of metadata chunks.
pub open spec fn meta_kind(t: Seq<u8>) -> bool {
    ||| t == seq![103u8, 65u8, 77u8, 65u8]
    ||| t == seq![99u8, 72u8, 82u8, 77u8]
    ||| t == seq![115u8, 82u8, 71u8, 66u8]
    ||| t == seq![105u8, 67u8, 67u8, 80u8]
    ||| t == seq![112u8, 72u8, 89u8, 115u8]
    ||| t == seq![116u8, 73u8, 77u8, 69u8]
    ||| t == seq![116u8, 69u8, 88u8, 116u8]
    ||| t == seq![122u8, 84u8, 88u8, 116u8]
    ||| t == seq![105u8, 84u8, 88u8, 116u8]
}

/// A metadata chunk type is a valid ancillary type this library reads,
/// and none of the types that make up the image.
proof fn lemma_meta_kind_facts(t: Seq<u8>)
    requires
        meta_kind(t),
    ensures
        valid_chunk_type(t),
        known_ancillary(t),
        !octets::is_upper(t[0]),
        t != chunk::ihdr_tag(),
        t != chunk::idat_tag(),
        t != chunk::iend_tag(),
        t != chunk::plte_tag(),
        t != chunk::trns_tag(),
{
}

/// Every chunk the metadata stages write has a metadata type.
proof fn lemma_meta_list_kinds(m: MetadataModel, s: int)
    requires
        0 <= s <= 9,
    ensures
        forall|i: int| 0 <= i < meta_list(m, s).len() ==> meta_kind((#[trigger] meta_list(m, s)[i]).0),
    decreases s,
{
    if s > 0 {
        lemma_meta_list_kinds(m, s - 1);
        let l0 = meta_list(m, s - 1);
        let piece = meta_piece(m, s);
        assert(meta_list(m, s) == l0 + piece);
        if s == 7 {
            lemma_text_list_facts([116u8, 69u8, 88u8, 116u8], m.text_chunks, false, m.text_chunks.len() as int);
        } else if s == 8 {
            lemma_text_list_facts([122u8, 84u8, 88u8, 116u8], m.compressed_text_chunks, true, m.compressed_text_chunks.len() as int);
        } else if s == 9 {
            lemma_itxt_list_facts(m.international_text_chunks, m.international_text_chunks.len() as int);
        }
        assert forall|i: int| 0 <= i < meta_list(m, s).len() implies meta_kind((#[trigger] meta_list(m, s)[i]).0) by {
            if i >= l0.len() {
                assert(meta_list(m, s)[i] == piece[i - l0.len()]);
                assert([103u8, 65u8, 77u8, 65u8]@ =~= seq![103u8, 65u8, 77u8, 65u8]);
                assert([99u8, 72u8, 82u8, 77u8]@ =~= seq![99u8, 72u8, 82u8, 77u8]);
                assert([115u8, 82u8, 71u8, 66u8]@ =~= seq![115u8, 82u8, 71u8, 66u8]);
                assert([105u8, 67u8, 67u8, 80u8]@ =~= seq![105u8, 67u8, 67u8, 80u8]);
                assert([112u8, 72u8, 89u8, 115u8]@ =~= seq![112u8, 72u8, 89u8, 115u8]);
                assert([116u8, 73u8, 77u8, 69u8]@ =~= seq![116u8, 73u8, 77u8, 69u8]);
                assert([116u8, 69u8, 88u8, 116u8]@ =~= seq![116u8, 69u8, 88u8, 116u8]);
                assert([122u8, 84u8, 88u8, 116u8]@ =~= seq![122u8, 84u8, 88u8, 116u8]);
                assert([105u8, 84u8, 88u8, 116u8]@ =~= seq![105u8, 84u8, 88u8, 116u8]);
            } else {
                assert(meta_list(m, s)[i] == l0[i]);
            }
        }
    }
}

/// Each unknown chunk the policy copies has an ancillary type that is
/// none of the types this library reads itself.
pub open spec fn copies_unread_ancillary(us: Seq<UnknownAncillaryChunk>, policy: PngCompatUnknownChunkPolicy) -> bool {
    forall|i: int|
        0 <= i < us.len() && copy_value(us[i].chunk_type, policy) == Ok::<bool, PngParseError>(true) ==> !octets::is_upper(
            (#[trigger] us[i]).chunk_type[0],
        ) && !known_ancillary(us[i].chunk_type@)
}

/// The chunks the encoder writes between IHDR and IDAT: the metadata
/// chunks, then the unknown chunks the policy copies.
pub open spec fn middle_list(doc: PngDocument, policy: PngCompatUnknownChunkPolicy) -> Seq<(Seq<u8>, Seq<u8>)> {
    meta_list(doc.metadata@, 9) + unknown_list(doc.unknown_ancillary_chunks@, policy, doc.unknown_ancillary_chunks@.len() as int)
}

/// The entries of the list of copied unknown chunks: each has the type and
/// payload of a copied chunk, whose type is as the policy needs.
proof fn lemma_unknown_list_facts(us: Seq<UnknownAncillaryChunk>, policy: PngCompatUnknownChunkPolicy, n: int)
    requires
        0 <= n <= us.len(),
        copies_unread_ancillary(us, policy),
        forall|i: int| 0 <= i < n && copy_value(us[i].chunk_type, policy) == Ok::<bool, PngParseError>(true)
            ==> valid_chunk_type((#[trigger] us[i]).chunk_type@) && us[i].payload@.len() <= 0x7fff_ffff,
    ensures
        forall|i: int| 0 <= i < unknown_list(us, policy, n).len() ==>
            !octets::is_upper((#[trigger] unknown_list(us, policy, n)[i]).0[0]) && !known_ancillary(unknown_list(us, policy, n)[i].0)
            && valid_chunk_type(unknown_list(us, policy, n)[i].0) && unknown_list(us, policy, n)[i].1.len() <= 0x7fff_ffff,
    decreases n,
{
    if n > 0 {
        lemma_unknown_list_facts(us, policy, n - 1);
        let l0 = unknown_list(us, policy, n - 1);
        if copy_value(us[n - 1].chunk_type, policy) == Ok::<bool, PngParseError>(true) {
            assert(!octets::is_upper(us[n - 1].chunk_type[0]));
            assert forall|i: int| 0 <= i < unknown_list(us, policy, n).len() implies !octets::is_upper(
                (#[trigger] unknown_list(us, policy, n)[i]).0[0],
            ) && !known_ancillary(unknown_list(us, policy, n)[i].0) && valid_chunk_type(unknown_list(us, policy, n)[i].0)
                && unknown_list(us, policy, n)[i].1.len() <= 0x7fff_ffff by {
                if i < l0.len() {
                    assert(unknown_list(us, policy, n)[i] == l0[i]);
                }
            }
        }
    }
}

/// What a document's bytes are made of, when its encoding succeeds: the
/// signature, IHDR, the middle chunks, one IDAT and IEND.
#[verifier::spinoff_prover]
#[verifier::rlimit(40)]
proof fn lemma_document_bytes(doc: PngDocument, policy: PngCompatUnknownChunkPolicy, bytes: Seq<u8>)
    requires
        document_bytes(doc, policy) == Ok::<Seq<u8>, PngParseError>(bytes),
        copies_unread_ancillary(doc.unknown_ancillary_chunks@, policy),
    ensures
        idat_scanlines(doc.image@, PngFilterStrategy::NoFilter) is Ok,
        ({
            let img = doc.image@;
            let z = zlib::zlib_deflated(idat_scanlines(img, PngFilterStrategy::NoFilter)->Ok_0);
            &&& z.len() <= 0x7fff_ffff
            &&& bytes == chunk::png_sig() + chunk_frame(chunk::ihdr_tag(), ihdr_bytes(img.width, img.height, img.bit_depth, chunk::color_byte(img.color_type), 0))
                + frames_of(middle_list(doc, policy)) + chunk_frame(chunk::idat_tag(), z) + chunk_frame(chunk::iend_tag(), Seq::empty())
        }),
        writable(middle_list(doc, policy)),
        metadata_bytes(doc.metadata@) is Ok,
        forall|i: int| 0 <= i < meta_list(doc.metadata@, 9).len() ==> meta_kind((#[trigger] meta_list(doc.metadata@, 9)[i]).0),
        forall|i: int| 0 <= i < unknown_list(doc.unknown_ancillary_chunks@, policy, doc.unknown_ancillary_chunks@.len() as int).len()
            ==> !octets::is_upper((#[trigger] unknown_list(doc.unknown_ancillary_chunks@, policy, doc.unknown_ancillary_chunks@.len() as int)[i]).0[0])
            && !known_ancillary(unknown_list(doc.unknown_ancillary_chunks@, policy, doc.unknown_ancillary_chunks@.len() as int)[i].0),
{
    let img = doc.image@;
    let m = doc.metadata@;
    let us = doc.unknown_ancillary_chunks@;
    let n = us.len() as int;
    let head = chunk::png_sig() + chunk_frame(chunk::ihdr_tag(), ihdr_bytes(img.width, img.height, img.bit_depth, chunk::color_byte(img.color_type), 0));
    let a1 = match metadata_bytes(m) {
        Err(e) => Err(e),
        Ok(a) => Ok(head + a),
    };
    if a1 is Err {
        lemma_unknown_frames_tail_err(a1, us, policy, 0, n);
        assert(false);
    }
    let a = metadata_bytes(m)->Ok_0;
    let a2 = unknown_frames(a1, us, policy, n);
    if a2 is Err {
        assert(false);
    }
    let b2 = a2->Ok_0;
    lemma_unknown_frames(head + a, us, policy, n, b2);
    assert(idat_scanlines(img, PngFilterStrategy::NoFilter) is Ok);
    let sc = idat_scanlines(img, PngFilterStrategy::NoFilter)->Ok_0;
    let z = zlib::zlib_deflated(sc);
    let a3 = then_frame(a2, [73u8, 68u8, 65u8, 84u8], Ok(z));
    assert(a3 is Ok);
    let b3 = a3->Ok_0;
    lemma_then_frame(b2, [73u8, 68u8, 65u8, 84u8], Ok(z), b3);
    lemma_then_frame(b3, [73u8, 69u8, 78u8, 68u8], Ok(Seq::empty()), bytes);
    assert([73u8, 68u8, 65u8, 84u8]@ =~= chunk::idat_tag());
    assert([73u8, 69u8, 78u8, 68u8]@ =~= chunk::iend_tag());
    lemma_meta_stage(m, 9, a);
    let ml = meta_list(m, 9);
    let ul = unknown_list(us, policy, n);
    lemma_frames_concat(ml, ul);
    assert(bytes =~= head + frames_of(middle_list(doc, policy)) + chunk_frame(chunk::idat_tag(), z) + chunk_frame(chunk::iend_tag(), Seq::empty()));
    lemma_meta_list_kinds(m, 9);
    lemma_unknown_list_facts(us, policy, n);
    let l = middle_list(doc, policy);
    assert forall|i: int| 0 <= i < l.len() implies valid_chunk_type(#[trigger] l[i].0) && l[i].0 != chunk::iend_tag()
        && l[i].1.len() <= 0x7fff_ffff by {
        if i < ml.len() {
            assert(l[i] == ml[i]);
            lemma_meta_kind_facts(ml[i].0);
        } else {
            let j = i - ml.len();
            assert(l[i] == ul[j]);
        }
    }
}

/// The chunks of a written document: IHDR, the middle chunks, IDAT and
/// IEND.
pub open spec fn document_chunks(ih: Seq<u8>, l: Seq<(Seq<u8>, Seq<u8>)>, z: Seq<u8>) -> Seq<ChunkModel> {
    seq![framed_chunk(chunk::ihdr_tag(), ih)] + models_of(l) + seq![
        framed_chunk(chunk::idat_tag(), z),
        framed_chunk(chunk::iend_tag(), Seq::empty()),
    ]
}

/// Splitting a written document into chunks can only give its chunks.
#[verifier::rlimit(50)]
proof fn lemma_document_chunk_stream(ih: Seq<u8>, l: Seq<(Seq<u8>, Seq<u8>)>, z: Seq<u8>, r: Result<Seq<ChunkModel>, PngParseError>)
    requires
        ih.len() == 13,
        writable(l),
        z.len() <= 0x7fff_ffff,
        png_chunk_stream(
            chunk::png_sig() + chunk_frame(chunk::ihdr_tag(), ih) + frames_of(l) + chunk_frame(chunk::idat_tag(), z)
                + chunk_frame(chunk::iend_tag(), Seq::empty()),
            r,
        ),
    ensures
        r == Ok::<Seq<ChunkModel>, PngParseError>(document_chunks(ih, l, z)),
{
    let f1 = chunk_frame(chunk::ihdr_tag(), ih);
    let fl = frames_of(l);
    let f2 = chunk_frame(chunk::idat_tag(), z);
    let f3 = chunk_frame(chunk::iend_tag(), Seq::empty());
    let b = chunk::png_sig() + f1 + fl + f2 + f3;
    assert(b.subrange(0, 8) =~= chunk::png_sig());
    super::round_trip::lemma_signature_matches(b, 0);
    assert(b.skip(8) =~= f1 + (fl + (f2 + f3)));
    assert(valid_chunk_type(chunk::ihdr_tag()));
    assert(valid_chunk_type(chunk::idat_tag()));
    let a1 = Seq::<ChunkModel>::empty().push(framed_chunk(chunk::ihdr_tag(), ih));
    let a2 = a1 + models_of(l);
    let a3 = a2.push(framed_chunk(chunk::idat_tag(), z));
    let whole = a3.push(framed_chunk(chunk::iend_tag(), Seq::empty()));
    assert(chunks_after(b.skip(8), Seq::empty(), r) == chunks_after(fl + (f2 + f3), a1, r)) by {
        lemma_read_chunk(chunk::ihdr_tag(), ih, fl + (f2 + f3), Seq::empty(), r);
    }
    assert(chunks_after(fl + (f2 + f3), a1, r) == chunks_after(f2 + f3, a2, r)) by {
        lemma_read_frames(l, f2 + f3, a1, r);
    }
    assert(chunks_after(f2 + f3, a2, r) == chunks_after(f3, a3, r)) by {
        lemma_read_chunk(chunk::idat_tag(), z, f3, a2, r);
    }
    assert(chunks_after(f3, a3, r) == (r == Ok::<Seq<ChunkModel>, PngParseError>(whole))) by {
        super::round_trip::lemma_read_iend(a3, r);
    }
    assert(png_chunk_stream(b, r) == chunks_after(b.skip(8), Seq::empty(), r));
    assert(whole =~= document_chunks(ih, l, z));
}

/// Validating a run of ancillary chunks with right CRCs, before IEND,
/// counts them and goes on after them.
proof fn lemma_validate_ancillary(cs: Seq<ChunkModel>, i: int, j: int, st: ValidationState, r: Result<PngStructureSummary, PngParseError>)
    requires
        0 <= i <= j <= cs.len(),
        !st.seen_iend,
        forall|k: int| i <= k < j ==> (#[trigger] cs[k]).crc == chunk::spec_chunk_crc(cs[k].kind, cs[k].payload)
            && cs[k].kind.len() == 4 && !octets::is_upper(cs[k].kind[0]),
    ensures
        validate_from(cs, i, st, r) == validate_from(cs, j, ValidationState { ancillary_count: st.ancillary_count + (j - i) as nat, ..st }, r),
    decreases j - i,
{
    if i < j {
        let c = cs[i];
        assert(c.kind != chunk::ihdr_tag() && c.kind != chunk::idat_tag() && c.kind != chunk::iend_tag() && c.kind != chunk::plte_tag()) by {
            assert(chunk::ihdr_tag()[0] == 73u8);
            assert(chunk::idat_tag()[0] == 73u8);
            assert(chunk::iend_tag()[0] == 73u8);
            assert(chunk::plte_tag()[0] == 80u8);
        }
        let st1 = ValidationState { ancillary_count: st.ancillary_count + 1, ..st };
        assert(validate_from(cs, i, st, r) == validate_from(cs, i + 1, st1, r));
        lemma_validate_ancillary(cs, i + 1, j, st1, r);
        assert(ValidationState { ancillary_count: st1.ancillary_count + (j - (i + 1)) as nat, ..st1 }
            == ValidationState { ancillary_count: st.ancillary_count + (j - i) as nat, ..st });
    }
}

/// Chunks whose types all start with a lowercase letter.
pub open spec fn all_ancillary(l: Seq<(Seq<u8>, Seq<u8>)>) -> bool {
    forall|i: int| 0 <= i < l.len() ==> !octets::is_upper((#[trigger] l[i]).0[0])
}

/// Validating the chunks of a written document can only accept them.
#[verifier::rlimit(30)]
proof fn lemma_document_structure(img: PngImageModel, l: Seq<(Seq<u8>, Seq<u8>)>, z: Seq<u8>, r: Result<PngStructureSummary, PngParseError>)
    requires
        encode_layout_value(img) is Ok,
        writable(l),
        all_ancillary(l),
        png_structure(document_chunks(encoded_ihdr(img, 0), l, z), r),
    ensures
        r is Ok,
{
    let cs = document_chunks(encoded_ihdr(img, 0), l, z);
    let n = l.len() as int;
    lemma_ihdr_read(img, 0);
    let h = encoded_header(img, 0);
    let s0 = ValidationState { ihdr: None, idat_count: 0, ancillary_count: 0, seen_plte: false, seen_iend: false };
    let s1 = ValidationState { ihdr: Some(h), ..s0 };
    let s1a = ValidationState { ancillary_count: n as nat, ..s1 };
    let s2 = ValidationState { idat_count: 1, ..s1a };
    let s3 = ValidationState { seen_iend: true, ..s2 };
    assert(chunk::ihdr_tag() != chunk::idat_tag());
    assert(chunk::ihdr_tag() != chunk::iend_tag());
    assert(chunk::idat_tag() != chunk::iend_tag());
    assert(img.color_type != IhdrColorType::Indexed);
    assert(cs.len() == n + 3);
    assert(cs[0] == framed_chunk(chunk::ihdr_tag(), encoded_ihdr(img, 0)));
    assert(cs[n + 1] == framed_chunk(chunk::idat_tag(), z));
    assert(cs[n + 2] == framed_chunk(chunk::iend_tag(), Seq::<u8>::empty()));
    assert forall|k: int| 1 <= k < n + 1 implies (#[trigger] cs[k]).crc == chunk::spec_chunk_crc(cs[k].kind, cs[k].payload)
        && cs[k].kind.len() == 4 && !octets::is_upper(cs[k].kind[0]) by {
        assert(cs[k] == framed_chunk(l[k - 1].0, l[k - 1].1));
        assert(valid_chunk_type(l[k - 1].0));
    }
    assert(validate_from(cs, n + 3, s3, r) == (r == Ok::<PngStructureSummary, PngParseError>(PngStructureSummary {
        width: img.width,
        height: img.height,
        idat_count: 1,
        ancillary_count: n as usize,
    })));
    assert(validate_from(cs, n + 2, s2, r) == validate_from(cs, n + 3, s3, r));
    assert(validate_from(cs, n + 1, s1a, r) == validate_from(cs, n + 2, s2, r));
    lemma_validate_ancillary(cs, 1, n + 1, s1, r);
    assert(ValidationState { ancillary_count: s1.ancillary_count + (n + 1 - 1) as nat, ..s1 } == s1a);
    assert(validate_from(cs, 0, s0, r) == validate_from(cs, 1, s1, r));
}

/// A type found nowhere from position `i` on is not found.
proof fn lemma_find_none(cs: Seq<ChunkModel>, tag: Seq<u8>, i: int)
    requires
        0 <= i,
        forall|k: int| i <= k < cs.len() ==> (#[trigger] cs[k]).kind != tag,
    ensures
        pixels::find_tag(cs, tag, i) is None,
    decreases cs.len() - i,
{
    if i < cs.len() {
        lemma_find_none(cs, tag, i + 1);
    }
}

/// Chunks none of which is IDAT hold no image data.
proof fn lemma_no_idat(cs: Seq<ChunkModel>, n: int)
    requires
        0 <= n <= cs.len(),
        forall|k: int| 0 <= k < n ==> (#[trigger] cs[k]).kind != chunk::idat_tag(),
    ensures
        idat_data(cs, n) == Seq::<u8>::empty(),
    decreases n,
{
    if n > 0 {
        lemma_no_idat(cs, n - 1);
    }
}

/// The image the chunks of a written document decode to is the image,
/// once the scanlines `sc` reconstruct to its pixels, where no middle
/// chunk is tRNS.
#[verifier::rlimit(40)]
proof fn lemma_document_image(img: PngImageModel, l: Seq<(Seq<u8>, Seq<u8>)>, sc: Seq<u8>)
    requires
        encode_layout_value(img) is Ok,
        img.pixels.len() == encode_layout_value(img)->Ok_0.2,
        zlib::zlib_deflated(sc).len() > 0,
        zlib::zlib_inflated(zlib::zlib_deflated(sc)) == Some(sc),
        super::decode::reconstructed_value(
            sc,
            encoded_header(img, 0),
            encode_layout_value(img)->Ok_0.1 as int,
            encode_layout_value(img)->Ok_0.0 as int,
        ) == Ok::<Seq<u8>, PngParseError>(img.pixels),
        all_ancillary(l),
        forall|i: int| 0 <= i < l.len() ==> (#[trigger] l[i]).0 != chunk::trns_tag() && l[i].0.len() == 4,
    ensures
        image_from_chunks(document_chunks(encoded_ihdr(img, 0), l, zlib::zlib_deflated(sc))) == Ok::<PngImageModel, PngParseError>(img),
{
    let z = zlib::zlib_deflated(sc);
    let ih = encoded_ihdr(img, 0);
    let cs = document_chunks(ih, l, z);
    let e = super::round_trip::encoded_chunks(ih, z);
    let n = l.len() as int;
    super::round_trip::lemma_encoded_image(img, 0, sc);
    assert(cs.len() == n + 3);
    assert(cs[0] == e[0]);
    assert(cs[n + 1] == framed_chunk(chunk::idat_tag(), z));
    assert(cs[n + 2] == framed_chunk(chunk::iend_tag(), Seq::<u8>::empty()));
    assert(chunk::ihdr_tag()[0] == 73u8 && chunk::idat_tag()[0] == 73u8 && chunk::iend_tag()[0] == 73u8 && chunk::plte_tag()[0] == 80u8);
    assert forall|k: int| 1 <= k < n + 1 implies (#[trigger] cs[k]).kind == l[k - 1].0 by {
        assert(cs[k] == framed_chunk(l[k - 1].0, l[k - 1].1));
    }
    assert forall|k: int| 0 <= k < n + 1 implies (#[trigger] cs[k]).kind != chunk::idat_tag() by {
        if k >= 1 {
            assert(cs[k].kind == l[k - 1].0);
            assert(!octets::is_upper(l[k - 1].0[0]));
        }
    }
    assert forall|k: int| 0 <= k < cs.len() implies (#[trigger] cs[k]).kind != chunk::trns_tag() by {
        if 1 <= k < n + 1 {
            assert(cs[k].kind == l[k - 1].0);
        }
    }
    assert forall|k: int| 0 <= k < cs.len() implies (#[trigger] cs[k]).kind != chunk::plte_tag() by {
        if 1 <= k < n + 1 {
            assert(cs[k].kind == l[k - 1].0);
            assert(!octets::is_upper(l[k - 1].0[0]));
        }
    }
    assert forall|k: int| 0 <= k < e.len() implies (#[trigger] e[k]).kind != chunk::plte_tag() by {}
    assert forall|k: int| 0 <= k < e.len() implies (#[trigger] e[k]).kind != chunk::trns_tag() by {}
    lemma_find_none(cs, chunk::trns_tag(), 0);
    lemma_find_none(cs, chunk::plte_tag(), 0);
    lemma_find_none(e, chunk::trns_tag(), 0);
    lemma_find_none(e, chunk::plte_tag(), 0);
    lemma_no_idat(cs, n + 1);
    assert(idat_data(cs, n + 2) =~= z);
    assert(idat_data(cs, n + 3) == z);
    assert(idat_data(e, 0) =~= Seq::<u8>::empty());
    assert(idat_data(e, 1) =~= Seq::<u8>::empty());
    assert(idat_data(e, 2) =~= z);
    assert(idat_data(e, 3) =~= z);
    assert(pixels::find_tag(cs, chunk::ihdr_tag(), 0) == Some(0int));
    assert(pixels::find_tag(e, chunk::ihdr_tag(), 0) == Some(0int));
    assert(pixels::transparency_value(cs, img.color_type) == pixels::transparency_value(e, img.color_type));
    assert(pixels::palette_value(cs) == pixels::palette_value(e));
    assert(image_from_chunks(cs) == image_from_chunks(e));
}

/// The metadata read back after the chunks of the first `s` stages.
pub open spec fn meta_upto(m: MetadataModel, s: int) -> MetadataModel {
    MetadataModel {
        gamma_scaled: if s >= 1 { m.gamma_scaled } else { None },
        chromaticities: if s >= 2 { m.chromaticities } else { None },
        srgb_rendering_intent: if s >= 3 { m.srgb_rendering_intent } else { None },
        icc_profile: if s >= 4 { m.icc_profile } else { None },
        physical_pixel_dimensions: if s >= 5 { m.physical_pixel_dimensions } else { None },
        timestamp: if s >= 6 { m.timestamp } else { None },
        text_chunks: if s >= 7 { m.text_chunks } else { Seq::empty() },
        compressed_text_chunks: if s >= 8 { m.compressed_text_chunks } else { Seq::empty() },
        international_text_chunks: if s >= 9 { m.international_text_chunks } else { Seq::empty() },
    }
}

/// The chunks of the first `s` stages begin the chunks of the first `t`.
proof fn lemma_meta_prefix(m: MetadataModel, s: int, t: int)
    requires
        0 <= s <= t,
    ensures
        meta_list(m, s).len() <= meta_list(m, t).len(),
        forall|i: int| 0 <= i < meta_list(m, s).len() ==> (#[trigger] meta_list(m, t)[i]) == meta_list(m, s)[i],
    decreases t - s,
{
    if s < t {
        lemma_meta_prefix(m, s, t - 1);
        assert(meta_list(m, t) == meta_list(m, t - 1) + meta_piece(m, t));
        assert forall|i: int| 0 <= i < meta_list(m, s).len() implies (#[trigger] meta_list(m, t)[i]) == meta_list(m, s)[i] by {
            assert(meta_list(m, t)[i] == meta_list(m, t - 1)[i]);
        }
    }
}

/// A chunk of none of the metadata types leaves the metadata as it is.
proof fn lemma_step_other(md: MetadataModel, c: ChunkModel)
    requires
        !meta_kind(c.kind),
    ensures
        metadata_step(md, c) == Ok::<MetadataModel, PngParseError>(md),
{
}

/// Chunks of none of the metadata types leave the metadata as it is.
proof fn lemma_meta_skip(cs: Seq<ChunkModel>, i: int, j: int, md: MetadataModel)
    requires
        0 <= i <= j <= cs.len(),
        metadata_of(cs, i) == Ok::<MetadataModel, PngParseError>(md),
        forall|k: int| i <= k < j ==> !meta_kind((#[trigger] cs[k]).kind),
    ensures
        metadata_of(cs, j) == Ok::<MetadataModel, PngParseError>(md),
    decreases j - i,
{
    if i < j {
        lemma_meta_skip(cs, i, j - 1, md);
        lemma_step_other(md, cs[j - 1]);
    }
}

/// The metadata with its text chunks, or its compressed text chunks, set.
pub open spec fn with_texts(m0: MetadataModel, compressed: bool, ts: Seq<TextModel>) -> MetadataModel {
    if compressed {
        MetadataModel { compressed_text_chunks: ts, ..m0 }
    } else {
        MetadataModel { text_chunks: ts, ..m0 }
    }
}

/// What reading a written text chunk gives.
pub open spec fn text_read(t: TextModel, compressed: bool) -> Result<TextModel, PngParseError> {
    if compressed {
        metadata::ztxt_value(text_payload(t, true)->Ok_0)
    } else {
        metadata::text_value(text_payload(t, false)->Ok_0)
    }
}

/// Reading the written text chunks of one kind collects them in order.
#[verifier::spinoff_prover]
proof fn lemma_text_read(cs: Seq<ChunkModel>, base: int, m0: MetadataModel, kind: [u8; 4], ts: Seq<TextModel>, compressed: bool, k: int)
    requires
        0 <= k <= ts.len(),
        0 <= base,
        base + ts.len() <= cs.len(),
        kind@ == (if compressed { seq![122u8, 84u8, 88u8, 116u8] } else { seq![116u8, 69u8, 88u8, 116u8] }),
        forall|i: int| 0 <= i < ts.len() ==> cs[base + i] == framed_chunk(kind@, text_payload(#[trigger] ts[i], compressed)->Ok_0),
        forall|i: int| 0 <= i < ts.len() ==> text_read(#[trigger] ts[i], compressed) == Ok::<TextModel, PngParseError>(ts[i]),
        metadata_of(cs, base) == Ok::<MetadataModel, PngParseError>(with_texts(m0, compressed, Seq::empty())),
    ensures
        metadata_of(cs, base + k) == Ok::<MetadataModel, PngParseError>(with_texts(m0, compressed, ts.take(k))),
    decreases k,
{
    if k == 0 {
        assert(ts.take(0) =~= Seq::<TextModel>::empty());
    } else {
        lemma_text_read(cs, base, m0, kind, ts, compressed, k - 1);
        let t = ts[k - 1];
        assert(cs[base + k - 1] == framed_chunk(kind@, text_payload(t, compressed)->Ok_0));
        assert(text_read(t, compressed) == Ok::<TextModel, PngParseError>(t));
        assert(ts.take(k - 1).push(t) =~= ts.take(k));
        assert(seq![116u8, 69u8, 88u8, 116u8] != seq![122u8, 84u8, 88u8, 116u8]) by {
            assert(seq![116u8, 69u8, 88u8, 116u8][0] != seq![122u8, 84u8, 88u8, 116u8][0]);
        }
        assert(metadata_of(cs, base + k) == metadata_step(with_texts(m0, compressed, ts.take(k - 1)), cs[base + k - 1]));
    }
}

/// Reading the written international text chunks collects them in order.
#[verifier::spinoff_prover]
#[verifier::rlimit(40)]
proof fn lemma_itxt_read(cs: Seq<ChunkModel>, base: int, m0: MetadataModel, ts: Seq<InternationalTextModel>, k: int)
    requires
        0 <= k <= ts.len(),
        0 <= base,
        base + ts.len() <= cs.len(),
        forall|i: int| 0 <= i < ts.len() ==> cs[base + i] == framed_chunk([105u8, 84u8, 88u8, 116u8]@, itxt_bytes(#[trigger] ts[i])->Ok_0),
        forall|i: int| 0 <= i < ts.len() ==> metadata::itxt_value(itxt_bytes(#[trigger] ts[i])->Ok_0) == Ok::<InternationalTextModel, PngParseError>(ts[i]),
        metadata_of(cs, base) == Ok::<MetadataModel, PngParseError>(MetadataModel { international_text_chunks: Seq::empty(), ..m0 }),
    ensures
        metadata_of(cs, base + k) == Ok::<MetadataModel, PngParseError>(MetadataModel { international_text_chunks: ts.take(k), ..m0 }),
    decreases k,
{
    if k == 0 {
        assert(ts.take(0) =~= Seq::<InternationalTextModel>::empty());
    } else {
        lemma_itxt_read(cs, base, m0, ts, k - 1);
        let t = ts[k - 1];
        assert(cs[base + k - 1] == framed_chunk([105u8, 84u8, 88u8, 116u8]@, itxt_bytes(t)->Ok_0));
        assert(metadata::itxt_value(itxt_bytes(t)->Ok_0) == Ok::<InternationalTextModel, PngParseError>(t));
        assert(ts.take(k - 1).push(t) =~= ts.take(k));
        assert([105u8, 84u8, 88u8, 116u8]@ =~= seq![105u8, 84u8, 88u8, 116u8]);
        assert(metadata_of(cs, base + k) == metadata_step(
            MetadataModel { international_text_chunks: ts.take(k - 1), ..m0 },
            cs[base + k - 1],
        ));
    }
}

/// Reading the chunk of one of the first six stages, if it was written,
/// sets its value.
#[verifier::spinoff_prover]
#[verifier::rlimit(40)]
proof fn lemma_single_read(cs: Seq<ChunkModel>, base: int, m: MetadataModel, s: int)
    requires
        1 <= s <= 6,
        0 <= base,
        base + meta_piece(m, s).len() <= cs.len(),
        metadata_of(cs, base) == Ok::<MetadataModel, PngParseError>(meta_upto(m, s - 1)),
        meta_piece(m, s).len() == 1 ==> cs[base] == framed_chunk(meta_piece(m, s)[0].0, meta_piece(m, s)[0].1),
        s == 4 ==> (m.icc_profile matches Some(p) ==> metadata::iccp_value(iccp_bytes(p)->Ok_0) == Ok::<IccModel, PngParseError>(p)),
    ensures
        metadata_of(cs, base + meta_piece(m, s).len()) == Ok::<MetadataModel, PngParseError>(meta_upto(m, s)),
{
    let prev = meta_upto(m, s - 1);
    if meta_piece(m, s).len() == 0 {
        assert(meta_upto(m, s) == prev);
    } else {
        assert(metadata_of(cs, base + 1) == metadata_step(prev, cs[base]));
        if s == 1 {
            assert([103u8, 65u8, 77u8, 65u8]@ =~= seq![103u8, 65u8, 77u8, 65u8]);
            law_gama_reads_back(m.gamma_scaled->Some_0);
        } else if s == 2 {
            assert([99u8, 72u8, 82u8, 77u8]@ =~= seq![99u8, 72u8, 82u8, 77u8]);
            law_chrm_reads_back(m.chromaticities->Some_0);
        } else if s == 3 {
            assert([115u8, 82u8, 71u8, 66u8]@ =~= seq![115u8, 82u8, 71u8, 66u8]);
            law_srgb_reads_back(m.srgb_rendering_intent->Some_0);
        } else if s == 4 {
            assert([105u8, 67u8, 67u8, 80u8]@ =~= seq![105u8, 67u8, 67u8, 80u8]);
        } else if s == 5 {
            assert([112u8, 72u8, 89u8, 115u8]@ =~= seq![112u8, 72u8, 89u8, 115u8]);
            law_phys_reads_back(m.physical_pixel_dimensions->Some_0);
        } else {
            assert([116u8, 73u8, 77u8, 69u8]@ =~= seq![116u8, 73u8, 77u8, 69u8]);
            law_time_reads_back(m.timestamp->Some_0);
        }
        assert(metadata_step(prev, cs[base]) == Ok::<MetadataModel, PngParseError>(meta_upto(m, s)));
    }
}

/// Each metadata payload the encoder writes reads back as what it was
/// written from.
#[verifier::opaque]
pub open spec fn payloads_read_back(m: MetadataModel) -> bool {
    &&& m.icc_profile matches Some(p) ==> metadata::iccp_value(iccp_bytes(p)->Ok_0) == Ok::<IccModel, PngParseError>(p)
    &&& forall|i: int| 0 <= i < m.text_chunks.len() ==> text_read(#[trigger] m.text_chunks[i], false) == Ok::<TextModel, PngParseError>(m.text_chunks[i])
    &&& forall|i: int| 0 <= i < m.compressed_text_chunks.len() ==> text_read(#[trigger] m.compressed_text_chunks[i], true) == Ok::<TextModel, PngParseError>(m.compressed_text_chunks[i])
    &&& forall|i: int| 0 <= i < m.international_text_chunks.len() ==> metadata::itxt_value(itxt_bytes(#[trigger] m.international_text_chunks[i])->Ok_0)
        == Ok::<InternationalTextModel, PngParseError>(m.international_text_chunks[i])
}

/// The chunks of one stage sit where the stage's chunks are in the
/// written list.
proof fn lemma_piece_at(cs: Seq<ChunkModel>, off: int, m: MetadataModel, s: int)
    requires
        1 <= s <= 9,
        0 <= off,
        off + meta_list(m, 9).len() <= cs.len(),
        forall|i: int| 0 <= i < meta_list(m, 9).len() ==> cs[off + i] == framed_chunk((#[trigger] meta_list(m, 9)[i]).0, meta_list(m, 9)[i].1),
    ensures
        off + meta_list(m, s).len() <= cs.len(),
        meta_list(m, s) == meta_list(m, s - 1) + meta_piece(m, s),
        forall|j: int| 0 <= j < meta_piece(m, s).len() ==> cs[off + meta_list(m, s - 1).len() + j] == framed_chunk(
            (#[trigger] meta_piece(m, s)[j]).0,
            meta_piece(m, s)[j].1,
        ),
{
    lemma_meta_prefix(m, s, 9);
    let l0 = meta_list(m, s - 1);
    let piece = meta_piece(m, s);
    assert(meta_list(m, s) == l0 + piece);
    assert forall|j: int| 0 <= j < piece.len() implies cs[off + l0.len() + j] == framed_chunk((#[trigger] piece[j]).0, piece[j].1) by {
        let i = l0.len() + j;
        assert(meta_list(m, s)[i] == piece[j]);
        assert(meta_list(m, 9)[i] == meta_list(m, s)[i]);
    }
}

/// Reading the written metadata chunks of the first `s` stages gives the
/// metadata of those stages.
proof fn lemma_meta_read(cs: Seq<ChunkModel>, off: int, m: MetadataModel, s: int)
    requires
        0 <= s <= 9,
        0 <= off,
        off + meta_list(m, 9).len() <= cs.len(),
        forall|i: int| 0 <= i < meta_list(m, 9).len() ==> cs[off + i] == framed_chunk((#[trigger] meta_list(m, 9)[i]).0, meta_list(m, 9)[i].1),
        metadata_of(cs, off) == Ok::<MetadataModel, PngParseError>(super::document::empty_metadata()),
        payloads_read_back(m),
    ensures
        metadata_of(cs, off + meta_list(m, s).len()) == Ok::<MetadataModel, PngParseError>(meta_upto(m, s)),
    decreases s,
{
    if s == 0 {
        assert(meta_upto(m, 0) == super::document::empty_metadata());
    } else {
        reveal(payloads_read_back);
        lemma_meta_read(cs, off, m, s - 1);
        lemma_piece_at(cs, off, m, s);
        let l0 = meta_list(m, s - 1);
        let piece = meta_piece(m, s);
        let base = off + l0.len();
        assert(off + meta_list(m, s).len() == base + piece.len());
        if s <= 6 {
            if piece.len() == 1 {
                assert(cs[base + 0] == framed_chunk(piece[0].0, piece[0].1));
            }
            lemma_single_read(cs, base, m, s);
        } else if s <= 8 {
            let c = s == 8;
            let kind = if c { [122u8, 84u8, 88u8, 116u8] } else { [116u8, 69u8, 88u8, 116u8] };
            let ts = if c { m.compressed_text_chunks } else { m.text_chunks };
            let m0 = meta_upto(m, s - 1);
            lemma_text_list_facts(kind, ts, c, ts.len() as int);
            assert(kind@ =~= (if c { seq![122u8, 84u8, 88u8, 116u8] } else { seq![116u8, 69u8, 88u8, 116u8] }));
            assert forall|i: int| 0 <= i < ts.len() implies cs[base + i] == framed_chunk(kind@, text_payload(#[trigger] ts[i], c)->Ok_0) by {
                assert(piece[i] == (kind@, text_payload(ts[i], c)->Ok_0));
            }
            assert(with_texts(m0, c, Seq::empty()) == m0);
            lemma_text_read(cs, base, m0, kind, ts, c, ts.len() as int);
            assert(ts.take(ts.len() as int) =~= ts);
            assert(with_texts(m0, c, ts) == meta_upto(m, s));
        } else {
            let ts = m.international_text_chunks;
            let m0 = meta_upto(m, 8);
            lemma_itxt_list_facts(ts, ts.len() as int);
            assert forall|i: int| 0 <= i < ts.len() implies cs[base + i] == framed_chunk([105u8, 84u8, 88u8, 116u8]@, itxt_bytes(#[trigger] ts[i])->Ok_0) by {
                assert(piece[i] == ([105u8, 84u8, 88u8, 116u8]@, itxt_bytes(ts[i])->Ok_0));
            }
            assert(MetadataModel { international_text_chunks: Seq::empty(), ..m0 } == m0);
            lemma_itxt_read(cs, base, m0, ts, ts.len() as int);
            assert(ts.take(ts.len() as int) =~= ts);
            assert(MetadataModel { international_text_chunks: ts, ..m0 } == meta_upto(m, 9));
        }
    }
}

/// An entry of the list of copied chunks, as an unknown chunk.
pub open spec fn as_unknown(e: (Seq<u8>, Seq<u8>)) -> UnknownModel {
    UnknownModel { kind: e.0, payload: e.1 }
}

/// The unknown chunks a document's encoding copies, as values.
pub open spec fn copied_unknown(us: Seq<UnknownAncillaryChunk>, policy: PngCompatUnknownChunkPolicy) -> Seq<UnknownModel> {
    unknown_list(us, policy, us.len() as int).map_values(|e: (Seq<u8>, Seq<u8>)| as_unknown(e))
}

/// Critical chunks and chunks this library reads are not kept as unknown.
proof fn lemma_unknown_skip(cs: Seq<ChunkModel>, i: int, j: int)
    requires
        0 <= i <= j <= cs.len(),
        forall|k: int| i <= k < j ==> octets::is_upper((#[trigger] cs[k]).kind[0]) || known_ancillary(cs[k].kind),
    ensures
        unknown_of(cs, j) == unknown_of(cs, i),
    decreases j - i,
{
    if i < j {
        lemma_unknown_skip(cs, i, j - 1);
    }
}

/// Unread ancillary chunks are kept, in order.
proof fn lemma_unknown_collect(cs: Seq<ChunkModel>, base: int, ul: Seq<(Seq<u8>, Seq<u8>)>, k: int)
    requires
        0 <= k <= ul.len(),
        0 <= base,
        base + ul.len() <= cs.len(),
        forall|i: int| 0 <= i < ul.len() ==> cs[base + i] == framed_chunk((#[trigger] ul[i]).0, ul[i].1),
        forall|i: int| 0 <= i < ul.len() ==> !octets::is_upper((#[trigger] ul[i]).0[0]) && !known_ancillary(ul[i].0),
    ensures
        unknown_of(cs, base + k) == unknown_of(cs, base) + ul.take(k).map_values(|e: (Seq<u8>, Seq<u8>)| as_unknown(e)),
    decreases k,
{
    if k == 0 {
        assert(ul.take(0).map_values(|e: (Seq<u8>, Seq<u8>)| as_unknown(e)) =~= Seq::<UnknownModel>::empty());
        assert(unknown_of(cs, base) + Seq::<UnknownModel>::empty() =~= unknown_of(cs, base));
    } else {
        lemma_unknown_collect(cs, base, ul, k - 1);
        let e = ul[k - 1];
        assert(cs[base + k - 1] == framed_chunk(e.0, e.1));
        assert(ul.take(k).map_values(|e: (Seq<u8>, Seq<u8>)| as_unknown(e))
            =~= ul.take(k - 1).map_values(|e: (Seq<u8>, Seq<u8>)| as_unknown(e)).push(as_unknown(e)));
        assert(unknown_of(cs, base + k) == unknown_of(cs, base + k - 1).push(UnknownModel { kind: e.0, payload: e.1 }));
        assert(unknown_of(cs, base) + ul.take(k).map_values(|e: (Seq<u8>, Seq<u8>)| as_unknown(e))
            =~= (unknown_of(cs, base) + ul.take(k - 1).map_values(|e: (Seq<u8>, Seq<u8>)| as_unknown(e))).push(as_unknown(e)));
    }
}

/// The kinds of the middle chunks of a written document: metadata types,
/// then unread ancillary types.
pub open spec fn middle_kinds(doc: PngDocument, policy: PngCompatUnknownChunkPolicy) -> bool {
    let ml = meta_list(doc.metadata@, 9);
    let ul = unknown_list(doc.unknown_ancillary_chunks@, policy, doc.unknown_ancillary_chunks@.len() as int);
    &&& forall|i: int| 0 <= i < ml.len() ==> meta_kind((#[trigger] ml[i]).0)
    &&& forall|i: int| 0 <= i < ul.len() ==> !octets::is_upper((#[trigger] ul[i]).0[0]) && !known_ancillary(ul[i].0)
}

/// Where each chunk of a written document stands.
proof fn lemma_document_chunks_shape(ih: Seq<u8>, l: Seq<(Seq<u8>, Seq<u8>)>, z: Seq<u8>)
    ensures
        ({
            let cs = document_chunks(ih, l, z);
            let n = l.len() as int;
            &&& cs.len() == n + 3
            &&& cs[0] == framed_chunk(chunk::ihdr_tag(), ih)
            &&& cs[n + 1] == framed_chunk(chunk::idat_tag(), z)
            &&& cs[n + 2] == framed_chunk(chunk::iend_tag(), Seq::<u8>::empty())
            &&& forall|i: int| 0 <= i < n ==> cs[1 + i] == framed_chunk((#[trigger] l[i]).0, l[i].1)
        }),
{
    let cs = document_chunks(ih, l, z);
    assert forall|i: int| 0 <= i < l.len() implies cs[1 + i] == framed_chunk((#[trigger] l[i]).0, l[i].1) by {
        assert(cs[1 + i] == models_of(l)[i]);
    }
}

/// The middle chunks: the metadata chunks, then the copied ones.
proof fn lemma_middle_shape(doc: PngDocument, policy: PngCompatUnknownChunkPolicy)
    ensures
        ({
            let l = middle_list(doc, policy);
            let ml = meta_list(doc.metadata@, 9);
            let ul = unknown_list(doc.unknown_ancillary_chunks@, policy, doc.unknown_ancillary_chunks@.len() as int);
            &&& l.len() == ml.len() + ul.len()
            &&& forall|i: int| 0 <= i < ml.len() ==> l[i] == #[trigger] ml[i]
            &&& forall|j: int| 0 <= j < ul.len() ==> l[ml.len() + j] == #[trigger] ul[j]
        }),
{
}

/// The chunks of a written document after the metadata chunks are of no
/// metadata type.
proof fn lemma_after_metadata(doc: PngDocument, policy: PngCompatUnknownChunkPolicy, z: Seq<u8>)
    requires
        middle_kinds(doc, policy),
    ensures
        ({
            let cs = document_chunks(encoded_ihdr(doc.image@, 0), middle_list(doc, policy), z);
            let a = meta_list(doc.metadata@, 9).len() as int;
            forall|k: int| 1 + a <= k < cs.len() ==> !meta_kind((#[trigger] cs[k]).kind)
        }),
{
    let l = middle_list(doc, policy);
    let ml = meta_list(doc.metadata@, 9);
    let ul = unknown_list(doc.unknown_ancillary_chunks@, policy, doc.unknown_ancillary_chunks@.len() as int);
    let cs = document_chunks(encoded_ihdr(doc.image@, 0), l, z);
    let n = l.len() as int;
    let a = ml.len() as int;
    lemma_document_chunks_shape(encoded_ihdr(doc.image@, 0), l, z);
    lemma_middle_shape(doc, policy);
    assert(chunk::idat_tag()[0] == 73u8 && chunk::iend_tag()[0] == 73u8);
    assert forall|k: int| 1 + a <= k < cs.len() implies !meta_kind((#[trigger] cs[k]).kind) by {
        if k < n + 1 {
            let j = k - 1 - a;
            assert(l[k - 1] == ul[j]);
            if meta_kind(ul[j].0) {
                lemma_meta_kind_facts(ul[j].0);
            }
        }
    }
}

/// Chunks made of one chunk of no metadata type, the written metadata
/// chunks, then chunks of no metadata type, hold the metadata.
#[verifier::spinoff_prover]
proof fn lemma_metadata_layout(cs: Seq<ChunkModel>, m: MetadataModel)
    requires
        1 + meta_list(m, 9).len() <= cs.len(),
        !meta_kind(cs[0].kind),
        forall|i: int| 0 <= i < meta_list(m, 9).len() ==> cs[1 + i] == framed_chunk((#[trigger] meta_list(m, 9)[i]).0, meta_list(m, 9)[i].1),
        forall|k: int| 1 + meta_list(m, 9).len() <= k < cs.len() ==> !meta_kind((#[trigger] cs[k]).kind),
        payloads_read_back(m),
    ensures
        metadata_of(cs, cs.len() as int) == Ok::<MetadataModel, PngParseError>(m),
{
    let e = super::document::empty_metadata();
    assert(metadata_of(cs, 0) == Ok::<MetadataModel, PngParseError>(e));
    lemma_meta_skip(cs, 0, 1, e);
    lemma_meta_read(cs, 1, m, 9);
    assert(meta_upto(m, 9) == m);
    lemma_meta_skip(cs, 1 + meta_list(m, 9).len() as int, cs.len() as int, m);
}

/// The metadata the chunks of a written document hold.
proof fn lemma_document_metadata(doc: PngDocument, policy: PngCompatUnknownChunkPolicy, z: Seq<u8>)
    requires
        middle_kinds(doc, policy),
        payloads_read_back(doc.metadata@),
    ensures
        ({
            let cs = document_chunks(encoded_ihdr(doc.image@, 0), middle_list(doc, policy), z);
            metadata_of(cs, cs.len() as int) == Ok::<MetadataModel, PngParseError>(doc.metadata@)
        }),
{
    let m = doc.metadata@;
    let l = middle_list(doc, policy);
    let ml = meta_list(m, 9);
    let cs = document_chunks(encoded_ihdr(doc.image@, 0), l, z);
    lemma_document_chunks_shape(encoded_ihdr(doc.image@, 0), l, z);
    lemma_middle_shape(doc, policy);
    assert(!meta_kind(cs[0].kind)) by {
        assert(chunk::ihdr_tag()[0] == 73u8);
    }
    assert forall|i: int| 0 <= i < ml.len() implies cs[1 + i] == framed_chunk((#[trigger] ml[i]).0, ml[i].1) by {
        assert(l[i] == ml[i]);
    }
    lemma_after_metadata(doc, policy, z);
    lemma_metadata_layout(cs, m);
}

/// The unknown chunks the chunks of a written document hold.
#[verifier::spinoff_prover]
#[verifier::rlimit(40)]
proof fn lemma_document_unknown(doc: PngDocument, policy: PngCompatUnknownChunkPolicy, z: Seq<u8>)
    requires
        middle_kinds(doc, policy),
    ensures
        ({
            let cs = document_chunks(encoded_ihdr(doc.image@, 0), middle_list(doc, policy), z);
            unknown_of(cs, cs.len() as int) == copied_unknown(doc.unknown_ancillary_chunks@, policy)
        }),
{
    let m = doc.metadata@;
    let us = doc.unknown_ancillary_chunks@;
    let l = middle_list(doc, policy);
    let ml = meta_list(m, 9);
    let ul = unknown_list(us, policy, us.len() as int);
    let cs = document_chunks(encoded_ihdr(doc.image@, 0), l, z);
    let n = l.len() as int;
    let a = ml.len() as int;
    lemma_document_chunks_shape(encoded_ihdr(doc.image@, 0), l, z);
    lemma_middle_shape(doc, policy);
    assert(chunk::ihdr_tag()[0] == 73u8 && chunk::idat_tag()[0] == 73u8 && chunk::iend_tag()[0] == 73u8);
    assert forall|k: int| 0 <= k < 1 + a implies octets::is_upper((#[trigger] cs[k]).kind[0]) || known_ancillary(cs[k].kind) by {
        if k >= 1 {
            assert(l[k - 1] == ml[k - 1]);
            lemma_meta_kind_facts(ml[k - 1].0);
        }
    }
    lemma_unknown_skip(cs, 0, 1 + a);
    assert forall|i: int| 0 <= i < ul.len() implies cs[1 + a + i] == framed_chunk((#[trigger] ul[i]).0, ul[i].1) by {
        assert(l[a + i] == ul[i]);
    }
    lemma_unknown_collect(cs, 1 + a, ul, ul.len() as int);
    assert forall|k: int| n + 1 <= k < n + 3 implies octets::is_upper((#[trigger] cs[k]).kind[0]) || known_ancillary(cs[k].kind) by {}
    lemma_unknown_skip(cs, n + 1, n + 3);
    assert(ul.take(ul.len() as int) =~= ul);
    assert(unknown_of(cs, 0) == Seq::<UnknownModel>::empty());
    assert(Seq::<UnknownModel>::empty() + ul.map_values(|e: (Seq<u8>, Seq<u8>)| as_unknown(e)) =~= copied_unknown(us, policy));
}

/// What the document's compressed payloads need of `flate2`: inflating
/// what it wrote for the image data, the ICC profile and the compressed
/// texts gives them back, and the image data's stream is not empty.
pub open spec fn inflates_back(doc: PngDocument) -> bool {
    let m = doc.metadata@;
    &&& idat_scanlines(doc.image@, PngFilterStrategy::NoFilter) matches Ok(sc) ==> zlib::zlib_deflated(sc).len() > 0
        && zlib::zlib_inflated(zlib::zlib_deflated(sc)) == Some(sc)
    &&& m.icc_profile matches Some(p) ==> zlib::zlib_inflated(zlib::zlib_deflated(p.profile)) == Some(p.profile)
    &&& forall|i: int| 0 <= i < m.compressed_text_chunks.len() ==> zlib::zlib_inflated(
        zlib::zlib_deflated(encode_utf8((#[trigger] m.compressed_text_chunks[i]).text)),
    ) == Some(encode_utf8(m.compressed_text_chunks[i].text))
    &&& forall|i: int| 0 <= i < m.international_text_chunks.len() ==> (#[trigger] m.international_text_chunks[i]).compressed
        ==> zlib::zlib_inflated(zlib::zlib_deflated(encode_utf8(m.international_text_chunks[i].text)))
        == Some(encode_utf8(m.international_text_chunks[i].text))
}

/// The language tags and translated keywords of the international text
/// chunks hold no zero byte, the separator that ends them in the chunk.
pub open spec fn itxt_fields_without_nul(m: MetadataModel) -> bool {
    forall|i: int| 0 <= i < m.international_text_chunks.len() ==> !encode_utf8((#[trigger] m.international_text_chunks[i]).language_tag).contains(0u8)
        && !encode_utf8(m.international_text_chunks[i].translated_keyword).contains(0u8)
}

/// The metadata payloads of a document whose metadata could be written
/// read back as what they were written from.
proof fn lemma_payloads_read_back(doc: PngDocument, a: Seq<u8>)
    requires
        metadata_bytes(doc.metadata@) == Ok::<Seq<u8>, PngParseError>(a),
        inflates_back(doc),
        itxt_fields_without_nul(doc.metadata@),
    ensures
        payloads_read_back(doc.metadata@),
{
    let m = doc.metadata@;
    lemma_meta_stage(m, 9, a);
    reveal(payloads_read_back);
    if m.icc_profile is Some {
        law_iccp_reads_back(m.icc_profile->Some_0);
    }
    assert forall|i: int| 0 <= i < m.text_chunks.len() implies text_read(#[trigger] m.text_chunks[i], false)
        == Ok::<TextModel, PngParseError>(m.text_chunks[i]) by {
        law_text_reads_back(m.text_chunks[i]);
        assert(text_payload(m.text_chunks[i], false) is Ok);
    }
    assert forall|i: int| 0 <= i < m.compressed_text_chunks.len() implies text_read(#[trigger] m.compressed_text_chunks[i], true)
        == Ok::<TextModel, PngParseError>(m.compressed_text_chunks[i]) by {
        law_ztxt_reads_back(m.compressed_text_chunks[i]);
        assert(text_payload(m.compressed_text_chunks[i], true) is Ok);
    }
    assert forall|i: int| 0 <= i < m.international_text_chunks.len() implies metadata::itxt_value(
        itxt_bytes(#[trigger] m.international_text_chunks[i])->Ok_0,
    ) == Ok::<InternationalTextModel, PngParseError>(m.international_text_chunks[i]) by {
        law_itxt_reads_back(m.international_text_chunks[i]);
        assert(itxt_bytes(m.international_text_chunks[i]) is Ok);
    }
}

/// The middle chunks of a written document are ancillary and none is tRNS.
proof fn lemma_middle_ancillary(doc: PngDocument, policy: PngCompatUnknownChunkPolicy)
    requires
        writable(middle_list(doc, policy)),
        middle_kinds(doc, policy),
    ensures
        all_ancillary(middle_list(doc, policy)),
        forall|i: int| 0 <= i < middle_list(doc, policy).len() ==> (#[trigger] middle_list(doc, policy)[i]).0 != chunk::trns_tag()
            && middle_list(doc, policy)[i].0.len() == 4,
{
    let l = middle_list(doc, policy);
    let ml = meta_list(doc.metadata@, 9);
    let ul = unknown_list(doc.unknown_ancillary_chunks@, policy, doc.unknown_ancillary_chunks@.len() as int);
    lemma_middle_shape(doc, policy);
    assert(known_ancillary(chunk::trns_tag()));
    assert forall|i: int| 0 <= i < l.len() implies !octets::is_upper((#[trigger] l[i]).0[0]) && l[i].0 != chunk::trns_tag() && l[i].0.len() == 4 by {
        assert(valid_chunk_type(l[i].0));
        if i < ml.len() {
            assert(l[i] == ml[i]);
            lemma_meta_kind_facts(ml[i].0);
        } else {
            assert(l[i] == ul[i - ml.len()]);
        }
    }
}

/// The image of a written document decodes back.
proof fn lemma_document_image_back(doc: PngDocument, policy: PngCompatUnknownChunkPolicy)
    requires
        idat_scanlines(doc.image@, PngFilterStrategy::NoFilter) is Ok,
        inflates_back(doc),
        writable(middle_list(doc, policy)),
        middle_kinds(doc, policy),
    ensures
        image_from_chunks(document_chunks(
            encoded_ihdr(doc.image@, 0),
            middle_list(doc, policy),
            zlib::zlib_deflated(idat_scanlines(doc.image@, PngFilterStrategy::NoFilter)->Ok_0),
        )) == Ok::<PngImageModel, PngParseError>(doc.image@),
{
    let img = doc.image@;
    let sc = idat_scanlines(img, PngFilterStrategy::NoFilter)->Ok_0;
    lemma_middle_ancillary(doc, policy);
    let (bpp, row_len, expected) = encode_layout_value(img)->Ok_0;
    lemma_layout_facts(img);
    lemma_filter_roundtrip(img.pixels, row_len as int, bpp as int, PngFilterStrategy::NoFilter, img.height as int);
    assert(sc == scanlines_filtered(img.pixels, row_len as int, bpp as int, PngFilterStrategy::NoFilter, img.height as int));
    lemma_document_image(img, middle_list(doc, policy), sc);
}

/// A stream that splits only into chunks `cs`, which validate, decodes to
/// what `f` gives of them.
proof fn lemma_outcome<T>(bytes: Seq<u8>, cs: Seq<ChunkModel>, r: Result<T, PngParseError>, f: spec_fn(Seq<ChunkModel>) -> Result<T, PngParseError>)
    requires
        decode_spec(bytes, r, f),
        forall|cr: Result<Seq<ChunkModel>, PngParseError>| #[trigger] png_chunk_stream(bytes, cr) ==> cr == Ok::<Seq<ChunkModel>, PngParseError>(cs),
        forall|sr: Result<PngStructureSummary, PngParseError>| #[trigger] png_structure(cs, sr) ==> sr is Ok,
    ensures
        r == f(cs),
{
    let (cr, sr) = choose|cr: Result<Seq<ChunkModel>, PngParseError>, sr: Result<PngStructureSummary, PngParseError>|
        #[trigger] decode_outcome(bytes, cr, sr, r, f);
    assert(png_chunk_stream(bytes, cr));
    assert(cr == Ok::<Seq<ChunkModel>, PngParseError>(cs));
    assert(png_structure(cs, sr));
}

/// The document the chunks of a written document make.
proof fn lemma_document_value(doc: PngDocument, policy: PngCompatUnknownChunkPolicy, z: Seq<u8>)
    requires
        ({
            let cs = document_chunks(encoded_ihdr(doc.image@, 0), middle_list(doc, policy), z);
            &&& image_from_chunks(cs) == Ok::<PngImageModel, PngParseError>(doc.image@)
            &&& metadata_of(cs, cs.len() as int) == Ok::<MetadataModel, PngParseError>(doc.metadata@)
            &&& unknown_of(cs, cs.len() as int) == copied_unknown(doc.unknown_ancillary_chunks@, policy)
        }),
    ensures
        document_from_chunks(document_chunks(encoded_ihdr(doc.image@, 0), middle_list(doc, policy), z))
            == Ok::<DocumentModel, PngParseError>(DocumentModel {
            image: doc.image@,
            metadata: doc.metadata@,
            unknown_ancillary_chunks: copied_unknown(doc.unknown_ancillary_chunks@, policy),
        }),
{
}

/// What decoding gives of a document that encoding wrote is that document,
/// with the unknown ancillary chunks that the policy copied: the image,
/// every metadata value and text chunk in order, and the copied chunks in
/// order. This holds where each copied chunk has an ancillary type that is
/// none of the types this library reads itself, where inflating what
/// `flate2` wrote gives the data back, and where the language tags and
/// translated keywords of the international texts hold no zero byte.
#[verifier::spinoff_prover]
#[verifier::rlimit(60)]
pub proof fn law_decode_reads_back_document(
    doc: PngDocument,
    policy: PngCompatUnknownChunkPolicy,
    bytes: Seq<u8>,
    r: Result<DocumentModel, PngParseError>,
)
    requires
        document_bytes(doc, policy) == Ok::<Seq<u8>, PngParseError>(bytes),
        copies_unread_ancillary(doc.unknown_ancillary_chunks@, policy),
        inflates_back(doc),
        itxt_fields_without_nul(doc.metadata@),
        document_decodes(bytes, r),
    ensures
        r == Ok::<DocumentModel, PngParseError>(DocumentModel {
            image: doc.image@,
            metadata: doc.metadata@,
            unknown_ancillary_chunks: copied_unknown(doc.unknown_ancillary_chunks@, policy),
        }),
{
    let img = doc.image@;
    let l = middle_list(doc, policy);
    lemma_document_bytes(doc, policy, bytes);
    let sc = idat_scanlines(img, PngFilterStrategy::NoFilter)->Ok_0;
    let z = zlib::zlib_deflated(sc);
    let ih = encoded_ihdr(img, 0);
    let cs = document_chunks(ih, l, z);
    assert(ih.len() == 13);
    lemma_middle_ancillary(doc, policy);
    assert forall|cr: Result<Seq<ChunkModel>, PngParseError>| #[trigger] png_chunk_stream(bytes, cr) implies cr == Ok::<Seq<ChunkModel>, PngParseError>(cs) by {
        lemma_document_chunk_stream(ih, l, z, cr);
    }
    assert forall|sr: Result<PngStructureSummary, PngParseError>| #[trigger] png_structure(cs, sr) implies sr is Ok by {
        lemma_document_structure(img, l, z, sr);
    }
    lemma_outcome(bytes, cs, r, |cs: Seq<ChunkModel>| document_from_chunks(cs));
    lemma_document_image_back(doc, policy);
    lemma_payloads_read_back(doc, metadata_bytes(doc.metadata@)->Ok_0);
    lemma_document_metadata(doc, policy, z);
    lemma_document_unknown(doc, policy, z);
    lemma_document_value(doc, policy, z);
}

} // verus!
