//! Splitting a PNG byte stream into chunks and validating chunk order.
use vstd::prelude::*;
use crate::octets;
use super::chunk;
use super::chunk::{spec_parse_ihdr, tag_is, validate_chunk_crc};
use super::palette;
use super::palette::parse_plte;
use super::stream;
use super::stream::{ParseOutcome, PngStreamParser};
use super::types::{chunk_models, Chunk, ChunkModel, Ihdr, IhdrColorType, PngParseError, PngStructureSummary};

verus! {

/// `r` is what reading chunks from `rest` gives, after the chunks `acc`
/// already read and the signature. Reading stops after IEND or when the
/// input runs out between chunks.
pub open spec fn chunks_after(rest: Seq<u8>, acc: Seq<ChunkModel>, r: Result<Seq<ChunkModel>, PngParseError>) -> bool
    decreases rest.len(),
{
    if rest.len() == 0 {
        r == Ok::<Seq<ChunkModel>, PngParseError>(acc)
    } else if rest.len() < 8 {
        r == Err::<Seq<ChunkModel>, PngParseError>(PngParseError::UnexpectedEndOfInput { buffered_len: rest.len() as usize })
    } else {
        let length = octets::be_u32_at(rest, 0);
        if length > 0x7fff_ffff || !chunk::valid_chunk_type(rest.subrange(4, 8)) {
            r matches Err(e) && chunk::header_parse_result(rest.subrange(0, 8), Err(e))
        } else {
            let body = rest.skip(8);
            if body.len() < length + 4 {
                if body.len() == 0 {
                    r == Ok::<Seq<ChunkModel>, PngParseError>(acc)
                } else {
                    r == Err::<Seq<ChunkModel>, PngParseError>(PngParseError::UnexpectedEndOfInput { buffered_len: body.len() as usize })
                }
            } else {
                let c = ChunkModel {
                    length: length as u32,
                    kind: rest.subrange(4, 8),
                    payload: body.subrange(0, length),
                    crc: octets::be_u32_at(body, length) as u32,
                };
                let after = body.skip(length + 4);
                if c.kind == chunk::iend_tag() {
                    if after.len() > 0 {
                        r == Err::<Seq<ChunkModel>, PngParseError>(PngParseError::TrailingBytesAfterIend { byte_count: after.len() as usize })
                    } else {
                        r == Ok::<Seq<ChunkModel>, PngParseError>(acc.push(c))
                    }
                } else {
                    chunks_after(after, acc.push(c), r)
                }
            }
        }
    }
}

/// `r` is what splitting a whole PNG byte stream into chunks gives.
pub open spec fn png_chunk_stream(input: Seq<u8>, r: Result<Seq<ChunkModel>, PngParseError>) -> bool {
    let n = stream::min8(input.len() as int);
    let m = stream::first_sig_mismatch(input, 0, n);
    if m < n {
        r == Err::<Seq<ChunkModel>, PngParseError>(PngParseError::InvalidSignature {
            offset: m as usize,
            expected: chunk::png_sig()[m],
            actual: input[m],
        })
    } else if input.len() < 8 {
        r == Err::<Seq<ChunkModel>, PngParseError>(PngParseError::UnexpectedEndOfInput { buffered_len: input.len() as usize })
    } else {
        chunks_after(input.skip(8), Seq::empty(), r)
    }
}

/// The models of the chunks in a parse result.
pub open spec fn chunks_result_models(r: Result<Vec<Chunk>, PngParseError>) -> Result<Seq<ChunkModel>, PngParseError> {
    match r {
        Ok(v) => Ok(chunk_models(v@)),
        Err(e) => Err(e),
    }
}

proof fn lemma_header_window(rest: Seq<u8>)
    requires
        rest.len() >= 8,
    ensures
        octets::be_u32_at(rest.subrange(0, 8), 0) == octets::be_u32_at(rest, 0),
        rest.subrange(0, 8).subrange(4, 8) == rest.subrange(4, 8),
{
    let b = rest.subrange(0, 8);
    assert(b[0] == rest[0] && b[1] == rest[1] && b[2] == rest[2] && b[3] == rest[3]);
    assert(b.subrange(4, 8) =~= rest.subrange(4, 8));
}

proof fn lemma_models_push(v: Seq<Chunk>, c: Chunk)
    ensures
        chunk_models(v.push(c)) == chunk_models(v).push(c@),
{
    assert(chunk_models(v.push(c)) =~= chunk_models(v).push(c@));
}

/// Splits a whole PNG byte stream into its chunks, up to and including IEND.
pub fn parse_png_chunks(input: &[u8]) -> (r: Result<Vec<Chunk>, PngParseError>)
    ensures
        png_chunk_stream(input@, chunks_result_models(r)),
{
    let mut parser = PngStreamParser::new();
    let mut chunks: Vec<Chunk> = Vec::new();
    match parser.feed(input) {
        Ok(ParseOutcome::SignatureComplete) => {},
        Ok(ParseOutcome::NeedMoreData) => {
            return Err(PngParseError::UnexpectedEndOfInput { buffered_len: parser.buffered_len() });
        },
        Ok(_) => {
            return Err(PngParseError::MissingIhdr);
        },
        Err(e) => {
            return Err(e);
        },
    }
    assert(chunk_models(chunks@) =~= Seq::<ChunkModel>::empty());
    loop
        invariant_except_break
            parser@.signature_complete,
            parser@.pending_header is None,
            forall|res: Result<Seq<ChunkModel>, PngParseError>|
                #[trigger] chunks_after(parser@.buffer, chunk_models(chunks@), res) ==> png_chunk_stream(input@, res),
        ensures
            png_chunk_stream(input@, Ok(chunk_models(chunks@))),
        decreases parser@.buffer.len(),
    {
        let ghost rest = parser@.buffer;
        let ghost acc = chunk_models(chunks@);
        proof {
            if rest.len() >= 8 {
                lemma_header_window(rest);
            }
        }
        match parser.next_outcome() {
            Ok(ParseOutcome::NeedMoreData) => {
                if parser.buffered_len() == 0 {
                    assert(chunks_after(rest, acc, Ok(acc)));
                    break;
                }
                let r = Err(PngParseError::UnexpectedEndOfInput { buffered_len: parser.buffered_len() });
                assert(chunks_after(rest, acc, chunks_result_models(r)));
                return r;
            },
            Ok(ParseOutcome::ChunkHeader(h)) => {
                let ghost body = parser@.buffer;
                match parser.next_outcome() {
                    Ok(ParseOutcome::NeedMoreData) => {
                        if parser.buffered_len() == 0 {
                            assert(chunks_after(rest, acc, Ok(acc)));
                            break;
                        }
                        let r = Err(PngParseError::UnexpectedEndOfInput { buffered_len: parser.buffered_len() });
                        assert(chunks_after(rest, acc, chunks_result_models(r)));
                        return r;
                    },
                    Ok(ParseOutcome::Chunk(c)) => {
                        let is_iend = tag_is(c.header.chunk_type.bytes(), 73, 69, 78, 68);
                        proof {
                            lemma_models_push(chunks@, c);
                        }
                        chunks.push(c);
                        if is_iend {
                            if parser.buffered_len() > 0 {
                                let r = Err(PngParseError::TrailingBytesAfterIend { byte_count: parser.buffered_len() });
                                assert(chunks_after(rest, acc, chunks_result_models(r)));
                                return r;
                            }
                            assert(chunks_after(rest, acc, Ok(chunk_models(chunks@))));
                            break;
                        }
                        assert forall|res: Result<Seq<ChunkModel>, PngParseError>|
                            #[trigger] chunks_after(parser@.buffer, chunk_models(chunks@), res) implies png_chunk_stream(input@, res) by {
                            assert(chunks_after(rest, acc, res));
                        }
                    },
                    _ => {
                        proof {
                            assert(false);
                        }
                        return Err(PngParseError::MissingIhdr);
                    },
                }
            },
            Err(e) => {
                let r = Err(e);
                assert(chunks_after(rest, acc, chunks_result_models(r)));
                return r;
            },
            _ => {
                proof {
                    assert(false);
                }
                return Err(PngParseError::MissingIhdr);
            },
        }
    }
    Ok(chunks)
}

/// What structure validation tracks while it walks the chunks.
pub struct ValidationState {
    pub ihdr: Option<Ihdr>,
    pub idat_count: nat,
    pub ancillary_count: nat,
    pub seen_plte: bool,
    pub seen_iend: bool,
}

/// `r` is what validating the chunks from position `i` on gives, in state `s`.
pub open spec fn validate_from(cs: Seq<ChunkModel>, i: int, s: ValidationState, r: Result<PngStructureSummary, PngParseError>) -> bool
    decreases cs.len() - i,
{
    if i >= cs.len() {
        match s.ihdr {
            None => r == Err::<PngStructureSummary, PngParseError>(PngParseError::MissingIhdr),
            Some(h) => if s.idat_count == 0 {
                r == Err::<PngStructureSummary, PngParseError>(PngParseError::MissingIdatBeforeIend)
            } else if !s.seen_iend {
                r == Err::<PngStructureSummary, PngParseError>(PngParseError::MissingIend)
            } else {
                r == Ok::<PngStructureSummary, PngParseError>(PngStructureSummary {
                    width: h.width,
                    height: h.height,
                    idat_count: s.idat_count as usize,
                    ancillary_count: s.ancillary_count as usize,
                })
            },
        }
    } else if i < 0 {
        false
    } else {
        let c = cs[i];
        let crc = chunk::spec_chunk_crc(c.kind, c.payload);
        if c.crc != crc {
            r matches Err(PngParseError::CrcMismatch { chunk_type, expected, actual })
                && chunk_type@ == c.kind && expected == crc && actual == c.crc
        } else if s.seen_iend {
            r matches Err(PngParseError::ChunkAfterIend { chunk_type }) && chunk_type@ == c.kind
        } else if c.kind == chunk::ihdr_tag() {
            if s.ihdr is Some {
                r == Err::<PngStructureSummary, PngParseError>(PngParseError::DuplicateIhdr)
            } else {
                match spec_parse_ihdr(c.payload) {
                    Err(e) => r == Err::<PngStructureSummary, PngParseError>(e),
                    Ok(h) => validate_from(cs, i + 1, ValidationState { ihdr: Some(h), ..s }, r),
                }
            }
        } else if c.kind == chunk::idat_tag() {
            if s.ihdr matches Some(h) && h.color_type == IhdrColorType::Indexed && !s.seen_plte {
                r == Err::<PngStructureSummary, PngParseError>(PngParseError::MissingPlte)
            } else {
                validate_from(cs, i + 1, ValidationState { idat_count: s.idat_count + 1, ..s }, r)
            }
        } else if c.kind == chunk::iend_tag() {
            if s.idat_count == 0 {
                r == Err::<PngStructureSummary, PngParseError>(PngParseError::MissingIdatBeforeIend)
            } else {
                validate_from(cs, i + 1, ValidationState { seen_iend: true, ..s }, r)
            }
        } else if c.kind == chunk::plte_tag() {
            if s.seen_plte {
                r == Err::<PngStructureSummary, PngParseError>(PngParseError::DuplicatePlte)
            } else if s.idat_count > 0 {
                r == Err::<PngStructureSummary, PngParseError>(PngParseError::PlteAfterIdat)
            } else {
                match s.ihdr {
                    None => r == Err::<PngStructureSummary, PngParseError>(PngParseError::MissingIhdr),
                    Some(h) => if h.color_type == IhdrColorType::Grayscale || h.color_type == IhdrColorType::GrayscaleAlpha {
                        r == Err::<PngStructureSummary, PngParseError>(PngParseError::PlteNotAllowed { color_type: chunk::color_byte(h.color_type) })
                    } else if !palette::plte_length_ok(c.payload.len() as int) {
                        r == Err::<PngStructureSummary, PngParseError>(PngParseError::InvalidPlteLength { length: c.payload.len() as usize })
                    } else {
                        validate_from(cs, i + 1, ValidationState { seen_plte: true, ..s }, r)
                    },
                }
            }
        } else if !octets::is_upper(c.kind[0]) {
            validate_from(cs, i + 1, ValidationState { ancillary_count: s.ancillary_count + 1, ..s }, r)
        } else {
            r matches Err(PngParseError::UnknownCriticalChunk { chunk_type }) && chunk_type@ == c.kind
        }
    }
}

/// `r` is what validating the chunk sequence `cs` gives: IHDR first and
/// once, PLTE rules, IDAT before IEND, IEND last, unknown chunks ancillary,
/// every CRC right.
pub open spec fn png_structure(cs: Seq<ChunkModel>, r: Result<PngStructureSummary, PngParseError>) -> bool {
    if cs.len() == 0 {
        r == Err::<PngStructureSummary, PngParseError>(PngParseError::MissingIhdr)
    } else if cs[0].kind != chunk::ihdr_tag() {
        r == Err::<PngStructureSummary, PngParseError>(PngParseError::IhdrNotFirst)
    } else {
        validate_from(cs, 0, ValidationState { ihdr: None, idat_count: 0, ancillary_count: 0, seen_plte: false, seen_iend: false }, r)
    }
}

/// Validates the order and contents of a chunk sequence.
pub fn validate_png_chunks(chunks: &[Chunk]) -> (r: Result<PngStructureSummary, PngParseError>)
    ensures
        png_structure(chunk_models(chunks@), r),
{
    let ghost cs = chunk_models(chunks@);
    if chunks.len() == 0 {
        return Err(PngParseError::MissingIhdr);
    }
    if !tag_is(chunks[0].header.chunk_type.bytes(), 73, 72, 68, 82) {
        return Err(PngParseError::IhdrNotFirst);
    }
    let mut ihdr: Option<Ihdr> = None;
    let mut idat_count: usize = 0;
    let mut ancillary_count: usize = 0;
    let mut seen_plte = false;
    let mut seen_iend = false;
    let mut i: usize = 0;
    while i < chunks.len()
        invariant
            cs == chunk_models(chunks@),
            cs.len() == chunks@.len(),
            i <= chunks@.len(),
            idat_count <= i,
            ancillary_count <= i,
            forall|res: Result<PngStructureSummary, PngParseError>|
                #[trigger] validate_from(cs, i as int, ValidationState {
                    ihdr,
                    idat_count: idat_count as nat,
                    ancillary_count: ancillary_count as nat,
                    seen_plte,
                    seen_iend,
                }, res) ==> png_structure(cs, res),
        decreases chunks@.len() - i,
    {
        let ghost s = ValidationState { ihdr, idat_count: idat_count as nat, ancillary_count: ancillary_count as nat, seen_plte, seen_iend };
        let chunk = &chunks[i];
        assert(cs[i as int] == chunk@);
        match validate_chunk_crc(chunk) {
            Err(e) => {
                assert(validate_from(cs, i as int, s, Err(e)));
                return Err(e);
            },
            Ok(()) => {},
        }
        let t = chunk.header.chunk_type.bytes();
        if seen_iend {
            let r = Err(PngParseError::ChunkAfterIend { chunk_type: t });
            assert(validate_from(cs, i as int, s, r));
            return r;
        }
        if tag_is(t, 73, 72, 68, 82) {
            if ihdr.is_some() {
                assert(validate_from(cs, i as int, s, Err(PngParseError::DuplicateIhdr)));
                return Err(PngParseError::DuplicateIhdr);
            }
            match Ihdr::parse(chunk.payload.as_slice()) {
                Err(e) => {
                    assert(validate_from(cs, i as int, s, Err(e)));
                    return Err(e);
                },
                Ok(h) => {
                    ihdr = Some(h);
                },
            }
        } else if tag_is(t, 73, 68, 65, 84) {
            let indexed = match ihdr {
                Some(h) => match h.color_type {
                    IhdrColorType::Indexed => true,
                    _ => false,
                },
                None => false,
            };
            if indexed && !seen_plte {
                assert(validate_from(cs, i as int, s, Err(PngParseError::MissingPlte)));
                return Err(PngParseError::MissingPlte);
            }
            idat_count = idat_count + 1;
        } else if tag_is(t, 73, 69, 78, 68) {
            if idat_count == 0 {
                assert(validate_from(cs, i as int, s, Err(PngParseError::MissingIdatBeforeIend)));
                return Err(PngParseError::MissingIdatBeforeIend);
            }
            seen_iend = true;
        } else if tag_is(t, 80, 76, 84, 69) {
            if seen_plte {
                assert(validate_from(cs, i as int, s, Err(PngParseError::DuplicatePlte)));
                return Err(PngParseError::DuplicatePlte);
            }
            if idat_count > 0 {
                assert(validate_from(cs, i as int, s, Err(PngParseError::PlteAfterIdat)));
                return Err(PngParseError::PlteAfterIdat);
            }
            let h = match ihdr {
                Some(h) => h,
                None => {
                    assert(validate_from(cs, i as int, s, Err(PngParseError::MissingIhdr)));
                    return Err(PngParseError::MissingIhdr);
                },
            };
            let gray = match h.color_type {
                IhdrColorType::Grayscale => true,
                IhdrColorType::GrayscaleAlpha => true,
                _ => false,
            };
            if gray {
                let r = Err(PngParseError::PlteNotAllowed { color_type: h.color_type.byte() });
                assert(validate_from(cs, i as int, s, r));
                return r;
            }
            match parse_plte(chunk.payload.as_slice()) {
                Err(e) => {
                    assert(validate_from(cs, i as int, s, Err(e)));
                    return Err(e);
                },
                Ok(_) => {},
            }
            seen_plte = true;
        } else if chunk.header.chunk_type.is_ancillary() {
            ancillary_count = ancillary_count + 1;
        } else {
            let r = Err(PngParseError::UnknownCriticalChunk { chunk_type: t });
            assert(validate_from(cs, i as int, s, r));
            return r;
        }
        i = i + 1;
        assert forall|res: Result<PngStructureSummary, PngParseError>|
            #[trigger] validate_from(cs, i as int, ValidationState {
                ihdr,
                idat_count: idat_count as nat,
                ancillary_count: ancillary_count as nat,
                seen_plte,
                seen_iend,
            }, res) implies png_structure(cs, res) by {
            assert(validate_from(cs, i - 1, s, res));
        }
    }
    let ghost s = ValidationState { ihdr, idat_count: idat_count as nat, ancillary_count: ancillary_count as nat, seen_plte, seen_iend };
    let r = match ihdr {
        Some(h) => if idat_count == 0 {
            Err(PngParseError::MissingIdatBeforeIend)
        } else if !seen_iend {
            Err(PngParseError::MissingIend)
        } else {
            Ok(PngStructureSummary { width: h.width, height: h.height, idat_count, ancillary_count })
        },
        None => Err(PngParseError::MissingIhdr),
    };
    assert(validate_from(cs, i as int, s, r));
    r
}

/// Splits `input` into chunks and validates them.
pub fn validate_png_structure(input: &[u8]) -> (r: Result<PngStructureSummary, PngParseError>)
    ensures
        r matches Ok(_) ==> exists|cs: Seq<ChunkModel>| png_chunk_stream(input@, Ok(cs)) && png_structure(cs, r),
        r matches Err(e) ==> png_chunk_stream(input@, Err(e))
            || exists|cs: Seq<ChunkModel>| png_chunk_stream(input@, Ok(cs)) && png_structure(cs, r),
{
    let chunks = parse_png_chunks(input)?;
    validate_png_chunks(chunks.as_slice())
}

} // verus!
