//! Progressive chunk parsing.
use vstd::prelude::*;
use crate::octets;
use crate::octets::extend_bytes;
use super::chunk;
use super::chunk::{signature_byte, ChunkType};
use super::types::{Chunk, ChunkHeader, ChunkModel, PngParseError};

verus! {

/// One step of progressive parsing.
#[derive(Debug, PartialEq, Eq)]
pub enum ParseOutcome {
    NeedMoreData,
    SignatureComplete,
    ChunkHeader(ChunkHeader),
    Chunk(Chunk),
}

/// A parser fed with arbitrary slices of a PNG stream. It first checks the
/// signature, then alternates between a chunk header and the chunk's payload
/// with its CRC.
#[derive(Debug)]
pub struct PngStreamParser {
    buffer: Vec<u8>,
    signature_complete: bool,
    pending_header: Option<ChunkHeader>,
}

/// The state of a stream parser.
pub struct StreamModel {
    pub buffer: Seq<u8>,
    pub signature_complete: bool,
    pub pending_header: Option<ChunkHeader>,
}

impl View for PngStreamParser {
    type V = StreamModel;

    closed spec fn view(&self) -> StreamModel {
        StreamModel {
            buffer: self.buffer@,
            signature_complete: self.signature_complete,
            pending_header: self.pending_header,
        }
    }
}

/// The least index in `[i, n)` where `buf` differs from the signature, or `n`.
pub open spec fn first_sig_mismatch(buf: Seq<u8>, i: int, n: int) -> int
    decreases n - i,
{
    if i >= n {
        n
    } else if buf[i] != chunk::png_sig()[i] {
        i
    } else {
        first_sig_mismatch(buf, i + 1, n)
    }
}

pub open spec fn min8(n: int) -> int {
    if n < 8 { n } else { 8 }
}

/// The chunk whose payload and CRC start `buf`, under header `h`.
pub open spec fn chunk_at(h: ChunkHeader, buf: Seq<u8>) -> ChunkModel {
    ChunkModel {
        length: h.length,
        kind: h.chunk_type@,
        payload: buf.subrange(0, h.length as int),
        crc: octets::be_u32_at(buf, h.length as int) as u32,
    }
}

/// `r` and `new` are what one parsing step gives from state `old`.
pub open spec fn outcome_step(old: StreamModel, new: StreamModel, r: Result<ParseOutcome, PngParseError>) -> bool {
    let buf = old.buffer;
    let unchanged = new == old;
    if !old.signature_complete {
        let m = first_sig_mismatch(buf, 0, min8(buf.len() as int));
        if m < min8(buf.len() as int) {
            &&& unchanged
            &&& r == Err::<ParseOutcome, PngParseError>(PngParseError::InvalidSignature {
                offset: m as usize,
                expected: chunk::png_sig()[m],
                actual: buf[m],
            })
        } else if buf.len() < 8 {
            unchanged && r == Ok::<ParseOutcome, PngParseError>(ParseOutcome::NeedMoreData)
        } else {
            &&& r == Ok::<ParseOutcome, PngParseError>(ParseOutcome::SignatureComplete)
            &&& new.buffer == buf.skip(8)
            &&& new.signature_complete
            &&& new.pending_header == old.pending_header
        }
    } else if old.pending_header is Some {
        let h = old.pending_header.unwrap();
        if buf.len() < h.length + 4 {
            unchanged && r == Ok::<ParseOutcome, PngParseError>(ParseOutcome::NeedMoreData)
        } else {
            &&& r matches Ok(ParseOutcome::Chunk(c)) && c.header == h && c@ == chunk_at(h, buf)
            &&& new.buffer == buf.skip(h.length + 4)
            &&& new.signature_complete
            &&& new.pending_header is None
        }
    } else if buf.len() < 8 {
        unchanged && r == Ok::<ParseOutcome, PngParseError>(ParseOutcome::NeedMoreData)
    } else {
        match r {
            Ok(ParseOutcome::ChunkHeader(h)) => {
                &&& chunk::header_parse_result(buf.subrange(0, 8), Ok(h))
                &&& new.buffer == buf.skip(8)
                &&& new.signature_complete
                &&& new.pending_header == Some(h)
            },
            Err(e) => unchanged && chunk::header_parse_result(buf.subrange(0, 8), Err(e)),
            _ => false,
        }
    }
}

/// Removes the first `n` bytes of `v` and returns them.
fn take_front(v: &mut Vec<u8>, n: usize) -> (r: Vec<u8>)
    requires
        n <= old(v)@.len(),
    ensures
        r@ == old(v)@.subrange(0, n as int),
        final(v)@ == old(v)@.skip(n as int),
{
    let mut rest = v.split_off(n);
    std::mem::swap(v, &mut rest);
    rest
}

impl PngStreamParser {
    pub fn new() -> (r: Self)
        ensures
            r@.buffer.len() == 0,
            !r@.signature_complete,
            r@.pending_header is None,
    {
        PngStreamParser { buffer: Vec::new(), signature_complete: false, pending_header: None }
    }

    /// The number of bytes received and not yet consumed.
    pub fn buffered_len(&self) -> (r: usize)
        ensures
            r == self@.buffer.len(),
    {
        self.buffer.len()
    }

    /// Appends `input` and takes one parsing step.
    pub fn feed(&mut self, input: &[u8]) -> (r: Result<ParseOutcome, PngParseError>)
        ensures
            outcome_step(
                StreamModel { buffer: old(self)@.buffer + input@, ..old(self)@ },
                final(self)@,
                r,
            ),
    {
        extend_bytes(&mut self.buffer, input);
        self.next_outcome()
    }

    /// Takes one parsing step on the bytes received so far.
    pub fn next_outcome(&mut self) -> (r: Result<ParseOutcome, PngParseError>)
        ensures
            outcome_step(old(self)@, final(self)@, r),
    {
        if !self.signature_complete {
            return self.parse_signature();
        }
        if self.pending_header.is_some() {
            return self.parse_pending_chunk();
        }
        self.parse_chunk_header()
    }

    fn parse_signature(&mut self) -> (r: Result<ParseOutcome, PngParseError>)
        requires
            !old(self)@.signature_complete,
        ensures
            outcome_step(old(self)@, final(self)@, r),
    {
        let n = if self.buffer.len() < 8 { self.buffer.len() } else { 8 };
        let mut offset: usize = 0;
        while offset < n
            invariant
                n == min8(self.buffer@.len() as int),
                offset <= n,
                self@ == old(self)@,
                !old(self)@.signature_complete,
                first_sig_mismatch(self.buffer@, 0, n as int) == first_sig_mismatch(self.buffer@, offset as int, n as int),
            decreases n - offset,
        {
            let actual = self.buffer[offset];
            let expected = signature_byte(offset);
            if actual != expected {
                assert(first_sig_mismatch(self.buffer@, offset as int, n as int) == offset);
                return Err(PngParseError::InvalidSignature { offset, expected, actual });
            }
            offset = offset + 1;
        }
        if self.buffer.len() < 8 {
            return Ok(ParseOutcome::NeedMoreData);
        }
        let _ = take_front(&mut self.buffer, 8);
        self.signature_complete = true;
        Ok(ParseOutcome::SignatureComplete)
    }

    fn parse_chunk_header(&mut self) -> (r: Result<ParseOutcome, PngParseError>)
        requires
            old(self)@.signature_complete,
            old(self)@.pending_header is None,
        ensures
            outcome_step(old(self)@, final(self)@, r),
    {
        if self.buffer.len() < 8 {
            return Ok(ParseOutcome::NeedMoreData);
        }
        let bytes = [
            self.buffer[0],
            self.buffer[1],
            self.buffer[2],
            self.buffer[3],
            self.buffer[4],
            self.buffer[5],
            self.buffer[6],
            self.buffer[7],
        ];
        assert(bytes@ =~= self.buffer@.subrange(0, 8));
        let header = ChunkHeader::parse(bytes)?;
        let _ = take_front(&mut self.buffer, 8);
        self.pending_header = Some(header);
        Ok(ParseOutcome::ChunkHeader(header))
    }

    fn parse_pending_chunk(&mut self) -> (r: Result<ParseOutcome, PngParseError>)
        requires
            old(self)@.signature_complete,
            old(self)@.pending_header is Some,
        ensures
            outcome_step(old(self)@, final(self)@, r),
    {
        let header = match self.pending_header {
            Some(h) => h,
            None => {
                return Ok(ParseOutcome::NeedMoreData);
            },
        };
        let payload_len = header.length as usize;
        if self.buffer.len() < payload_len || self.buffer.len() - payload_len < 4 {
            return Ok(ParseOutcome::NeedMoreData);
        }
        let ghost old_buf = self.buffer@;
        let payload = take_front(&mut self.buffer, payload_len);
        let crc = octets::read_be_u32(self.buffer.as_slice(), 0);
        let _ = take_front(&mut self.buffer, 4);
        assert(self.buffer@ =~= old_buf.skip(header.length + 4));
        self.pending_header = None;
        Ok(ParseOutcome::Chunk(Chunk { header, payload, crc }))
    }
}

} // verus!
