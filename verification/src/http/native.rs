//! Collecting a whole request, given in pieces, into owned strings.
use vstd::prelude::*;
use vstd::utf8::{decode_utf8, encode_utf8, is_char_boundary};
use vstd::string::StringSliceAdditionalSpecFns;
use crate::http::{head_end_from, blank_line_at, lemma_ascii_edge, lemma_head_end_found, str_slice};
use crate::http::compat;
use crate::http::compat::{ChunkedBody, HeadModel, chunked_from, chunk_texts, request_head};

verus! {

/// Why a request is refused.
#[derive(Debug, Clone, PartialEq, Eq, Structural)]
pub enum ParseError {
    Incomplete,
    MalformedRequestLine,
    MalformedHeader,
    InvalidContentLength,
    MalformedChunk,
    UnsupportedTransferEncoding,
    AlreadyComplete,
}

/// A header field, trimmed of surrounding whitespace.
#[derive(Debug, Clone, PartialEq, Eq)]
pub struct Header {
    pub name: String,
    pub value: String,
}

/// A whole request.
#[derive(Debug, Clone, PartialEq, Eq)]
pub struct Request {
    pub method: String,
    pub path: String,
    pub version: String,
    pub headers: Vec<Header>,
    pub body: String,
}

/// Collects the pieces of one request until it is complete.
#[derive(Debug)]
pub struct RequestParser {
    buffer: String,
    complete: bool,
}

/// A request, as values.
pub struct RequestModel {
    pub method: Seq<char>,
    pub path: Seq<char>,
    pub version: Seq<char>,
    pub headers: Seq<(Seq<char>, Seq<char>)>,
    pub body: Seq<char>,
}

/// The parser, as values: the text kept, and whether a request was
/// completed.
pub struct ParserModel {
    pub buffer: Seq<char>,
    pub complete: bool,
}

/// A request, as values.
pub open spec fn request_model(r: Request) -> RequestModel {
    RequestModel {
        method: r.method@,
        path: r.path@,
        version: r.version@,
        headers: r.headers@.map_values(|h: Header| (h.name@, h.value@)),
        body: r.body@,
    }
}

/// Texts one after another.
pub open spec fn concat_texts(ts: Seq<Seq<char>>) -> Seq<char>
    decreases ts.len(),
{
    if ts.len() == 0 {
        Seq::empty()
    } else {
        concat_texts(ts.drop_last()) + ts.last()
    }
}

/// A head together with its body, as a request.
pub open spec fn with_body(m: HeadModel, body: Seq<char>) -> RequestModel {
    RequestModel { method: m.method, path: m.path, version: m.version, headers: m.headers, body }
}

/// A head's refusal, as a request's (a head is never refused for its
/// parser type).
pub open spec fn head_error(e: compat::ParseError) -> ParseError {
    match e {
        compat::ParseError::UnsupportedParserType => ParseError::MalformedRequestLine,
        compat::ParseError::MalformedRequestLine => ParseError::MalformedRequestLine,
        compat::ParseError::MalformedHeader => ParseError::MalformedHeader,
        compat::ParseError::InvalidContentLength => ParseError::InvalidContentLength,
        compat::ParseError::MalformedChunk => ParseError::MalformedChunk,
        compat::ParseError::UnsupportedTransferEncoding => ParseError::UnsupportedTransferEncoding,
    }
}

/// What looking for a request in the text received so far gives: no
/// complete head yet; a refusal; a request and the length of text it took;
/// or text on which slicing would fail (a body length that overflows, or a
/// body that ends inside a character).
pub enum Pushed {
    NoHead,
    Failed(ParseError),
    Parsed(RequestModel, int),
    Aborts,
}

/// The request at the start of the text `b`: a head up to the first
/// `\r\n\r\n`, then a body that is chunked, or as long as `Content-Length`
/// says (the whole of it must have arrived), or empty.
pub open spec fn buffered_request(b: Seq<u8>) -> Pushed {
    let h = head_end_from(b, 0);
    if h >= b.len() {
        Pushed::NoHead
    } else {
        match request_head(b.subrange(0, h)) {
            Err(e) => Pushed::Failed(head_error(e)),
            Ok(m) => {
                let bs = h + 4;
                if m.chunked {
                    let c = b.subrange(bs, b.len() as int);
                    match chunked_from(c, 0) {
                        ChunkedBody::Chunks(pieces, used) => Pushed::Parsed(with_body(m, concat_texts(chunk_texts(c, pieces))), bs + used),
                        ChunkedBody::Malformed => Pushed::Failed(ParseError::MalformedChunk),
                        ChunkedBody::Aborts => Pushed::Aborts,
                    }
                } else {
                    match m.content_length {
                        None => Pushed::Parsed(with_body(m, Seq::empty()), bs),
                        Some(len) => if bs + len > usize::MAX {
                            Pushed::Aborts
                        } else if b.len() < bs + len {
                            Pushed::Failed(ParseError::Incomplete)
                        } else if !is_char_boundary(b, bs + len) {
                            Pushed::Aborts
                        } else {
                            Pushed::Parsed(with_body(m, decode_utf8(b.subrange(bs, bs + len))), bs + len)
                        },
                    }
                }
            },
        }
    }
}

impl View for RequestParser {
    type V = ParserModel;

    closed spec fn view(&self) -> ParserModel {
        ParserModel { buffer: self.buffer@, complete: self.complete }
    }
}

/// A head's refusal, as a request's.
fn from_head_error(e: compat::ParseError) -> (r: ParseError)
    ensures
        r == head_error(e),
{
    match e {
        compat::ParseError::UnsupportedParserType => ParseError::MalformedRequestLine,
        compat::ParseError::MalformedRequestLine => ParseError::MalformedRequestLine,
        compat::ParseError::MalformedHeader => ParseError::MalformedHeader,
        compat::ParseError::InvalidContentLength => ParseError::InvalidContentLength,
        compat::ParseError::MalformedChunk => ParseError::MalformedChunk,
        compat::ParseError::UnsupportedTransferEncoding => ParseError::UnsupportedTransferEncoding,
    }
}

/// The request whose head ends at `head_end` in `input`, and the length of
/// text it takes.
fn parse_buffered_request(input: &str, head_end: usize) -> (r: Result<(Request, usize), ParseError>)
    requires
        head_end as int == head_end_from(input.spec_bytes(), 0),
        head_end < input.spec_bytes().len(),
        !(buffered_request(input.spec_bytes()) is Aborts),
    ensures
        match buffered_request(input.spec_bytes()) {
            Pushed::Parsed(m, at) => (r matches Ok((req, n)) && request_model(req) == m && n == at),
            Pushed::Failed(e) => r == Err::<(Request, usize), ParseError>(e),
            _ => false,
        },
{
    broadcast use vstd::utf8::encode_utf8_valid_utf8;
    let bytes = input.as_bytes();
    let n = bytes.len();
    proof {
        lemma_head_end_found(bytes@, 0);
        lemma_ascii_edge(bytes@, head_end as int);
        lemma_ascii_edge(bytes@, head_end + 4);
        lemma_ascii_edge(bytes@, 0);
        lemma_ascii_edge(bytes@, n as int);
    }
    let head_text = str_slice(input, 0, head_end);
    let head = match compat::parse_request_head(head_text) {
        Ok(h) => h,
        Err(e) => {
            return Err(from_head_error(e));
        },
    };
    let ghost m = compat::head_model(head);
    let mut headers: Vec<Header> = Vec::new();
    let mut i: usize = 0;
    while i < head.headers.len()
        invariant
            i <= head.headers@.len(),
            m == compat::head_model(head),
            headers@.map_values(|h: Header| (h.name@, h.value@)) =~= m.headers.take(i as int),
        decreases head.headers.len() - i,
    {
        let h = Header { name: head.headers[i].name.to_owned(), value: head.headers[i].value.to_owned() };
        let ghost before = headers@;
        headers.push(h);
        proof {
            assert(headers@.map_values(|h: Header| (h.name@, h.value@))
                =~= before.map_values(|h: Header| (h.name@, h.value@)).push((h.name@, h.value@)));
            assert(m.headers.take(i + 1) =~= m.headers.take(i as int).push(m.headers[i as int]));
        }
        i += 1;
    }
    assert(m.headers.take(head.headers@.len() as int) =~= m.headers);
    let body_start = head_end + 4;
    let method = head.method.to_owned();
    let path = head.path.to_owned();
    let version = head.version.to_owned();
    if head.chunked {
        let body_text = str_slice(input, body_start, n);
        let ghost c = bytes@.subrange(body_start as int, n as int);
        let (chunks, used) = match compat::parse_chunked_body(body_text) {
            Ok(x) => x,
            Err(_) => {
                return Err(ParseError::MalformedChunk);
            },
        };
        let ghost texts = chunk_texts(c, match chunked_from(c, 0) {
            ChunkedBody::Chunks(p, u) => p,
            _ => Seq::empty(),
        });
        proof {
            compat::lemma_chunked_end(c, 0);
            assert(texts.len() == compat::chunks_model(chunks@).len());
        }
        let mut body = String::new();
        let mut k: usize = 0;
        assert(texts.take(0) =~= Seq::<Seq<char>>::empty());
        while k < chunks.len()
            invariant
                k <= chunks@.len(),
                texts.len() == chunks@.len(),
                compat::chunks_model(chunks@) == texts.map_values(|t: Seq<char>| (t, false)),
                body@ == concat_texts(texts.take(k as int)),
            decreases chunks.len() - k,
        {
            assert(compat::chunks_model(chunks@)[k as int] == (chunks@[k as int].data@, chunks@[k as int].is_final));
            assert(texts[k as int] == chunks@[k as int].data@);
            assert(texts.take(k + 1).drop_last() =~= texts.take(k as int));
            assert(texts.take(k + 1).last() == texts[k as int]);
            body.append(chunks[k].data);
            k += 1;
        }
        assert(texts.take(chunks@.len() as int) =~= texts);
        let request = Request { method, path, version, headers, body };
        return Ok((request, body_start + used));
    }
    match head.content_length {
        None => {
            let request = Request { method, path, version, headers, body: String::new() };
            Ok((request, body_start))
        },
        Some(len) => {
            let body_end = body_start + len;
            if n < body_end {
                return Err(ParseError::Incomplete);
            }
            let body = str_slice(input, body_start, body_end).to_owned();
            let request = Request { method, path, version, headers, body };
            Ok((request, body_end))
        },
    }
}

impl RequestParser {
    /// A parser that has received nothing.
    pub fn new() -> (p: Self)
        ensures
            p@.buffer == Seq::<char>::empty(),
            !p@.complete,
    {
        RequestParser { buffer: String::new(), complete: false }
    }

    /// Appends `chunk` to the text received so far and looks for a request
    /// at its start. Without a complete head yet, nothing is returned; a
    /// refused request leaves the text in place for more input; a complete
    /// request is returned, its text dropped, and the parser refuses any
    /// further input. Text on which slicing would fail is outside the
    /// contract.
    pub fn push(&mut self, chunk: &str) -> (r: Result<Option<Request>, ParseError>)
        requires
            !old(self)@.complete ==> !(buffered_request(encode_utf8(old(self)@.buffer + chunk@)) is Aborts),
        ensures
            old(self)@.complete ==> r == Err::<Option<Request>, ParseError>(ParseError::AlreadyComplete)
                && final(self)@ == old(self)@,
            !old(self)@.complete ==> ({
                let text = old(self)@.buffer + chunk@;
                let b = encode_utf8(text);
                match buffered_request(b) {
                    Pushed::NoHead => r == Ok::<Option<Request>, ParseError>(None)
                        && final(self)@ == ParserModel { buffer: text, complete: false },
                    Pushed::Failed(e) => r == Err::<Option<Request>, ParseError>(e)
                        && final(self)@ == ParserModel { buffer: text, complete: false },
                    Pushed::Parsed(m, at) => (r matches Ok(Some(req)) && request_model(req) == m)
                        && final(self)@ == ParserModel { buffer: decode_utf8(b.subrange(at, b.len() as int)), complete: true },
                    Pushed::Aborts => false,
                }
            }),
    {
        broadcast use vstd::utf8::encode_utf8_valid_utf8;
        if self.complete {
            return Err(ParseError::AlreadyComplete);
        }
        self.buffer.append(chunk);
        let text: &str = self.buffer.as_str();
        let head_end = match compat::head_end(text) {
            None => {
                return Ok(None);
            },
            Some(h) => h,
        };
        let (request, complete_at) = match parse_buffered_request(text, head_end) {
            Ok(x) => x,
            Err(e) => {
                return Err(e);
            },
        };
        let n = text.as_bytes().len();
        proof {
            let b = text.spec_bytes();
            lemma_head_end_found(b, 0);
            lemma_ascii_edge(b, n as int);
            let h = head_end as int;
            let bs = h + 4;
            match request_head(b.subrange(0, h)) {
                Ok(hm) => {
                    if hm.chunked {
                        let c = b.subrange(bs, b.len() as int);
                        compat::lemma_chunked_end(c, 0);
                        match chunked_from(c, 0) {
                            ChunkedBody::Chunks(p, u) => {
                                assert(b[bs + u - 1] == c[u - 1]);
                                lemma_ascii_edge(b, bs + u);
                            },
                            _ => {},
                        }
                    } else if hm.content_length is None {
                        assert(b[bs - 1] == 10);
                        lemma_ascii_edge(b, bs);
                    }
                },
                Err(_) => {},
            }
        }
        let rest = str_slice(text, complete_at, n).to_owned();
        self.buffer = rest;
        self.complete = true;
        Ok(Some(request))
    }
}

impl Default for RequestParser {
    fn default() -> (p: Self)
        ensures
            p@.buffer == Seq::<char>::empty(),
            !p@.complete,
    {
        Self::new()
    }
}

/// Reads one whole request from `input`: a missing head or body is
/// `Incomplete`. Text on which slicing would fail is outside the contract.
pub fn parse_request(input: &str) -> (r: Result<Request, ParseError>)
    requires
        !(buffered_request(encode_utf8(input@)) is Aborts),
    ensures
        match buffered_request(encode_utf8(input@)) {
            Pushed::NoHead => r == Err::<Request, ParseError>(ParseError::Incomplete),
            Pushed::Failed(e) => r == Err::<Request, ParseError>(e),
            Pushed::Parsed(m, _) => (r matches Ok(req) && request_model(req) == m),
            Pushed::Aborts => false,
        },
{
    let mut parser = RequestParser::new();
    assert(parser@.buffer + input@ =~= input@);
    match parser.push(input) {
        Err(e) => Err(e),
        Ok(None) => Err(ParseError::Incomplete),
        Ok(Some(request)) => Ok(request),
    }
}

} // verus!
