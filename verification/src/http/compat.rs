//! The pieces of a request that a callback-driven parser hands out, as
//! views of the text they were read from: the head (request line, header
//! fields, body framing) and the chunks of a chunked body.
use vstd::prelude::*;
use vstd::utf8::{decode_utf8, encode_utf8, is_char_boundary};
use vstd::string::StringSliceAdditionalSpecFns;
use crate::text::{trimmed, trim_str, chars_of};
use crate::http::{
    ByteStop, first_byte, next_crlf, crlf_at, head_end_from, parse_radix, ascii_edge, lemma_ascii_edge,
    lemma_first_byte_bounds, lemma_next_crlf_bounds, str_slice, scan_bytes, find_crlf, find_head_end,
    parse_radix_bytes, lemma_parse_radix_nonneg, lemma_head_end_found,
};

verus! {

/// What a parser reads: only requests are supported.
#[derive(Debug, Clone, Copy, PartialEq, Eq, Structural)]
pub enum ParserType {
    Request,
}

/// How far a call got, or what a callback asks for.
#[derive(Debug, Clone, Copy, PartialEq, Eq, Structural)]
pub enum ParseStatus {
    Complete,
    Incomplete,
    Paused,
}

/// Why a request is refused.
#[derive(Debug, Clone, PartialEq, Eq, Structural)]
pub enum ParseError {
    UnsupportedParserType,
    MalformedRequestLine,
    MalformedHeader,
    InvalidContentLength,
    MalformedChunk,
    UnsupportedTransferEncoding,
}

/// A header field, trimmed of surrounding whitespace.
#[derive(Debug, Clone, PartialEq, Eq)]
pub struct Header<'input> {
    pub name: &'input str,
    pub value: &'input str,
}

/// A request head: the request line, the header fields in order, and how
/// the body is framed.
#[derive(Debug, Clone, PartialEq, Eq)]
pub struct HeadersComplete<'input> {
    pub method: &'input str,
    pub path: &'input str,
    pub version: &'input str,
    pub headers: Vec<Header<'input>>,
    pub content_length: Option<usize>,
    pub chunked: bool,
}

/// A piece of the body, and whether it is the last one.
#[derive(Debug, Clone, PartialEq, Eq)]
pub struct BodyChunk<'input> {
    pub data: &'input str,
    pub is_final: bool,
}

/// A request head as values.
pub struct HeadModel {
    pub method: Seq<char>,
    pub path: Seq<char>,
    pub version: Seq<char>,
    pub headers: Seq<(Seq<char>, Seq<char>)>,
    pub content_length: Option<int>,
    pub chunked: bool,
}

/// The fields of a header, as values.
pub open spec fn headers_model(v: Seq<Header>) -> Seq<(Seq<char>, Seq<char>)> {
    v.map_values(|h: Header| (h.name@, h.value@))
}

/// A request head, as values.
pub open spec fn head_model(h: HeadersComplete) -> HeadModel {
    HeadModel {
        method: h.method@,
        path: h.path@,
        version: h.version@,
        headers: headers_model(h.headers@),
        content_length: match h.content_length {
            Some(n) => Some(n as int),
            None => None,
        },
        chunked: h.chunked,
    }
}

/// A header line: a name before the first `:` and a value after it, both
/// trimmed; the name may not be empty.
pub open spec fn header_of(line: Seq<u8>) -> Result<(Seq<char>, Seq<char>), ParseError> {
    let colon = first_byte(line, 0, line.len() as int, ByteStop::Is(58));
    if colon >= line.len() {
        Err(ParseError::MalformedHeader)
    } else {
        let name = trimmed(decode_utf8(line.subrange(0, colon)));
        let value = trimmed(decode_utf8(line.subrange(colon + 1, line.len() as int)));
        if name.len() == 0 {
            Err(ParseError::MalformedHeader)
        } else {
            Ok((name, value))
        }
    }
}

/// The header fields of the lines of `b` from `cur` on, lines being
/// separated by `\r\n`; empty lines are skipped.
pub open spec fn header_fields(b: Seq<u8>, cur: int) -> Result<Seq<(Seq<char>, Seq<char>)>, ParseError>
    decreases b.len() - cur,
{
    if cur < 0 || cur > b.len() {
        Ok(Seq::empty())
    } else {
        let e = next_crlf(b, cur, b.len() as int);
        let rest = if e < b.len() {
            proof {
                lemma_next_crlf_bounds(b, cur, b.len() as int);
            }
            header_fields(b, e + 2)
        } else {
            Ok(Seq::empty())
        };
        if e == cur {
            rest
        } else {
            match header_of(b.subrange(cur, e)) {
                Err(x) => Err(x),
                Ok(h) => match rest {
                    Ok(r) => Ok(seq![h] + r),
                    Err(x) => Err(x),
                },
            }
        }
    }
}

/// Whether `b[v0..v1]` starts with `HTTP/`.
pub open spec fn starts_with_http(b: Seq<u8>, v0: int, v1: int) -> bool {
    &&& v1 - v0 >= 5
    &&& b[v0] == 72 && b[v0 + 1] == 84 && b[v0 + 2] == 84 && b[v0 + 3] == 80 && b[v0 + 4] == 47
}

/// The request line `b[0..end]`: exactly three words separated by ASCII
/// whitespace, the last starting with `HTTP/`; their positions.
pub open spec fn request_line(b: Seq<u8>, end: int) -> Option<(int, int, int, int, int, int)> {
    let m0 = first_byte(b, 0, end, ByteStop::NotSpace);
    let m1 = first_byte(b, m0, end, ByteStop::Space);
    let p0 = first_byte(b, m1, end, ByteStop::NotSpace);
    let p1 = first_byte(b, p0, end, ByteStop::Space);
    let v0 = first_byte(b, p1, end, ByteStop::NotSpace);
    let v1 = first_byte(b, v0, end, ByteStop::Space);
    if m0 >= end || p0 >= end || v0 >= end || first_byte(b, v1, end, ByteStop::NotSpace) < end || !starts_with_http(b, v0, v1) {
        None
    } else {
        Some((m0, m1, p0, p1, v0, v1))
    }
}

/// Whether two characters are equal once ASCII letters are folded to one
/// case.
pub open spec fn same_char_ignoring_case(x: char, y: char) -> bool {
    ||| x == y
    ||| ('A' <= x <= 'Z' && y as u32 == x as u32 + 32)
    ||| ('a' <= x <= 'z' && y as u32 + 32 == x as u32)
}

/// Whether two strings are equal once ASCII letters are folded to one case.
pub open spec fn same_ignoring_case(a: Seq<char>, b: Seq<char>) -> bool {
    &&& a.len() == b.len()
    &&& forall|i: int| 0 <= i < a.len() ==> same_char_ignoring_case(#[trigger] a[i], b[i])
}

/// The first header from `from` on whose name is `name`, ignoring ASCII
/// case, or the number of headers.
pub open spec fn first_named(hs: Seq<(Seq<char>, Seq<char>)>, name: Seq<char>, from: int) -> int
    decreases hs.len() - from,
{
    if from >= hs.len() {
        hs.len() as int
    } else if same_ignoring_case(hs[from].0, name) {
        from
    } else {
        first_named(hs, name, from + 1)
    }
}

/// The body length that the first `Content-Length` field gives, if there
/// is one; its value must be a decimal `usize`.
pub open spec fn content_length_of(hs: Seq<(Seq<char>, Seq<char>)>) -> Result<Option<int>, ParseError> {
    let i = first_named(hs, "content-length"@, 0);
    if i < 0 || i >= hs.len() {
        Ok(None)
    } else {
        match parse_radix(encode_utf8(hs[i].1), 10) {
            Some(v) => Ok(Some(v)),
            None => Err(ParseError::InvalidContentLength),
        }
    }
}

/// Whether the first `Transfer-Encoding` field asks for chunked coding; any
/// other coding is refused.
pub open spec fn chunked_of(hs: Seq<(Seq<char>, Seq<char>)>) -> Result<bool, ParseError> {
    let i = first_named(hs, "transfer-encoding"@, 0);
    if i < 0 || i >= hs.len() {
        Ok(false)
    } else if same_ignoring_case(hs[i].1, "chunked"@) {
        Ok(true)
    } else {
        Err(ParseError::UnsupportedTransferEncoding)
    }
}

/// The head that the text `b` (without its closing blank line) describes:
/// the request line, then the header fields, then the body framing.
pub open spec fn request_head(b: Seq<u8>) -> Result<HeadModel, ParseError> {
    let e0 = next_crlf(b, 0, b.len() as int);
    match request_line(b, e0) {
        None => Err(ParseError::MalformedRequestLine),
        Some(t) => {
            let fields = if e0 < b.len() { header_fields(b, e0 + 2) } else { Ok(Seq::empty()) };
            match fields {
                Err(x) => Err(x),
                Ok(hs) => match content_length_of(hs) {
                    Err(x) => Err(x),
                    Ok(cl) => match chunked_of(hs) {
                        Err(x) => Err(x),
                        Ok(ch) => Ok(HeadModel {
                            method: decode_utf8(b.subrange(t.0, t.1)),
                            path: decode_utf8(b.subrange(t.2, t.3)),
                            version: decode_utf8(b.subrange(t.4, t.5)),
                            headers: hs,
                            content_length: cl,
                            chunked: ch,
                        }),
                    },
                },
            }
        },
    }
}

/// What reading a chunked body gives: the positions of the chunks' data
/// and the length read, a malformed body, or a body on which slicing the
/// text would fail (a chunk size that overflows, or a chunk that ends
/// inside a character).
pub enum ChunkedBody {
    Chunks(Seq<(int, int)>, int),
    Malformed,
    Aborts,
}

/// The chunked body in `c` from `off` on: chunks of a hexadecimal size
/// line, that many bytes and `\r\n`, up to a chunk of size zero followed by
/// `\r\n`.
pub open spec fn chunked_from(c: Seq<u8>, off: int) -> ChunkedBody
    decreases c.len() - off,
{
    if off < 0 || off > c.len() {
        ChunkedBody::Malformed
    } else {
        let e = next_crlf(c, off, c.len() as int);
        if e >= c.len() {
            ChunkedBody::Malformed
        } else {
            match parse_radix(c.subrange(off, e), 16) {
                None => ChunkedBody::Malformed,
                Some(size) => {
                    let start = e + 2;
                    if size == 0 {
                        if crlf_at(c, start, c.len() as int) {
                            ChunkedBody::Chunks(Seq::empty(), start + 2)
                        } else {
                            ChunkedBody::Malformed
                        }
                    } else if start + size + 2 > usize::MAX {
                        ChunkedBody::Aborts
                    } else if c.len() < start + size + 2 {
                        ChunkedBody::Malformed
                    } else if !is_char_boundary(c, start + size) || !is_char_boundary(c, start + size + 2) {
                        ChunkedBody::Aborts
                    } else if !crlf_at(c, start + size, c.len() as int) {
                        ChunkedBody::Malformed
                    } else {
                        proof {
                            lemma_next_crlf_bounds(c, off, c.len() as int);
                            lemma_parse_radix_nonneg(c.subrange(off, e), 16);
                        }
                        match chunked_from(c, start + size + 2) {
                            ChunkedBody::Chunks(rest, used) => ChunkedBody::Chunks(seq![(start, start + size)] + rest, used),
                            other => other,
                        }
                    }
                },
            }
        }
    }
}

/// A chunked body that is read whole ends with `\r\n`, after where reading
/// began and within the text.
pub proof fn lemma_chunked_end(c: Seq<u8>, off: int)
    ensures
        chunked_from(c, off) matches ChunkedBody::Chunks(p, u) ==> off + 2 <= u <= c.len() && c[u - 1] == 10,
    decreases c.len() - off,
{
    if 0 <= off <= c.len() {
        let e = next_crlf(c, off, c.len() as int);
        lemma_next_crlf_bounds(c, off, c.len() as int);
        if e < c.len() {
            lemma_parse_radix_nonneg(c.subrange(off, e), 16);
            match parse_radix(c.subrange(off, e), 16) {
                Some(size) => {
                    if size != 0 && e + 2 + size + 2 <= c.len() {
                        lemma_chunked_end(c, e + 2 + size + 2);
                    }
                },
                None => {},
            }
        }
    }
}

/// The chunks of a body, as their data and whether each is marked last.
pub open spec fn chunks_model(v: Seq<BodyChunk>) -> Seq<(Seq<char>, bool)> {
    v.map_values(|c: BodyChunk| (c.data@, c.is_final))
}

/// The data of chunks given by their positions in `c`.
pub open spec fn chunk_texts(c: Seq<u8>, pieces: Seq<(int, int)>) -> Seq<Seq<char>> {
    pieces.map_values(|p: (int, int)| decode_utf8(c.subrange(p.0, p.1)))
}

/// The position where a request head ends (where `\r\n\r\n` starts), if the
/// text holds one yet.
pub fn head_end(input: &str) -> (r: Option<usize>)
    ensures
        match r {
            Some(h) => h as int == head_end_from(input.spec_bytes(), 0) && h < input.spec_bytes().len(),
            None => head_end_from(input.spec_bytes(), 0) == input.spec_bytes().len(),
        },
{
    broadcast use vstd::utf8::encode_utf8_valid_utf8;
    let b = input.as_bytes();
    let h = find_head_end(b);
    if h < b.len() { Some(h) } else { None }
}

/// Whether two strings are equal once ASCII letters are folded to one case.
pub fn eq_ignore_case(a: &str, b: &str) -> (r: bool)
    ensures
        r == same_ignoring_case(a@, b@),
{
    let x = chars_of(a);
    let y = chars_of(b);
    if x.len() != y.len() {
        return false;
    }
    let mut i: usize = 0;
    while i < x.len()
        invariant
            x@ == a@,
            y@ == b@,
            x.len() == y.len(),
            i <= x.len(),
            forall|k: int| 0 <= k < i ==> same_char_ignoring_case(#[trigger] a@[k], b@[k]),
        decreases x.len() - i,
    {
        let c = x[i];
        let d = y[i];
        let same = c == d || ('A' <= c && c <= 'Z' && (d as u32) == (c as u32) + 32) || ('a' <= c && c <= 'z' && (d as u32) == (c as u32) - 32);
        if !same {
            assert(!same_char_ignoring_case(a@[i as int], b@[i as int]));
            return false;
        }
        i += 1;
    }
    true
}

/// Reads a header line: the name before the first `:` and the value after
/// it, both trimmed of whitespace; no `:` or an empty name is refused.
pub fn parse_header(line: &str) -> (r: Result<Header<'_>, ParseError>)
    ensures
        match header_of(line.spec_bytes()) {
            Ok(h) => (r matches Ok(x) && x.name@ == h.0 && x.value@ == h.1),
            Err(e) => r == Err::<Header, ParseError>(e),
        },
{
    broadcast use vstd::utf8::encode_utf8_valid_utf8;
    let b = line.as_bytes();
    let colon = scan_bytes(b, 0, b.len(), &ByteStop::Is(58));
    if colon >= b.len() {
        return Err(ParseError::MalformedHeader);
    }
    proof {
        lemma_ascii_edge(b@, colon as int);
        lemma_ascii_edge(b@, colon + 1);
        lemma_ascii_edge(b@, 0);
        lemma_ascii_edge(b@, b@.len() as int);
    }
    let name = trim_str(str_slice(line, 0, colon));
    let value = trim_str(str_slice(line, colon + 1, b.len()));
    if name.unicode_len() == 0 {
        return Err(ParseError::MalformedHeader);
    }
    Ok(Header { name, value })
}

/// The first header from `from` on whose name is `name`, ignoring ASCII
/// case.
fn find_named(headers: &[Header<'_>], name: &str) -> (i: usize)
    ensures
        i as int == first_named(headers_model(headers@), name@, 0),
        i <= headers@.len(),
{
    let ghost hs = headers_model(headers@);
    let mut i: usize = 0;
    while i < headers.len() && !eq_ignore_case(headers[i].name, name)
        invariant
            i <= headers@.len(),
            hs == headers_model(headers@),
            first_named(hs, name@, i as int) == first_named(hs, name@, 0),
        decreases headers.len() - i,
    {
        assert(hs[i as int].0 == headers@[i as int].name@);
        i += 1;
    }
    proof {
        if i < headers.len() {
            assert(hs[i as int].0 == headers@[i as int].name@);
        }
    }
    i
}

/// The body length that the first `Content-Length` field gives, if any.
pub fn content_length(headers: &[Header<'_>]) -> (r: Result<Option<usize>, ParseError>)
    ensures
        match content_length_of(headers_model(headers@)) {
            Ok(Some(n)) => (r matches Ok(Some(x)) && x as int == n),
            Ok(None) => r == Ok::<Option<usize>, ParseError>(None),
            Err(e) => r == Err::<Option<usize>, ParseError>(e),
        },
{
    let i = find_named(headers, "content-length");
    if i >= headers.len() {
        return Ok(None);
    }
    assert(headers_model(headers@)[i as int].1 == headers@[i as int].value@);
    let value = headers[i].value.as_bytes();
    assert(value@.subrange(0, value@.len() as int) =~= value@);
    match parse_radix_bytes(value, 0, value.len(), 10) {
        Some(n) => Ok(Some(n)),
        None => Err(ParseError::InvalidContentLength),
    }
}

/// Whether the first `Transfer-Encoding` field asks for chunked coding.
pub fn is_chunked(headers: &[Header<'_>]) -> (r: Result<bool, ParseError>)
    ensures
        match chunked_of(headers_model(headers@)) {
            Ok(b) => r == Ok::<bool, ParseError>(b),
            Err(e) => r == Err::<bool, ParseError>(e),
        },
{
    let i = find_named(headers, "transfer-encoding");
    if i >= headers.len() {
        return Ok(false);
    }
    assert(headers_model(headers@)[i as int].1 == headers@[i as int].value@);
    if eq_ignore_case(headers[i].value, "chunked") {
        Ok(true)
    } else {
        Err(ParseError::UnsupportedTransferEncoding)
    }
}

/// Reads a request head (without its closing blank line): the request
/// line, the header fields, and the body framing they ask for.
pub fn parse_request_head(input: &str) -> (r: Result<HeadersComplete<'_>, ParseError>)
    ensures
        match request_head(input.spec_bytes()) {
            Ok(m) => (r matches Ok(h) && head_model(h) == m),
            Err(e) => r == Err::<HeadersComplete, ParseError>(e),
        },
{
    broadcast use vstd::utf8::encode_utf8_valid_utf8;
    let b = input.as_bytes();
    let n = b.len();
    let e0 = find_crlf(b, 0, n);
    let m0 = scan_bytes(b, 0, e0, &ByteStop::NotSpace);
    let m1 = scan_bytes(b, m0, e0, &ByteStop::Space);
    let p0 = scan_bytes(b, m1, e0, &ByteStop::NotSpace);
    let p1 = scan_bytes(b, p0, e0, &ByteStop::Space);
    let v0 = scan_bytes(b, p1, e0, &ByteStop::NotSpace);
    let v1 = scan_bytes(b, v0, e0, &ByteStop::Space);
    let extra = scan_bytes(b, v1, e0, &ByteStop::NotSpace);
    if m0 >= e0 || p0 >= e0 || v0 >= e0 || extra < e0 {
        return Err(ParseError::MalformedRequestLine);
    }
    if !(v1 - v0 >= 5 && b[v0] == 72 && b[v0 + 1] == 84 && b[v0 + 2] == 84 && b[v0 + 3] == 80 && b[v0 + 4] == 47) {
        return Err(ParseError::MalformedRequestLine);
    }
    proof {
        assert(e0 < n ==> b@[e0 as int] == 13);
        if m0 > 0 {
            assert(!(b@[m0 - 1] != 32 && b@[m0 - 1] != 9 && b@[m0 - 1] != 10 && b@[m0 - 1] != 12 && b@[m0 - 1] != 13));
        }
        if p0 > m1 {
            assert(!(b@[p0 - 1] != 32 && b@[p0 - 1] != 9 && b@[p0 - 1] != 10 && b@[p0 - 1] != 12 && b@[p0 - 1] != 13));
        }
        if v0 > p1 {
            assert(!(b@[v0 - 1] != 32 && b@[v0 - 1] != 9 && b@[v0 - 1] != 10 && b@[v0 - 1] != 12 && b@[v0 - 1] != 13));
        }
        lemma_ascii_edge(b@, m0 as int);
        lemma_ascii_edge(b@, m1 as int);
        lemma_ascii_edge(b@, p0 as int);
        lemma_ascii_edge(b@, p1 as int);
        lemma_ascii_edge(b@, v0 as int);
        lemma_ascii_edge(b@, v1 as int);
    }
    let ghost line = (m0 as int, m1 as int, p0 as int, p1 as int, v0 as int, v1 as int);
    assert(request_line(b@, e0 as int) == Some(line));
    let method = str_slice(input, m0, m1);
    let path = str_slice(input, p0, p1);
    let version = str_slice(input, v0, v1);
    let ghost fields = if e0 < n { header_fields(b@, e0 + 2) } else { Ok(Seq::empty()) };
    let mut headers: Vec<Header<'_>> = Vec::new();
    let mut more = e0 < n;
    let mut cur = if e0 < n { e0 + 2 } else { n };
    assert(headers_model(headers@) =~= Seq::<(Seq<char>, Seq<char>)>::empty());
    assert(Seq::<(Seq<char>, Seq<char>)>::empty() + Seq::<(Seq<char>, Seq<char>)>::empty() =~= Seq::<(Seq<char>, Seq<char>)>::empty());
    while more
        invariant
            b@ == input.spec_bytes(),
            vstd::utf8::valid_utf8(b@),
            e0 as int == next_crlf(b@, 0, n as int),
            request_line(b@, e0 as int) == Some(line),
            n == b@.len(),
            fields == (if e0 < n { header_fields(b@, e0 + 2) } else { Ok(Seq::empty()) }),
            more ==> 2 <= cur <= n && b@[cur - 1] == 10,
            more ==> fields == (match header_fields(b@, cur as int) {
                Ok(r) => Ok(headers_model(headers@) + r),
                Err(x) => Err(x),
            }),
            !more ==> fields == Ok::<Seq<(Seq<char>, Seq<char>)>, ParseError>(headers_model(headers@)),
        decreases n - cur + (if more { 1int } else { 0int }),
    {
        let e = find_crlf(b, cur, n);
        proof {
            lemma_next_crlf_bounds(b@, cur as int, n as int);
        }
        let ghost done = headers_model(headers@);
        let ghost rest = if e < n { header_fields(b@, e + 2) } else { Ok(Seq::empty()) };
        if e > cur {
            proof {
                lemma_ascii_edge(b@, cur as int);
                lemma_ascii_edge(b@, e as int);
            }
            let line = str_slice(input, cur, e);
            match parse_header(line) {
                Err(x) => {
                    return Err(x);
                },
                Ok(h) => {
                    headers.push(h);
                    proof {
                        assert(headers_model(headers@) =~= done + seq![(h.name@, h.value@)]);
                        match rest {
                            Ok(r) => {
                                assert(done + (seq![(h.name@, h.value@)] + r) =~= (done + seq![(h.name@, h.value@)]) + r);
                            },
                            Err(_) => {},
                        }
                    }
                },
            }
        }
        if e >= n {
            more = false;
            proof {
                assert(done + Seq::<(Seq<char>, Seq<char>)>::empty() =~= done);
                assert(headers_model(headers@) + Seq::<(Seq<char>, Seq<char>)>::empty() =~= headers_model(headers@));
            }
        } else {
            cur = e + 2;
        }
    }
    let content_length = match content_length(headers.as_slice()) {
        Ok(v) => v,
        Err(x) => {
            return Err(x);
        },
    };
    let chunked = match is_chunked(headers.as_slice()) {
        Ok(v) => v,
        Err(x) => {
            return Err(x);
        },
    };
    let head = HeadersComplete { method, path, version, headers, content_length, chunked };
    proof {
        let hs = headers_model(head.headers@);
        assert(fields == Ok::<Seq<(Seq<char>, Seq<char>)>, ParseError>(hs));
        assert(content_length_of(hs) is Ok);
        assert(chunked_of(hs) == Ok::<bool, ParseError>(chunked));
        assert(request_head(b@) is Ok);
        let m = request_head(b@)->Ok_0;
        assert(m.method == head.method@);
        assert(m.headers == hs);
        assert(m.content_length == head_model(head).content_length);
        assert(m.chunked == head.chunked);
    }
    Ok(head)
}

/// Chunks found before a position, put in front of what reading from that
/// position gives.
pub open spec fn chunks_then(done: Seq<(int, int)>, r: ChunkedBody) -> ChunkedBody {
    match r {
        ChunkedBody::Chunks(rest, used) => ChunkedBody::Chunks(done + rest, used),
        other => other,
    }
}

/// Reads a chunked body: each chunk is a hexadecimal size line, that many
/// bytes and `\r\n`; a chunk of size zero followed by `\r\n` ends it. Returns
/// the chunks' data (none marked last) and the length read. A body on which
/// slicing the text would fail is outside the contract.
pub fn parse_chunked_body(input: &str) -> (r: Result<(Vec<BodyChunk<'_>>, usize), ParseError>)
    requires
        !(chunked_from(input.spec_bytes(), 0) is Aborts),
    ensures
        match chunked_from(input.spec_bytes(), 0) {
            ChunkedBody::Chunks(pieces, used) => (r matches Ok((v, n)) && n == used
                && chunks_model(v@) == chunk_texts(input.spec_bytes(), pieces).map_values(|t: Seq<char>| (t, false))),
            ChunkedBody::Malformed => r == Err::<(Vec<BodyChunk>, usize), ParseError>(ParseError::MalformedChunk),
            ChunkedBody::Aborts => false,
        },
{
    broadcast use vstd::utf8::encode_utf8_valid_utf8;
    let b = input.as_bytes();
    let n = b.len();
    let ghost whole = chunked_from(b@, 0);
    let mut chunks: Vec<BodyChunk<'_>> = Vec::new();
    let ghost mut done: Seq<(int, int)> = Seq::empty();
    let mut offset: usize = 0;
    assert(Seq::<(int, int)>::empty() + Seq::<(int, int)>::empty() =~= Seq::<(int, int)>::empty());
    proof {
        match whole {
            ChunkedBody::Chunks(p, u) => {
                assert(Seq::<(int, int)>::empty() + p =~= p);
            },
            _ => {},
        }
    }
    loop
        invariant
            b@ == input.spec_bytes(),
            n == b@.len(),
            vstd::utf8::valid_utf8(b@),
            whole == chunked_from(b@, 0),
            !(whole is Aborts),
            offset <= n,
            offset == 0 || b@[offset - 1] == 10,
            whole == chunks_then(done, chunked_from(b@, offset as int)),
            chunks_model(chunks@) == chunk_texts(b@, done).map_values(|t: Seq<char>| (t, false)),
        decreases n - offset,
    {
        let e = find_crlf(b, offset, n);
        if e >= n {
            return Err(ParseError::MalformedChunk);
        }
        proof {
            lemma_next_crlf_bounds(b@, offset as int, n as int);
            lemma_parse_radix_nonneg(b@.subrange(offset as int, e as int), 16);
        }
        let size = match parse_radix_bytes(b, offset, e, 16) {
            Some(v) => v,
            None => {
                return Err(ParseError::MalformedChunk);
            },
        };
        let start = e + 2;
        if size == 0 {
            if n - start > 1 && b[start] == 13 && b[start + 1] == 10 {
                proof {
                    assert(done + Seq::<(int, int)>::empty() =~= done);
                }
                return Ok((chunks, start + 2));
            }
            return Err(ParseError::MalformedChunk);
        }
        let data_end = start + size;
        if n < data_end + 2 {
            return Err(ParseError::MalformedChunk);
        }
        if !(b[data_end] == 13 && b[data_end + 1] == 10) {
            return Err(ParseError::MalformedChunk);
        }
        proof {
            lemma_ascii_edge(b@, start as int);
        }
        let data = str_slice(input, start, data_end);
        let ghost before = chunks@;
        chunks.push(BodyChunk { data, is_final: false });
        proof {
            let piece = (start as int, data_end as int);
            let rest = chunked_from(b@, data_end + 2);
            assert(chunked_from(b@, offset as int) == chunks_then(seq![piece], rest));
            match rest {
                ChunkedBody::Chunks(r, u) => {
                    assert(done + (seq![piece] + r) =~= (done + seq![piece]) + r);
                },
                _ => {},
            }
            assert(chunks_model(chunks@) =~= chunks_model(before).push((data@, false)));
            assert(chunk_texts(b@, done + seq![piece]).map_values(|t: Seq<char>| (t, false))
                =~= chunk_texts(b@, done).map_values(|t: Seq<char>| (t, false)).push((data@, false)));
            done = done + seq![piece];
        }
        offset = data_end + 2;
    }
}

/// The chunks, in order, with only the last one marked final.
pub fn mark_final<'a>(chunks: &[BodyChunk<'a>]) -> (v: Vec<BodyChunk<'a>>)
    ensures
        v@.len() == chunks@.len(),
        forall|i: int| 0 <= i < v@.len() ==> (#[trigger] v@[i]).data == chunks@[i].data
            && v@[i].is_final == (i + 1 == v@.len()),
{
    let mut v: Vec<BodyChunk<'a>> = Vec::new();
    let mut i: usize = 0;
    while i < chunks.len()
        invariant
            i <= chunks@.len(),
            v@.len() == i,
            forall|k: int| 0 <= k < i ==> (#[trigger] v@[k]).data == chunks@[k].data
                && v@[k].is_final == (k + 1 == chunks@.len()),
        decreases chunks.len() - i,
    {
        v.push(BodyChunk { data: chunks[i].data, is_final: i + 1 == chunks.len() });
        i += 1;
    }
    v
}

/// Reads the head of the request buffered in `input`, once its closing
/// blank line has arrived: the head, and where the body starts after the
/// blank line.
pub fn read_head(input: &str) -> (r: Result<Option<(HeadersComplete<'_>, usize)>, ParseError>)
    ensures
        ({
            let b = input.spec_bytes();
            let h = head_end_from(b, 0);
            if h >= b.len() {
                r matches Ok(None)
            } else {
                match request_head(b.subrange(0, h)) {
                    Ok(m) => r matches Ok(Some((head, start))) && head_model(head) == m && start == h + 4,
                    Err(e) => r == Err::<Option<(HeadersComplete, usize)>, ParseError>(e),
                }
            }
        }),
{
    broadcast use vstd::utf8::encode_utf8_valid_utf8;
    let b = input.as_bytes();
    let h = find_head_end(b);
    if h >= b.len() {
        return Ok(None);
    }
    proof {
        vstd::utf8::is_char_boundary_start_end_of_seq(b@);
        lemma_ascii_edge(b@, h as int);
    }
    let text = str_slice(input, 0, h);
    match parse_request_head(text) {
        Ok(head) => Ok(Some((head, h + 4))),
        Err(e) => Err(e),
    }
}

/// What reading the body after a request head gives: not all of it yet, or
/// its chunks (only the last marked final) and where the request ends.
pub enum BodyRead<'input> {
    Incomplete,
    Complete { chunks: Vec<BodyChunk<'input>>, end: usize },
}

/// Texts as body chunks, only the last marked final.
pub open spec fn final_marked(texts: Seq<Seq<char>>) -> Seq<(Seq<char>, bool)> {
    Seq::new(texts.len(), |i: int| (texts[i], i + 1 == texts.len()))
}

/// Reads the body that starts at `body_start` in `input`, as the head
/// frames it: a chunked body, `content_length` bytes, or nothing. A body
/// on which slicing the text would fail is outside the contract.
pub fn read_body<'a>(input: &'a str, body_start: usize, chunked: bool, content_length: Option<usize>) -> (r: Result<BodyRead<'a>, ParseError>)
    requires
        body_start <= input.spec_bytes().len(),
        is_char_boundary(input.spec_bytes(), body_start as int),
        chunked ==> !(chunked_from(input.spec_bytes().skip(body_start as int), 0) is Aborts),
        !chunked && content_length is Some ==> body_start + content_length->0 <= usize::MAX
            && (body_start + content_length->0 <= input.spec_bytes().len()
                ==> is_char_boundary(input.spec_bytes(), body_start + content_length->0)),
    ensures
        ({
            let b = input.spec_bytes();
            let rest = b.skip(body_start as int);
            if chunked {
                match chunked_from(rest, 0) {
                    ChunkedBody::Chunks(pieces, used) => (r matches Ok(BodyRead::Complete { chunks, end })
                        && end == body_start + used && chunks_model(chunks@) == final_marked(chunk_texts(rest, pieces))),
                    ChunkedBody::Malformed => r == Err::<BodyRead, ParseError>(ParseError::MalformedChunk),
                    ChunkedBody::Aborts => false,
                }
            } else {
                match content_length {
                    Some(n) => if b.len() < body_start + n {
                        r matches Ok(BodyRead::Incomplete)
                    } else {
                        r matches Ok(BodyRead::Complete { chunks, end }) && end == body_start + n
                            && chunks_model(chunks@) == seq![(decode_utf8(b.subrange(body_start as int, body_start + n)), true)]
                    },
                    None => r matches Ok(BodyRead::Complete { chunks, end }) && end == body_start && chunks@.len() == 0,
                }
            }
        }),
{
    broadcast use vstd::utf8::encode_utf8_valid_utf8;
    let bytes = input.as_bytes();
    let ghost b = bytes@;
    let len = bytes.len();
    if chunked {
        proof {
            vstd::utf8::is_char_boundary_start_end_of_seq(b);
        }
        let tail = str_slice(input, body_start, len);
        let ghost rest = tail.spec_bytes();
        assert(rest =~= b.skip(body_start as int));
        let (chunks, consumed) = match parse_chunked_body(tail) {
            Ok(v) => v,
            Err(e) => {
                return Err(e);
            },
        };
        proof {
            lemma_chunked_end(rest, 0);
        }
        let marked = mark_final(chunks.as_slice());
        proof {
            let pieces = chunked_from(rest, 0)->Chunks_0;
            let texts = chunk_texts(rest, pieces);
            assert(chunks_model(chunks@).len() == chunks@.len());
            assert forall|i: int| 0 <= i < marked@.len() implies #[trigger] chunks_model(marked@)[i] == final_marked(texts)[i] by {
                assert(chunks_model(chunks@)[i] == (texts[i], false));
            }
            assert(chunks_model(marked@) =~= final_marked(texts));
        }
        Ok(BodyRead::Complete { chunks: marked, end: body_start + consumed })
    } else {
        match content_length {
            Some(n) => {
                let body_end = body_start + n;
                if len < body_end {
                    return Ok(BodyRead::Incomplete);
                }
                let data = str_slice(input, body_start, body_end);
                let mut chunks: Vec<BodyChunk<'a>> = Vec::new();
                chunks.push(BodyChunk { data, is_final: true });
                assert(chunks_model(chunks@) =~= seq![(data@, true)]);
                Ok(BodyRead::Complete { chunks, end: body_end })
            },
            None => Ok(BodyRead::Complete { chunks: Vec::new(), end: body_start }),
        }
    }
}

/// How the body after a head ends: malformed, not all there yet, or whole
/// with the request ending at a position.
pub enum BodyEnd {
    Malformed,
    Incomplete,
    Complete(int),
}

/// How the body that starts at `start` in `b` ends, as the head `m` frames
/// it.
pub open spec fn body_end(b: Seq<u8>, start: int, m: HeadModel) -> BodyEnd {
    if m.chunked {
        match chunked_from(b.skip(start), 0) {
            ChunkedBody::Chunks(_, used) => BodyEnd::Complete(start + used),
            _ => BodyEnd::Malformed,
        }
    } else {
        match m.content_length {
            Some(n) => if b.len() < start + n { BodyEnd::Incomplete } else { BodyEnd::Complete(start + n) },
            None => BodyEnd::Complete(start),
        }
    }
}

/// The inputs on which reading the body would slice the text where it
/// cannot: a body length that overflows, a body that ends inside a
/// character, a chunk whose size overflows or that ends inside a character.
pub open spec fn body_aborts(b: Seq<u8>, start: int, m: HeadModel) -> bool {
    if m.chunked {
        chunked_from(b.skip(start), 0) is Aborts
    } else {
        match m.content_length {
            Some(n) => start + n > usize::MAX || (start + n <= b.len() && !is_char_boundary(b, start + n)),
            None => false,
        }
    }
}

/// Whether executing on the buffered text `b` would slice it where it
/// cannot.
pub open spec fn execute_aborts(b: Seq<u8>) -> bool {
    let h = head_end_from(b, 0);
    h < b.len() && request_head(b.subrange(0, h)) is Ok && body_aborts(b, h + 4, request_head(b.subrange(0, h))->Ok_0)
}

/// The pieces of the body that starts at `start` in `b`, as the head `m`
/// frames it, only the last marked final.
pub open spec fn body_pieces(b: Seq<u8>, start: int, m: HeadModel) -> Seq<(Seq<char>, bool)> {
    if m.chunked {
        match chunked_from(b.skip(start), 0) {
            ChunkedBody::Chunks(pieces, _) => final_marked(chunk_texts(b.skip(start), pieces)),
            _ => Seq::empty(),
        }
    } else {
        match m.content_length {
            Some(n) => seq![(decode_utf8(b.subrange(start, start + n)), true)],
            None => Seq::empty(),
        }
    }
}

/// `statuses` are the answers of the body callback `f` to `chunks`, handed
/// to it in order until one answer pauses.
pub open spec fn delivered<B: for<'input> FnMut(&BodyChunk<'input>) -> ParseStatus>(
    f: B,
    chunks: Seq<BodyChunk>,
    statuses: Seq<ParseStatus>,
) -> bool {
    &&& statuses.len() <= chunks.len()
    &&& forall|i: int| 0 <= i < statuses.len() ==> call_ensures(f, (&chunks[i],), #[trigger] statuses[i])
    &&& forall|i: int| 0 <= i < statuses.len() - 1 ==> #[trigger] statuses[i] != ParseStatus::Paused
    &&& statuses.len() < chunks.len() ==> statuses.len() > 0 && statuses[statuses.len() - 1] == ParseStatus::Paused
}

/// What reading the body that starts at `start` in `b`, framed by the head
/// `m`, gives: the result `r`, the parser before and after, and the body
/// callback's answers to the chunks when the body is whole.
pub open spec fn body_outcome<B: for<'input> FnMut(&BodyChunk<'input>) -> ParseStatus>(
    b: Seq<u8>,
    start: int,
    m: HeadModel,
    r: Result<ParseStatus, ParseError>,
    before: HttpParserModel,
    after: HttpParserModel,
    handler: Option<B>,
) -> bool {
    match body_end(b, start, m) {
        BodyEnd::Malformed => r == Err::<ParseStatus, ParseError>(ParseError::MalformedChunk) && after.completed == before.completed
            && after.consumed == before.consumed && after.body_calls == before.body_calls,
        BodyEnd::Incomplete => r == Ok::<ParseStatus, ParseError>(ParseStatus::Incomplete) && after.completed == before.completed
            && after.consumed == before.consumed && after.body_calls == before.body_calls,
        BodyEnd::Complete(end) => r == Ok::<ParseStatus, ParseError>(ParseStatus::Complete) && after.completed && after.consumed == end
            && match handler {
            None => after.body_calls == before.body_calls,
            Some(bf) => exists|cs: Seq<BodyChunk>, st: Seq<ParseStatus>|
                chunks_model(cs) == body_pieces(b, start, m) && #[trigger] delivered(bf, cs, st) && after.body_calls == before.body_calls
                    + st.len(),
        },
    }
}

/// A callback-driven request parser: what it has buffered, whether a
/// callback paused it or a request was read whole, how far it got, and
/// which callbacks it has.
pub struct HttpParserModel {
    pub buffer: Seq<char>,
    pub paused: bool,
    pub completed: bool,
    pub consumed: nat,
    pub head_callback: bool,
    pub body_callback: bool,
    pub head_calls: nat,
    pub body_calls: nat,
}

/// A request parser that hands the head of a request, and then the chunks
/// of its body, to callbacks; a callback may pause it.
pub struct HttpParser<H, B> {
    parser_type: ParserType,
    on_headers_complete: Option<H>,
    on_body: Option<B>,
    buffer: String,
    paused: bool,
    completed: bool,
    bytes_consumed: usize,
    head_calls: Ghost<nat>,
    body_calls: Ghost<nat>,
}

impl<H, B> View for HttpParser<H, B> {
    type V = HttpParserModel;

    closed spec fn view(&self) -> HttpParserModel {
        HttpParserModel {
            buffer: self.buffer@,
            paused: self.paused,
            completed: self.completed,
            consumed: self.bytes_consumed as nat,
            head_callback: self.on_headers_complete is Some,
            body_callback: self.on_body is Some,
            head_calls: self.head_calls@,
            body_calls: self.body_calls@,
        }
    }
}

impl<H, B> HttpParser<H, B> {
    /// A parser with nothing buffered and no callbacks.
    pub fn new(parser_type: ParserType) -> (p: Self)
        ensures
            p@ == (HttpParserModel {
                buffer: Seq::empty(),
                paused: false,
                completed: false,
                consumed: 0,
                head_callback: false,
                body_callback: false,
                head_calls: 0,
                body_calls: 0,
            }),
            p.head_handler() is None,
            p.body_handler() is None,
    {
        HttpParser {
            parser_type,
            on_headers_complete: None,
            on_body: None,
            buffer: String::new(),
            paused: false,
            completed: false,
            bytes_consumed: 0,
            head_calls: Ghost(0),
            body_calls: Ghost(0),
        }
    }

    /// The head callback, if one is set.
    pub closed spec fn head_handler(&self) -> Option<H> {
        self.on_headers_complete
    }

    /// The body callback, if one is set.
    pub closed spec fn body_handler(&self) -> Option<B> {
        self.on_body
    }

    /// Sets the callback that receives the head.
    pub fn on_headers_complete(&mut self, callback: H)
        ensures
            final(self)@ == (HttpParserModel { head_callback: true, ..old(self)@ }),
            final(self).head_handler() == Some(callback),
            final(self).body_handler() == old(self).body_handler(),
    {
        self.on_headers_complete = Some(callback);
    }

    /// Sets the callback that receives the body's chunks.
    pub fn on_body(&mut self, callback: B)
        ensures
            final(self)@ == (HttpParserModel { body_callback: true, ..old(self)@ }),
            final(self).body_handler() == Some(callback),
            final(self).head_handler() == old(self).head_handler(),
    {
        self.on_body = Some(callback);
    }

    /// Whether the head callback paused the last call.
    pub fn is_paused(&self) -> (r: bool)
        ensures
            r == self@.paused,
    {
        self.paused
    }

    /// Whether a request was read whole.
    pub fn is_complete(&self) -> (r: bool)
        ensures
            r == self@.completed,
    {
        self.completed
    }

    /// How many bytes of the buffered text the last request took.
    pub fn bytes_consumed(&self) -> (r: usize)
        ensures
            r == self@.consumed,
    {
        self.bytes_consumed
    }
}

impl<H: for<'input> FnMut(&HeadersComplete<'input>) -> ParseStatus, B: for<'input> FnMut(&BodyChunk<'input>) -> ParseStatus> HttpParser<H, B> {
    /// Appends input and reads what the buffered text holds. Once the head
    /// is there it goes to the head callback, which may pause the parser;
    /// otherwise the body is read as the head frames it and its chunks go
    /// to the body callback, in order and only the last marked final,
    /// until the callback pauses. Text on which slicing would fail is
    /// outside the contract.
    pub fn execute(&mut self, input: &str) -> (r: Result<ParseStatus, ParseError>)
        requires
            forall|f: H, e: &HeadersComplete| call_requires(f, (e,)),
            forall|f: B, c: &BodyChunk| call_requires(f, (c,)),
            !execute_aborts(encode_utf8(old(self)@.buffer + input@)),
        ensures
            final(self)@.buffer == old(self)@.buffer + input@,
            final(self)@.head_callback == old(self)@.head_callback,
            final(self)@.body_callback == old(self)@.body_callback,
            final(self).head_handler() == old(self).head_handler(),
            final(self).body_handler() == old(self).body_handler(),
            ({
                let b = encode_utf8(final(self)@.buffer);
                let h = head_end_from(b, 0);
                let same = final(self)@.paused == old(self)@.paused && final(self)@.completed == old(self)@.completed
                    && final(self)@.consumed == old(self)@.consumed && final(self)@.head_calls == old(self)@.head_calls
                    && final(self)@.body_calls == old(self)@.body_calls;
                if h >= b.len() {
                    r == Ok::<ParseStatus, ParseError>(ParseStatus::Incomplete) && same
                } else {
                    match request_head(b.subrange(0, h)) {
                        Err(e) => r == Err::<ParseStatus, ParseError>(e) && same,
                        Ok(m) => {
                            let body = body_outcome(b, h + 4, m, r, old(self)@, final(self)@, old(self).body_handler());
                            match old(self).head_handler() {
                                None => final(self)@.paused == old(self)@.paused && final(self)@.head_calls == old(self)@.head_calls && body,
                                Some(hf) => final(self)@.head_calls == old(self)@.head_calls + 1 && exists|e: HeadersComplete, st: ParseStatus|
                                    head_model(e) == m && #[trigger] call_ensures(hf, (&e,), st) && if st == ParseStatus::Paused {
                                        &&& r == Ok::<ParseStatus, ParseError>(ParseStatus::Paused)
                                        &&& final(self)@.paused
                                        &&& final(self)@.consumed == h + 4
                                        &&& final(self)@.completed == old(self)@.completed
                                        &&& final(self)@.body_calls == old(self)@.body_calls
                                    } else {
                                        !final(self)@.paused && body
                                    },
                            }
                        },
                    }
                }
            }),
    {
        broadcast use vstd::utf8::encode_utf8_valid_utf8;
        if self.parser_type != ParserType::Request {
            return Err(ParseError::UnsupportedParserType);
        }
        self.buffer.append(input);
        let text = self.buffer.as_str();
        let (event, body_start) = match read_head(text) {
            Ok(Some(v)) => v,
            Ok(None) => {
                return Ok(ParseStatus::Incomplete);
            },
            Err(e) => {
                return Err(e);
            },
        };
        match &mut self.on_headers_complete {
            Some(callback) => {
                let status = callback(&event);
                self.head_calls = Ghost(self.head_calls@ + 1);
                self.paused = status == ParseStatus::Paused;
                if self.paused {
                    self.bytes_consumed = body_start;
                    return Ok(status);
                }
            },
            None => {},
        }
        proof {
            let b = text.spec_bytes();
            lemma_head_end_found(b, 0);
            lemma_ascii_edge(b, body_start as int);
        }
        let body = match read_body(text, body_start, event.chunked, event.content_length) {
            Ok(v) => v,
            Err(e) => {
                return Err(e);
            },
        };
        match body {
            BodyRead::Incomplete => Ok(ParseStatus::Incomplete),
            BodyRead::Complete { chunks, end } => {
                let ghost calls = self.body_calls@;
                proof {
                    let b = text.spec_bytes();
                    let m = head_model(event);
                    assert(chunks_model(chunks@) == body_pieces(b, body_start as int, m));
                }
                match &mut self.on_body {
                    Some(callback) => {
                        let ghost bf = *callback;
                        let statuses = deliver_body_chunks(callback, chunks.as_slice());
                        self.body_calls = Ghost(calls + statuses@.len());
                        proof {
                            assert(delivered(bf, chunks@, statuses@));
                        }
                    },
                    None => {},
                }
                self.bytes_consumed = end;
                self.completed = true;
                Ok(ParseStatus::Complete)
            },
        }
    }
}

/// Hands the chunks to the body callback in order, stopping after the first
/// that pauses; returns what the callback answered for each chunk it was
/// handed.
fn deliver_body_chunks<B: for<'input> FnMut(&BodyChunk<'input>) -> ParseStatus>(callback: &mut B, chunks: &[BodyChunk]) -> (statuses: Vec<
    ParseStatus,
>)
    requires
        forall|f: B, c: &BodyChunk| call_requires(f, (c,)),
    ensures
        delivered(*old(callback), chunks@, statuses@),
        *final(callback) == *old(callback),
{
    let ghost f0 = *callback;
    let mut statuses: Vec<ParseStatus> = Vec::new();
    let mut i: usize = 0;
    while i < chunks.len()
        invariant
            forall|g: B, c: &BodyChunk| call_requires(g, (c,)),
            *callback == f0,
            f0 == *old(callback),
            i <= chunks@.len(),
            statuses@.len() == i,
            forall|k: int| 0 <= k < i ==> call_ensures(f0, (&chunks@[k],), #[trigger] statuses@[k]),
            forall|k: int| 0 <= k < i ==> #[trigger] statuses@[k] != ParseStatus::Paused,
        decreases chunks.len() - i,
    {
        let status = callback(&chunks[i]);
        statuses.push(status);
        if status == ParseStatus::Paused {
            return statuses;
        }
        i = i + 1;
    }
    statuses
}

} // verus!
