use parsekit::http::compat::{self, BodyChunk, Header};
use parsekit::http::native::{parse_request, ParseError, RequestParser};

#[test]
fn rust_native_parser_returns_owned_request() {
    let request = parse_request(
        "GET /chat HTTP/1.1\r\nHost: example.test\r\nConnection: keep-alive\r\n\r\n",
    )
    .unwrap();

    assert_eq!(request.method, "GET");
    assert_eq!(request.path, "/chat");
    assert_eq!(request.version, "HTTP/1.1");
    assert_eq!(request.headers.len(), 2);
    assert_eq!(request.headers[0].name, "Host");
    assert_eq!(request.headers[0].value, "example.test");
    assert_eq!(request.body, "");
}

#[test]
fn rust_native_parser_accepts_incremental_input() {
    let mut parser = RequestParser::new();

    assert_eq!(parser.push("GET / HTTP/1.1\r\n"), Ok(None));
    assert_eq!(
        parser
            .push("Host: example.test\r\n\r\n")
            .unwrap()
            .unwrap()
            .path,
        "/"
    );
}

#[test]
fn rust_native_parser_reports_incomplete_request_head() {
    assert_eq!(
        parse_request("GET / HTTP/1.1\r\nHost: example.test"),
        Err(ParseError::Incomplete)
    );
}

#[test]
fn rust_native_parser_rejects_malformed_header() {
    assert_eq!(
        parse_request("GET / HTTP/1.1\r\nHost example.test\r\n\r\n"),
        Err(ParseError::MalformedHeader)
    );
}

#[test]
fn rust_native_parser_returns_content_length_body() {
    let request = parse_request(
        "POST /submit HTTP/1.1\r\nHost: example.test\r\nContent-Length: 11\r\n\r\nhello world",
    )
    .unwrap();

    assert_eq!(request.method, "POST");
    assert_eq!(request.body, "hello world");
}

#[test]
fn rust_native_parser_reports_incomplete_content_length_body() {
    assert_eq!(
        parse_request("POST /submit HTTP/1.1\r\nContent-Length: 11\r\n\r\nhello"),
        Err(ParseError::Incomplete)
    );
}

#[test]
fn rust_native_parser_decodes_chunked_body() {
    let request = parse_request(
        "POST /upload HTTP/1.1\r\nTransfer-Encoding: chunked\r\n\r\n4\r\nWiki\r\n5\r\npedia\r\n0\r\n\r\n",
    )
    .unwrap();

    assert_eq!(request.body, "Wikipedia");
}

#[test]
fn rust_native_parser_rejects_malformed_chunked_body() {
    assert_eq!(
        parse_request(
            "POST /upload HTTP/1.1\r\nTransfer-Encoding: chunked\r\n\r\nZ\r\noops\r\n"
        ),
        Err(ParseError::MalformedChunk)
    );
}

#[test]
fn native_parser_refuses_input_after_a_complete_request() {
    let mut parser = RequestParser::default();
    assert!(parser.push("GET / HTTP/1.1\r\n\r\n").unwrap().is_some());
    assert_eq!(parser.push("GET / HTTP/1.1\r\n\r\n"), Err(ParseError::AlreadyComplete));
}

#[test]
fn native_parser_reports_each_head_error() {
    assert_eq!(parse_request("GET /\r\n\r\n"), Err(ParseError::MalformedRequestLine));
    assert_eq!(parse_request("GET / HTTP/1.1 extra\r\n\r\n"), Err(ParseError::MalformedRequestLine));
    assert_eq!(parse_request("GET / FTP/1.1\r\n\r\n"), Err(ParseError::MalformedRequestLine));
    assert_eq!(parse_request("GET / HTTP/1.1\r\n : x\r\n\r\n"), Err(ParseError::MalformedHeader));
    assert_eq!(
        parse_request("POST / HTTP/1.1\r\ncontent-LENGTH: 1x\r\n\r\n"),
        Err(ParseError::InvalidContentLength)
    );
    assert_eq!(
        parse_request("POST / HTTP/1.1\r\nTransfer-Encoding: gzip\r\n\r\n"),
        Err(ParseError::UnsupportedTransferEncoding)
    );
}

#[test]
fn native_parser_trims_headers_and_accepts_plus_sign_lengths() {
    let request = parse_request("PUT /x HTTP/1.0\r\n  Name :  value  \r\n\r\nContent-Length: 2\r\n").unwrap();
    assert_eq!(request.headers[0].name, "Name");
    assert_eq!(request.headers[0].value, "value");
    assert_eq!(request.body, "");
    let request = parse_request("PUT /x HTTP/1.0\r\nContent-Length: +3\r\n\r\nabcdef").unwrap();
    assert_eq!(request.body, "abc");
}

#[test]
fn native_parser_keeps_multibyte_body() {
    let request = parse_request("POST / HTTP/1.1\r\nContent-Length: 2\r\n\r\né").unwrap();
    assert_eq!(request.body, "é");
    let request = parse_request(
        "POST / HTTP/1.1\r\nTransfer-Encoding: Chunked\r\n\r\na\r\n0123456789\r\n1F\r\n0123456789abcdef0123456789abcde\r\n0\r\n\r\n",
    )
    .unwrap();
    assert_eq!(request.body.len(), 41);
}

#[test]
fn head_parser_returns_views_of_the_head() {
    let head = compat::parse_request_head("GET /chat HTTP/1.1\r\nHost: example.test\r\nContent-Length: 5").unwrap();
    assert_eq!(head.method, "GET");
    assert_eq!(head.path, "/chat");
    assert_eq!(head.version, "HTTP/1.1");
    assert_eq!(
        head.headers,
        vec![
            Header { name: "Host", value: "example.test" },
            Header { name: "Content-Length", value: "5" },
        ]
    );
    assert_eq!(head.content_length, Some(5));
    assert!(!head.chunked);
    assert_eq!(compat::parse_request_head("GET"), Err(compat::ParseError::MalformedRequestLine));
}

#[test]
fn chunked_body_parser_returns_chunks_and_length_read() {
    let (chunks, used) = compat::parse_chunked_body("4\r\nWiki\r\n5\r\npedia\r\n0\r\n\r\ntrailing").unwrap();
    assert_eq!(
        chunks,
        vec![
            BodyChunk { data: "Wiki", is_final: false },
            BodyChunk { data: "pedia", is_final: false },
        ]
    );
    assert_eq!(used, 24);
    assert_eq!(compat::parse_chunked_body("4\r\nWik"), Err(compat::ParseError::MalformedChunk));
    assert_eq!(compat::parse_chunked_body("0\r\nxx"), Err(compat::ParseError::MalformedChunk));
    let marked = compat::mark_final(&chunks);
    assert!(!marked[0].is_final);
    assert!(marked[1].is_final);
}

#[test]
fn head_end_and_header_helpers() {
    assert_eq!(compat::head_end("GET / HTTP/1.1\r\n\r\nbody"), Some(14));
    assert_eq!(compat::head_end("GET / HTTP/1.1\r\n"), None);
    assert!(compat::eq_ignore_case("Content-Length", "content-length"));
    assert!(!compat::eq_ignore_case("Content-Length", "content_length"));
    assert_eq!(
        compat::parse_header("  X-Y :\tz \u{a0}"),
        Ok(Header { name: "X-Y", value: "z" })
    );
    assert_eq!(compat::parse_header("novalue"), Err(compat::ParseError::MalformedHeader));
    let headers = [Header { name: "transfer-encoding", value: "CHUNKED" }];
    assert_eq!(compat::is_chunked(&headers), Ok(true));
    assert_eq!(compat::content_length(&headers), Ok(None));
}

fn body_texts(read: &compat::BodyRead<'_>) -> Option<(Vec<String>, usize)> {
    match read {
        compat::BodyRead::Incomplete => None,
        compat::BodyRead::Complete { chunks, end } => Some((
            chunks.iter().map(|c| format!("{}:{}", c.data, c.is_final)).collect(),
            *end,
        )),
    }
}

#[test]
fn head_reader_waits_for_the_blank_line_and_finds_the_body() {
    let input = "GET /chat HTTP/1.1\r\nHost: example.test\r\nConnection: keep-alive\r\n\r\n";
    let (head, start) = compat::read_head(input).unwrap().unwrap();
    assert_eq!((head.method, head.path, head.version, head.headers.len()), ("GET", "/chat", "HTTP/1.1", 2));
    assert_eq!(start, input.len());
    let body = compat::read_body(input, start, head.chunked, head.content_length).unwrap();
    assert_eq!(body_texts(&body), Some((vec![], input.len())));

    assert!(matches!(compat::read_head("GET / HTTP/1.1\r\nHost: example.test"), Ok(None)));
    assert!(matches!(
        compat::read_head("GET / HTTP/1.1\r\nHost example.test\r\n\r\n"),
        Err(compat::ParseError::MalformedHeader)
    ));
}

#[test]
fn body_reader_frames_content_length_and_chunked_bodies() {
    let input = "POST /submit HTTP/1.1\r\nHost: example.test\r\nContent-Length: 11\r\n\r\nhello world";
    let (head, start) = compat::read_head(input).unwrap().unwrap();
    let body = compat::read_body(input, start, head.chunked, head.content_length).unwrap();
    assert_eq!(body_texts(&body), Some((vec!["hello world:true".to_string()], input.len())));

    let short = "POST /submit HTTP/1.1\r\nContent-Length: 11\r\n\r\nhello";
    let (head, start) = compat::read_head(short).unwrap().unwrap();
    let body = compat::read_body(short, start, head.chunked, head.content_length).unwrap();
    assert_eq!(body_texts(&body), None);

    let chunked = "POST /upload HTTP/1.1\r\nTransfer-Encoding: chunked\r\n\r\n4\r\nWiki\r\n5\r\npedia\r\n0\r\n\r\n";
    let (head, start) = compat::read_head(chunked).unwrap().unwrap();
    let body = compat::read_body(chunked, start, head.chunked, head.content_length).unwrap();
    assert_eq!(
        body_texts(&body),
        Some((vec!["Wiki:false".to_string(), "pedia:true".to_string()], chunked.len()))
    );

    let bad = "POST /upload HTTP/1.1\r\nTransfer-Encoding: chunked\r\n\r\nZ\r\noops\r\n";
    let (head, start) = compat::read_head(bad).unwrap().unwrap();
    assert!(matches!(
        compat::read_body(bad, start, head.chunked, head.content_length),
        Err(compat::ParseError::MalformedChunk)
    ));
}
