use parsekit::http::compat::{BodyChunk, HeadersComplete, HttpParser, ParseError, ParseStatus, ParserType};

type HeadersCompleteCallback<'callback> =
    Box<dyn for<'input> FnMut(&HeadersComplete<'input>) -> ParseStatus + 'callback>;
type BodyCallback<'callback> = Box<dyn for<'input> FnMut(&BodyChunk<'input>) -> ParseStatus + 'callback>;
type CallbackParser<'callback> = HttpParser<HeadersCompleteCallback<'callback>, BodyCallback<'callback>>;

#[test]
fn compatibility_parser_invokes_headers_complete_callback() {
    let input = "GET /chat HTTP/1.1\r\nHost: example.test\r\nConnection: keep-alive\r\n\r\n";
    let mut seen = Vec::new();
    let mut parser: CallbackParser<'_> = HttpParser::new(ParserType::Request);
    parser.on_headers_complete(Box::new(|event| {
        seen.push(format!(
            "{} {} {} {}",
            event.method,
            event.path,
            event.version,
            event.headers.len()
        ));
        ParseStatus::Complete
    }));

    assert_eq!(parser.execute(input), Ok(ParseStatus::Complete));
    assert_eq!(parser.bytes_consumed(), input.len());
    assert!(parser.is_complete());
    drop(parser);
    assert_eq!(seen, vec!["GET /chat HTTP/1.1 2"]);
}

#[test]
fn compatibility_parser_can_pause_from_callback() {
    let input = "GET / HTTP/1.1\r\nHost: example.test\r\n\r\n";
    let mut parser: CallbackParser<'_> = HttpParser::new(ParserType::Request);
    parser.on_headers_complete(Box::new(|_| ParseStatus::Paused));

    assert_eq!(parser.execute(input), Ok(ParseStatus::Paused));
    assert!(parser.is_paused());
}

#[test]
fn compatibility_parser_reports_incomplete_request_head() {
    let mut parser: CallbackParser<'_> = HttpParser::new(ParserType::Request);

    assert_eq!(
        parser.execute("GET / HTTP/1.1\r\nHost: example.test"),
        Ok(ParseStatus::Incomplete)
    );
    assert!(!parser.is_complete());
}

#[test]
fn compatibility_parser_rejects_malformed_header() {
    let mut parser: CallbackParser<'_> = HttpParser::new(ParserType::Request);

    assert_eq!(
        parser.execute("GET / HTTP/1.1\r\nHost example.test\r\n\r\n"),
        Err(ParseError::MalformedHeader)
    );
}

#[test]
fn compatibility_parser_delivers_content_length_body() {
    let input =
        "POST /submit HTTP/1.1\r\nHost: example.test\r\nContent-Length: 11\r\n\r\nhello world";
    let mut chunks = Vec::new();
    let mut parser: CallbackParser<'_> = HttpParser::new(ParserType::Request);
    parser.on_body(Box::new(|chunk| {
        chunks.push(format!("{}:{}", chunk.data, chunk.is_final));
        ParseStatus::Complete
    }));

    assert_eq!(parser.execute(input), Ok(ParseStatus::Complete));
    assert_eq!(parser.bytes_consumed(), input.len());
    drop(parser);
    assert_eq!(chunks, vec!["hello world:true"]);
}

#[test]
fn compatibility_parser_reports_incomplete_content_length_body() {
    let mut parser: CallbackParser<'_> = HttpParser::new(ParserType::Request);

    assert_eq!(
        parser.execute("POST /submit HTTP/1.1\r\nContent-Length: 11\r\n\r\nhello"),
        Ok(ParseStatus::Incomplete)
    );
}

#[test]
fn compatibility_parser_delivers_chunked_body() {
    let input = "POST /upload HTTP/1.1\r\nTransfer-Encoding: chunked\r\n\r\n4\r\nWiki\r\n5\r\npedia\r\n0\r\n\r\n";
    let mut chunks = Vec::new();
    let mut parser: CallbackParser<'_> = HttpParser::new(ParserType::Request);
    parser.on_body(Box::new(|chunk| {
        chunks.push(format!("{}:{}", chunk.data, chunk.is_final));
        ParseStatus::Complete
    }));

    assert_eq!(parser.execute(input), Ok(ParseStatus::Complete));
    drop(parser);
    assert_eq!(chunks, vec!["Wiki:false", "pedia:true"]);
}

#[test]
fn compatibility_parser_rejects_malformed_chunked_body() {
    let mut parser: CallbackParser<'_> = HttpParser::new(ParserType::Request);

    assert_eq!(
        parser.execute(
            "POST /upload HTTP/1.1\r\nTransfer-Encoding: chunked\r\n\r\nZ\r\noops\r\n"
        ),
        Err(ParseError::MalformedChunk)
    );
}

#[test]
fn callback_parser_pauses_in_the_body_and_reads_a_split_request() {
    let mut seen = Vec::new();
    let mut parser: CallbackParser<'_> = HttpParser::new(ParserType::Request);
    parser.on_body(Box::new(|chunk| {
        seen.push(chunk.data.to_string());
        ParseStatus::Paused
    }));
    assert_eq!(
        parser.execute("POST /upload HTTP/1.1\r\nTransfer-Encoding: chunked\r\n\r\n4\r\nWiki"),
        Err(ParseError::MalformedChunk)
    );
    assert!(!parser.is_complete());
    assert_eq!(parser.execute("\r\n5\r\npedia\r\n0\r\n\r\n"), Ok(ParseStatus::Complete));
    assert!(parser.is_complete());
    assert_eq!(parser.bytes_consumed(), 77);
    drop(parser);
    assert_eq!(seen, vec!["Wiki"]);
}
