use parsekit::sax::compat::{Attribute, Event, ParseError, SaxParser};
use parsekit::sax::native;

#[test]
fn compatibility_parser_queues_start_tag() {
    let mut parser = SaxParser::new();

    parser.write("<root>").unwrap();

    assert_eq!(
        parser.next_event(),
        Some(Event::StartTag {
            name: "root",
            attributes: Vec::new(),
        })
    );
}

#[test]
fn compatibility_parser_queues_text_before_next_tag() {
    let mut parser = SaxParser::new();

    parser.write("hello<root>").unwrap();

    assert_eq!(parser.next_event(), Some(Event::Text("hello")));
    assert_eq!(
        parser.next_event(),
        Some(Event::StartTag {
            name: "root",
            attributes: Vec::new(),
        })
    );
}

#[test]
fn compatibility_parser_queues_full_element() {
    let mut parser = SaxParser::new();

    parser.write("<root>hello</root>").unwrap();

    assert_eq!(
        parser.next_event(),
        Some(Event::StartTag {
            name: "root",
            attributes: Vec::new(),
        })
    );
    assert_eq!(parser.next_event(), Some(Event::Text("hello")));
    assert_eq!(parser.next_event(), Some(Event::EndTag("root")));
}

#[test]
fn compatibility_parser_queues_attributes() {
    let mut parser = SaxParser::new();

    parser.write("<root id=\"main\" class=\"top\">").unwrap();

    assert_eq!(
        parser.next_event(),
        Some(Event::StartTag {
            name: "root",
            attributes: vec![
                Attribute {
                    name: "id",
                    value: "main",
                },
                Attribute {
                    name: "class",
                    value: "top",
                },
            ],
        })
    );
}

#[test]
fn compatibility_parser_accepts_partial_incremental_tag() {
    let mut parser = SaxParser::new();

    parser.write("<ro").unwrap();
    assert_eq!(parser.next_event(), None);
    parser.write("ot id=\"main\">").unwrap();

    assert_eq!(
        parser.next_event(),
        Some(Event::StartTag {
            name: "root",
            attributes: vec![Attribute {
                name: "id",
                value: "main",
            }],
        })
    );
}

#[test]
fn compatibility_parser_rejects_invalid_tag_name() {
    let mut parser = SaxParser::new();

    assert_eq!(parser.write("</bad name>"), Err(ParseError::InvalidTagName));
}

#[test]
fn compatibility_parser_rejects_invalid_attribute() {
    let mut parser = SaxParser::new();

    assert_eq!(
        parser.write("<root id=main>"),
        Err(ParseError::InvalidAttribute)
    );
}

#[test]
fn rust_native_parser_returns_owned_events() {
    let events = native::parse_events("<root>hello</root>").unwrap();

    assert_eq!(
        events,
        vec![
            native::Event::StartTag("root".to_owned()),
            native::Event::Text("hello".to_owned()),
            native::Event::EndTag("root".to_owned()),
        ]
    );
}

#[test]
fn rust_native_parser_rejects_empty_tag_name() {
    assert_eq!(
        native::parse_events("<>").unwrap_err(),
        native::ParseError::EmptyTagName
    );
}

#[test]
fn rust_native_parser_rejects_whitespace_tag_name() {
    assert_eq!(
        native::parse_events("<bad name>").unwrap_err(),
        native::ParseError::InvalidTagName
    );
}

#[test]
fn native_parser_reports_unclosed_tag() {
    assert_eq!(
        native::parse_events("text<root"),
        Err(native::ParseError::IncompleteTag)
    );
}

#[test]
fn native_parser_keeps_text_without_tags_and_accepts_empty_input() {
    assert_eq!(native::parse_events(""), Ok(Vec::new()));
    assert_eq!(
        native::parse_events("just text"),
        Ok(vec![native::Event::Text("just text".to_owned())])
    );
}

#[test]
fn native_parser_handles_multibyte_text() {
    assert_eq!(
        native::parse_events("<p>héllo wörld</p>"),
        Ok(vec![
            native::Event::StartTag("p".to_owned()),
            native::Event::Text("héllo wörld".to_owned()),
            native::Event::EndTag("p".to_owned()),
        ])
    );
}

#[test]
fn queued_parser_splits_text_across_writes() {
    let mut parser = SaxParser::new();
    assert_eq!(parser.write("hel"), Ok(3));
    assert_eq!(parser.write("lo<a>"), Ok(5));
    assert_eq!(parser.next_event(), Some(Event::Text("hel")));
    assert_eq!(parser.next_event(), Some(Event::Text("lo")));
    assert_eq!(
        parser.next_event(),
        Some(Event::StartTag {
            name: "a",
            attributes: Vec::new(),
        })
    );
    assert_eq!(parser.next_event(), None);
}

#[test]
fn queued_parser_reports_each_attribute_error() {
    let mut parser = SaxParser::new();
    assert_eq!(parser.write("<a x=\"1>"), Err(ParseError::IncompleteAttribute));
    let mut parser = SaxParser::new();
    assert_eq!(parser.write("<a =\"1\">"), Err(ParseError::EmptyTagName));
    let mut parser = SaxParser::new();
    assert_eq!(parser.write("<>"), Err(ParseError::EmptyTagName));
    let mut parser = SaxParser::new();
    assert_eq!(parser.write("<a x>"), Err(ParseError::InvalidAttribute));
}

#[test]
fn queued_parser_keeps_events_queued_before_an_error() {
    let mut parser = SaxParser::new();
    assert_eq!(parser.write("hi<a></b c>"), Err(ParseError::InvalidTagName));
    assert_eq!(parser.next_event(), Some(Event::Text("hi")));
    assert_eq!(
        parser.next_event(),
        Some(Event::StartTag {
            name: "a",
            attributes: Vec::new(),
        })
    );
    assert_eq!(parser.next_event(), None);
}

#[test]
fn queued_parser_returns_byte_length_of_input() {
    let mut parser = SaxParser::default();
    assert_eq!(parser.write("é"), Ok(2));
    assert_eq!(parser.next_event(), Some(Event::Text("é")));
}

fn drained_events(parser: &mut SaxParser) -> Vec<String> {
    let mut out = Vec::new();
    while let Some(event) = parser.next_event() {
        out.push(format!("{:?}", event));
    }
    out
}

#[test]
fn events_are_the_same_for_splits_outside_text() {
    let whole = "<a x=\"1\">hi</a><b/>";
    let mut one = SaxParser::new();
    assert_eq!(one.write(whole), Ok(whole.len()));
    let expected = drained_events(&mut one);
    // Splits between events or inside tags, never inside the run "hi".
    for split in [0, 1, 3, 8, 9, 11, 12, 15, 16, whole.len()] {
        let mut two = SaxParser::new();
        assert_eq!(two.write(&whole[..split]), Ok(split));
        let mut events = drained_events(&mut two);
        assert_eq!(two.write(&whole[split..]), Ok(whole.len() - split));
        events.extend(drained_events(&mut two));
        assert_eq!(events, expected, "split at {}", split);
    }
}
