use parsekit::json::{minify_json, MinifyError};
use parsekit::json::value::{JsonNode, JsonPathSegment};

#[test]
fn minify_drops_whitespace_and_comments() {
    assert_eq!(
        minify_json("{ \"a\" : [1, 2], // note\n \"b\": /* x */ true }").unwrap(),
        "{\"a\":[1,2],\"b\":true}"
    );
}

#[test]
fn minify_keeps_strings_and_escapes() {
    assert_eq!(
        minify_json("[ \"a b\", \"q\\\" /*no*/\", \"é\" ]").unwrap(),
        "[\"a b\",\"q\\\" /*no*/\",\"é\"]"
    );
    assert_eq!(minify_json("1 / 2").unwrap(), "1/2");
    assert_eq!(minify_json("").unwrap(), "");
}

#[test]
fn minify_reports_unterminated_string_and_comment_at_their_byte_offset() {
    assert_eq!(
        minify_json("é \"abc"),
        Err(MinifyError::UnterminatedString { pos: 3 })
    );
    assert_eq!(
        minify_json("[\"x\\"),
        Err(MinifyError::UnterminatedString { pos: 1 })
    );
    assert_eq!(
        minify_json("1 /* open"),
        Err(MinifyError::UnterminatedBlockComment { pos: 2 })
    );
    assert_eq!(minify_json("1 // line only"), Ok("1".to_owned()));
}

#[test]
fn path_steps_name_the_positions_get_path_follows() {
    let mut doc = JsonNode::Object(vec![]);
    doc.insert_object_member("a".to_string(), JsonNode::Array(vec![JsonNode::Null, JsonNode::Bool(true)])).unwrap();
    doc.insert_object_member("b".to_string(), JsonNode::Number("7".to_string())).unwrap();
    let path = [JsonPathSegment::Key("a"), JsonPathSegment::Index(1)];
    assert_eq!(doc.path_steps(&path), Some(vec![0, 1]));
    assert_eq!(doc.get_path(&path), Some(&JsonNode::Bool(true)));
    assert_eq!(doc.path_steps(&[JsonPathSegment::Key("b")]), Some(vec![1]));
    assert_eq!(doc.path_steps(&[JsonPathSegment::Key("c")]), None);
    assert_eq!(doc.path_steps(&[JsonPathSegment::Key("a"), JsonPathSegment::Index(2)]), None);
}
