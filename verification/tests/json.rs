//! Reading, comparing and printing documents.
use biskit_mcp::json::{copy_json, equal_json, parse_json, print_json, read_json_bytes, Json};

fn doc(text: &str) -> Json {
    parse_json(text).expect("a document")
}

#[test]
fn a_document_reads_back_as_it_was_written() {
    let document = doc(r#"{"b": [1, -2, true, null, "x\n"], "a": {"c": {}}}"#);
    let text = print_json(&document).unwrap();
    assert!(equal_json(&doc(&text), &document));
    assert!(text.starts_with("{\n  \"b\": [\n    1,\n    -2,"));
}

#[test]
fn what_is_no_document_is_not_read() {
    assert!(parse_json("{ not json").is_none());
    assert!(parse_json("").is_none());
    assert!(parse_json("{} {}").is_none());
    assert!(read_json_bytes(b"\xff").is_err());
    assert!(read_json_bytes(b" [1] ").is_ok());
}

#[test]
fn objects_are_equal_whatever_order_their_members_stand_in() {
    assert!(equal_json(&doc(r#"{"a": 1, "b": 2}"#), &doc(r#"{"b": 2, "a": 1}"#)));
    assert!(!equal_json(&doc(r#"{"a": 1}"#), &doc(r#"{"a": 1, "b": 2}"#)));
    assert!(!equal_json(&doc("[1, 2]"), &doc("[2, 1]")));
    assert!(!equal_json(&doc("1"), &doc("1.0")));
    assert!(equal_json(&doc("1.50"), &doc("1.5")));
}

#[test]
fn a_copy_is_equal_and_members_are_found_by_name() {
    let document = doc(r#"{"a": {"b": "text"}, "n": 1}"#);
    assert!(equal_json(&copy_json(&document), &document));
    let inner = document.get("a").unwrap();
    assert_eq!(inner.get("b").and_then(Json::as_text), Some("text"));
    assert!(document.get("missing").is_none());
    assert_eq!(document.get("n").and_then(Json::as_text), None);
    assert!(doc("[1]").get("a").is_none());
}

#[test]
fn the_largest_numbers_read_back() {
    for number in ["1.7976931348623157e308", "-1.7976931348623157e308", "1.7976931348623155e308"] {
        let document = doc(&format!("[{number}]"));
        let text = print_json(&document).unwrap();
        assert!(equal_json(&doc(&text), &document), "failed on {number}");
    }
    assert!(parse_json("1e309").is_none());
}

#[test]
fn what_cannot_be_read_says_why() {
    let problem = read_json_bytes(b"{ not json").unwrap_err();
    assert!(problem.contains("line 1"), "{problem}");
}
