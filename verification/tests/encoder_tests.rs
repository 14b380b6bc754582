//! Tests for the two encoders and the round-trip behaviour between parsing
//! and encoding.

use ylong_json::{CompactEncoder, FormattedEncoder, JsonValue};

fn formatted(input: &str) -> String {
    let value = JsonValue::from_text(input.as_bytes()).unwrap();
    let mut out: Vec<u8> = Vec::new();
    let mut encoder = FormattedEncoder::new();
    assert!(encoder.encode(&value, &mut out).is_ok());
    String::from_utf8(out).unwrap()
}

fn compact(input: &str) -> String {
    let value = JsonValue::from_text(input.as_bytes()).unwrap();
    let mut out: Vec<u8> = Vec::new();
    let mut encoder = CompactEncoder::new();
    assert!(encoder.encode(&value, &mut out).is_ok());
    String::from_utf8(out).unwrap()
}

#[test]
fn ut_formatted_encoder() {
    assert_eq!(formatted("{\"null\":null}"), "{\n    \"null\": null\n}\n");

    assert_eq!(formatted("{\"true\":true}"), "{\n    \"true\": true\n}\n");

    assert_eq!(formatted("{\"false\":false}"), "{\n    \"false\": false\n}\n");

    assert_eq!(formatted("{\"number\":3.14}"), "{\n    \"number\": 3.14\n}\n");

    assert_eq!(
        formatted("{\"string\":\"HelloWorld\"}"),
        "{\n    \"string\": \"HelloWorld\"\n}\n"
    );

    assert_eq!(
        formatted("{\"array\":[1, 2, 3]}"),
        "{\n    \"array\": [1, 2, 3]\n}\n"
    );

    assert_eq!(
        formatted("{\"object\":{\"key1\":1}}"),
        "{\n    \"object\": {\n        \"key1\": 1\n    }\n}\n"
    );
}

#[test]
fn ut_compact_encoder() {
    assert_eq!(compact("{\"null\":null}"), "{\"null\":null}");

    assert_eq!(compact("{\"true\":true}"), "{\"true\":true}");

    assert_eq!(compact("{\"false\":false}"), "{\"false\":false}");

    assert_eq!(compact("{\"number\":3.14}"), "{\"number\":3.14}");

    assert_eq!(
        compact("{\"string\":\"HelloWorld\"}"),
        "{\"string\":\"HelloWorld\"}"
    );

    assert_eq!(
        compact("{\"string\":\"\\b\\t\\f\\n\\u0000\\u2764\"}"),
        "{\"string\":\"\\b\\t\\f\\n\\u0000\u{2764}\"}"
    );

    assert_eq!(compact("{\"array\":[1,2,3]}"), "{\"array\":[1,2,3]}");

    assert_eq!(
        compact("{\"object\":{\"key1\":1,\"key2\":2}}"),
        "{\"object\":{\"key1\":1,\"key2\":2}}"
    );
}

#[test]
fn formatted_arrays_break_on_containers() {
    // Arrays of scalars stay on one line; arrays holding a container break
    // one element per line.
    assert_eq!(formatted("[1, 2]"), "[1, 2]\n");
    assert_eq!(formatted("[]"), "[]\n");
    assert_eq!(formatted("{}"), "{}\n");
    assert_eq!(formatted("[[1], 2]"), "[\n    [1],\n    2\n]\n");
}

#[test]
fn compact_round_trip() {
    // Parsing the compact rendering gives the value back, and re-rendering
    // it gives the same bytes.
    let cases: [&str; 7] = [
        "null",
        "true",
        "[1,2,3]",
        "{\"a\":1,\"b\":[true,null],\"a\":2}",
        "\"line\\nbreak\"",
        "-42",
        "[0.5,3e2,{\"k\":\"v\"}]",
    ];
    for case in cases {
        let v = JsonValue::from_text(case.as_bytes()).unwrap();
        let text = v.to_compact_string().unwrap();
        let reparsed = JsonValue::from_text(text.as_bytes()).unwrap();
        assert!(v == reparsed);
        assert!(reparsed.to_compact_string().unwrap() == text);
    }
}

#[test]
fn formatted_round_trip_idempotent() {
    // Parsing the formatted rendering gives the value back, and formatting
    // again reproduces the text exactly.
    let cases: [&str; 5] = [
        "null",
        "[1, 2, 3]",
        "{\"a\": 1, \"b\": [true, null, {\"c\": \"d\"}]}",
        "\"esc\\u0007apes\"",
        "[[], {}, [{\"x\": -1.25e-3}]]",
    ];
    for case in cases {
        let v = JsonValue::from_text(case.as_bytes()).unwrap();
        let text = v.to_formatted_string().unwrap();
        let reparsed = JsonValue::from_text(text.as_bytes()).unwrap();
        assert!(v == reparsed);
        assert!(reparsed.to_formatted_string().unwrap() == text);
    }
}

#[test]
fn escapes_render_exactly() {
    // Controls take their named escapes or a four-digit escape; quotes and
    // backslashes are escaped; everything else passes through.
    let v = JsonValue::new_string("\u{8}\t\n\u{c}\r\"\\\u{1f}ok\u{2764}");
    assert_eq!(
        v.to_compact_string().unwrap(),
        "\"\\b\\t\\n\\f\\r\\\"\\\\\\u001fok\u{2764}\""
    );
}
