//! Tests for the error type and its text rendering.

use std::io::ErrorKind;
use ylong_json::{Error, ParseError};

#[test]
fn ut_error_fmt() {
    assert_eq!(
        Error::Parsing(ParseError::UnexpectedCharacter(1, 1, 'a')).to_text(),
        "Parse Error: [Line]: 1, [Pos]: 1, [Error]: Unexpected character: 'a'.",
    );

    assert_eq!(
        Error::Parsing(ParseError::UnexpectedCharacter(1, 1, '\u{8}')).to_text(),
        "Parse Error: [Line]: 1, [Pos]: 1, [Error]: Unexpected character: '\\b'.",
    );

    assert_eq!(
        Error::Parsing(ParseError::UnexpectedCharacter(1, 1, '\u{b}')).to_text(),
        "Parse Error: [Line]: 1, [Pos]: 1, [Error]: Unexpected character: '\\v'.",
    );

    assert_eq!(
        Error::Parsing(ParseError::UnexpectedCharacter(1, 1, '\u{c}')).to_text(),
        "Parse Error: [Line]: 1, [Pos]: 1, [Error]: Unexpected character: '\\f'.",
    );

    assert_eq!(
        Error::Parsing(ParseError::InvalidUtf8Bytes(1)).to_text(),
        "Parse Error: [line]: 1, [Error]: Invalid UTF-8 byte.",
    );

    assert_eq!(
        Error::Parsing(ParseError::UnexpectedEndOfJson(1)).to_text(),
        "Parse Error: [Line]: 1, [Error]: Unexpected end of json.",
    );

    assert_eq!(
        Error::Parsing(ParseError::TrailingBytes(1)).to_text(),
        "Parse Error: [Line]: 1, [Error]: Expected end of json but not.",
    );

    assert_eq!(
        Error::Parsing(ParseError::ParsingUnfinished).to_text(),
        "Parse Error: [Error]: Value has not been fully deserialized.",
    );

    assert_eq!(
        Error::Io(std::io::Error::from(ErrorKind::AddrInUse)).to_text(),
        "Io Error: Kind(AddrInUse)",
    );

    assert_eq!(Error::ParseNumber.to_text(), "Parse Number Error",);

    assert_eq!(Error::Utf8Transform.to_text(), "Utf8 Transform Error",);

    assert_eq!(Error::TypeTransform.to_text(), "Type Transform Error",);

    assert_eq!(
        Error::IncorrectSerdeUsage.to_text(),
        "Incorrect Serde Usage Error",
    );

    assert_eq!(
        Error::Custom(String::from("Custom Error")).to_text(),
        "Custom Error",
    );

    assert_eq!(
        Error::ExceedRecursionLimit.to_text(),
        "Exceed the recursion limit",
    );

    assert_eq!(
        Error::new_reader(std::io::Error::from(ErrorKind::AddrInUse)).to_text(),
        "Reader Error:Kind(AddrInUse)",
    );

    assert_eq!(
        Error::Parsing(ParseError::TrailingComma(1, 6)).to_text(),
        "Parse Error: [Line]: 1, [Pos]: 6, [Error]: Has a comma after the last value in an array or map.",
    );

    assert_eq!(
        Error::Parsing(ParseError::MissingColon(1, 6)).to_text(),
        "Parse Error: [Line]: 1, [Pos]: 6, [Error]: A colon is missing between key and value.",
    );

    assert_eq!(
        Error::Parsing(ParseError::MissingComma(1, 4)).to_text(),
        "Parse Error: [Line]: 1, [Pos]: 4, [Error]: A comma is missing before next value.",
    );
}

#[test]
fn error_positions_track_lines() {
    // The reported line and column follow line feeds in the input.
    match ylong_json::JsonValue::from_text(b"[1,\n2,\nx]") {
        Err(Error::Parsing(ParseError::UnexpectedCharacter(3, 1, 'x'))) => {}
        _ => panic!("expected an unexpected character on line three"),
    }
    match ylong_json::JsonValue::from_text(b"[1,\n") {
        Err(Error::Parsing(ParseError::UnexpectedEndOfJson(2))) => {}
        _ => panic!("expected an end-of-input error on line two"),
    }
}
