//! Tests for the parser: the lexical helpers, one-value parsing, the
//! container state machines and the recursion bound.

use std::io::{ErrorKind, Read};
use ylong_json::{
    eat_digits, eat_ws, match_lit, parse_array, parse_number, parse_object, parse_string_inner,
    parse_value, start_parsing, Array, Deserializer, Error, IoReader, JsonValue, Number, Object,
    ParseError, SliceReader, RECURSION_LIMIT,
};

struct ErrorIo;

impl Read for ErrorIo {
    fn read(&mut self, _buf: &mut [u8]) -> std::io::Result<usize> {
        Err(ErrorKind::AddrInUse.into())
    }
}

fn num(n: i32) -> JsonValue {
    JsonValue::new_number(Number::from(n))
}

#[test]
fn ut_macro_eat_whitespace_until_not() {
    let mut reader = SliceReader::new(b"      n");
    assert_eq!(eat_ws(&mut reader).unwrap(), Some(b'n'));

    let mut reader = SliceReader::new(b"      ");
    assert_eq!(eat_ws(&mut reader).unwrap(), None);

    let mut reader = IoReader::new(ErrorIo);
    assert!(eat_ws(&mut reader).is_err());
}

#[test]
fn ut_macro_eat_digits_until_not() {
    let mut reader = SliceReader::new(b"1234n");
    assert_eq!(eat_digits(&mut reader).unwrap(), Some(b'n'));

    let mut reader = SliceReader::new(b"1234");
    assert_eq!(eat_digits(&mut reader).unwrap(), None);

    let mut reader = IoReader::new(ErrorIo);
    assert!(eat_digits(&mut reader).is_err());
}

#[test]
fn ut_macro_match_str() {
    let mut reader = SliceReader::new(b"1234");
    assert!(match_lit(&mut reader, b"1234").is_ok());

    let mut reader = IoReader::new(ErrorIo);
    assert!(match_lit(&mut reader, b"1234").is_err());
}

#[test]
fn ut_start_parsing() {
    let mut deserializer = Deserializer::new_from_slice(b"null");
    assert!(start_parsing(&mut deserializer).unwrap() == JsonValue::Null);

    let mut deserializer = Deserializer::new_from_slice(b"null      invalid");
    assert!(start_parsing(&mut deserializer).is_err());
}

#[test]
fn ut_parse_value() {
    let mut deserializer = Deserializer::new_from_slice(b"null");
    assert!(parse_value(&mut deserializer).unwrap() == JsonValue::Null);

    let mut deserializer = Deserializer::new_from_slice(b"true");
    assert!(parse_value(&mut deserializer).unwrap() == JsonValue::Boolean(true));

    let mut deserializer = Deserializer::new_from_slice(b"false");
    assert!(parse_value(&mut deserializer).unwrap() == JsonValue::Boolean(false));

    let mut deserializer = Deserializer::new_from_slice(b"123");
    assert!(parse_value(&mut deserializer).is_ok());

    let mut deserializer = Deserializer::new_from_slice(b"\"abc\"");
    assert!(parse_value(&mut deserializer).is_ok());

    let mut deserializer = Deserializer::new_from_slice(b"[1, 2, 3]");
    assert!(parse_value(&mut deserializer).is_ok());

    let mut deserializer = Deserializer::new_from_slice(b"{\"key\":\"value\"}");
    assert!(parse_value(&mut deserializer).is_ok());

    let mut deserializer = Deserializer::new_from_slice(b"\"abc\"");
    assert!(parse_value(&mut deserializer).is_ok());
}

#[test]
fn ut_parse_string() {
    // The opening quote is consumed before the string body is read.
    // Empty string.
    let str = "\"";
    let mut reader = SliceReader::new(str.as_bytes());
    assert_eq!(parse_string_inner(&mut reader).unwrap(), b"".to_vec());

    // General characters.
    let str = "abcdefghijklmnopqrstuvwxyz1234567890-=~!@#$%^&*()_+[]{}|<>?:;'\"";
    let mut reader = SliceReader::new(str.as_bytes());
    assert_eq!(
        parse_string_inner(&mut reader).unwrap(),
        String::from("abcdefghijklmnopqrstuvwxyz1234567890-=~!@#$%^&*()_+[]{}|<>?:;'").into_bytes(),
    );

    // Escapes.
    let str = r#"\/\\\"\uCAFE\uBABE\uAB98\uFCDE\ubcda\uef4A\b\f\n\r\t""#;
    let mut reader = SliceReader::new(str.as_bytes());
    assert_eq!(
        parse_string_inner(&mut reader).unwrap(),
        String::from("/\\\"\u{CAFE}\u{BABE}\u{AB98}\u{FCDE}\u{bcda}\u{ef4A}\u{0008}\u{000c}\n\r\t")
            .into_bytes(),
    );

    let str = r#"\uD852\uDF62""#;
    let mut reader = SliceReader::new(str.as_bytes());
    assert_eq!(
        parse_string_inner(&mut reader).unwrap(),
        String::from("𤭢").into_bytes(),
    );

    // Unterminated string.
    let str = "abc";
    let mut reader = SliceReader::new(str.as_bytes());
    assert!(parse_string_inner(&mut reader).is_err());

    // Unknown escape letter.
    let str = r#"\g""#;
    let mut reader = SliceReader::new(str.as_bytes());
    assert!(parse_string_inner(&mut reader).is_err());

    // A backslash at the end of the input.
    let str = r#"\"#;
    let mut reader = SliceReader::new(str.as_bytes());
    assert!(parse_string_inner(&mut reader).is_err());

    // Bad unicode escapes.
    let str = r#"\uBEEF"#;
    let mut reader = SliceReader::new(str.as_bytes());
    assert!(parse_string_inner(&mut reader).is_err());

    let str = r#"\uZ000"#;
    let mut reader = SliceReader::new(str.as_bytes());
    assert!(parse_string_inner(&mut reader).is_err());

    let str = r#"\u"#;
    let mut reader = SliceReader::new(str.as_bytes());
    assert!(parse_string_inner(&mut reader).is_err());

    let str = r#"\uD852\uDB00""#;
    let mut reader = SliceReader::new(str.as_bytes());
    assert!(parse_string_inner(&mut reader).is_err());

    // An unescaped control byte.
    let str = "\u{0}";
    let mut reader = SliceReader::new(str.as_bytes());
    assert!(parse_string_inner(&mut reader).is_err());
}

#[test]
fn ut_parse_number() {
    let str = r#"0"#;
    let mut reader = SliceReader::new(str.as_bytes());
    assert!(parse_number(&mut reader).unwrap() == 0.into());

    let str = r#"-0"#;
    let mut reader = SliceReader::new(str.as_bytes());
    assert!(parse_number(&mut reader).unwrap() == 0.into());

    let str = r#"0.123e+4"#;
    let mut reader = SliceReader::new(str.as_bytes());
    assert!(parse_number(&mut reader).unwrap() == 1230.into());

    // No number at all.
    let str = r#""#;
    let mut reader = SliceReader::new(str.as_bytes());
    assert!(parse_number(&mut reader).is_err());

    // A letter where a number was expected.
    let str = r#"a123"#;
    let mut reader = SliceReader::new(str.as_bytes());
    assert!(parse_number(&mut reader).is_err());

    // No integer part.
    let str = r#".123"#;
    let mut reader = SliceReader::new(str.as_bytes());
    assert!(parse_number(&mut reader).is_err());

    // A plus sign on the integer part.
    let str = r#"+1234"#;
    let mut reader = SliceReader::new(str.as_bytes());
    assert!(parse_number(&mut reader).is_err());

    // Leading zeroes: only the first zero is consumed.
    let str = r#"00001234"#;
    let mut reader = SliceReader::new(str.as_bytes());
    assert!(parse_number(&mut reader).unwrap() == 0.into());

    // A letter inside the integer part ends the number.
    let str = r#"12a34"#;
    let mut reader = SliceReader::new(str.as_bytes());
    assert!(parse_number(&mut reader).unwrap() == 12.into());

    // A letter right after the decimal point.
    let str = r#"12.a34"#;
    let mut reader = SliceReader::new(str.as_bytes());
    assert!(parse_number(&mut reader).is_err());

    let str = r#"12."#;
    let mut reader = SliceReader::new(str.as_bytes());
    assert!(parse_number(&mut reader).is_err());

    // A letter inside the fraction ends the number.
    let str = r#"12.3a4"#;
    let mut reader = SliceReader::new(str.as_bytes());
    assert!(parse_number(&mut reader).unwrap() == Number::new_float_literal("12.3").unwrap());

    // A letter inside the exponent ends the number.
    let str = r#"12.34e+2a3"#;
    let mut reader = SliceReader::new(str.as_bytes());
    assert!(parse_number(&mut reader).unwrap() == (1234).into());

    let str = r#"12.34e"#;
    let mut reader = SliceReader::new(str.as_bytes());
    assert!(parse_number(&mut reader).is_err());

    let str = r#"12.34ea"#;
    let mut reader = SliceReader::new(str.as_bytes());
    assert!(parse_number(&mut reader).is_err());

    let str = r#"12.34e+"#;
    let mut reader = SliceReader::new(str.as_bytes());
    assert!(parse_number(&mut reader).is_err());
}

#[test]
fn ut_parse_array() {
    // The opening bracket is consumed before the elements are read.
    let str = r#"]"#;
    let mut deserializer = Deserializer::new_from_slice(str.as_bytes());
    assert!(parse_array(&mut deserializer).unwrap() == Array::new());

    let str = r#"              ]"#;
    let mut deserializer = Deserializer::new_from_slice(str.as_bytes());
    assert!(parse_array(&mut deserializer).unwrap() == Array::new());

    let str = r#"1, 2, 3]"#;
    let mut deserializer = Deserializer::new_from_slice(str.as_bytes());
    let mut array = Array::new();
    array.push(num(1));
    array.push(num(2));
    array.push(num(3));
    assert!(parse_array(&mut deserializer).unwrap() == array);

    let str = "\
            1,\
            2,\
            3\
        ]";
    let mut deserializer = Deserializer::new_from_slice(str.as_bytes());
    let mut array = Array::new();
    array.push(num(1));
    array.push(num(2));
    array.push(num(3));
    assert!(parse_array(&mut deserializer).unwrap() == array);

    // The input ends too early.
    let str = "";
    let mut deserializer = Deserializer::new_from_slice(str.as_bytes());
    assert!(parse_array(&mut deserializer).is_err());

    let str = "1  ";
    let mut deserializer = Deserializer::new_from_slice(str.as_bytes());
    assert!(parse_array(&mut deserializer).is_err());

    // No comma between two values.
    let str = "1 2";
    let mut deserializer = Deserializer::new_from_slice(str.as_bytes());
    assert!(parse_array(&mut deserializer).is_err());

    // A comma after the last value.
    let str = "1, 2,]";
    let mut deserializer = Deserializer::new_from_slice(str.as_bytes());
    assert!(parse_array(&mut deserializer).is_err());
}

#[test]
fn ut_parse_object() {
    // The opening brace is consumed before the pairs are read.
    let str = "}";
    let mut deserializer = Deserializer::new_from_slice(str.as_bytes());
    assert!(parse_object(&mut deserializer).unwrap() == Object::new());

    let str = "\"key1\": \"value\", \"key2\": \"value\"}";
    let mut deserializer = Deserializer::new_from_slice(str.as_bytes());
    let mut object = Object::new();
    object.insert(String::from("key1"), JsonValue::new_string("value"));
    object.insert(String::from("key2"), JsonValue::new_string("value"));
    assert!(parse_object(&mut deserializer).unwrap() == object);

    let str = "\
            \"key1\": \"value\",\
            \"key2\": \"value\"\
        }";
    let mut deserializer = Deserializer::new_from_slice(str.as_bytes());
    let mut object = Object::new();
    object.insert(String::from("key1"), JsonValue::new_string("value"));
    object.insert(String::from("key2"), JsonValue::new_string("value"));
    assert!(parse_object(&mut deserializer).unwrap() == object);

    // The input ends too early.
    let str = "";
    let mut deserializer = Deserializer::new_from_slice(str.as_bytes());
    assert!(parse_object(&mut deserializer).is_err());

    // A comma before any pair.
    let str = ",";
    let mut deserializer = Deserializer::new_from_slice(str.as_bytes());
    assert!(parse_object(&mut deserializer).is_err());

    // A comma after the last pair.
    let str = "\"key1\": \"value\", \"key2\": \"value\",}";
    let mut deserializer = Deserializer::new_from_slice(str.as_bytes());
    assert!(parse_object(&mut deserializer).is_err());

    // No colon after a key.
    let str = "\"key1\"t";
    let mut deserializer = Deserializer::new_from_slice(str.as_bytes());
    assert!(parse_object(&mut deserializer).is_err());

    let str = "\"key1\"";
    let mut deserializer = Deserializer::new_from_slice(str.as_bytes());
    assert!(parse_object(&mut deserializer).is_err());

    // Bytes after a value that are neither comma nor brace.
    let str = "\"key1\": 1      t";
    let mut deserializer = Deserializer::new_from_slice(str.as_bytes());
    assert!(parse_object(&mut deserializer).is_err());

    let str = "\"key1\": 1, t";
    let mut deserializer = Deserializer::new_from_slice(str.as_bytes());
    assert!(parse_object(&mut deserializer).is_err());
}

#[test]
fn ut_recursion_limit() {
    // Exactly the recursion limit of nested arrays parses.
    let text = r#"
        [[[[[[[[[[[[[[[[[[[[[[[[[[[[[[[[
        [[[[[[[[[[[[[[[[[[[[[[[[[[[[[[[[
        [[[[[[[[[[[[[[[[[[[[[[[[[[[[[[[[
        [[[[[[[[[[[[[[[[[[[[[[[[[[[[[[[[
        ]]]]]]]]]]]]]]]]]]]]]]]]]]]]]]]]
        ]]]]]]]]]]]]]]]]]]]]]]]]]]]]]]]]
        ]]]]]]]]]]]]]]]]]]]]]]]]]]]]]]]]
        ]]]]]]]]]]]]]]]]]]]]]]]]]]]]]]]]
        "#;
    let mut deserializer = Deserializer::new_from_slice(text.as_ref());
    assert!(start_parsing(&mut deserializer).is_ok());

    // One level more fails, whatever comes after.
    let text = r#"
        [[[[[[[[[[[[[[[[[[[[[[[[[[[[[[[[
        [[[[[[[[[[[[[[[[[[[[[[[[[[[[[[[[
        [[[[[[[[[[[[[[[[[[[[[[[[[[[[[[[[
        [[[[[[[[[[[[[[[[[[[[[[[[[[[[[[[[[
        ]]]]]]]]]]]]]]]]]]]]]]]]]]]]]]]]]
        ]]]]]]]]]]]]]]]]]]]]]]]]]]]]]]]]
        ]]]]]]]]]]]]]]]]]]]]]]]]]]]]]]]]
        ]]]]]]]]]]]]]]]]]]]]]]]]]]]]]]]]
        "#;
    let mut deserializer = Deserializer::new_from_slice(text.as_ref());
    assert!(start_parsing(&mut deserializer).is_err());

    // The same bound for objects.
    let mut str = String::from(r#"{"key":"value"}"#);
    for _i in 0..RECURSION_LIMIT - 1 {
        str = str.replace(r#""value""#, r#"{"key":"value"}"#);
    }
    let text = str.as_bytes();
    let mut deserializer = Deserializer::new_from_slice(text);
    assert!(start_parsing(&mut deserializer).is_ok());

    let mut str = String::from(r#"{"key":"value"}"#);
    for _i in 0..RECURSION_LIMIT {
        str = str.replace(r#""value""#, r#"{"key":"value"}"#);
    }
    let text = str.as_bytes();
    let mut deserializer = Deserializer::new_from_slice(text);
    assert!(start_parsing(&mut deserializer).is_err());
}

#[test]
fn recursion_error_is_named() {
    // The 129-deep array earns the dedicated recursion error, not a generic
    // one.
    let mut text = String::new();
    for _ in 0..129 {
        text.push('[');
    }
    for _ in 0..129 {
        text.push(']');
    }
    match JsonValue::from_text(text.as_bytes()) {
        Err(Error::ExceedRecursionLimit) => {}
        _ => panic!("expected the recursion limit error"),
    }
}

#[test]
fn structural_errors_are_named() {
    // A missing comma, a trailing comma and a missing colon each earn their
    // named error.
    match JsonValue::from_text(b"[1 2]") {
        Err(Error::Parsing(ParseError::MissingComma(1, 4))) => {}
        _ => panic!("expected a missing comma"),
    }
    match JsonValue::from_text(b"[1,2,]") {
        Err(Error::Parsing(ParseError::TrailingComma(1, 6))) => {}
        _ => panic!("expected a trailing comma"),
    }
    match JsonValue::from_text(b"{\"k\" 1}") {
        Err(Error::Parsing(ParseError::MissingColon(1, 6))) => {}
        _ => panic!("expected a missing colon"),
    }
}

#[test]
fn number_classification() {
    // A bare integer is unsigned, a signed zero stays zero, and the two are
    // equal as numbers.
    let v = JsonValue::from_text(b"0").unwrap();
    let n = v.try_as_number().unwrap();
    assert!(n.is_unsigned());
    assert_eq!(n.try_as_u64().unwrap(), 0);

    let v = JsonValue::from_text(b"-0").unwrap();
    let n = v.try_as_number().unwrap();
    assert!(n.is_signed());
    assert_eq!(n.try_as_i64().unwrap(), 0);
    assert!(Number::Signed(0) == Number::Unsigned(0));

    // An exponent makes a float, equal in value to the plain spelling.
    let v = JsonValue::from_text(b"3e2").unwrap();
    let n = v.try_as_number().unwrap();
    assert!(n.is_float());
    assert!(*n == Number::new_float_literal("300.0").unwrap());
    assert!(*n == Number::Unsigned(300));

    // A leading zero ends the number early; the whole input then has
    // trailing bytes.
    let mut reader = SliceReader::new(b"007");
    assert!(parse_number(&mut reader).unwrap() == Number::Unsigned(0));
    match JsonValue::from_text(b"007") {
        Err(Error::Parsing(ParseError::TrailingBytes(1))) => {}
        _ => panic!("expected trailing bytes"),
    }

    // Integer overflow is an error, not truncation.
    match JsonValue::from_text(b"18446744073709551616") {
        Err(Error::ParseNumber) => {}
        _ => panic!("expected a number-parse error"),
    }
}

#[test]
fn string_escape_decoding() {
    // An escaped line feed decodes to the single byte.
    let v = JsonValue::from_text(b"\"\\n\"").unwrap();
    assert_eq!(v.try_as_string().unwrap(), "\n");

    // A surrogate pair decodes to one four-byte character.
    let v = JsonValue::from_text("\"\\uD852\\uDF62\"".as_bytes()).unwrap();
    assert_eq!(v.try_as_string().unwrap(), "𤭢");

    // An unescaped control byte inside a string is an unexpected character.
    match JsonValue::from_text(b"\"a\x01b\"") {
        Err(Error::Parsing(ParseError::UnexpectedCharacter(1, 3, '\u{1}'))) => {}
        _ => panic!("expected an unexpected character"),
    }
}

#[test]
fn duplicate_keys_first_match_wins() {
    let v = JsonValue::from_text(b"{\"k\":1,\"k\":2}").unwrap();
    let o = v.try_as_object().unwrap();
    assert_eq!(o.len(), 2);
    assert!(o.get("k").unwrap() == &num(1));
}

#[test]
fn parse_from_reader_stream() {
    let text = b"{\"key\": [1, 2, 3]}".to_vec();
    let v = JsonValue::from_reader(ReadOnce { data: text, given: false }).unwrap();
    let o = v.try_as_object().unwrap();
    let a = o.get("key").unwrap().try_as_array().unwrap();
    assert_eq!(a.len(), 3);
    assert!(a.get(0).unwrap() == &num(1));
}

struct ReadOnce {
    data: Vec<u8>,
    given: bool,
}

impl Read for ReadOnce {
    fn read(&mut self, buf: &mut [u8]) -> std::io::Result<usize> {
        if self.given {
            return Ok(0);
        }
        self.given = true;
        let n = self.data.len().min(buf.len());
        buf[..n].copy_from_slice(&self.data[..n]);
        Ok(n)
    }
}
