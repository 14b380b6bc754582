//! Error values reported while parsing, converting or re-encoding JSON.

use vstd::prelude::*;

verus! {

broadcast use vstd::std_specs::vec::axiom_spec_len;

/// `std::io::Error` is carried opaquely inside [`Error::Io`].
#[verifier::external_type_specification]
#[verifier::external_body]
pub struct ExIoError(std::io::Error);

/// The specific location and cause of a parsing failure.
///
/// Lines and columns are 1-based; a line number names the line on which the
/// offending byte was found.
#[derive(Debug)]
pub enum ParseError {
    /// Undesired character (line number, column number, current character).
    UnexpectedCharacter(usize, usize, char),

    /// Illegal UTF-8 bytes where one character was expected (line number).
    InvalidUtf8Bytes(usize),

    /// Undesired end of input (line number).
    UnexpectedEndOfJson(usize),

    /// Expected the end of the input but found more bytes (line number).
    TrailingBytes(usize),

    /// The input sequence has not been parsed to its end.
    ParsingUnfinished,

    /// An extra comma after the last value in an array or object
    /// (line number, column number).
    TrailingComma(usize, usize),

    /// A colon is missing between a key and its value (line number, column number).
    MissingColon(usize, usize),

    /// A comma is missing before the next value (line number, column number).
    MissingComma(usize, usize),
}

/// Errors during parsing, conversion and encoding.
#[derive(Debug)]
pub enum Error {
    /// Parsing error.
    Parsing(ParseError),

    /// I/O error propagated from a streaming byte source.
    Io(std::io::Error),

    /// A numeric literal was present but not representable.
    ParseNumber,

    /// UTF-8 transform error.
    Utf8Transform,

    /// Type transform error.
    TypeTransform,

    /// Error reported by a byte source, kept as rendered text.
    Reader(String),

    /// Incorrect serde usage error.
    IncorrectSerdeUsage,

    /// A free-form error message.
    Custom(String),

    /// The input nests arrays and objects deeper than the recursion limit.
    ExceedRecursionLimit,
}

impl Error {
    /// Wraps an error coming out of a byte source.
    ///
    /// The error is rendered to text at once, so that the variant holds
    /// plain data.
    pub fn new_reader(e: std::io::Error) -> Error {
        Error::Reader(io_error_text(&e))
    }
}

/// Relies on the `Debug` rendering of `std::io::Error` for diagnostics only;
/// nothing is assumed about the resulting text.
#[verifier::external_body]
fn io_error_text(e: &std::io::Error) -> (r: String)
{
    format!("{e:?}")
}

impl From<ParseError> for Error {
    fn from(e: ParseError) -> (r: Self) {
        Error::Parsing(e)
    }
}

impl vstd::std_specs::convert::FromSpecImpl<ParseError> for Error {
    open spec fn obeys_from_spec() -> bool {
        true
    }

    open spec fn from_spec(e: ParseError) -> Self {
        Error::Parsing(e)
    }
}

impl From<std::io::Error> for Error {
    fn from(e: std::io::Error) -> (r: Self) {
        Error::Io(e)
    }
}

impl vstd::std_specs::convert::FromSpecImpl<std::io::Error> for Error {
    open spec fn obeys_from_spec() -> bool {
        true
    }

    open spec fn from_spec(e: std::io::Error) -> Self {
        Error::Io(e)
    }
}

/// Appends the bytes of a message fragment.
fn push_fragment(out: &mut Vec<u8>, s: &str)
    ensures
        final(out)@ == old(out)@ + vstd::utf8::encode_utf8(s@),
{
    let bytes = s.as_bytes();
    let n = bytes.len();
    let mut i: usize = 0;
    while i < n
        invariant
            0 <= i <= n,
            n == bytes@.len(),
            bytes@ == vstd::utf8::encode_utf8(s@),
            out@ == old(out)@ + bytes@.subrange(0, i as int),
        decreases n - i,
    {
        out.push(bytes[i]);
        proof {
            assert(out@ =~= old(out)@ + bytes@.subrange(0, i + 1));
        }
        i = i + 1;
    }
    proof {
        assert(bytes@.subrange(0, n as int) =~= bytes@);
    }
}

/// Appends the decimal rendering of a count.
fn push_count(out: &mut Vec<u8>, n: usize)
    ensures
        final(out)@ == old(out)@ + crate::number::dec_render(n as int),
{
    crate::number::write_u64(n as u64, out);
}

/// One lowercase hexadecimal digit.
pub open spec fn hex_digit_byte(d: int) -> u8 {
    if d < 10 {
        (48 + d) as u8
    } else {
        (87 + d) as u8
    }
}

/// The lowercase hexadecimal digits of a positive value, empty at zero.
pub open spec fn hex_digits_of(n: int) -> Seq<u8>
    decreases n,
{
    if n <= 0 {
        Seq::empty()
    } else {
        hex_digits_of(n / 16) + seq![hex_digit_byte(n % 16)]
    }
}

/// The lowercase hexadecimal rendering of a value; zero renders as `0`.
pub open spec fn hex_render(n: int) -> Seq<u8> {
    if n == 0 {
        seq![48u8]
    } else {
        hex_digits_of(n)
    }
}

/// Appends the lowercase hexadecimal rendering of a value.
fn push_hex(out: &mut Vec<u8>, u: u32)
    ensures
        final(out)@ == old(out)@ + hex_render(u as int),
{
    if u == 0 {
        out.push(48);
        proof {
            assert(final(out)@ =~= old(out)@ + hex_render(0));
        }
        return ;
    }
    let mut digits: Vec<u8> = Vec::new();
    let mut cur = u;
    while cur > 0
        invariant
            hex_digits_of(u as int) == hex_digits_of(cur as int) + digits@,
        decreases cur,
    {
        let ghost prev = digits@;
        let m = (cur % 16) as u8;
        let d = if m < 10 {
            48 + m
        } else {
            87 + m
        };
        digits.insert(0, d);
        proof {
            assert(digits@ =~= seq![d] + prev);
            assert(hex_digits_of(cur as int) =~= hex_digits_of(cur as int / 16) + seq![d]);
            assert((hex_digits_of(cur as int / 16) + seq![d]) + prev =~= hex_digits_of(
                cur as int / 16,
            ) + (seq![d] + prev));
            assert(cur as int / 16 < cur as int) by (nonlinear_arith)
                requires
                    cur > 0,
            ;
        }
        cur = cur / 16;
    }
    proof {
        assert(hex_digits_of(u as int) =~= digits@);
    }
    out.append(&mut digits);
}

/// The bytes a diagnostic quotes one character as: the named control
/// characters by their escapes, printable ASCII plainly, anything else as a
/// braced hexadecimal escape, all between single quotes.
pub open spec fn quoted_char(c: char) -> Seq<u8> {
    let u = c as u32 as int;
    seq![39u8] + (if u == 10 {
        seq![92u8, 110u8]
    } else if u == 13 {
        seq![92u8, 114u8]
    } else if u == 9 {
        seq![92u8, 116u8]
    } else if u == 92 {
        seq![92u8, 92u8]
    } else if u == 39 {
        seq![92u8, 39u8]
    } else if 32 <= u && u <= 126 {
        seq![u as u8]
    } else {
        seq![92u8, 117u8, 123u8] + hex_render(u) + seq![125u8]
    }) + seq![39u8]
}

/// Appends one character the way a diagnostic quotes it.
fn push_char_quoted(out: &mut Vec<u8>, c: char)
    ensures
        final(out)@ == old(out)@ + quoted_char(c),
{
    let u = c as u32;
    out.push(39);
    if u == 10 {
        out.push(92);
        out.push(110);
    } else if u == 13 {
        out.push(92);
        out.push(114);
    } else if u == 9 {
        out.push(92);
        out.push(116);
    } else if u == 92 {
        out.push(92);
        out.push(92);
    } else if u == 39 {
        out.push(92);
        out.push(39);
    } else if 32 <= u && u <= 126 {
        out.push(u as u8);
    } else {
        out.push(92);
        out.push(117);
        out.push(123);
        push_hex(out, u);
        out.push(125);
    }
    out.push(39);
    proof {
        assert(final(out)@ =~= old(out)@ + quoted_char(c));
    }
}

/// The bytes the unexpected character of a diagnostic is quoted as: a few
/// control characters have named escapes outside the quotes.
pub open spec fn quoted_special(c: char) -> Seq<u8> {
    let u = c as u32 as int;
    if u == 8 {
        vstd::utf8::encode_utf8("'\\b'"@)
    } else if u == 11 {
        vstd::utf8::encode_utf8("'\\v'"@)
    } else if u == 12 {
        vstd::utf8::encode_utf8("'\\f'"@)
    } else {
        quoted_char(c)
    }
}

/// The diagnostic bytes a parsing error renders to.
pub open spec fn parse_error_text(e: ParseError) -> Seq<u8> {
    match e {
        ParseError::UnexpectedCharacter(line, pos, c) => vstd::utf8::encode_utf8("[Line]: "@)
            + crate::number::dec_render(line as int) + vstd::utf8::encode_utf8(", [Pos]: "@)
            + crate::number::dec_render(pos as int) + vstd::utf8::encode_utf8(
            ", [Error]: Unexpected character: "@,
        ) + quoted_special(c) + vstd::utf8::encode_utf8("."@),
        ParseError::InvalidUtf8Bytes(line) => vstd::utf8::encode_utf8("[line]: "@)
            + crate::number::dec_render(line as int) + vstd::utf8::encode_utf8(
            ", [Error]: Invalid UTF-8 byte."@,
        ),
        ParseError::UnexpectedEndOfJson(line) => vstd::utf8::encode_utf8("[Line]: "@)
            + crate::number::dec_render(line as int) + vstd::utf8::encode_utf8(
            ", [Error]: Unexpected end of json."@,
        ),
        ParseError::TrailingBytes(line) => vstd::utf8::encode_utf8("[Line]: "@)
            + crate::number::dec_render(line as int) + vstd::utf8::encode_utf8(
            ", [Error]: Expected end of json but not."@,
        ),
        ParseError::ParsingUnfinished => vstd::utf8::encode_utf8(
            "[Error]: Value has not been fully deserialized."@,
        ),
        ParseError::TrailingComma(line, pos) => vstd::utf8::encode_utf8("[Line]: "@)
            + crate::number::dec_render(line as int) + vstd::utf8::encode_utf8(", [Pos]: "@)
            + crate::number::dec_render(pos as int) + vstd::utf8::encode_utf8(
            ", [Error]: Has a comma after the last value in an array or map."@,
        ),
        ParseError::MissingColon(line, pos) => vstd::utf8::encode_utf8("[Line]: "@)
            + crate::number::dec_render(line as int) + vstd::utf8::encode_utf8(", [Pos]: "@)
            + crate::number::dec_render(pos as int) + vstd::utf8::encode_utf8(
            ", [Error]: A colon is missing between key and value."@,
        ),
        ParseError::MissingComma(line, pos) => vstd::utf8::encode_utf8("[Line]: "@)
            + crate::number::dec_render(line as int) + vstd::utf8::encode_utf8(", [Pos]: "@)
            + crate::number::dec_render(pos as int) + vstd::utf8::encode_utf8(
            ", [Error]: A comma is missing before next value."@,
        ),
    }
}

impl ParseError {
    /// The parsing error as human-readable text: the diagnostic bytes of
    /// [`parse_error_text`], decoded; or the empty string in the unreachable
    /// case that those bytes are not UTF-8.
    pub fn to_text(&self) -> (r: String)
        ensures
            vstd::utf8::valid_utf8(parse_error_text(*self)) ==> vstd::utf8::encode_utf8(r@)
                == parse_error_text(*self),
            !vstd::utf8::valid_utf8(parse_error_text(*self)) ==> r@ == Seq::<char>::empty(),
    {
        broadcast use vstd::utf8::decode_utf8_encode_utf8;

        let mut out: Vec<u8> = Vec::new();
        match self {
            ParseError::UnexpectedCharacter(line, pos, unexpected) => {
                push_fragment(&mut out, "[Line]: ");
                push_count(&mut out, *line);
                push_fragment(&mut out, ", [Pos]: ");
                push_count(&mut out, *pos);
                push_fragment(&mut out, ", [Error]: Unexpected character: ");
                let u = *unexpected as u32;
                if u == 8 {
                    push_fragment(&mut out, "'\\b'");
                } else if u == 11 {
                    push_fragment(&mut out, "'\\v'");
                } else if u == 12 {
                    push_fragment(&mut out, "'\\f'");
                } else {
                    push_char_quoted(&mut out, *unexpected);
                }
                push_fragment(&mut out, ".");
            },
            ParseError::InvalidUtf8Bytes(line) => {
                push_fragment(&mut out, "[line]: ");
                push_count(&mut out, *line);
                push_fragment(&mut out, ", [Error]: Invalid UTF-8 byte.");
            },
            ParseError::UnexpectedEndOfJson(line) => {
                push_fragment(&mut out, "[Line]: ");
                push_count(&mut out, *line);
                push_fragment(&mut out, ", [Error]: Unexpected end of json.");
            },
            ParseError::TrailingBytes(line) => {
                push_fragment(&mut out, "[Line]: ");
                push_count(&mut out, *line);
                push_fragment(&mut out, ", [Error]: Expected end of json but not.");
            },
            ParseError::ParsingUnfinished => {
                push_fragment(&mut out, "[Error]: Value has not been fully deserialized.");
            },
            ParseError::TrailingComma(line, pos) => {
                push_fragment(&mut out, "[Line]: ");
                push_count(&mut out, *line);
                push_fragment(&mut out, ", [Pos]: ");
                push_count(&mut out, *pos);
                push_fragment(
                    &mut out,
                    ", [Error]: Has a comma after the last value in an array or map.",
                );
            },
            ParseError::MissingColon(line, pos) => {
                push_fragment(&mut out, "[Line]: ");
                push_count(&mut out, *line);
                push_fragment(&mut out, ", [Pos]: ");
                push_count(&mut out, *pos);
                push_fragment(&mut out, ", [Error]: A colon is missing between key and value.");
            },
            ParseError::MissingComma(line, pos) => {
                push_fragment(&mut out, "[Line]: ");
                push_count(&mut out, *line);
                push_fragment(&mut out, ", [Pos]: ");
                push_count(&mut out, *pos);
                push_fragment(&mut out, ", [Error]: A comma is missing before next value.");
            },
        }
        proof {
            assert(out@ =~= parse_error_text(*self));
        }
        match crate::value::bytes_to_string(out) {
            Ok(s) => {
                proof {
                    assert(vstd::utf8::encode_utf8(s@) == parse_error_text(*self));
                }
                s
            },
            Err(_) => String::new(),
        }
    }
}

impl Error {
    /// The error as human-readable text.  Plain variants render to their
    /// fixed messages; a parsing error renders to its diagnostic bytes
    /// behind a `Parse Error: ` head, and a reader error to its recorded
    /// text behind a `Reader Error:` head, each decoded (or empty in the
    /// unreachable case that the bytes are not UTF-8); an I/O error carries
    /// outside text and is pinned to nothing.
    pub fn to_text(&self) -> (r: String)
        ensures
            match self {
                Error::Parsing(pe) => (vstd::utf8::valid_utf8(parse_error_text(*pe))
                    && vstd::utf8::valid_utf8(
                    vstd::utf8::encode_utf8("Parse Error: "@) + parse_error_text(*pe),
                )) ==> vstd::utf8::encode_utf8(r@) == vstd::utf8::encode_utf8("Parse Error: "@)
                    + parse_error_text(*pe),
                Error::ParseNumber => r@ == "Parse Number Error"@,
                Error::TypeTransform => r@ == "Type Transform Error"@,
                Error::Utf8Transform => r@ == "Utf8 Transform Error"@,
                Error::IncorrectSerdeUsage => r@ == "Incorrect Serde Usage Error"@,
                Error::ExceedRecursionLimit => r@ == "Exceed the recursion limit"@,
                Error::Custom(s) => r@ == s@,
                Error::Reader(s) => vstd::utf8::valid_utf8(
                    vstd::utf8::encode_utf8("Reader Error:"@) + vstd::utf8::encode_utf8(s@),
                ) ==> vstd::utf8::encode_utf8(r@) == vstd::utf8::encode_utf8("Reader Error:"@)
                    + vstd::utf8::encode_utf8(s@),
                Error::Io(_) => r@ == Seq::<char>::empty() || exists|t: Seq<u8>|
                    vstd::utf8::encode_utf8(r@) == vstd::utf8::encode_utf8("Io Error: "@) + t,
            },
    {
        broadcast use vstd::utf8::decode_utf8_encode_utf8;

        match self {
            Error::Parsing(e) => {
                let mut out: Vec<u8> = Vec::new();
                push_fragment(&mut out, "Parse Error: ");
                let tail = e.to_text();
                push_fragment(&mut out, tail.as_str());
                match crate::value::bytes_to_string(out) {
                    Ok(s) => s,
                    Err(_) => String::new(),
                }
            },
            Error::Io(e) => {
                let mut out: Vec<u8> = Vec::new();
                push_fragment(&mut out, "Io Error: ");
                let tail = io_error_text(e);
                push_fragment(&mut out, tail.as_str());
                match crate::value::bytes_to_string(out) {
                    Ok(s) => s,
                    Err(_) => String::new(),
                }
            },
            Error::ParseNumber => "Parse Number Error".to_owned(),
            Error::TypeTransform => "Type Transform Error".to_owned(),
            Error::Utf8Transform => "Utf8 Transform Error".to_owned(),
            Error::IncorrectSerdeUsage => "Incorrect Serde Usage Error".to_owned(),
            Error::Custom(s) => s.as_str().to_owned(),
            Error::Reader(s) => {
                let mut out: Vec<u8> = Vec::new();
                push_fragment(&mut out, "Reader Error:");
                push_fragment(&mut out, s.as_str());
                match crate::value::bytes_to_string(out) {
                    Ok(s2) => s2,
                    Err(_) => String::new(),
                }
            },
            Error::ExceedRecursionLimit => "Exceed the recursion limit".to_owned(),
        }
    }
}

} // verus!
