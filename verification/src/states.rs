//! The parser: a recursive descent over a byte source, specified against a
//! functional parser over the source's whole input sequence.
//!
//! Arrays and objects are parsed with a three-state machine per container —
//! at the start, after a comma, or after a value — so that missing and
//! trailing commas are rejected by name.  The nesting depth is bounded by
//! [`crate::RECURSION_LIMIT`]; deeper input fails with a dedicated error
//! whatever comes after.

use crate::error::{Error, ParseError};
use crate::number::{
    all_digits, canon_num, dec_render, dec_value, digit_run, digits_of_nat, is_digit,
    is_float_literal, is_float_literal_exec, lemma_digit_run_bounds, lemma_digits_of_nat_form,
    render_number, scan_number, Number, NumberView,
};
use crate::deserializer::Deserializer;
use crate::encoder::{
    compact_items, compact_pairs, encode_compact, encode_formatted, encode_formatted_top,
    encode_string, escape_byte, escape_bytes, formatted_items, formatted_pairs, has_container,
    indent, inline_items,
};
use crate::reader::{col_of, line_of, BytesReader};
use crate::value::{
    canon_pairs, canon_view, canon_views, height, heights, lemma_arr_dec, lemma_canon_kind,
    lemma_canon_pairs_at, lemma_canon_props, lemma_canon_views_at, lemma_heights_ge,
    lemma_obj_dec, lemma_pair_heights_ge, pair_heights, value_eq, view_wf, Array, JsonValue,
    Object, ValueView,
};
use vstd::prelude::*;

verus! {

broadcast use vstd::std_specs::vec::axiom_spec_len, crate::deserializer::lemma_deserializer_reader, crate::deserializer::lemma_deserializer_depth;

/// The deepest nesting of arrays and objects that the parser accepts.
pub const RECURSION_LIMIT: u32 = 128;

/// One step of the functional parser: the parsed item and the position after
/// it, or the error the input earns.
pub ghost enum PStep<T> {
    /// The parsed item and the position after it.
    Parsed(T, int),
    /// The error the input earns.
    Failed(Error),
}

/// The byte is JSON whitespace.
pub open spec fn is_ws(b: u8) -> bool {
    b == 32 || b == 9 || b == 10 || b == 13
}

/// The position of the first byte at or after `i` that is not whitespace.
pub open spec fn spec_skip_ws(s: Seq<u8>, i: int) -> int
    decreases s.len() - i when 0 <= i <= s.len()
{
    if i < s.len() && is_ws(s[i]) {
        spec_skip_ws(s, i + 1)
    } else {
        i
    }
}

/// Skipping whitespace stays inside the input and lands on the first byte
/// that is not whitespace.
pub proof fn lemma_skip_ws(s: Seq<u8>, i: int)
    requires
        0 <= i <= s.len(),
    ensures
        i <= spec_skip_ws(s, i) <= s.len(),
        spec_skip_ws(s, i) == s.len() || !is_ws(s[spec_skip_ws(s, i)]),
        forall|j: int| i <= j < spec_skip_ws(s, i) ==> is_ws(#[trigger] s[j]),
    decreases s.len() - i,
{
    if i < s.len() && is_ws(s[i]) {
        lemma_skip_ws(s, i + 1);
    }
}

/// Over a window of whitespace that ends at a byte that is none, or at the
/// end of the input, skipping whitespace lands exactly at the window's end.
proof fn lemma_skip_ws_window(s: Seq<u8>, i: int, e: int)
    requires
        0 <= i <= e <= s.len(),
        forall|j: int| i <= j < e ==> is_ws(#[trigger] s[j]),
        e == s.len() || !is_ws(s[e]),
    ensures
        spec_skip_ws(s, i) == e,
    decreases e - i,
{
    if i < e {
        lemma_skip_ws_window(s, i + 1, e);
    }
}

/// The error earned by an unexpected byte at position `i`: the position, and
/// the character found there.  Where the bytes at `i` are not the UTF-8 of
/// one character, the input is flagged as ill-formed UTF-8 instead.
#[verifier::opaque]
pub open spec fn spec_err_char(s: Seq<u8>, i: int) -> Error {
    let line = line_of(s.take(i));
    let col = col_of(s.take(i));
    let rest = s.skip(i);
    if rest.len() > 0 && vstd::utf8::valid_first_scalar(rest) {
        Error::Parsing(
            ParseError::UnexpectedCharacter(
                line as usize,
                col as usize,
                vstd::utf8::decode_first_scalar(rest) as char,
            ),
        )
    } else {
        Error::Parsing(ParseError::InvalidUtf8Bytes(line as usize))
    }
}

/// The error earned by input that ends where more was expected.
#[verifier::opaque]
pub open spec fn spec_err_eoj(s: Seq<u8>, i: int) -> Error {
    Error::Parsing(ParseError::UnexpectedEndOfJson(line_of(s.take(i)) as usize))
}

/// The functional scan of one number starting at `i` (no leading
/// whitespace): sign, integer part, optional fraction and exponent, then
/// classification.  Integers overflowing their target type fail as
/// number-parse errors; a literal with a fraction or exponent is kept as its
/// own bytes, which must spell a complete float literal.
#[verifier::opaque]
pub open spec fn spec_parse_number(s: Seq<u8>, i: int) -> PStep<NumberView> {
    let neg = i < s.len() && s[i] == 45;
    let j = if neg {
        i + 1
    } else {
        i
    };
    if j >= s.len() {
        PStep::Failed(spec_err_eoj(s, j))
    } else if !is_digit(s[j]) {
        PStep::Failed(spec_err_char(s, j))
    } else {
        let int_end = if s[j] == 48 {
            j + 1
        } else {
            j + digit_run(s, j)
        };
        if int_end < s.len() && s[int_end] == 46 && (int_end + 1 >= s.len() || !is_digit(
            s[int_end + 1],
        )) {
            if int_end + 1 >= s.len() {
                PStep::Failed(spec_err_eoj(s, int_end + 1))
            } else {
                PStep::Failed(spec_err_char(s, int_end + 1))
            }
        } else {
            let has_frac = int_end < s.len() && s[int_end] == 46;
            let frac_end = if has_frac {
                int_end + 1 + digit_run(s, int_end + 1)
            } else {
                int_end
            };
            let has_exp = frac_end < s.len() && (s[frac_end] == 101 || s[frac_end] == 69);
            if !has_exp {
                spec_classify_number(s, i, neg, j, int_end, has_frac, frac_end, frac_end)
            } else {
                let sign_end = if frac_end + 1 < s.len() && (s[frac_end + 1] == 45 || s[frac_end
                    + 1] == 43) {
                    frac_end + 2
                } else {
                    frac_end + 1
                };
                if sign_end >= s.len() && frac_end + 1 >= s.len() {
                    PStep::Failed(spec_err_eoj(s, frac_end + 1))
                } else if sign_end >= s.len() {
                    PStep::Failed(spec_err_eoj(s, sign_end))
                } else if !is_digit(s[sign_end]) {
                    PStep::Failed(spec_err_char(s, sign_end))
                } else {
                    let exp_end = sign_end + digit_run(s, sign_end);
                    spec_classify_number(s, i, neg, j, int_end, has_frac, frac_end, exp_end)
                }
            }
        }
    }
}


/// The shape hypotheses an executed number scan gathers, and what the
/// functional scan concludes from them.
pub proof fn lemma_number_scan(
    s: Seq<u8>,
    i: int,
    neg: bool,
    j: int,
    int_end: int,
    has_frac: bool,
    frac_end: int,
    has_exp: bool,
    sign_end: int,
    end: int,
)
    requires
        0 <= i <= s.len(),
        neg == (i < s.len() && s[i] == 45),
        j == if neg { i + 1 } else { i },
        j < s.len(),
        is_digit(s[j]),
        int_end == if s[j] == 48 { j + 1 } else { j + digit_run(s, j) },
        has_frac == (int_end < s.len() && s[int_end] == 46),
        has_frac ==> int_end + 1 < s.len() && is_digit(s[int_end + 1]),
        frac_end == if has_frac { int_end + 1 + digit_run(s, int_end + 1) } else { int_end },
        has_exp == (frac_end < s.len() && (s[frac_end] == 101 || s[frac_end] == 69)),
        has_exp ==> sign_end == (if frac_end + 1 < s.len() && (s[frac_end + 1] == 45 || s[frac_end
            + 1] == 43) { frac_end + 2 } else { frac_end + 1 }) && sign_end < s.len() && is_digit(
            s[sign_end],
        ),
        end == if has_exp { sign_end + digit_run(s, sign_end) } else { frac_end },
    ensures
        spec_parse_number(s, i) == spec_classify_number(
            s, i, neg, j, int_end, has_frac, frac_end, end,
        ),
{
    reveal(spec_parse_number);
    lemma_digit_run_bounds(s, j);
    if has_frac {
        lemma_digit_run_bounds(s, int_end + 1);
    }
    if has_exp {
        lemma_digit_run_bounds(s, sign_end);
    }
}

/// What the functional scan concludes when the input ends before the first
/// digit.
pub proof fn lemma_number_eoj_start(s: Seq<u8>, i: int, neg: bool, j: int)
    requires
        0 <= i <= s.len(),
        neg == (i < s.len() && s[i] == 45),
        j == if neg { i + 1 } else { i },
        j >= s.len(),
    ensures
        spec_parse_number(s, i) == PStep::<NumberView>::Failed(spec_err_eoj(s, j)),
{
    reveal(spec_parse_number);
}

/// What the functional scan concludes when the first byte after the optional
/// sign is no digit.
pub proof fn lemma_number_char_start(s: Seq<u8>, i: int, neg: bool, j: int)
    requires
        0 <= i <= s.len(),
        neg == (i < s.len() && s[i] == 45),
        j == if neg { i + 1 } else { i },
        j < s.len(),
        !is_digit(s[j]),
    ensures
        spec_parse_number(s, i) == PStep::<NumberView>::Failed(spec_err_char(s, j)),
{
    reveal(spec_parse_number);
}

/// What the functional scan concludes when a decimal point is not followed
/// by a digit.
pub proof fn lemma_number_bad_frac(s: Seq<u8>, i: int, neg: bool, j: int, int_end: int)
    requires
        0 <= i <= s.len(),
        neg == (i < s.len() && s[i] == 45),
        j == if neg { i + 1 } else { i },
        j < s.len(),
        is_digit(s[j]),
        int_end == if s[j] == 48 { j + 1 } else { j + digit_run(s, j) },
        int_end < s.len() && s[int_end] == 46,
        int_end + 1 >= s.len() || !is_digit(s[int_end + 1]),
    ensures
        spec_parse_number(s, i) == PStep::<NumberView>::Failed(
            if int_end + 1 >= s.len() {
                spec_err_eoj(s, int_end + 1)
            } else {
                spec_err_char(s, int_end + 1)
            },
        ),
{
    reveal(spec_parse_number);
}

/// What the functional scan concludes when an exponent marker is not
/// followed by a digit.
pub proof fn lemma_number_bad_exp(
    s: Seq<u8>,
    i: int,
    neg: bool,
    j: int,
    int_end: int,
    has_frac: bool,
    frac_end: int,
    sign_end: int,
)
    requires
        0 <= i <= s.len(),
        neg == (i < s.len() && s[i] == 45),
        j == if neg { i + 1 } else { i },
        j < s.len(),
        is_digit(s[j]),
        int_end == if s[j] == 48 { j + 1 } else { j + digit_run(s, j) },
        has_frac == (int_end < s.len() && s[int_end] == 46),
        has_frac ==> int_end + 1 < s.len() && is_digit(s[int_end + 1]),
        frac_end == if has_frac { int_end + 1 + digit_run(s, int_end + 1) } else { int_end },
        frac_end < s.len() && (s[frac_end] == 101 || s[frac_end] == 69),
        sign_end == if frac_end + 1 < s.len() && (s[frac_end + 1] == 45 || s[frac_end + 1] == 43) {
            frac_end + 2
        } else {
            frac_end + 1
        },
        sign_end >= s.len() || !is_digit(s[sign_end]),
    ensures
        spec_parse_number(s, i) == PStep::<NumberView>::Failed(
            if frac_end + 1 >= s.len() {
                spec_err_eoj(s, frac_end + 1)
            } else if sign_end >= s.len() {
                spec_err_eoj(s, sign_end)
            } else {
                spec_err_char(s, sign_end)
            },
        ),
{
    reveal(spec_parse_number);
    lemma_digit_run_bounds(s, j);
    if has_frac {
        lemma_digit_run_bounds(s, int_end + 1);
    }
}

/// Classifies a scanned number span: no sign, fraction or exponent parses as
/// unsigned; a bare sign parses as signed; anything with a fraction or
/// exponent keeps its literal bytes as a float.
pub open spec fn spec_classify_number(
    s: Seq<u8>,
    start: int,
    neg: bool,
    int_start: int,
    int_end: int,
    has_frac: bool,
    frac_end: int,
    end: int,
) -> PStep<NumberView> {
    if !neg && !has_frac && end == int_end {
        let v = dec_value(s.subrange(int_start, int_end));
        if v > u64::MAX {
            PStep::Failed(Error::ParseNumber)
        } else {
            PStep::Parsed(NumberView::Unsigned(v as u64), end)
        }
    } else if neg && !has_frac && end == int_end {
        let v = dec_value(s.subrange(int_start, int_end));
        if -v < i64::MIN {
            PStep::Failed(Error::ParseNumber)
        } else {
            PStep::Parsed(NumberView::Signed((-v) as i64), end)
        }
    } else {
        let sub = s.subrange(start, end);
        if is_float_literal(sub) {
            PStep::Parsed(NumberView::Float(sub), end)
        } else {
            PStep::Failed(Error::ParseNumber)
        }
    }
}

/// The functional match of an expected literal suffix, byte for byte.
pub open spec fn spec_match_lit(s: Seq<u8>, i: int, lit: Seq<u8>) -> PStep<()>
    decreases lit.len(),
{
    if lit.len() == 0 {
        PStep::Parsed((), i)
    } else if i >= s.len() {
        PStep::Failed(spec_err_eoj(s, i))
    } else if s[i] != lit[0] {
        PStep::Failed(spec_err_char(s, i))
    } else {
        spec_match_lit(s, i + 1, lit.skip(1))
    }
}

/// The value of one hexadecimal digit byte, if it is one.
pub open spec fn hex_val(b: u8) -> Option<u32> {
    if 48 <= b && b <= 57 {
        Some((b - 48) as u32)
    } else if 97 <= b && b <= 102 {
        Some((b - 87) as u32)
    } else if 65 <= b && b <= 70 {
        Some((b - 55) as u32)
    } else {
        None
    }
}

/// The functional read of four hexadecimal digits at `i`.
pub open spec fn spec_hex4(s: Seq<u8>, i: int) -> PStep<u32>
    decreases 4int,
{
    spec_hexn(s, i, 4, 0)
}

/// The functional read of `n` more hexadecimal digits, with `acc` already
/// read.
pub open spec fn spec_hexn(s: Seq<u8>, i: int, n: int, acc: u32) -> PStep<u32>
    decreases n,
{
    if n <= 0 {
        PStep::Parsed(acc, i)
    } else if i >= s.len() {
        PStep::Failed(spec_err_eoj(s, i))
    } else {
        match hex_val(s[i]) {
            Some(d) => spec_hexn(s, i + 1, n - 1, (acc * 16 + d) as u32),
            None => PStep::Failed(spec_err_char(s, i)),
        }
    }
}

/// The functional read of one `\u` escape body at `i` (after the `u`): four
/// hex digits, and for a leading surrogate a second `\uXXXX` that must
/// complete the pair.  The result is the scalar value the escape denotes.
pub open spec fn spec_unicode(s: Seq<u8>, i: int) -> PStep<u32> {
    match spec_hex4(s, i) {
        PStep::Failed(e) => PStep::Failed(e),
        PStep::Parsed(u1, j) => if !(0xD800 <= u1 <= 0xDFFF) {
            PStep::Parsed(u1, j)
        } else {
            match spec_match_lit(s, j, seq![92u8, 117u8]) {
                PStep::Failed(e) => PStep::Failed(e),
                PStep::Parsed(_, k) => match spec_hex4(s, k) {
                    PStep::Failed(e) => PStep::Failed(e),
                    PStep::Parsed(u2, m) => if 0xD800 <= u1 <= 0xDBFF && 0xDC00 <= u2 <= 0xDFFF {
                        PStep::Parsed((0x10000 + ((u1 - 0xD800) * 0x400) + (u2 - 0xDC00)) as u32, m)
                    } else {
                        PStep::Failed(Error::Utf8Transform)
                    },
                },
            }
        },
    }
}

/// The functional read of one escape at `i` (after the backslash): the
/// bytes it denotes and the position after it.
pub open spec fn spec_escape_body(s: Seq<u8>, i: int) -> PStep<Seq<u8>> {
    if i >= s.len() {
        PStep::Failed(spec_err_eoj(s, i))
    } else {
        let e = s[i];
        if e == 34 || e == 92 || e == 47 {
            PStep::Parsed(seq![e], i + 1)
        } else if e == 98 {
            PStep::Parsed(seq![8u8], i + 1)
        } else if e == 102 {
            PStep::Parsed(seq![12u8], i + 1)
        } else if e == 110 {
            PStep::Parsed(seq![10u8], i + 1)
        } else if e == 114 {
            PStep::Parsed(seq![13u8], i + 1)
        } else if e == 116 {
            PStep::Parsed(seq![9u8], i + 1)
        } else if e == 117 {
            match spec_unicode(s, i + 1) {
                PStep::Failed(er) => PStep::Failed(er),
                PStep::Parsed(u, j) => PStep::Parsed(vstd::utf8::encode_scalar(u), j),
            }
        } else {
            PStep::Failed(spec_err_char(s, i))
        }
    }
}

/// The functional read of the body of a string at `i` (after the opening
/// quote), accumulating decoded bytes: plain bytes pass through, escapes map
/// to the bytes they denote; an unescaped control byte is an error.  The
/// step ends after the closing quote.
pub open spec fn spec_string_bytes(s: Seq<u8>, i: int, acc: Seq<u8>) -> PStep<Seq<u8>>
    decreases s.len() - i when 0 <= i
{
    if i >= s.len() {
        PStep::Failed(spec_err_eoj(s, i))
    } else if s[i] == 34 {
        PStep::Parsed(acc, i + 1)
    } else if s[i] == 92 {
        match spec_escape_body(s, i + 1) {
            PStep::Failed(er) => PStep::Failed(er),
            PStep::Parsed(bs, j) => if i + 1 < j <= s.len() {
                spec_string_bytes(s, j, acc + bs)
            } else {
                PStep::Failed(Error::Utf8Transform)
            },
        }
    } else if s[i] < 32 {
        PStep::Failed(spec_err_char(s, i))
    } else {
        spec_string_bytes(s, i + 1, acc + seq![s[i]])
    }
}

/// Reads of the functional parser only move forward: a hexadecimal read of
/// `n` digits ends exactly `n` bytes further.
pub proof fn lemma_hexn_advances(s: Seq<u8>, i: int, n: int, acc: u32)
    requires
        0 <= i,
        0 <= n,
    ensures
        spec_hexn(s, i, n, acc) matches PStep::Parsed(_, j) ==> j == i + n,
    decreases n,
{
    if n > 0 && i < s.len() && hex_val(s[i]) is Some {
        lemma_hexn_advances(s, i + 1, n - 1, (acc * 16 + hex_val(s[i]).unwrap()) as u32);
    }
}

/// A matched literal only moves forward.
pub proof fn lemma_match_advances(s: Seq<u8>, i: int, lit: Seq<u8>)
    ensures
        spec_match_lit(s, i, lit) matches PStep::Parsed(_, j) ==> j == i + lit.len(),
    decreases lit.len(),
{
    if lit.len() > 0 && i < s.len() && s[i] == lit[0] {
        lemma_match_advances(s, i + 1, lit.skip(1));
    }
}

/// A read escape body only moves forward.
pub proof fn lemma_unicode_advances(s: Seq<u8>, i: int)
    requires
        0 <= i,
    ensures
        spec_unicode(s, i) matches PStep::Parsed(_, j) ==> j > i,
{
    lemma_hexn_advances(s, i, 4, 0);
    match spec_hex4(s, i) {
        PStep::Parsed(u1, j) => {
            if 0xD800 <= u1 <= 0xDFFF {
                lemma_match_advances(s, j, seq![92u8, 117u8]);
                match spec_match_lit(s, j, seq![92u8, 117u8]) {
                    PStep::Parsed(_, k) => {
                        lemma_hexn_advances(s, k, 4, 0);
                    },
                    PStep::Failed(_) => {},
                }
            }
        },
        PStep::Failed(_) => {},
    }
}


/// The state of a container being parsed: at its start, after a comma, or
/// after a value.
pub enum CState {
    Start,
    AfterComma,
    NoComma,
}

/// The functional parse of one value at `i`: leading whitespace, then a
/// dispatch on the first byte.  Entering an array or object counts one level
/// of nesting against the recursion limit.
pub open spec fn spec_parse_value(s: Seq<u8>, i: int, depth: int) -> PStep<ValueView>
    decreases s.len() - i, 0int when 0 <= i <= s.len()
{
    let j = spec_skip_ws(s, i);
    if !(i <= j <= s.len()) {
        PStep::Failed(Error::Parsing(ParseError::ParsingUnfinished))
    } else if j >= s.len() {
        PStep::Failed(spec_err_eoj(s, j))
    } else {
        let b = s[j];
        if is_digit(b) || b == 45 {
            match spec_parse_number(s, j) {
                PStep::Parsed(n, k) => PStep::Parsed(ValueView::Number(n), k),
                PStep::Failed(e) => PStep::Failed(e),
            }
        } else if b == 123 {
            if depth + 1 > RECURSION_LIMIT {
                PStep::Failed(Error::ExceedRecursionLimit)
            } else {
                match spec_object_items(s, j + 1, depth + 1, Seq::empty(), CState::Start) {
                    PStep::Parsed(pairs, k) => PStep::Parsed(ValueView::Object(pairs), k),
                    PStep::Failed(e) => PStep::Failed(e),
                }
            }
        } else if b == 91 {
            if depth + 1 > RECURSION_LIMIT {
                PStep::Failed(Error::ExceedRecursionLimit)
            } else {
                match spec_array_items(s, j + 1, depth + 1, Seq::empty(), CState::Start) {
                    PStep::Parsed(elems, k) => PStep::Parsed(ValueView::Array(elems), k),
                    PStep::Failed(e) => PStep::Failed(e),
                }
            }
        } else if b == 34 {
            match spec_string_bytes(s, j + 1, Seq::empty()) {
                PStep::Failed(e) => PStep::Failed(e),
                PStep::Parsed(bytes, k) => if vstd::utf8::valid_utf8(bytes) {
                    PStep::Parsed(ValueView::String(vstd::utf8::decode_utf8(bytes)), k)
                } else {
                    PStep::Failed(Error::Utf8Transform)
                },
            }
        } else if b == 116 {
            match spec_match_lit(s, j + 1, seq![114u8, 117u8, 101u8]) {
                PStep::Parsed(_, k) => PStep::Parsed(ValueView::Boolean(true), k),
                PStep::Failed(e) => PStep::Failed(e),
            }
        } else if b == 102 {
            match spec_match_lit(s, j + 1, seq![97u8, 108u8, 115u8, 101u8]) {
                PStep::Parsed(_, k) => PStep::Parsed(ValueView::Boolean(false), k),
                PStep::Failed(e) => PStep::Failed(e),
            }
        } else if b == 110 {
            match spec_match_lit(s, j + 1, seq![117u8, 108u8, 108u8]) {
                PStep::Parsed(_, k) => PStep::Parsed(ValueView::Null, k),
                PStep::Failed(e) => PStep::Failed(e),
            }
        } else {
            PStep::Failed(spec_err_char(s, j))
        }
    }
}

/// The functional parse of the remaining elements of an array, with the
/// elements already parsed in `acc` and the container state `st`.
pub open spec fn spec_array_items(
    s: Seq<u8>,
    i: int,
    depth: int,
    acc: Seq<ValueView>,
    st: CState,
) -> PStep<Seq<ValueView>>
    decreases s.len() - i, 1int when 0 <= i <= s.len()
{
    let j = spec_skip_ws(s, i);
    if !(i <= j <= s.len()) {
        PStep::Failed(Error::Parsing(ParseError::ParsingUnfinished))
    } else if j >= s.len() {
        PStep::Failed(spec_err_eoj(s, j))
    } else {
        let b = s[j];
        if b == 93 && !(st is AfterComma) {
            PStep::Parsed(acc, j + 1)
        } else if b == 93 {
            PStep::Failed(
                Error::Parsing(
                    ParseError::TrailingComma(
                        line_of(s.take(j)) as usize,
                        col_of(s.take(j)) as usize,
                    ),
                ),
            )
        } else if st is NoComma {
            if b == 44 {
                spec_array_items(s, j + 1, depth, acc, CState::AfterComma)
            } else {
                PStep::Failed(
                    Error::Parsing(
                        ParseError::MissingComma(
                            line_of(s.take(j)) as usize,
                            col_of(s.take(j)) as usize,
                        ),
                    ),
                )
            }
        } else {
            match spec_parse_value(s, j, depth) {
                PStep::Failed(e) => PStep::Failed(e),
                PStep::Parsed(v, ni) => if j < ni <= s.len() {
                    spec_array_items(s, ni, depth, acc.push(v), CState::NoComma)
                } else {
                    PStep::Failed(Error::Parsing(ParseError::ParsingUnfinished))
                },
            }
        }
    }
}

/// The functional parse of the remaining pairs of an object, with the pairs
/// already parsed in `acc` and the container state `st`.
pub open spec fn spec_object_items(
    s: Seq<u8>,
    i: int,
    depth: int,
    acc: Seq<(Seq<char>, ValueView)>,
    st: CState,
) -> PStep<Seq<(Seq<char>, ValueView)>>
    decreases s.len() - i, 1int when 0 <= i <= s.len()
{
    let j = spec_skip_ws(s, i);
    if !(i <= j <= s.len()) {
        PStep::Failed(Error::Parsing(ParseError::ParsingUnfinished))
    } else if j >= s.len() {
        PStep::Failed(spec_err_eoj(s, j))
    } else {
        let b = s[j];
        if b == 125 && !(st is AfterComma) {
            PStep::Parsed(acc, j + 1)
        } else if b == 125 {
            PStep::Failed(
                Error::Parsing(
                    ParseError::TrailingComma(
                        line_of(s.take(j)) as usize,
                        col_of(s.take(j)) as usize,
                    ),
                ),
            )
        } else if st is NoComma {
            if b == 44 {
                spec_object_items(s, j + 1, depth, acc, CState::AfterComma)
            } else {
                PStep::Failed(
                    Error::Parsing(
                        ParseError::MissingComma(
                            line_of(s.take(j)) as usize,
                            col_of(s.take(j)) as usize,
                        ),
                    ),
                )
            }
        } else if b != 34 {
            PStep::Failed(spec_err_char(s, j))
        } else {
            match spec_string_bytes(s, j + 1, Seq::empty()) {
                PStep::Failed(e) => PStep::Failed(e),
                PStep::Parsed(kbytes, k2) => if !vstd::utf8::valid_utf8(kbytes) {
                    PStep::Failed(Error::Utf8Transform)
                } else if !(j + 1 < k2 <= s.len()) {
                    PStep::Failed(Error::Parsing(ParseError::ParsingUnfinished))
                } else {
                    let c = spec_skip_ws(s, k2);
                    if !(k2 <= c <= s.len()) {
                        PStep::Failed(Error::Parsing(ParseError::ParsingUnfinished))
                    } else if c >= s.len() {
                        PStep::Failed(spec_err_eoj(s, c))
                    } else if s[c] != 58 {
                        PStep::Failed(
                            Error::Parsing(
                                ParseError::MissingColon(
                                    line_of(s.take(c)) as usize,
                                    col_of(s.take(c)) as usize,
                                ),
                            ),
                        )
                    } else {
                        match spec_parse_value(s, c + 1, depth) {
                            PStep::Failed(e) => PStep::Failed(e),
                            PStep::Parsed(v, ni) => if c + 1 <= ni <= s.len() {
                                spec_object_items(
                                    s,
                                    ni,
                                    depth,
                                    acc.push((vstd::utf8::decode_utf8(kbytes), v)),
                                    CState::NoComma,
                                )
                            } else {
                                PStep::Failed(Error::Parsing(ParseError::ParsingUnfinished))
                            },
                        }
                    }
                },
            }
        }
    }
}

/// The functional parse of a whole document from position `i`: one value,
/// then only whitespace to the end.
pub open spec fn spec_parse_at(s: Seq<u8>, i: int, depth: int) -> Result<ValueView, Error> {
    match spec_parse_value(s, i, depth) {
        PStep::Failed(e) => Err(e),
        PStep::Parsed(v, k) => if !(0 <= k <= s.len()) {
            Err(Error::Parsing(ParseError::ParsingUnfinished))
        } else {
            let j = spec_skip_ws(s, k);
            if j < s.len() {
                Err(Error::Parsing(ParseError::TrailingBytes(line_of(s.take(j)) as usize)))
            } else {
                Ok(v)
            }
        },
    }
}

/// The functional parse of a whole document.
pub open spec fn spec_parse(s: Seq<u8>) -> Result<ValueView, Error> {
    spec_parse_at(s, 0, 0)
}

/// Skips whitespace and hands back the first byte that is none, without
/// consuming it.
pub fn eat_ws<R: BytesReader>(reader: &mut R) -> (r: Result<Option<u8>, Error>)
    requires
        old(reader).wf(),
    ensures
        final(reader).wf(),
        final(reader).input() == old(reader).input(),
        final(reader).can_err() == old(reader).can_err(),
        final(reader).cache_start() == old(reader).cache_start(),
        old(reader).pos() <= final(reader).pos() <= final(reader).input().len(),
        match r {
            Ok(Some(b)) => {
                &&& final(reader).pos() == spec_skip_ws(old(reader).input(), old(reader).pos())
                &&& final(reader).pos() < final(reader).input().len()
                &&& final(reader).input()[final(reader).pos()] == b
                &&& !is_ws(b)
                &&& final(reader).ready()
            },
            Ok(None) => {
                &&& final(reader).pos() == spec_skip_ws(old(reader).input(), old(reader).pos())
                &&& final(reader).pos() == final(reader).input().len()
                &&& final(reader).ready()
            },
            Err(e) => old(reader).can_err() && (e is Io || e is Reader),
        },
{
    proof {
        reader.lemma_wf();
    }
    loop
        invariant
            reader.wf(),
            reader.input() == old(reader).input(),
            reader.can_err() == old(reader).can_err(),
            reader.cache_start() == old(reader).cache_start(),
            0 <= old(reader).pos() <= reader.pos() <= reader.input().len(),
            spec_skip_ws(reader.input(), old(reader).pos()) == spec_skip_ws(
                reader.input(),
                reader.pos(),
            ),
        decreases reader.input().len() - reader.pos(),
    {
        let peeked = reader.peek();
        match peeked {
            Ok(Some(b)) => {
                if b == 32 || b == 9 || b == 10 || b == 13 {
                    reader.discard();
                } else {
                    return Ok(Some(b));
                }
            },
            Ok(None) => {
                return Ok(None);
            },
            Err(e) => {
                return Err(e);
            },
        }
    }
}

/// Builds the error for an unexpected byte at the current position, reading
/// the character that stands there for the report.
fn take_err_char<R: BytesReader>(reader: &mut R) -> (e: Error)
    requires
        old(reader).wf(),
    ensures
        final(reader).wf(),
        final(reader).input() == old(reader).input(),
        final(reader).can_err() == old(reader).can_err(),
        final(reader).cache_start() == old(reader).cache_start(),
        e == spec_err_char(old(reader).input(), old(reader).pos()) || ((e is Io || e is Reader)
            && old(reader).can_err()),
{
    let ghost s = old(reader).input();
    let ghost i = old(reader).pos();
    let ghost rest = s.skip(i);
    proof {
        reveal(spec_err_char);
        reader.lemma_wf();
    }
    let position = reader.position();
    let line = position.line();
    let col = position.column();
    proof {
        crate::reader::lemma_pos_bounds(s.take(i));
    }
    let b1 = match reader.next() {
        Ok(Some(b)) => b,
        Ok(None) => {
            return Error::Parsing(ParseError::InvalidUtf8Bytes(line));
        },
        Err(er) => {
            return er;
        },
    };
    proof {
        assert(rest[0] == b1);
    }
    if b1 <= 0x7f {
        proof {
            assert(b1 & 0x7f == b1) by (bit_vector)
                requires
                    b1 <= 0x7f,
            ;
            assert(vstd::utf8::decode_first_codepoint(rest) == b1 as u32);
            assert(vstd::utf8::valid_first_scalar(rest));
        }
        let c = match char_from_u32(b1 as u32) {
            Some(c) => c,
            None => {
                proof {
                    assert(false);
                }
                vstd::pervasive::unreached()
            },
        };
        return Error::Parsing(ParseError::UnexpectedCharacter(line, col, c));
    }
    if !(0xc0 <= b1 && b1 <= 0xf7) {
        proof {
            assert(!vstd::utf8::valid_first_scalar(rest));
        }
        return Error::Parsing(ParseError::InvalidUtf8Bytes(line));
    }
    let b2 = match reader.next() {
        Ok(Some(b)) => b,
        Ok(None) => {
            proof {
                assert(rest.len() == 1);
                assert(!vstd::utf8::valid_leading_and_continuation_bytes_first_codepoint(rest));
            }
            return Error::Parsing(ParseError::InvalidUtf8Bytes(line));
        },
        Err(er) => {
            return er;
        },
    };
    proof {
        assert(rest[1] == b2);
    }
    if !(0x80 <= b2 && b2 <= 0xbf) {
        proof {
            assert(!vstd::utf8::valid_first_scalar(rest));
        }
        return Error::Parsing(ParseError::InvalidUtf8Bytes(line));
    }
    if b1 <= 0xdf {
        let cp = (((b1 & 0x1f) as u32) << 6u32) | ((b2 & 0x3f) as u32);
        proof {
            assert(cp == vstd::utf8::codepoint_width_2(b1, b2));
            assert(vstd::utf8::decode_first_codepoint(rest) == cp);
            assert(cp <= 0x7ff) by (bit_vector)
                requires
                    cp == (((b1 & 0x1f) as u32) << 6u32) | ((b2 & 0x3f) as u32),
            ;
        }
        if cp < 0x80 {
            return Error::Parsing(ParseError::InvalidUtf8Bytes(line));
        }
        let c = match char_from_u32(cp) {
            Some(c) => c,
            None => {
                proof {
                    assert(false);
                }
                vstd::pervasive::unreached()
            },
        };
        return Error::Parsing(ParseError::UnexpectedCharacter(line, col, c));
    }
    let b3 = match reader.next() {
        Ok(Some(b)) => b,
        Ok(None) => {
            proof {
                assert(rest.len() == 2);
                assert(!vstd::utf8::is_leading_byte_width_1(rest[0]));
                assert(!vstd::utf8::is_leading_byte_width_2(rest[0]));
                assert(!vstd::utf8::valid_leading_and_continuation_bytes_first_codepoint(rest));
            }
            return Error::Parsing(ParseError::InvalidUtf8Bytes(line));
        },
        Err(er) => {
            return er;
        },
    };
    proof {
        assert(rest[2] == b3);
    }
    if !(0x80 <= b3 && b3 <= 0xbf) {
        proof {
            assert(!vstd::utf8::valid_first_scalar(rest));
        }
        return Error::Parsing(ParseError::InvalidUtf8Bytes(line));
    }
    if b1 <= 0xef {
        let cp = (((b1 & 0x0f) as u32) << 12u32) | (((b2 & 0x3f) as u32) << 6u32) | ((b3
            & 0x3f) as u32);
        proof {
            assert(cp == vstd::utf8::codepoint_width_3(b1, b2, b3));
            assert(vstd::utf8::decode_first_codepoint(rest) == cp);
            assert(cp <= 0xffff) by (bit_vector)
                requires
                    cp == (((b1 & 0x0f) as u32) << 12u32) | (((b2 & 0x3f) as u32) << 6u32) | ((b3
                        & 0x3f) as u32),
            ;
        }
        if cp < 0x800 || (0xd800 <= cp && cp <= 0xdfff) {
            return Error::Parsing(ParseError::InvalidUtf8Bytes(line));
        }
        proof {
            assert(vstd::utf8::length_of_first_codepoint(rest) == 3);
            assert(vstd::utf8::valid_first_scalar(rest));
        }
        let c = match char_from_u32(cp) {
            Some(c) => c,
            None => {
                proof {
                    assert(false);
                }
                vstd::pervasive::unreached()
            },
        };
        return Error::Parsing(ParseError::UnexpectedCharacter(line, col, c));
    }
    let b4 = match reader.next() {
        Ok(Some(b)) => b,
        Ok(None) => {
            proof {
                assert(rest.len() == 3);
                assert(!vstd::utf8::is_leading_byte_width_1(rest[0]));
                assert(!vstd::utf8::is_leading_byte_width_2(rest[0]));
                assert(!vstd::utf8::is_leading_byte_width_3(rest[0]));
                assert(!vstd::utf8::valid_leading_and_continuation_bytes_first_codepoint(rest));
            }
            return Error::Parsing(ParseError::InvalidUtf8Bytes(line));
        },
        Err(er) => {
            return er;
        },
    };
    proof {
        assert(rest[3] == b4);
    }
    if !(0x80 <= b4 && b4 <= 0xbf) {
        proof {
            assert(!vstd::utf8::valid_first_scalar(rest));
        }
        return Error::Parsing(ParseError::InvalidUtf8Bytes(line));
    }
    let cp = (((b1 & 0x07) as u32) << 18u32) | (((b2 & 0x3f) as u32) << 12u32) | (((b3
        & 0x3f) as u32) << 6u32) | ((b4 & 0x3f) as u32);
    proof {
        assert(cp == vstd::utf8::codepoint_width_4(b1, b2, b3, b4));
        assert(vstd::utf8::decode_first_codepoint(rest) == cp);
        assert(cp > 0xffff ==> !(0xd800 <= cp && cp <= 0xdfff));
    }
    if !(0x10000 <= cp && cp <= 0x10ffff) {
        proof {
            assert(vstd::utf8::length_of_first_codepoint(rest) == 4);
            assert(!vstd::utf8::valid_first_scalar(rest));
        }
        return Error::Parsing(ParseError::InvalidUtf8Bytes(line));
    }
    proof {
        assert(vstd::utf8::length_of_first_codepoint(rest) == 4);
        assert(vstd::utf8::valid_first_scalar(rest));
    }
    let c = match char_from_u32(cp) {
        Some(c) => c,
        None => {
            proof {
                assert(false);
            }
            vstd::pervasive::unreached()
        },
    };
    Error::Parsing(ParseError::UnexpectedCharacter(line, col, c))
}

/// Relies on `char::from_u32`: it answers `Some` exactly on Unicode scalar
/// values, as the character with that value.
#[verifier::external_body]
fn char_from_u32(u: u32) -> (r: Option<char>)
    ensures
        match r {
            Some(c) => vstd::utf8::is_scalar(u) && c == (u as char) && c as u32 == u,
            None => !vstd::utf8::is_scalar(u),
        },
{
    char::from_u32(u)
}

/// The error for input that ends at the current position.
fn take_err_eoj<R: BytesReader>(reader: &mut R) -> (e: Error)
    requires
        old(reader).wf(),
    ensures
        final(reader).wf(),
        final(reader).input() == old(reader).input(),
        final(reader).pos() == old(reader).pos(),
        final(reader).can_err() == old(reader).can_err(),
        final(reader).cache_start() == old(reader).cache_start(),
        final(reader).ready() == old(reader).ready(),
        e == spec_err_eoj(old(reader).input(), old(reader).pos()),
{
    proof {
        reveal(spec_err_eoj);
        crate::reader::lemma_pos_bounds(old(reader).input().take(old(reader).pos()));
    }
    let position = reader.position();
    Error::Parsing(ParseError::UnexpectedEndOfJson(position.line()))
}

/// Matches the expected literal bytes one by one, consuming them.
pub fn match_lit<R: BytesReader>(reader: &mut R, lit: &[u8]) -> (r: Result<(), Error>)
    requires
        old(reader).wf(),
    ensures
        final(reader).wf(),
        final(reader).input() == old(reader).input(),
        final(reader).can_err() == old(reader).can_err(),
        final(reader).cache_start() == old(reader).cache_start(),
        match r {
            Ok(_) => spec_match_lit(old(reader).input(), old(reader).pos(), lit@)
                == PStep::<()>::Parsed((), final(reader).pos())
                && final(reader).pos() == old(reader).pos() + lit@.len()
                && final(reader).pos() <= final(reader).input().len(),
            Err(e) => ((e is Io || e is Reader) && old(reader).can_err()) || spec_match_lit(
                old(reader).input(),
                old(reader).pos(),
                lit@,
            ) == PStep::<()>::Failed(e),
        },
{
    proof {
        reader.lemma_wf();
        assert(lit@.skip(0) =~= lit@);
    }
    let n = lit.len();
    let mut k: usize = 0;
    while k < n
        invariant
            reader.wf(),
            reader.input() == old(reader).input(),
            reader.can_err() == old(reader).can_err(),
            reader.cache_start() == old(reader).cache_start(),
            0 <= k <= n,
            n == lit@.len(),
            reader.pos() == old(reader).pos() + k,
            reader.pos() <= reader.input().len(),
            spec_match_lit(old(reader).input(), old(reader).pos(), lit@) == spec_match_lit(
                reader.input(),
                reader.pos(),
                lit@.skip(k as int),
            ),
        decreases n - k,
    {
        let ghost pre = *reader;
        let peeked = reader.peek();
        match peeked {
            Ok(Some(b)) => {
                if b == lit[k] {
                    reader.discard();
                    proof {
                        assert(lit@.skip(k as int).skip(1) =~= lit@.skip(k + 1));
                    }
                    k = k + 1;
                } else {
                    let e = take_err_char(reader);
                    proof {
                        assert(lit@.skip(k as int)[0] == lit@[k as int]);
                    }
                    return Err(e);
                }
            },
            Ok(None) => {
                let e = take_err_eoj(reader);
                return Err(e);
            },
            Err(e) => {
                return Err(e);
            },
        }
    }
    proof {
        assert(lit@.skip(n as int) =~= Seq::<u8>::empty());
    }
    Ok(())
}

/// The value of one hexadecimal digit byte, computed.
fn exec_hex_val(b: u8) -> (r: Option<u32>)
    ensures
        r == hex_val(b),
{
    if 48 <= b && b <= 57 {
        Some((b - 48) as u32)
    } else if 97 <= b && b <= 102 {
        Some((b - 87) as u32)
    } else if 65 <= b && b <= 70 {
        Some((b - 55) as u32)
    } else {
        None
    }
}

/// Reads four hexadecimal digits and consumes them.
fn next_hex4<R: BytesReader>(reader: &mut R) -> (r: Result<u32, Error>)
    requires
        old(reader).wf(),
    ensures
        final(reader).wf(),
        final(reader).input() == old(reader).input(),
        final(reader).can_err() == old(reader).can_err(),
        final(reader).cache_start() == old(reader).cache_start(),
        match r {
            Ok(u) => spec_hex4(old(reader).input(), old(reader).pos()) == PStep::<u32>::Parsed(
                u,
                final(reader).pos(),
            ) && u < 0x10000,
            Err(e) => ((e is Io || e is Reader) && old(reader).can_err()) || spec_hex4(
                old(reader).input(),
                old(reader).pos(),
            ) == PStep::<u32>::Failed(e),
        },
{
    let mut acc: u32 = 0;
    let mut k: usize = 0;
    while k < 4
        invariant
            reader.wf(),
            reader.input() == old(reader).input(),
            reader.can_err() == old(reader).can_err(),
            reader.cache_start() == old(reader).cache_start(),
            0 <= k <= 4,
            (k == 0 ==> acc == 0) && (k == 1 ==> acc < 16) && (k == 2 ==> acc < 256) && (k == 3
                ==> acc < 4096) && (k == 4 ==> acc < 65536),
            spec_hex4(old(reader).input(), old(reader).pos()) == spec_hexn(
                reader.input(),
                reader.pos(),
                4 - k,
                acc,
            ),
        decreases 4 - k,
    {
        let peeked = reader.peek();
        match peeked {
            Ok(Some(b)) => {
                match exec_hex_val(b) {
                    Some(d) => {
                        reader.discard();
                        acc = acc * 16 + d;
                        k = k + 1;
                    },
                    None => {
                        let e = take_err_char(reader);
                        return Err(e);
                    },
                }
            },
            Ok(None) => {
                let e = take_err_eoj(reader);
                return Err(e);
            },
            Err(e) => {
                return Err(e);
            },
        }
    }
    Ok(acc)
}

/// Reads one `\u` escape body: four hex digits, and a full surrogate pair
/// when the first four name a leading surrogate.  The result is the scalar
/// the escape denotes.
fn parse_unicode<R: BytesReader>(reader: &mut R) -> (r: Result<u32, Error>)
    requires
        old(reader).wf(),
    ensures
        final(reader).wf(),
        final(reader).input() == old(reader).input(),
        final(reader).can_err() == old(reader).can_err(),
        final(reader).cache_start() == old(reader).cache_start(),
        match r {
            Ok(u) => spec_unicode(old(reader).input(), old(reader).pos()) == PStep::<u32>::Parsed(
                u,
                final(reader).pos(),
            ) && vstd::utf8::is_scalar(u),
            Err(e) => ((e is Io || e is Reader) && old(reader).can_err()) || spec_unicode(
                old(reader).input(),
                old(reader).pos(),
            ) == PStep::<u32>::Failed(e),
        },
{
    let u1 = match next_hex4(reader) {
        Ok(u) => u,
        Err(e) => {
            return Err(e);
        },
    };
    if !(0xd800 <= u1 && u1 <= 0xdfff) {
        return Ok(u1);
    }
    let mut lit: Vec<u8> = Vec::new();
    lit.push(92);
    lit.push(117);
    proof {
        assert(lit@ =~= seq![92u8, 117u8]);
    }
    match match_lit(reader, lit.as_slice()) {
        Ok(_) => {},
        Err(e) => {
            return Err(e);
        },
    }
    let u2 = match next_hex4(reader) {
        Ok(u) => u,
        Err(e) => {
            return Err(e);
        },
    };
    if 0xd800 <= u1 && u1 <= 0xdbff && 0xdc00 <= u2 && u2 <= 0xdfff {
        Ok(0x10000 + ((u1 - 0xd800) * 0x400) + (u2 - 0xdc00))
    } else {
        Err(Error::Utf8Transform)
    }
}

/// Appends the UTF-8 encoding of a scalar value.
fn push_scalar(c: u32, out: &mut Vec<u8>)
    requires
        vstd::utf8::is_scalar(c),
    ensures
        final(out)@ == old(out)@ + vstd::utf8::encode_scalar(c),
{
    if c <= 0x7f {
        out.push((c & 0x7f) as u8);
    } else if c <= 0x7ff {
        out.push(0xc0u8 | (((c >> 6u32) & 0x1f) as u8));
        out.push(0x80u8 | ((c & 0x3f) as u8));
    } else if c <= 0xffff {
        out.push(0xe0u8 | (((c >> 12u32) & 0x0f) as u8));
        out.push(0x80u8 | (((c >> 6u32) & 0x3f) as u8));
        out.push(0x80u8 | ((c & 0x3f) as u8));
    } else {
        out.push(0xf0u8 | (((c >> 18u32) & 0x7) as u8));
        out.push(0x80u8 | (((c >> 12u32) & 0x3f) as u8));
        out.push(0x80u8 | (((c >> 6u32) & 0x3f) as u8));
        out.push(0x80u8 | ((c & 0x3f) as u8));
    }
    proof {
        assert(final(out)@ =~= old(out)@ + vstd::utf8::encode_scalar(c));
    }
}

/// Reads one escape after the backslash and appends the bytes it denotes.
fn parse_escape<R: BytesReader>(reader: &mut R, out: &mut Vec<u8>) -> (r: Result<(), Error>)
    requires
        old(reader).wf(),
    ensures
        final(reader).wf(),
        final(reader).input() == old(reader).input(),
        final(reader).can_err() == old(reader).can_err(),
        final(reader).cache_start() == old(reader).cache_start(),
        match r {
            Ok(_) => spec_escape_body(old(reader).input(), old(reader).pos())
                matches PStep::Parsed(bs, j) && final(out)@ == old(out)@ + bs
                && final(reader).pos() == j && old(reader).pos() < j
                && j <= final(reader).input().len(),
            Err(e) => final(out)@ == old(out)@ && (((e is Io || e is Reader)
                && old(reader).can_err()) || spec_escape_body(
                old(reader).input(),
                old(reader).pos(),
            ) == PStep::<Seq<u8>>::Failed(e)),
        },
{
    proof {
        reader.lemma_wf();
    }
    let peeked = reader.peek();
    let b = match peeked {
        Ok(Some(b)) => b,
        Ok(None) => {
            let e = take_err_eoj(reader);
            return Err(e);
        },
        Err(e) => {
            return Err(e);
        },
    };
    if b == 34 || b == 92 || b == 47 {
        out.push(b);
        reader.discard();
        proof {
            assert(final(out)@ =~= old(out)@ + seq![b]);
        }
        Ok(())
    } else if b == 98 {
        out.push(8);
        reader.discard();
        proof {
            assert(final(out)@ =~= old(out)@ + seq![8u8]);
        }
        Ok(())
    } else if b == 102 {
        out.push(12);
        reader.discard();
        proof {
            assert(final(out)@ =~= old(out)@ + seq![12u8]);
        }
        Ok(())
    } else if b == 110 {
        out.push(10);
        reader.discard();
        proof {
            assert(final(out)@ =~= old(out)@ + seq![10u8]);
        }
        Ok(())
    } else if b == 114 {
        out.push(13);
        reader.discard();
        proof {
            assert(final(out)@ =~= old(out)@ + seq![13u8]);
        }
        Ok(())
    } else if b == 116 {
        out.push(9);
        reader.discard();
        proof {
            assert(final(out)@ =~= old(out)@ + seq![9u8]);
        }
        Ok(())
    } else if b == 117 {
        reader.discard();
        let u = match parse_unicode(reader) {
            Ok(u) => u,
            Err(e) => {
                return Err(e);
            },
        };
        push_scalar(u, out);
        proof {
            lemma_unicode_advances(old(reader).input(), old(reader).pos() + 1);
            reader.lemma_wf();
        }
        Ok(())
    } else {
        let e = take_err_char(reader);
        Err(e)
    }
}

/// Reads the body of a string after its opening quote: the decoded bytes,
/// with plain runs recorded through the source's caching mode.
pub fn parse_string_inner<R: BytesReader>(reader: &mut R) -> (r: Result<Vec<u8>, Error>)
    requires
        old(reader).wf(),
    ensures
        final(reader).wf(),
        final(reader).input() == old(reader).input(),
        final(reader).can_err() == old(reader).can_err(),
        match r {
            Ok(v) => spec_string_bytes(old(reader).input(), old(reader).pos(), Seq::empty())
                == PStep::<Seq<u8>>::Parsed(v@, final(reader).pos())
                && old(reader).pos() < final(reader).pos()
                && final(reader).pos() <= final(reader).input().len(),
            Err(e) => ((e is Io || e is Reader) && old(reader).can_err()) || spec_string_bytes(
                old(reader).input(),
                old(reader).pos(),
                Seq::empty(),
            ) == PStep::<Seq<u8>>::Failed(e),
        },
{
    proof {
        reader.lemma_wf();
    }
    let mut vec: Vec<u8> = Vec::new();
    reader.start_caching();
    proof {
        assert(vec@ + old(reader).input().subrange(old(reader).pos(), old(reader).pos())
            =~= Seq::<u8>::empty());
    }
    loop
        invariant
            reader.wf(),
            reader.input() == old(reader).input(),
            reader.can_err() == old(reader).can_err(),
            old(reader).pos() <= reader.pos(),
            reader.cache_start() matches Some(cs) && 0 <= cs <= reader.pos()
                <= reader.input().len(),
            spec_string_bytes(old(reader).input(), old(reader).pos(), Seq::empty())
                == spec_string_bytes(
                reader.input(),
                reader.pos(),
                vec@ + reader.input().subrange(reader.cache_start().unwrap(), reader.pos()),
            ),
        decreases reader.input().len() - reader.pos(),
    {
        let ghost cs = reader.cache_start().unwrap();
        let ghost acc = vec@ + reader.input().subrange(cs, reader.pos());
        let peeked = reader.peek();
        match peeked {
            Ok(Some(ch)) => {
                if ch == 34 {
                    match reader.take_cached_data() {
                        Some(mut cached) => {
                            vec.append(&mut cached);
                        },
                        None => {},
                    }
                    reader.discard();
                    proof {
                        assert(vec@ =~= acc);
                    }
                    return Ok(vec);
                } else if ch == 92 {
                    match reader.take_cached_data() {
                        Some(mut cached) => {
                            vec.append(&mut cached);
                        },
                        None => {},
                    }
                    proof {
                        assert(vec@ =~= acc);
                    }
                    reader.discard();
                    match parse_escape(reader, &mut vec) {
                        Ok(_) => {},
                        Err(e) => {
                            return Err(e);
                        },
                    }
                    reader.start_caching();
                    proof {
                        assert(vec@ + reader.input().subrange(reader.pos(), reader.pos())
                            =~= vec@);
                    }
                } else if ch < 32 {
                    let e = take_err_char(reader);
                    return Err(e);
                } else {
                    reader.discard();
                    proof {
                        assert(vec@ + reader.input().subrange(cs, reader.pos()) =~= acc + seq![
                            ch,
                        ]);
                    }
                }
            },
            Ok(None) => {
                let e = take_err_eoj(reader);
                return Err(e);
            },
            Err(e) => {
                return Err(e);
            },
        }
    }
}

/// Skips digits and hands back the first byte after them, without consuming
/// it.
pub fn eat_digits<R: BytesReader>(reader: &mut R) -> (r: Result<Option<u8>, Error>)
    requires
        old(reader).wf(),
    ensures
        final(reader).wf(),
        final(reader).input() == old(reader).input(),
        final(reader).can_err() == old(reader).can_err(),
        final(reader).cache_start() == old(reader).cache_start(),
        old(reader).pos() <= final(reader).pos() <= final(reader).input().len(),
        match r {
            Ok(Some(b)) => {
                &&& final(reader).pos() == old(reader).pos() + digit_run(
                    old(reader).input(),
                    old(reader).pos(),
                )
                &&& final(reader).pos() < final(reader).input().len()
                &&& final(reader).input()[final(reader).pos()] == b
                &&& !is_digit(b)
                &&& final(reader).ready()
            },
            Ok(None) => {
                &&& final(reader).pos() == old(reader).pos() + digit_run(
                    old(reader).input(),
                    old(reader).pos(),
                )
                &&& final(reader).pos() == final(reader).input().len()
                &&& final(reader).ready()
            },
            Err(e) => old(reader).can_err() && (e is Io || e is Reader),
        },
{
    proof {
        reader.lemma_wf();
    }
    loop
        invariant
            reader.wf(),
            reader.input() == old(reader).input(),
            reader.can_err() == old(reader).can_err(),
            reader.cache_start() == old(reader).cache_start(),
            0 <= old(reader).pos() <= reader.pos() <= reader.input().len(),
            digit_run(reader.input(), old(reader).pos()) == reader.pos() - old(reader).pos()
                + digit_run(reader.input(), reader.pos()),
        decreases reader.input().len() - reader.pos(),
    {
        let peeked = reader.peek();
        match peeked {
            Ok(Some(b)) => {
                if 48 <= b && b <= 57 {
                    reader.discard();
                } else {
                    return Ok(Some(b));
                }
            },
            Ok(None) => {
                return Ok(None);
            },
            Err(e) => {
                return Err(e);
            },
        }
    }
}

/// The value of a digit string grows with the string and never goes below
/// the value of any prefix.
proof fn lemma_dec_value_prefix(s: Seq<u8>, k: int)
    requires
        0 <= k <= s.len(),
        all_digits(s),
    ensures
        dec_value(s) >= dec_value(s.take(k)) >= 0,
    decreases s.len(),
{
    if s.len() == 0 {
    } else {
        assert(all_digits(s.drop_last())) by {
            assert(forall|i: int|
                0 <= i < s.len() - 1 ==> #[trigger] s.drop_last()[i] == s[i]);
        }
        if k == s.len() {
            lemma_dec_value_prefix(s.drop_last(), s.len() - 1);
            assert(s.take(k) =~= s);
            assert(is_digit(s.last()));
        } else {
            lemma_dec_value_prefix(s.drop_last(), k);
            assert(s.drop_last().take(k) =~= s.take(k));
            assert(is_digit(s.last()));
        }
    }
}

/// Reads the decimal value of a digit range, or nothing when it overflows
/// the unsigned range.
fn parse_u64_from(v: &Vec<u8>, from: usize, to: usize) -> (r: Option<u64>)
    requires
        from <= to <= v@.len(),
        forall|j: int| from <= j < to ==> is_digit(#[trigger] v@[j]),
    ensures
        ({
            let val = dec_value(v@.subrange(from as int, to as int));
            match r {
                Some(u) => u == val,
                None => val > u64::MAX,
            }
        }),
{
    let mut acc: u64 = 0;
    let mut i = from;
    proof {
        assert(v@.subrange(from as int, from as int) =~= Seq::<u8>::empty());
    }
    while i < to
        invariant
            from <= i <= to <= v@.len(),
            forall|j: int| from <= j < to ==> is_digit(#[trigger] v@[j]),
            acc as int == dec_value(v@.subrange(from as int, i as int)),
        decreases to - i,
    {
        let b = v[i];
        let d = (b - 48) as u64;
        proof {
            assert(v@.subrange(from as int, i + 1).drop_last() =~= v@.subrange(
                from as int,
                i as int,
            ));
        }
        if acc > 0x1999_9999_9999_9999 || (acc == 0x1999_9999_9999_9999 && d > 5) {
            proof {
                let full = v@.subrange(from as int, to as int);
                let pre = v@.subrange(from as int, i + 1);
                assert(all_digits(full));
                assert(full.take(i + 1 - from) =~= pre);
                lemma_dec_value_prefix(full, i + 1 - from);
                assert(dec_value(pre) > u64::MAX);
            }
            return None;
        }
        acc = acc * 10 + d;
        i = i + 1;
    }
    proof {
        assert(v@.subrange(from as int, to as int) =~= v@.subrange(from as int, i as int));
    }
    Some(acc)
}

/// Reads one number at the current position: optional minus sign, integer
/// part, optional fraction and exponent; the span is recorded through the
/// caching mode and classified afterwards.
#[verifier::rlimit(100)]
#[verifier::spinoff_prover]
pub fn parse_number<R: BytesReader>(reader: &mut R) -> (r: Result<Number, Error>)
    requires
        old(reader).wf(),
    ensures
        final(reader).wf(),
        final(reader).input() == old(reader).input(),
        final(reader).can_err() == old(reader).can_err(),
        match r {
            Ok(n) => spec_parse_number(old(reader).input(), old(reader).pos())
                == PStep::<NumberView>::Parsed(n@, final(reader).pos()) && n@.wf()
                && old(reader).pos() < final(reader).pos()
                && final(reader).pos() <= final(reader).input().len(),
            Err(e) => ((e is Io || e is Reader) && old(reader).can_err()) || spec_parse_number(
                old(reader).input(),
                old(reader).pos(),
            ) == PStep::<NumberView>::Failed(e),
        },
{
    let ghost s = old(reader).input();
    let ghost p0 = old(reader).pos();
    proof {
        reader.lemma_wf();
    }
    reader.start_caching();
    let mut neg = false;
    match reader.peek() {
        Ok(Some(b)) => {
            if b == 45 {
                reader.discard();
                neg = true;
            }
        },
        Ok(None) => {
            let e = take_err_eoj(reader);
            proof {
                lemma_number_eoj_start(s, p0, false, p0);
            }
            return Err(e);
        },
        Err(e) => {
            return Err(e);
        },
    }
    let ghost j = reader.pos();
    // the integer part: a single zero, or a nonzero digit and the run after it
    let first = match reader.peek() {
        Ok(Some(b)) => b,
        Ok(None) => {
            let e = take_err_eoj(reader);
            proof {
                lemma_number_eoj_start(s, p0, neg, reader.pos());
            }
            return Err(e);
        },
        Err(e) => {
            return Err(e);
        },
    };
    if !(48 <= first && first <= 57) {
        let e = take_err_char(reader);
        proof {
            lemma_number_char_start(s, p0, neg, j);
        }
        return Err(e);
    }
    let next1 = if first == 48 {
        reader.discard();
        match reader.peek() {
            Ok(x) => x,
            Err(e) => {
                return Err(e);
            },
        }
    } else {
        reader.discard();
        match eat_digits(reader) {
            Ok(x) => x,
            Err(e) => {
                return Err(e);
            },
        }
    };
    let ghost int_end = reader.pos();
    proof {
        if first != 48 {
            assert(digit_run(s, j) == 1 + digit_run(s, j + 1));
        }
    }
    // the fraction
    let mut has_frac = false;
    let next2 = if matches!(next1, Some(46)) {
        reader.discard();
        let fb = match reader.peek() {
            Ok(Some(b)) => b,
            Ok(None) => {
                let e = take_err_eoj(reader);
                proof {
                    lemma_number_bad_frac(s, p0, neg, j, int_end);
                }
                return Err(e);
            },
            Err(e) => {
                return Err(e);
            },
        };
        if !(48 <= fb && fb <= 57) {
            let e = take_err_char(reader);
            proof {
                lemma_number_bad_frac(s, p0, neg, j, int_end);
            }
            return Err(e);
        }
        has_frac = true;
        match eat_digits(reader) {
            Ok(x) => x,
            Err(e) => {
                return Err(e);
            },
        }
    } else {
        next1
    };
    let ghost frac_end = reader.pos();
    // the exponent
    let mut has_exp = false;
    if matches!(next2, Some(101) | Some(69)) {
        has_exp = true;
        reader.discard();
        match reader.peek() {
            Ok(Some(b)) => {
                if b == 43 || b == 45 {
                    reader.discard();
                }
            },
            Ok(None) => {
                let e = take_err_eoj(reader);
                proof {
                    lemma_number_bad_exp(s, p0, neg, j, int_end, has_frac, frac_end, frac_end + 1);
                }
                return Err(e);
            },
            Err(e) => {
                return Err(e);
            },
        }
        let ghost sign_end = reader.pos();
        match reader.peek() {
            Ok(Some(b)) => {
                if !(48 <= b && b <= 57) {
                    let e = take_err_char(reader);
                    proof {
                        lemma_number_bad_exp(s, p0, neg, j, int_end, has_frac, frac_end, sign_end);
                    }
                    return Err(e);
                }
            },
            Ok(None) => {
                let e = take_err_eoj(reader);
                proof {
                    lemma_number_bad_exp(s, p0, neg, j, int_end, has_frac, frac_end, sign_end);
                }
                return Err(e);
            },
            Err(e) => {
                return Err(e);
            },
        }
        match eat_digits(reader) {
            Ok(_) => {},
            Err(e) => {
                return Err(e);
            },
        }
        proof {
            lemma_digit_run_bounds(s, sign_end + 1);
            assert(digit_run(s, sign_end) == 1 + digit_run(s, sign_end + 1));
            assert(reader.pos() > int_end);
            lemma_number_scan(
                s, p0, neg, j, int_end, has_frac, frac_end, true, sign_end, reader.pos(),
            );
        }
    }
    let ghost end = reader.pos();
    proof {
        assert(has_exp ==> end > int_end);
        assert(!has_exp ==> end == frac_end);
    }
    proof {
        if !has_exp {
            lemma_number_scan(s, p0, neg, j, int_end, has_frac, frac_end, false, end, end);
        }
    }
    let span = match reader.take_cached_data() {
        Some(v) => v,
        None => {
            proof {
                assert(false);
            }
            vstd::pervasive::unreached()
        },
    };
    proof {
        assert(span@ == s.subrange(p0, end));
    }
    if !neg && !has_frac && !has_exp {
        proof {
            lemma_digit_run_bounds(s, j);
            assert(s.subrange(j, int_end) =~= span@.subrange(0, span@.len() as int));
            assert forall|k: int| 0 <= k < span@.len() implies is_digit(#[trigger] span@[k]) by {
                assert(span@[k] == s[p0 + k]);
            }
        }
        let n = span.len();
        match parse_u64_from(&span, 0, n) {
            Some(u) => Ok(Number::Unsigned(u)),
            None => Err(Error::ParseNumber),
        }
    } else if neg && !has_frac && !has_exp {
        proof {
            lemma_digit_run_bounds(s, j);
            assert(s.subrange(j, int_end) =~= span@.subrange(1, span@.len() as int));
            assert forall|k: int| 1 <= k < span@.len() implies is_digit(#[trigger] span@[k]) by {
                assert(span@[k] == s[p0 + k]);
            }
        }
        let n = span.len();
        match parse_u64_from(&span, 1, n) {
            Some(u) => {
                if u > 9_223_372_036_854_775_808 {
                    Err(Error::ParseNumber)
                } else if u == 9_223_372_036_854_775_808 {
                    Ok(Number::Signed(i64::MIN))
                } else {
                    Ok(Number::Signed(-(u as i64)))
                }
            },
            None => Err(Error::ParseNumber),
        }
    } else {
        if is_float_literal_exec(&span) {
            Ok(Number::Float(span))
        } else {
            Err(Error::ParseNumber)
        }
    }
}

/// Checks the recursion depth against the limit.
pub fn check_recursion<R: BytesReader>(d: &Deserializer<R>) -> (r: Result<(), Error>)
    ensures
        match r {
            Ok(_) => d.depth() <= RECURSION_LIMIT,
            Err(e) => d.depth() > RECURSION_LIMIT && e is ExceedRecursionLimit,
        },
{
    if d.recursion_depth > RECURSION_LIMIT {
        Err(Error::ExceedRecursionLimit)
    } else {
        Ok(())
    }
}

/// Parses one value: whitespace, then a dispatch on the first byte.
pub fn parse_value<R: BytesReader>(d: &mut Deserializer<R>) -> (r: Result<JsonValue, Error>)
    requires
        old(d).spec_reader().wf(),
        old(d).depth() <= RECURSION_LIMIT,
    ensures
        final(d).spec_reader().wf(),
        final(d).spec_reader().input() == old(d).spec_reader().input(),
        final(d).spec_reader().can_err() == old(d).spec_reader().can_err(),
        match r {
            Ok(v) => {
                &&& spec_parse_value(
                    old(d).spec_reader().input(),
                    old(d).spec_reader().pos(),
                    old(d).depth() as int,
                ) == PStep::<ValueView>::Parsed(v@, final(d).spec_reader().pos())
                &&& old(d).spec_reader().pos() < final(d).spec_reader().pos()
                &&& final(d).spec_reader().pos() <= final(d).spec_reader().input().len()
                &&& final(d).depth() == old(d).depth()
                &&& crate::value::view_wf(v@)
            },
            Err(e) => ((e is Io || e is Reader) && old(d).spec_reader().can_err()) || spec_parse_value(
                old(d).spec_reader().input(),
                old(d).spec_reader().pos(),
                old(d).depth() as int,
            ) == PStep::<ValueView>::Failed(e),
        },
    decreases old(d).spec_reader().input().len() - old(d).spec_reader().pos(), 0int,
{
    let ghost s = old(d).spec_reader().input();
    let ghost i0 = old(d).spec_reader().pos();
    let ghost depth0 = old(d).depth() as int;
    proof {
        d.reader.lemma_wf();
    }
    let peeked = eat_ws(&mut d.reader);
    let b = match peeked {
        Ok(Some(b)) => b,
        Ok(None) => {
            let e = take_err_eoj(&mut d.reader);
            return Err(e);
        },
        Err(e) => {
            return Err(e);
        },
    };
    let ghost j = d.reader.pos();
    if (48 <= b && b <= 57) || b == 45 {
        match parse_number(&mut d.reader) {
            Ok(n) => Ok(JsonValue::Number(n)),
            Err(e) => Err(e),
        }
    } else if b == 123 {
        d.reader.discard();
        match parse_object(d) {
            Ok(o) => Ok(JsonValue::Object(o)),
            Err(e) => Err(e),
        }
    } else if b == 91 {
        d.reader.discard();
        match parse_array(d) {
            Ok(a) => Ok(JsonValue::Array(a)),
            Err(e) => Err(e),
        }
    } else if b == 34 {
        d.reader.discard();
        match parse_string_inner(&mut d.reader) {
            Ok(bytes) => match crate::value::bytes_to_string(bytes) {
                Ok(st) => Ok(JsonValue::String(st)),
                Err(e) => Err(e),
            },
            Err(e) => Err(e),
        }
    } else if b == 116 {
        d.reader.discard();
        let mut lit: Vec<u8> = Vec::new();
        lit.push(114);
        lit.push(117);
        lit.push(101);
        proof {
            assert(lit@ =~= seq![114u8, 117u8, 101u8]);
        }
        match match_lit(&mut d.reader, lit.as_slice()) {
            Ok(_) => Ok(JsonValue::Boolean(true)),
            Err(e) => Err(e),
        }
    } else if b == 102 {
        d.reader.discard();
        let mut lit: Vec<u8> = Vec::new();
        lit.push(97);
        lit.push(108);
        lit.push(115);
        lit.push(101);
        proof {
            assert(lit@ =~= seq![97u8, 108u8, 115u8, 101u8]);
        }
        match match_lit(&mut d.reader, lit.as_slice()) {
            Ok(_) => Ok(JsonValue::Boolean(false)),
            Err(e) => Err(e),
        }
    } else if b == 110 {
        d.reader.discard();
        let mut lit: Vec<u8> = Vec::new();
        lit.push(117);
        lit.push(108);
        lit.push(108);
        proof {
            assert(lit@ =~= seq![117u8, 108u8, 108u8]);
        }
        match match_lit(&mut d.reader, lit.as_slice()) {
            Ok(_) => Ok(JsonValue::Null),
            Err(e) => Err(e),
        }
    } else {
        let e = take_err_char(&mut d.reader);
        Err(e)
    }
}

/// Parses the elements of an array after its opening bracket, driving the
/// three-state machine.
pub fn parse_array<R: BytesReader>(d: &mut Deserializer<R>) -> (r: Result<Array, Error>)
    requires
        old(d).spec_reader().wf(),
        old(d).depth() <= RECURSION_LIMIT,
    ensures
        final(d).spec_reader().wf(),
        final(d).spec_reader().input() == old(d).spec_reader().input(),
        final(d).spec_reader().can_err() == old(d).spec_reader().can_err(),
        match r {
            Ok(a) => {
                &&& old(d).depth() + 1 <= RECURSION_LIMIT
                &&& spec_array_items(
                    old(d).spec_reader().input(),
                    old(d).spec_reader().pos(),
                    old(d).depth() + 1,
                    Seq::empty(),
                    CState::Start,
                ) == PStep::<Seq<ValueView>>::Parsed(a@, final(d).spec_reader().pos())
                &&& old(d).spec_reader().pos() < final(d).spec_reader().pos()
                &&& final(d).spec_reader().pos() <= final(d).spec_reader().input().len()
                &&& final(d).depth() == old(d).depth()
                &&& crate::value::view_wf(ValueView::Array(a@))
            },
            Err(e) => ((e is Io || e is Reader) && old(d).spec_reader().can_err())
                || (old(d).depth() + 1 > RECURSION_LIMIT && e is ExceedRecursionLimit)
                || (old(d).depth() + 1 <= RECURSION_LIMIT && spec_array_items(
                old(d).spec_reader().input(),
                old(d).spec_reader().pos(),
                old(d).depth() + 1,
                Seq::empty(),
                CState::Start,
            ) == PStep::<Seq<ValueView>>::Failed(e)),
        },
    decreases old(d).spec_reader().input().len() - old(d).spec_reader().pos(), 1int,
{
    let ghost s = old(d).spec_reader().input();
    let ghost i0 = old(d).spec_reader().pos();
    let ghost depth1 = old(d).depth() + 1;
    proof {
        d.reader.lemma_wf();
    }
    d.recursion_depth = d.recursion_depth + 1;
    match check_recursion(d) {
        Ok(_) => {},
        Err(e) => {
            return Err(e);
        },
    }
    let mut array = Array::new();
    let mut st = CState::Start;
    proof {
        assert(array@ =~= Seq::<ValueView>::empty());
    }
    loop
        invariant
            s == old(d).spec_reader().input(),
            i0 == old(d).spec_reader().pos(),
            depth1 == old(d).depth() + 1,
            old(d).depth() <= RECURSION_LIMIT,
            d.reader.wf(),
            d.reader.input() == s,
            d.reader.can_err() == old(d).spec_reader().can_err(),
            d.recursion_depth == depth1,
            depth1 <= RECURSION_LIMIT,
            0 <= i0 <= d.reader.pos() <= s.len(),
            spec_array_items(s, i0, depth1 as int, Seq::empty(), CState::Start)
                == spec_array_items(s, d.reader.pos(), depth1 as int, array@, st),
            forall|k: int| 0 <= k < array@.len() ==> crate::value::view_wf(#[trigger] array@[k]),
        decreases s.len() - d.reader.pos(),
    {
        let ghost arr0 = array@;
        let ghost st0 = st;
        let ghost ip = d.reader.pos();
        let peeked = eat_ws(&mut d.reader);
        let ghost j = d.reader.pos();
        match peeked {
            Ok(Some(b)) => {
                if b == 93 && !matches!(st, CState::AfterComma) {
                    d.reader.discard();
                    d.recursion_depth = d.recursion_depth - 1;
                    return Ok(array);
                } else if b == 93 {
                    proof {
                        crate::reader::lemma_pos_bounds(s.take(j));
                    }
                    let position = d.reader.position();
                    return Err(
                        Error::Parsing(ParseError::TrailingComma(position.line(), position.column())),
                    );
                } else if matches!(st, CState::NoComma) {
                    if b == 44 {
                        d.reader.discard();
                        st = CState::AfterComma;
                    } else {
                        proof {
                            crate::reader::lemma_pos_bounds(s.take(j));
                        }
                        let position = d.reader.position();
                        return Err(
                            Error::Parsing(
                                ParseError::MissingComma(position.line(), position.column()),
                            ),
                        );
                    }
                } else {
                    match parse_value(d) {
                        Ok(v) => {
                            array.push(v);
                            st = CState::NoComma;
                        },
                        Err(e) => {
                            return Err(e);
                        },
                    }
                }
            },
            Ok(None) => {
                let e = take_err_eoj(&mut d.reader);
                return Err(e);
            },
            Err(e) => {
                return Err(e);
            },
        }
    }
}

/// Parses the pairs of an object after its opening brace, driving the
/// three-state machine.
pub fn parse_object<R: BytesReader>(d: &mut Deserializer<R>) -> (r: Result<Object, Error>)
    requires
        old(d).spec_reader().wf(),
        old(d).depth() <= RECURSION_LIMIT,
    ensures
        final(d).spec_reader().wf(),
        final(d).spec_reader().input() == old(d).spec_reader().input(),
        final(d).spec_reader().can_err() == old(d).spec_reader().can_err(),
        match r {
            Ok(o) => {
                &&& old(d).depth() + 1 <= RECURSION_LIMIT
                &&& spec_object_items(
                    old(d).spec_reader().input(),
                    old(d).spec_reader().pos(),
                    old(d).depth() + 1,
                    Seq::empty(),
                    CState::Start,
                ) == PStep::<Seq<(Seq<char>, ValueView)>>::Parsed(o@, final(d).spec_reader().pos())
                &&& old(d).spec_reader().pos() < final(d).spec_reader().pos()
                &&& final(d).spec_reader().pos() <= final(d).spec_reader().input().len()
                &&& final(d).depth() == old(d).depth()
                &&& crate::value::view_wf(ValueView::Object(o@))
            },
            Err(e) => ((e is Io || e is Reader) && old(d).spec_reader().can_err())
                || (old(d).depth() + 1 > RECURSION_LIMIT && e is ExceedRecursionLimit)
                || (old(d).depth() + 1 <= RECURSION_LIMIT && spec_object_items(
                old(d).spec_reader().input(),
                old(d).spec_reader().pos(),
                old(d).depth() + 1,
                Seq::empty(),
                CState::Start,
            ) == PStep::<Seq<(Seq<char>, ValueView)>>::Failed(e)),
        },
    decreases old(d).spec_reader().input().len() - old(d).spec_reader().pos(), 1int,
{
    let ghost s = old(d).spec_reader().input();
    let ghost i0 = old(d).spec_reader().pos();
    let ghost depth1 = old(d).depth() + 1;
    proof {
        d.reader.lemma_wf();
    }
    d.recursion_depth = d.recursion_depth + 1;
    match check_recursion(d) {
        Ok(_) => {},
        Err(e) => {
            return Err(e);
        },
    }
    let mut object = Object::new();
    let mut st = CState::Start;
    proof {
        assert(object@ =~= Seq::<(Seq<char>, ValueView)>::empty());
    }
    loop
        invariant
            s == old(d).spec_reader().input(),
            i0 == old(d).spec_reader().pos(),
            depth1 == old(d).depth() + 1,
            old(d).depth() <= RECURSION_LIMIT,
            d.reader.wf(),
            d.reader.input() == s,
            d.reader.can_err() == old(d).spec_reader().can_err(),
            d.recursion_depth == depth1,
            depth1 <= RECURSION_LIMIT,
            0 <= i0 <= d.reader.pos() <= s.len(),
            spec_object_items(s, i0, depth1 as int, Seq::empty(), CState::Start)
                == spec_object_items(s, d.reader.pos(), depth1 as int, object@, st),
            forall|k: int|
                0 <= k < object@.len() ==> crate::value::view_wf((#[trigger] object@[k]).1),
        decreases s.len() - d.reader.pos(),
    {
        let ghost obj0 = object@;
        let ghost st0 = st;
        let peeked = eat_ws(&mut d.reader);
        let ghost j = d.reader.pos();
        match peeked {
            Ok(Some(b)) => {
                if b == 125 && !matches!(st, CState::AfterComma) {
                    d.reader.discard();
                    d.recursion_depth = d.recursion_depth - 1;
                    return Ok(object);
                } else if b == 125 {
                    proof {
                        crate::reader::lemma_pos_bounds(s.take(j));
                    }
                    let position = d.reader.position();
                    return Err(
                        Error::Parsing(ParseError::TrailingComma(position.line(), position.column())),
                    );
                } else if matches!(st, CState::NoComma) {
                    if b == 44 {
                        d.reader.discard();
                        st = CState::AfterComma;
                    } else {
                        proof {
                            crate::reader::lemma_pos_bounds(s.take(j));
                        }
                        let position = d.reader.position();
                        return Err(
                            Error::Parsing(
                                ParseError::MissingComma(position.line(), position.column()),
                            ),
                        );
                    }
                } else if b != 34 {
                    let e = take_err_char(&mut d.reader);
                    return Err(e);
                } else {
                    d.reader.discard();
                    let kbytes = match parse_string_inner(&mut d.reader) {
                        Ok(v) => v,
                        Err(e) => {
                            return Err(e);
                        },
                    };
                    let key = match crate::value::bytes_to_string(kbytes) {
                        Ok(st) => st,
                        Err(e) => {
                            return Err(e);
                        },
                    };
                    let ghost k2 = d.reader.pos();
                    let colon = eat_ws(&mut d.reader);
                    let ghost c = d.reader.pos();
                    match colon {
                        Ok(Some(cb)) => {
                            if cb != 58 {
                                proof {
                                    crate::reader::lemma_pos_bounds(s.take(c));
                                }
                                let position = d.reader.position();
                                return Err(
                                    Error::Parsing(
                                        ParseError::MissingColon(
                                            position.line(),
                                            position.column(),
                                        ),
                                    ),
                                );
                            }
                            d.reader.discard();
                        },
                        Ok(None) => {
                            let e = take_err_eoj(&mut d.reader);
                            return Err(e);
                        },
                        Err(e) => {
                            return Err(e);
                        },
                    }
                    match parse_value(d) {
                        Ok(v) => {
                            object.insert(key, v);
                            st = CState::NoComma;
                        },
                        Err(e) => {
                            return Err(e);
                        },
                    }
                }
            },
            Ok(None) => {
                let e = take_err_eoj(&mut d.reader);
                return Err(e);
            },
            Err(e) => {
                return Err(e);
            },
        }
    }
}

/// Parses one whole document: one value, then only whitespace to the end.
pub fn start_parsing<R: BytesReader>(d: &mut Deserializer<R>) -> (r: Result<
    JsonValue,
    Error,
>)
    requires
        old(d).spec_reader().wf(),
        old(d).depth() <= RECURSION_LIMIT,
    ensures
        final(d).spec_reader().wf(),
        final(d).spec_reader().input() == old(d).spec_reader().input(),
        match r {
            Ok(v) => spec_parse_at(
                old(d).spec_reader().input(),
                old(d).spec_reader().pos(),
                old(d).depth() as int,
            ) == Ok::<ValueView, Error>(v@) && crate::value::view_wf(v@),
            Err(e) => ((e is Io || e is Reader) && old(d).spec_reader().can_err()) || spec_parse_at(
                old(d).spec_reader().input(),
                old(d).spec_reader().pos(),
                old(d).depth() as int,
            ) == Err::<ValueView, Error>(e),
        },
{
    let ghost s = old(d).spec_reader().input();
    proof {
        d.reader.lemma_wf();
    }
    let value = match parse_value(d) {
        Ok(v) => v,
        Err(e) => {
            return Err(e);
        },
    };
    let trailing = eat_ws(&mut d.reader);
    match trailing {
        Ok(Some(_)) => {
            proof {
                crate::reader::lemma_pos_bounds(s.take(d.reader.pos()));
            }
            let position = d.reader.position();
            Err(Error::Parsing(ParseError::TrailingBytes(position.line())))
        },
        Ok(None) => Ok(value),
        Err(e) => Err(e),
    }
}

/// The decimal digits of a value read back as a number give the value.
proof fn lemma_dec_digits_inverse(n: int)
    requires
        0 <= n,
    ensures
        dec_value(digits_of_nat(n)) == n,
    decreases n,
{
    if n > 0 {
        lemma_dec_digits_inverse(n / 10);
        assert(digits_of_nat(n).drop_last() =~= digits_of_nat(n / 10));
    }
}






/// Escaping distributes over concatenation.
proof fn lemma_escape_bytes_concat(x: Seq<u8>, y: Seq<u8>)
    ensures
        escape_bytes(x + y) == escape_bytes(x) + escape_bytes(y),
    decreases y.len(),
{
    if y.len() == 0 {
        assert(x + y =~= x);
        assert(escape_bytes(x) + escape_bytes(y) =~= escape_bytes(x));
    } else {
        lemma_escape_bytes_concat(x, y.drop_last());
        assert((x + y).drop_last() =~= x + y.drop_last());
        assert((x + y).last() == y.last());
        assert(escape_bytes(x) + escape_bytes(y.drop_last()) + escape_byte(y.last())
            =~= escape_bytes(x) + escape_bytes(y));
    }
}

/// Reading a string body over the escape of `b` followed by a closing quote
/// accumulates exactly `b` and stops after the quote: escaping and string
/// reading are inverse, byte for byte.
#[verifier::rlimit(100)]
#[verifier::spinoff_prover]
proof fn lemma_string_bytes_escaped(s: Seq<u8>, i: int, b: Seq<u8>, acc: Seq<u8>)
    requires
        0 <= i,
        i + escape_bytes(b).len() + 1 <= s.len(),
        s.subrange(i, i + escape_bytes(b).len() + 1) == escape_bytes(b) + seq![34u8],
    ensures
        spec_string_bytes(s, i, acc) == PStep::<Seq<u8>>::Parsed(
            acc + b,
            i + escape_bytes(b).len() + 1,
        ),
    decreases b.len(),
{
    let eb = escape_bytes(b);
    let win = s.subrange(i, i + eb.len() + 1);
    if b.len() == 0 {
        assert(eb =~= Seq::<u8>::empty());
        assert(s[i] == win[0] && win[0] == 34);
        assert(acc + b =~= acc);
    } else {
        let b0 = b[0];
        let b1 = b.skip(1);
        assert(b =~= seq![b0] + b1);
        lemma_escape_bytes_concat(seq![b0], b1);
        assert(seq![b0].drop_last() =~= Seq::<u8>::empty());
        assert(seq![b0].last() == b0);
        assert(escape_bytes(Seq::<u8>::empty()) =~= Seq::<u8>::empty());
        assert(escape_bytes(seq![b0]) =~= Seq::<u8>::empty() + escape_byte(b0));
        assert(escape_bytes(seq![b0]) =~= escape_byte(b0));
        let e0 = escape_byte(b0);
        let eb1 = escape_bytes(b1);
        assert(eb == e0 + eb1);
        let ni = i + e0.len();
        assert forall|k: int| 0 <= k < e0.len() implies s[i + k] == e0[k] by {
            assert(win[k] == (e0 + eb1 + seq![34u8])[k]);
        }
        assert(s.subrange(ni, ni + eb1.len() + 1) =~= eb1 + seq![34u8]) by {
            assert forall|k: int| 0 <= k < eb1.len() + 1 implies s.subrange(
                ni,
                ni + eb1.len() + 1,
            )[k] == (eb1 + seq![34u8])[k] by {
                assert(s[ni + k] == win[e0.len() + k]);
                assert(win[e0.len() + k] == (e0 + eb1 + seq![34u8])[e0.len() + k]);
            }
        }
        if b0 == 34 || b0 == 92 {
            assert(s[i] == 92 && s[i + 1] == b0);
            assert(spec_escape_body(s, i + 1) == PStep::<Seq<u8>>::Parsed(seq![b0], i + 2));
            lemma_string_bytes_escaped(s, ni, b1, acc + seq![b0]);
            assert(acc + seq![b0] + b1 =~= acc + b);
        } else if b0 == 8 || b0 == 9 || b0 == 10 || b0 == 12 || b0 == 13 {
            assert(s[i] == 92);
            assert(spec_escape_body(s, i + 1) == PStep::<Seq<u8>>::Parsed(seq![b0], i + 2));
            lemma_string_bytes_escaped(s, ni, b1, acc + seq![b0]);
            assert(acc + seq![b0] + b1 =~= acc + b);
        } else if b0 < 32 {
            assert(s[i] == 92 && s[i + 1] == 117 && s[i + 2] == 48 && s[i + 3] == 48);
            let h1 = s[i + 4];
            let h2 = s[i + 5];
            let hi = b0 / 16;
            let lo = b0 % 16;
            assert(h1 == if hi < 10 { (48 + hi) as u8 } else { (87 + hi) as u8 });
            assert(h2 == if lo < 10 { (48 + lo) as u8 } else { (87 + lo) as u8 });
            assert(hex_val(48) == Some(0u32));
            assert(hex_val(h1) == Some(hi as u32));
            assert(hex_val(h2) == Some(lo as u32));
            assert(spec_hexn(s, i + 6, 0, b0 as u32) == PStep::<u32>::Parsed(b0 as u32, i + 6));
            assert((hi as u32) * 16 + (lo as u32) == b0 as u32);
            assert(spec_hexn(s, i + 5, 1, hi as u32) == PStep::<u32>::Parsed(b0 as u32, i + 6));
            assert(spec_hexn(s, i + 4, 2, 0) == PStep::<u32>::Parsed(b0 as u32, i + 6));
            assert(spec_hexn(s, i + 3, 3, 0) == PStep::<u32>::Parsed(b0 as u32, i + 6));
            assert(spec_hex4(s, i + 2) == PStep::<u32>::Parsed(b0 as u32, i + 6));
            assert(spec_unicode(s, i + 2) == PStep::<u32>::Parsed(b0 as u32, i + 6));
            assert(vstd::utf8::encode_scalar(b0 as u32) =~= seq![b0]) by {
                assert((b0 as u32) & 0x7f == b0 as u32) by (bit_vector)
                    requires
                        b0 < 32,
                ;
            }
            assert(spec_escape_body(s, i + 1) == PStep::<Seq<u8>>::Parsed(seq![b0], i + 6));
            lemma_string_bytes_escaped(s, ni, b1, acc + seq![b0]);
            assert(acc + seq![b0] + b1 =~= acc + b);
        } else {
            assert(e0 =~= seq![b0]);
            assert(s[i] == b0 && b0 != 34 && b0 != 92 && b0 >= 32);
            lemma_string_bytes_escaped(s, ni, b1, acc + seq![b0]);
            assert(acc + seq![b0] + b1 =~= acc + b);
        }
    }
}


/// The string-body scan from `i` visits position `j`: `j` stands after zero
/// or more plain bytes and complete escape groups, all before any closing
/// quote.
pub open spec fn scan_reaches(s: Seq<u8>, i: int, j: int) -> bool
    decreases j - i when 0 <= i <= j
{
    if i == j {
        true
    } else if !(i < j && i < s.len()) {
        false
    } else if s[i] != 34 && s[i] != 92 && s[i] >= 32 {
        scan_reaches(s, i + 1, j)
    } else if s[i] == 92 {
        spec_escape_body(s, i + 1) matches PStep::Parsed(bs, m) && i + 1 < m <= j && scan_reaches(
            s,
            m,
            j,
        )
    } else {
        false
    }
}

/// A run of plain bytes (no quote, no backslash, no control byte) is a scan
/// the string body walks through.
pub proof fn lemma_plain_reaches(s: Seq<u8>, i: int, j: int)
    requires
        0 <= i <= j <= s.len(),
        forall|k: int| i <= k < j ==> 32 <= #[trigger] s[k] && s[k] != 34 && s[k] != 92,
    ensures
        scan_reaches(s, i, j),
    decreases j - i,
{
    if i < j {
        lemma_plain_reaches(s, i + 1, j);
    }
}

/// An unescaped control byte inside a string body fails the string at
/// exactly that byte's position.  With the body read from `i`, the scan —
/// over any mix of plain bytes and complete escape groups — arriving at a
/// control byte at `j`, the string parse returns the unexpected-character
/// error carrying the line, column and character of position `j`, whatever
/// was collected so far; no string value is produced.
pub proof fn lemma_string_control_byte(s: Seq<u8>, i: int, j: int, acc: Seq<u8>)
    requires
        0 <= i <= j < s.len(),
        scan_reaches(s, i, j),
        s[j] < 32,
    ensures
        spec_string_bytes(s, i, acc) == PStep::<Seq<u8>>::Failed(spec_err_char(s, j)),
        spec_err_char(s, j) == Error::Parsing(
            ParseError::UnexpectedCharacter(
                crate::reader::line_of(s.take(j)) as usize,
                crate::reader::col_of(s.take(j)) as usize,
                s[j] as char,
            ),
        ),
    decreases j - i,
{
    if i < j {
        if s[i] != 34 && s[i] != 92 && s[i] >= 32 {
            lemma_string_control_byte(s, i + 1, j, acc + seq![s[i]]);
        } else {
            assert(s[i] == 92);
            match spec_escape_body(s, i + 1) {
                PStep::Parsed(bs, m) => {
                    lemma_string_control_byte(s, m, j, acc + bs);
                },
                PStep::Failed(_) => {
                    assert(false);
                },
            }
        }
    } else {
        reveal(spec_err_char);
        let rest = s.skip(j);
        let b = s[j];
        assert(rest[0] == b);
        assert(b & 0x7f == b) by (bit_vector)
            requires
                b < 32,
        ;
        assert(vstd::utf8::decode_first_codepoint(rest) == b as u32);
        assert(vstd::utf8::valid_first_scalar(rest));
        assert(vstd::utf8::decode_first_scalar(rest) == b as u32);
    }
}

/// A value tree in which every signed number is strictly negative: the form
/// the renderings distinguish from unsigned numbers.
pub open spec fn signed_canonical(v: ValueView) -> bool
    decreases v,
{
    match v {
        ValueView::Number(NumberView::Signed(i)) => i < 0,
        ValueView::Array(s) => forall|m: int|
            0 <= m < s.len() ==> signed_canonical(#[trigger] s[m]),
        ValueView::Object(s) => forall|m: int|
            0 <= m < s.len() ==> signed_canonical((#[trigger] s[m]).1),
        _ => true,
    }
}

/// Over a window of digits that ends at a byte that is no digit, or at the
/// end of the input, the digit run covers exactly the window.
proof fn lemma_digit_run_window(s: Seq<u8>, i: int, e: int)
    requires
        0 <= i <= e <= s.len(),
        forall|j: int| i <= j < e ==> is_digit(#[trigger] s[j]),
        e == s.len() || !is_digit(s[e]),
    ensures
        digit_run(s, i) == e - i,
    decreases e - i,
{
    if i < e {
        lemma_digit_run_window(s, i + 1, e);
    }
}

/// Matching a literal over a window that spells it succeeds and ends after
/// the window.
proof fn lemma_match_window(s: Seq<u8>, i: int, lit: Seq<u8>)
    requires
        0 <= i,
        i + lit.len() <= s.len(),
        forall|k: int| 0 <= k < lit.len() ==> s[i + k] == #[trigger] lit[k],
    ensures
        spec_match_lit(s, i, lit) == PStep::<()>::Parsed((), i + lit.len()),
    decreases lit.len(),
{
    if lit.len() > 0 {
        assert forall|k: int| 0 <= k < lit.skip(1).len() implies s[i + 1 + k] == #[trigger] lit.skip(
            1,
        )[k] by {
            assert(lit.skip(1)[k] == lit[k + 1]);
        }
        lemma_match_window(s, i + 1, lit.skip(1));
    }
}

/// The rendering of a value is never empty, never opens with whitespace, and
/// never opens with a byte that closes or separates a container.
proof fn lemma_enc_first_byte(v: ValueView)
    requires
        view_wf(v),
    ensures
        encode_compact(v).len() > 0,
        !is_ws(encode_compact(v)[0]),
        encode_compact(v)[0] != 44 && encode_compact(v)[0] != 93 && encode_compact(v)[0] != 125,
        encode_compact(v)[0] != 58,
        v matches ValueView::Number(_) ==> (is_digit(encode_compact(v)[0]) || encode_compact(
            v,
        )[0] == 45),
{
    match v {
        ValueView::Number(n) => {
            match n {
                NumberView::Unsigned(u) => {
                    if u != 0 {
                        lemma_digits_of_nat_form(u as int);
                    }
                },
                NumberView::Signed(i) => {
                    if i >= 0 {
                        if i != 0 {
                            lemma_digits_of_nat_form(i as int);
                        }
                    }
                },
                NumberView::Float(t) => {
                    let p = scan_number(t, 0).unwrap();
                    assert(t.len() > 0 && (t[0] == 45 || is_digit(t[0])));
                },
            }
        },
        _ => {},
    }
}

/// Parsing a number over a window that spells its rendering, followed by a
/// separator, a closing bracket or the end of the input, gives the number
/// back and stops after the window.
#[verifier::rlimit(100)]
#[verifier::spinoff_prover]
proof fn lemma_enc_number(s: Seq<u8>, i: int, n: NumberView)
    requires
        n.wf(),
        n matches NumberView::Signed(x) ==> x < 0,
        0 <= i,
        i + render_number(n).len() <= s.len(),
        s.subrange(i, i + render_number(n).len() as int) == render_number(n),
        ({
            let e = i + render_number(n).len();
            e == s.len() || s[e] == 44 || s[e] == 93 || s[e] == 125 || is_ws(s[e])
        }),
    ensures
        spec_parse_number(s, i) == PStep::<NumberView>::Parsed(
            n,
            i + render_number(n).len() as int,
        ),
{
    let t = render_number(n);
    let e = i + t.len();
    let win = s.subrange(i, e as int);
    assert forall|k: int| 0 <= k < t.len() implies s[i + k] == t[k] by {
        assert(win[k] == t[k]);
    }
    match n {
        NumberView::Unsigned(u) => {
            if u == 0 {
                assert(t =~= seq![48u8]);
                lemma_number_scan(s, i, false, i, i + 1, false, i + 1, false, i + 1, i + 1);
                assert(s.subrange(i, i + 1) =~= seq![48u8]);
                assert(seq![48u8].drop_last() =~= Seq::<u8>::empty());
                assert(dec_value(Seq::<u8>::empty()) == 0);
                assert(dec_value(seq![48u8]) == 0);
            } else {
                let d = digits_of_nat(u as int);
                lemma_digits_of_nat_form(u as int);
                assert(t == d);
                assert forall|j: int| i <= j < e implies is_digit(#[trigger] s[j]) by {
                    assert(s[j] == t[j - i]);
                }
                lemma_digit_run_window(s, i, e);
                lemma_number_scan(s, i, false, i, e, false, e, false, e, e);
                assert forall|k: int| 0 <= k < d.len() implies s.subrange(i, e as int)[k]
                    == d[k] by {
                    assert(s[i + k] == t[k]);
                }
                assert(s.subrange(i, e as int) =~= d);
                lemma_dec_digits_inverse(u as int);
            }
        },
        NumberView::Signed(x) => {
            let m = -(x as int);
            let d = dec_render(m);
            lemma_digits_of_nat_form(m);
            assert(t == seq![45u8] + d);
            assert(s[i] == 45);
            assert forall|j: int| i + 1 <= j < e implies is_digit(#[trigger] s[j]) by {
                assert(s[j] == t[j - i]);
                assert(t[j - i] == d[j - i - 1]);
            }
            lemma_digit_run_window(s, i + 1, e);
            assert(s[i + 1] == d[0] && s[i + 1] != 48);
            lemma_number_scan(s, i, true, i + 1, e, false, e, false, e, e);
            assert forall|k: int| 0 <= k < d.len() implies s.subrange(i + 1, e as int)[k]
                == d[k] by {
                assert(s[i + 1 + k] == t[1 + k]);
                assert(t[1 + k] == d[k]);
            }
            assert(s.subrange(i + 1, e as int) =~= d);
            lemma_dec_digits_inverse(m);
            assert(dec_value(d) == m);
        },
        NumberView::Float(t0) => {
            assert(t == t0);
            let p = scan_number(t0, 0).unwrap();
            let j = if p.neg {
                i + 1
            } else {
                i
            };
            lemma_digit_run_bounds(t0, j - i);
            assert forall|k: int| j - i <= k < p.int_end implies is_digit(#[trigger] s[i + k]) by {
                assert(s[i + k] == t0[k]);
            }
            let int_end = i + p.int_end;
            assert(int_end == s.len() || !is_digit(s[int_end]) || (p.int_end < t0.len()
                && is_digit(t0[p.int_end]))) by {
                if p.int_end < t0.len() {
                    assert(s[int_end] == t0[p.int_end]);
                }
            }
            if t0[j - i] == 48 {
                assert(int_end == j + 1);
            } else {
                assert forall|k: int| j <= k < j + (p.int_end - (j - i)) implies is_digit(
                    #[trigger] s[k],
                ) by {
                    assert(s[k] == t0[k - i]);
                }
                assert(p.int_end < t0.len() ==> !is_digit(t0[p.int_end]));
                lemma_digit_run_window(s, j, int_end);
            }
            let has_frac = p.int_end < t0.len() && t0[p.int_end] == 46;
            let frac_end = if has_frac {
                let fl = digit_run(t0, p.int_end + 1);
                lemma_digit_run_bounds(t0, p.int_end + 1);
                i + p.int_end + 1 + fl
            } else {
                int_end
            };
            if has_frac {
                let fl = digit_run(t0, p.int_end + 1);
                lemma_digit_run_bounds(t0, p.int_end + 1);
                assert forall|k: int| i + p.int_end + 1 <= k < frac_end implies is_digit(
                    #[trigger] s[k],
                ) by {
                    assert(s[k] == t0[k - i]);
                }
                assert(frac_end == s.len() || !is_digit(s[frac_end])) by {
                    if p.int_end + 1 + fl < t0.len() {
                        assert(s[frac_end] == t0[p.int_end + 1 + fl]);
                    }
                }
                lemma_digit_run_window(s, i + p.int_end + 1, frac_end);
            }
            let has_exp = frac_end - i < t0.len() && (t0[frac_end - i] == 101 || t0[frac_end - i]
                == 69);
            let sign_end = if frac_end + 1 - i < t0.len() && (t0[frac_end + 1 - i] == 45
                || t0[frac_end + 1 - i] == 43) {
                frac_end + 2
            } else {
                frac_end + 1
            };
            let end = if has_exp {
                let el = digit_run(t0, sign_end - i);
                lemma_digit_run_bounds(t0, sign_end - i);
                sign_end + el
            } else {
                frac_end
            };
            if has_exp {
                let el = digit_run(t0, sign_end - i);
                lemma_digit_run_bounds(t0, sign_end - i);
                assert forall|k: int| sign_end <= k < end implies is_digit(#[trigger] s[k]) by {
                    assert(s[k] == t0[k - i]);
                }
                assert(end == s.len() || !is_digit(s[end])) by {
                    if sign_end - i + el < t0.len() {
                        assert(s[end] == t0[sign_end - i + el]);
                    }
                }
                lemma_digit_run_window(s, sign_end, end);
            }
            assert(end == i + t0.len());
            lemma_number_scan(s, i, p.neg, j, int_end, has_frac, frac_end, has_exp, sign_end, end);
            assert(s.subrange(i, end as int) =~= t0);
        },
    }
}

/// Earlier element renderings are prefixes of later ones.
proof fn lemma_items_prefix(elems: Seq<ValueView>, j: int, m: int)
    requires
        0 <= j <= m <= elems.len(),
    ensures
        compact_items(elems, j).len() <= compact_items(elems, m).len(),
        compact_items(elems, m).subrange(0, compact_items(elems, j).len() as int)
            == compact_items(elems, j),
    decreases m,
{
    if j < m {
        lemma_items_prefix(elems, j, m - 1);
        assert(compact_items(elems, m).subrange(0, compact_items(elems, j).len() as int)
            =~= compact_items(elems, j));
    } else {
        assert(compact_items(elems, m).subrange(0, compact_items(elems, j).len() as int)
            =~= compact_items(elems, j));
    }
}

/// Earlier pair renderings are prefixes of later ones.
proof fn lemma_pairs_prefix(pairs: Seq<(Seq<char>, ValueView)>, j: int, m: int)
    requires
        0 <= j <= m <= pairs.len(),
    ensures
        compact_pairs(pairs, j).len() <= compact_pairs(pairs, m).len(),
        compact_pairs(pairs, m).subrange(0, compact_pairs(pairs, j).len() as int)
            == compact_pairs(pairs, j),
    decreases m,
{
    if j < m {
        lemma_pairs_prefix(pairs, j, m - 1);
        assert(compact_pairs(pairs, m).subrange(0, compact_pairs(pairs, j).len() as int)
            =~= compact_pairs(pairs, j));
    } else {
        assert(compact_pairs(pairs, m).subrange(0, compact_pairs(pairs, j).len() as int)
            =~= compact_pairs(pairs, j));
    }
}

/// Parsing one value over a window that spells its compact rendering,
/// followed by a separator, a closing bracket or the end of the input, gives
/// the value back and stops after the window.
#[verifier::rlimit(100)]
#[verifier::spinoff_prover]
proof fn lemma_enc_value(s: Seq<u8>, i: int, v: ValueView, depth: int)
    requires
        view_wf(v),
        signed_canonical(v),
        0 <= depth,
        depth + height(v) <= RECURSION_LIMIT,
        0 <= i,
        i + encode_compact(v).len() <= s.len(),
        s.subrange(i, i + encode_compact(v).len() as int) == encode_compact(v),
        ({
            let e = i + encode_compact(v).len();
            e == s.len() || s[e] == 44 || s[e] == 93 || s[e] == 125 || is_ws(s[e])
        }),
    ensures
        spec_parse_value(s, i, depth) == PStep::<ValueView>::Parsed(
            v,
            i + encode_compact(v).len() as int,
        ),
    decreases v, 1int, 0int,
{
    let t = encode_compact(v);
    let e = i + t.len();
    assert forall|k: int| 0 <= k < t.len() implies s[i + k] == t[k] by {
        assert(s.subrange(i, e as int)[k] == t[k]);
    }
    lemma_enc_first_byte(v);
    assert(s[i] == t[0]);
    assert(!is_ws(s[i]));
    assert(spec_skip_ws(s, i) == i);
    match v {
        ValueView::Null => {
            assert(t =~= seq![110u8, 117u8, 108u8, 108u8]);
            let lit = seq![117u8, 108u8, 108u8];
            assert forall|k: int| 0 <= k < lit.len() implies s[i + 1 + k] == #[trigger] lit[k] by {
                assert(s[i + 1 + k] == t[1 + k]);
            }
            lemma_match_window(s, i + 1, lit);
        },
        ValueView::Boolean(b) => {
            if b {
                assert(t =~= seq![116u8, 114u8, 117u8, 101u8]);
                let lit = seq![114u8, 117u8, 101u8];
                assert forall|k: int| 0 <= k < lit.len() implies s[i + 1 + k] == #[trigger] lit[k]
                    by {
                    assert(s[i + 1 + k] == t[1 + k]);
                }
                lemma_match_window(s, i + 1, lit);
            } else {
                assert(t =~= seq![102u8, 97u8, 108u8, 115u8, 101u8]);
                let lit = seq![97u8, 108u8, 115u8, 101u8];
                assert forall|k: int| 0 <= k < lit.len() implies s[i + 1 + k] == #[trigger] lit[k]
                    by {
                    assert(s[i + 1 + k] == t[1 + k]);
                }
                lemma_match_window(s, i + 1, lit);
            }
        },
        ValueView::Number(n) => {
            lemma_enc_number(s, i, n);
        },
        ValueView::String(sv) => {
            broadcast use vstd::utf8::encode_utf8_valid_utf8, vstd::utf8::encode_utf8_decode_utf8;

            let eb = vstd::utf8::encode_utf8(sv);
            let ebs = escape_bytes(eb);
            assert(t == seq![34u8] + ebs + seq![34u8]);
            assert(s[i] == 34);
            assert(s.subrange(i + 1, i + 1 + ebs.len() as int + 1) =~= ebs + seq![34u8]) by {
                assert forall|k: int| 0 <= k < ebs.len() + 1 implies s.subrange(
                    i + 1,
                    i + 1 + ebs.len() as int + 1,
                )[k] == (ebs + seq![34u8])[k] by {
                    assert(s[i + 1 + k] == t[1 + k]);
                }
            }
            lemma_string_bytes_escaped(s, i + 1, eb, Seq::empty());
            assert(Seq::empty() + eb =~= eb);
            assert(vstd::utf8::valid_utf8(eb));
            assert(vstd::utf8::decode_utf8(eb) == sv);
        },
        ValueView::Array(elems) => {
            crate::value::lemma_heights_nonneg(elems, elems.len() as int);
            assert(s[i] == 91);
            assert(compact_items(elems, 0).len() == 0);
            assert(elems.take(0) =~= Seq::<ValueView>::empty());
            lemma_enc_array_items(s, i, elems, 0, depth + 1);
            assert(elems.take(elems.len() as int) =~= elems);
        },
        ValueView::Object(pairs) => {
            crate::value::lemma_pair_heights_nonneg(pairs, pairs.len() as int);
            assert(s[i] == 123);
            assert(compact_pairs(pairs, 0).len() == 0);
            assert(pairs.take(0) =~= Seq::<(Seq<char>, ValueView)>::empty());
            lemma_enc_object_pairs(s, i, pairs, 0, depth + 1);
            assert(pairs.take(pairs.len() as int) =~= pairs);
        },
    }
}

/// Parsing the elements of an array from its `k`-th element onward, over a
/// window that spells the array's compact rendering, collects all the
/// elements and stops after the closing bracket.
#[verifier::rlimit(100)]
#[verifier::spinoff_prover]
proof fn lemma_enc_array_items(s: Seq<u8>, base: int, elems: Seq<ValueView>, k: int, depth: int)
    requires
        0 <= k <= elems.len(),
        1 <= depth,
        view_wf(ValueView::Array(elems)),
        signed_canonical(ValueView::Array(elems)),
        depth + heights(elems, elems.len() as int) <= RECURSION_LIMIT,
        0 <= base,
        base + encode_compact(ValueView::Array(elems)).len() <= s.len(),
        s.subrange(base, base + encode_compact(ValueView::Array(elems)).len() as int)
            == encode_compact(ValueView::Array(elems)),
    ensures
        spec_array_items(
            s,
            base + 1 + compact_items(elems, k).len() as int,
            depth,
            elems.take(k),
            if k == 0 {
                CState::Start
            } else {
                CState::NoComma
            },
        ) == PStep::<Seq<ValueView>>::Parsed(
            elems,
            base + encode_compact(ValueView::Array(elems)).len() as int,
        ),
    decreases ValueView::Array(elems), 0int, elems.len() - k,
{
    let n = elems.len() as int;
    let items = compact_items(elems, n);
    let a = encode_compact(ValueView::Array(elems));
    assert(a == seq![91u8] + items + seq![93u8]);
    assert forall|q: int| 0 <= q < a.len() implies s[base + q] == a[q] by {
        assert(s.subrange(base, base + a.len() as int)[q] == a[q]);
    }
    lemma_items_prefix(elems, k, n);
    let r = base + 1 + compact_items(elems, k).len();
    let st: CState = if k == 0 {
        CState::Start
    } else {
        CState::NoComma
    };
    assert(a.len() == items.len() + 2);
    if k == n {
        assert(s[r] == a[1 + items.len() as int]);
        assert(s[r] == 93);
        assert(spec_skip_ws(s, r) == r);
        assert(elems.take(k) =~= elems);
        assert(r + 1 == base + a.len());
    } else {
        let ek = elems[k];
        let enc_k = encode_compact(ek);
        lemma_items_prefix(elems, k + 1, n);
        assert(compact_items(elems, k + 1) == compact_items(elems, k) + (if k == 0 {
            Seq::<u8>::empty()
        } else {
            seq![44u8]
        }) + enc_k);
        let sep: int = if k == 0 {
            0
        } else {
            1
        };
        let p = r + sep;
        // the window of the element itself
        assert forall|x: int| 0 <= x < enc_k.len() implies s[p + x] == enc_k[x] by {
            assert(s[p + x] == a[p + x - base]);
            assert(a[p + x - base] == items[p + x - base - 1]);
            assert(items[compact_items(elems, k + 1).len() - enc_k.len() + x] == compact_items(
                elems,
                k + 1,
            )[compact_items(elems, k + 1).len() - enc_k.len() + x]);
        }
        assert(s.subrange(p, p + enc_k.len() as int) =~= enc_k);
        // the byte after the element: a separator or the closing bracket
        let after = p + enc_k.len();
        assert(after == base + 1 + compact_items(elems, k + 1).len());
        assert(s[after] == 44 || s[after] == 93) by {
            if k + 1 == n {
                assert(s[after] == a[1 + items.len() as int]);
            } else {
                assert(compact_items(elems, k + 2) == compact_items(elems, k + 1) + seq![44u8]
                    + encode_compact(elems[k + 1]));
                lemma_items_prefix(elems, k + 2, n);
                assert(s[after] == a[after - base]);
                assert(a[after - base] == items[after - base - 1]);
                assert(items[compact_items(elems, k + 1).len() as int] == compact_items(
                    elems,
                    k + 2,
                )[compact_items(elems, k + 1).len() as int]);
            }
        }
        // heights and wellformedness of the element
        lemma_heights_ge(elems, n, k);
        assert(view_wf(ek) && signed_canonical(ek));
        lemma_arr_dec(elems, k);
        lemma_enc_first_byte(ek);
        lemma_enc_value(s, p, ek, depth);
        let ni = p + enc_k.len() as int;
        assert(ni <= s.len());
        lemma_enc_array_items(s, base, elems, k + 1, depth);
        assert(elems.take(k).push(ek) =~= elems.take(k + 1));
        assert(spec_array_items(s, ni, depth, elems.take(k + 1), CState::NoComma)
            == PStep::<Seq<ValueView>>::Parsed(elems, base + a.len() as int));
        if k == 0 {
            assert(spec_skip_ws(s, r) == r);
            assert(s[r] == enc_k[0]);
            assert(spec_array_items(s, r, depth, elems.take(k), CState::Start)
                == spec_array_items(s, ni, depth, elems.take(k).push(ek), CState::NoComma));
        } else {
            assert(s[r] == 44) by {
                assert(s[r] == a[r - base]);
                assert(a[r - base] == items[r - base - 1]);
                assert(items[compact_items(elems, k).len() as int] == compact_items(
                    elems,
                    k + 1,
                )[compact_items(elems, k).len() as int]);
            }
            assert(spec_skip_ws(s, r) == r);
            assert(spec_skip_ws(s, r + 1) == r + 1);
            assert(s[r + 1] == enc_k[0]);
            assert(spec_array_items(s, r + 1, depth, elems.take(k), CState::AfterComma)
                == spec_array_items(s, ni, depth, elems.take(k).push(ek), CState::NoComma));
            assert(spec_array_items(s, r, depth, elems.take(k), CState::NoComma)
                == spec_array_items(s, r + 1, depth, elems.take(k), CState::AfterComma));
        }
    }
}

/// Parsing the pairs of an object from its `k`-th pair onward, over a window
/// that spells the object's compact rendering, collects all the pairs and
/// stops after the closing brace.
#[verifier::rlimit(100)]
#[verifier::spinoff_prover]
proof fn lemma_enc_object_pairs(
    s: Seq<u8>,
    base: int,
    pairs: Seq<(Seq<char>, ValueView)>,
    k: int,
    depth: int,
)
    requires
        0 <= k <= pairs.len(),
        1 <= depth,
        view_wf(ValueView::Object(pairs)),
        signed_canonical(ValueView::Object(pairs)),
        depth + pair_heights(pairs, pairs.len() as int) <= RECURSION_LIMIT,
        0 <= base,
        base + encode_compact(ValueView::Object(pairs)).len() <= s.len(),
        s.subrange(base, base + encode_compact(ValueView::Object(pairs)).len() as int)
            == encode_compact(ValueView::Object(pairs)),
    ensures
        spec_object_items(
            s,
            base + 1 + compact_pairs(pairs, k).len() as int,
            depth,
            pairs.take(k),
            if k == 0 {
                CState::Start
            } else {
                CState::NoComma
            },
        ) == PStep::<Seq<(Seq<char>, ValueView)>>::Parsed(
            pairs,
            base + encode_compact(ValueView::Object(pairs)).len() as int,
        ),
    decreases ValueView::Object(pairs), 0int, pairs.len() - k,
{
    broadcast use vstd::utf8::encode_utf8_valid_utf8, vstd::utf8::encode_utf8_decode_utf8;

    let n = pairs.len() as int;
    let items = compact_pairs(pairs, n);
    let a = encode_compact(ValueView::Object(pairs));
    assert(a == seq![123u8] + items + seq![125u8]);
    assert forall|q: int| 0 <= q < a.len() implies s[base + q] == a[q] by {
        assert(s.subrange(base, base + a.len() as int)[q] == a[q]);
    }
    lemma_pairs_prefix(pairs, k, n);
    let r = base + 1 + compact_pairs(pairs, k).len();
    assert(a.len() == items.len() + 2);
    if k == n {
        assert(s[r] == a[1 + items.len() as int]);
        assert(s[r] == 125);
        assert(spec_skip_ws(s, r) == r);
        assert(pairs.take(k) =~= pairs);
        assert(r + 1 == base + a.len());
    } else {
        let kv = pairs[k].0;
        let ev = pairs[k].1;
        let ks = encode_string(kv);
        let enc_k = encode_compact(ev);
        let chunk = ks + seq![58u8] + enc_k;
        lemma_pairs_prefix(pairs, k + 1, n);
        assert(compact_pairs(pairs, k + 1) == compact_pairs(pairs, k) + (if k == 0 {
            Seq::<u8>::empty()
        } else {
            seq![44u8]
        }) + chunk);
        let sep: int = if k == 0 {
            0
        } else {
            1
        };
        let p = r + sep;
        assert forall|x: int| 0 <= x < chunk.len() implies s[p + x] == chunk[x] by {
            assert(s[p + x] == a[p + x - base]);
            assert(a[p + x - base] == items[p + x - base - 1]);
            assert(items[compact_pairs(pairs, k + 1).len() - chunk.len() + x] == compact_pairs(
                pairs,
                k + 1,
            )[compact_pairs(pairs, k + 1).len() - chunk.len() + x]);
        }
        // the key string
        let eb = vstd::utf8::encode_utf8(kv);
        let ebs = escape_bytes(eb);
        assert(ks == seq![34u8] + ebs + seq![34u8]);
        assert(s[p] == chunk[0] && chunk[0] == 34);
        assert(s.subrange(p + 1, p + 1 + ebs.len() as int + 1) =~= ebs + seq![34u8]) by {
            assert forall|x: int| 0 <= x < ebs.len() + 1 implies s.subrange(
                p + 1,
                p + 1 + ebs.len() as int + 1,
            )[x] == (ebs + seq![34u8])[x] by {
                assert(s[p + 1 + x] == chunk[1 + x]);
                assert(chunk[1 + x] == ks[1 + x]);
            }
        }
        lemma_string_bytes_escaped(s, p + 1, eb, Seq::empty());
        assert(Seq::empty() + eb =~= eb);
        assert(vstd::utf8::valid_utf8(eb));
        assert(vstd::utf8::decode_utf8(eb) == kv);
        // the colon and the value
        let c = p + ks.len();
        assert(s[c] == chunk[ks.len() as int] && chunk[ks.len() as int] == 58);
        assert(spec_skip_ws(s, c) == c);
        let vp = c + 1;
        assert forall|x: int| 0 <= x < enc_k.len() implies s.subrange(
            vp,
            vp + enc_k.len() as int,
        )[x] == enc_k[x] by {
            assert(s[vp + x] == chunk[ks.len() + 1 + x]);
        }
        assert(s.subrange(vp, vp + enc_k.len() as int) =~= enc_k);
        let after = vp + enc_k.len();
        assert(after == base + 1 + compact_pairs(pairs, k + 1).len());
        assert(s[after] == 44 || s[after] == 125) by {
            if k + 1 == n {
                assert(s[after] == a[1 + items.len() as int]);
            } else {
                assert(compact_pairs(pairs, k + 2) == compact_pairs(pairs, k + 1) + seq![44u8]
                    + encode_string(pairs[k + 1].0) + seq![58u8] + encode_compact(pairs[k + 1].1));
                lemma_pairs_prefix(pairs, k + 2, n);
                assert(s[after] == a[after - base]);
                assert(a[after - base] == items[after - base - 1]);
                assert(items[compact_pairs(pairs, k + 1).len() as int] == compact_pairs(
                    pairs,
                    k + 2,
                )[compact_pairs(pairs, k + 1).len() as int]);
            }
        }
        lemma_pair_heights_ge(pairs, n, k);
        assert(view_wf(ev) && signed_canonical(ev));
        lemma_obj_dec(pairs, k);
        lemma_enc_value(s, vp, ev, depth);
        let ni = vp + enc_k.len() as int;
        assert(ni <= s.len());
        lemma_enc_object_pairs(s, base, pairs, k + 1, depth);
        assert(pairs.take(k).push((kv, ev)) =~= pairs.take(k + 1));
        assert(spec_object_items(s, ni, depth, pairs.take(k + 1), CState::NoComma)
            == PStep::<Seq<(Seq<char>, ValueView)>>::Parsed(pairs, base + a.len() as int));
        if k == 0 {
            assert(spec_skip_ws(s, r) == r);
            assert(spec_object_items(s, r, depth, pairs.take(k), CState::Start)
                == spec_object_items(s, ni, depth, pairs.take(k).push((kv, ev)), CState::NoComma));
        } else {
            assert(s[r] == 44) by {
                assert(s[r] == a[r - base]);
                assert(a[r - base] == items[r - base - 1]);
                assert(items[compact_pairs(pairs, k).len() as int] == compact_pairs(
                    pairs,
                    k + 1,
                )[compact_pairs(pairs, k).len() as int]);
            }
            assert(spec_skip_ws(s, r) == r);
            assert(spec_skip_ws(s, r + 1) == r + 1);
            assert(spec_object_items(s, r + 1, depth, pairs.take(k), CState::AfterComma)
                == spec_object_items(s, ni, depth, pairs.take(k).push((kv, ev)), CState::NoComma));
            assert(spec_object_items(s, r, depth, pairs.take(k), CState::NoComma)
                == spec_object_items(s, r + 1, depth, pairs.take(k), CState::AfterComma));
        }
    }
}

/// Round trip of the compact rendering: parsing the compact rendering of a
/// well-formed value tree — one whose float literals are complete, whose
/// signed numbers are strictly negative, and whose nesting stays within the
/// recursion limit — gives the very value back.
#[verifier::rlimit(100)]
#[verifier::spinoff_prover]
pub proof fn lemma_compact_round_trip(v: ValueView)
    requires
        view_wf(v),
        signed_canonical(v),
        height(v) <= RECURSION_LIMIT,
    ensures
        spec_parse(encode_compact(v)) == Ok::<ValueView, Error>(v),
{
    let s = encode_compact(v);
    assert(s.subrange(0, s.len() as int) =~= s);
    lemma_enc_value(s, 0, v, 0);
}

/// Indentation is whitespace alone: four spaces per level.
proof fn lemma_indent_ws(n: int)
    ensures
        indent(n).len() == if n <= 0 {
            0
        } else {
            4 * n
        },
        forall|k: int| 0 <= k < indent(n).len() ==> #[trigger] indent(n)[k] == 32,
    decreases
            if n <= 0 {
                0int
            } else {
                n
            },
{
    if n > 0 {
        lemma_indent_ws(n - 1);
    }
}

/// The formatted rendering of a value opens with the byte its compact
/// rendering opens with, and a value that is no container renders the same
/// way in the two.
proof fn lemma_enc_fmt_shape(v: ValueView, tab: int)
    requires
        view_wf(v),
    ensures
        encode_formatted(v, tab).len() > 0,
        encode_formatted(v, tab)[0] == encode_compact(v)[0],
        !(v is Array) && !(v is Object) ==> encode_formatted(v, tab) == encode_compact(v),
{
    lemma_enc_first_byte(v);
    match v {
        ValueView::Array(elems) => {
            assert(encode_compact(v)[0] == 91);
            assert(encode_formatted(v, tab)[0] == 91);
        },
        ValueView::Object(pairs) => {
            assert(encode_compact(v)[0] == 123);
            assert(encode_formatted(v, tab)[0] == 123);
        },
        _ => {},
    }
}

/// Earlier one-line element renderings are prefixes of later ones.
proof fn lemma_inline_prefix(elems: Seq<ValueView>, j: int, m: int)
    requires
        0 <= j <= m <= elems.len(),
    ensures
        inline_items(elems, j).len() <= inline_items(elems, m).len(),
        inline_items(elems, m).subrange(0, inline_items(elems, j).len() as int) == inline_items(
            elems,
            j,
        ),
    decreases m,
{
    if j < m {
        lemma_inline_prefix(elems, j, m - 1);
        assert(inline_items(elems, m).subrange(0, inline_items(elems, j).len() as int)
            =~= inline_items(elems, j));
    } else {
        assert(inline_items(elems, m).subrange(0, inline_items(elems, j).len() as int)
            =~= inline_items(elems, j));
    }
}

/// An element of a well-formed tree whose signed numbers are strictly
/// negative has the same shape itself.
proof fn lemma_tree_elem(elems: Seq<ValueView>, k: int)
    requires
        view_wf(ValueView::Array(elems)),
        signed_canonical(ValueView::Array(elems)),
        0 <= k < elems.len(),
    ensures
        view_wf(elems[k]),
        signed_canonical(elems[k]),
{
    let arr = ValueView::Array(elems);
    match arr {
        ValueView::Array(s) => {
            assert(forall|i: int| 0 <= i < s.len() ==> view_wf(#[trigger] s[i]));
            assert(forall|i: int| 0 <= i < s.len() ==> signed_canonical(#[trigger] s[i]));
        },
        _ => {},
    }
}

/// The value of a pair of a well-formed tree whose signed numbers are
/// strictly negative has the same shape itself.
proof fn lemma_tree_pair(pairs: Seq<(Seq<char>, ValueView)>, k: int)
    requires
        view_wf(ValueView::Object(pairs)),
        signed_canonical(ValueView::Object(pairs)),
        0 <= k < pairs.len(),
    ensures
        view_wf(pairs[k].1),
        signed_canonical(pairs[k].1),
{
    let obj = ValueView::Object(pairs);
    match obj {
        ValueView::Object(s) => {
            assert(forall|i: int| 0 <= i < s.len() ==> view_wf((#[trigger] s[i]).1));
            assert(forall|i: int| 0 <= i < s.len() ==> signed_canonical((#[trigger] s[i]).1));
        },
        _ => {},
    }
}

/// Parsing the elements of an array from its `k`-th element onward, over a
/// window that spells the array's one-line formatted rendering, collects all
/// the elements and stops after the closing bracket.
#[verifier::rlimit(100)]
#[verifier::spinoff_prover]
proof fn lemma_enc_inline_items(s: Seq<u8>, base: int, elems: Seq<ValueView>, k: int, depth: int)
    requires
        0 <= k <= elems.len(),
        1 <= depth,
        !has_container(elems),
        view_wf(ValueView::Array(elems)),
        signed_canonical(ValueView::Array(elems)),
        depth + heights(elems, elems.len() as int) <= RECURSION_LIMIT,
        0 <= base,
        base + inline_items(elems, elems.len() as int).len() + 2 <= s.len(),
        s.subrange(base, base + inline_items(elems, elems.len() as int).len() as int + 2) == seq![
            91u8,
        ] + inline_items(elems, elems.len() as int) + seq![93u8],
    ensures
        spec_array_items(
            s,
            base + 1 + inline_items(elems, k).len() as int,
            depth,
            elems.take(k),
            if k == 0 {
                CState::Start
            } else {
                CState::NoComma
            },
        ) == PStep::<Seq<ValueView>>::Parsed(
            elems,
            base + inline_items(elems, elems.len() as int).len() as int + 2,
        ),
    decreases elems.len() - k,
{
    let n = elems.len() as int;
    let items = inline_items(elems, n);
    let a = seq![91u8] + items + seq![93u8];
    assert forall|q: int| 0 <= q < a.len() implies s[base + q] == a[q] by {
        assert(s.subrange(base, base + a.len() as int)[q] == a[q]);
    }
    lemma_inline_prefix(elems, k, n);
    let r = base + 1 + inline_items(elems, k).len();
    let st: CState = if k == 0 {
        CState::Start
    } else {
        CState::NoComma
    };
    assert(a.len() == items.len() + 2);
    if k == n {
        assert(s[r] == a[1 + items.len() as int]);
        assert(s[r] == 93);
        assert(spec_skip_ws(s, r) == r);
        assert(elems.take(k) =~= elems);
        assert(r + 1 == base + a.len());
    } else {
        let ek = elems[k];
        lemma_tree_elem(elems, k);
        assert(view_wf(ek) && signed_canonical(ek));
        assert(!(ek is Array) && !(ek is Object)) by {
            if ek is Array || ek is Object {
                assert(has_container(elems));
            }
        }
        lemma_heights_ge(elems, n, k);
        lemma_enc_fmt_shape(ek, 0);
        let enc_k = encode_formatted(ek, 0);
        assert(enc_k == encode_compact(ek));
        lemma_inline_prefix(elems, k + 1, n);
        assert(inline_items(elems, k + 1) == inline_items(elems, k) + (if k == 0 {
            Seq::<u8>::empty()
        } else {
            seq![44u8, 32u8]
        }) + enc_k);
        let sep: int = if k == 0 {
            0
        } else {
            2
        };
        let p = r + sep;
        // the window of the element itself
        assert forall|x: int| 0 <= x < enc_k.len() implies s[p + x] == enc_k[x] by {
            assert(s[p + x] == a[p + x - base]);
            assert(a[p + x - base] == items[p + x - base - 1]);
            assert(items[inline_items(elems, k + 1).len() - enc_k.len() + x] == inline_items(
                elems,
                k + 1,
            )[inline_items(elems, k + 1).len() - enc_k.len() + x]);
        }
        assert(s.subrange(p, p + enc_k.len() as int) =~= enc_k);
        // the byte after the element: a separator or the closing bracket
        let after = p + enc_k.len();
        assert(after == base + 1 + inline_items(elems, k + 1).len());
        assert(s[after] == 44 || s[after] == 93) by {
            if k + 1 == n {
                assert(s[after] == a[1 + items.len() as int]);
            } else {
                assert(inline_items(elems, k + 2) == inline_items(elems, k + 1) + seq![44u8, 32u8]
                    + encode_formatted(elems[k + 1], 0));
                lemma_inline_prefix(elems, k + 2, n);
                assert(s[after] == a[after - base]);
                assert(a[after - base] == items[after - base - 1]);
                assert(items[inline_items(elems, k + 1).len() as int] == inline_items(
                    elems,
                    k + 2,
                )[inline_items(elems, k + 1).len() as int]);
            }
        }
        lemma_enc_first_byte(ek);
        lemma_enc_value(s, p, ek, depth);
        let ni = p + enc_k.len() as int;
        assert(ni <= s.len());
        lemma_enc_inline_items(s, base, elems, k + 1, depth);
        assert(elems.take(k).push(ek) =~= elems.take(k + 1));
        assert(spec_array_items(s, ni, depth, elems.take(k + 1), CState::NoComma)
            == PStep::<Seq<ValueView>>::Parsed(elems, base + a.len() as int));
        if k == 0 {
            assert(spec_skip_ws(s, r) == r);
            assert(s[r] == enc_k[0]);
            assert(spec_array_items(s, r, depth, elems.take(k), CState::Start)
                == spec_array_items(s, ni, depth, elems.take(k).push(ek), CState::NoComma));
        } else {
            assert(s[r] == 44) by {
                assert(s[r] == a[r - base]);
                assert(a[r - base] == items[r - base - 1]);
                assert(items[inline_items(elems, k).len() as int] == inline_items(
                    elems,
                    k + 1,
                )[inline_items(elems, k).len() as int]);
            }
            assert(spec_skip_ws(s, r) == r);
            assert(s[r + 1] == 32 && s[p] == enc_k[0] && !is_ws(enc_k[0])) by {
                assert(s[r + 1] == a[r + 1 - base]);
                assert(a[r + 1 - base] == items[r + 1 - base - 1]);
                assert(items[inline_items(elems, k).len() as int + 1] == inline_items(
                    elems,
                    k + 1,
                )[inline_items(elems, k).len() as int + 1]);
            }
            lemma_skip_ws_window(s, r + 1, p);
            assert(spec_array_items(s, r + 1, depth, elems.take(k), CState::AfterComma)
                == spec_array_items(s, ni, depth, elems.take(k).push(ek), CState::NoComma));
            assert(spec_array_items(s, r, depth, elems.take(k), CState::NoComma)
                == spec_array_items(s, r + 1, depth, elems.take(k), CState::AfterComma));
        }
    }
}

/// A value parse is decided after its leading whitespace: parsing from a
/// position and from the end of the whitespace that follows it agree.
proof fn lemma_parse_value_ws(s: Seq<u8>, i: int, depth: int)
    requires
        0 <= i <= s.len(),
    ensures
        spec_parse_value(s, i, depth) == spec_parse_value(s, spec_skip_ws(s, i), depth),
{
    lemma_skip_ws(s, i);
    let j = spec_skip_ws(s, i);
    lemma_skip_ws_window(s, j, j);
}

/// The window that the formatted rendering of an array that breaks one
/// element per line occupies, with its elements at indentation level `ind`.
spec fn fmt_array_window(elems: Seq<ValueView>, ind: int) -> Seq<u8> {
    seq![91u8, 10u8] + indent(ind) + formatted_items(elems, ind, elems.len() as int) + seq![10u8]
        + indent(ind - 1) + seq![93u8]
}

/// The window that the formatted rendering of a non-empty object occupies,
/// with its pairs at indentation level `ind`.
spec fn fmt_object_window(pairs: Seq<(Seq<char>, ValueView)>, ind: int) -> Seq<u8> {
    seq![123u8] + formatted_pairs(pairs, ind, pairs.len() as int) + seq![10u8] + indent(ind - 1)
        + seq![125u8]
}

/// Earlier one-per-line element renderings are prefixes of later ones.
proof fn lemma_fmt_items_prefix(elems: Seq<ValueView>, ind: int, j: int, m: int)
    requires
        0 <= j <= m <= elems.len(),
    ensures
        formatted_items(elems, ind, j).len() <= formatted_items(elems, ind, m).len(),
        formatted_items(elems, ind, m).subrange(0, formatted_items(elems, ind, j).len() as int)
            == formatted_items(elems, ind, j),
    decreases m,
{
    if j < m {
        lemma_fmt_items_prefix(elems, ind, j, m - 1);
        assert(formatted_items(elems, ind, m).subrange(
            0,
            formatted_items(elems, ind, j).len() as int,
        ) =~= formatted_items(elems, ind, j));
    } else {
        assert(formatted_items(elems, ind, m).subrange(
            0,
            formatted_items(elems, ind, j).len() as int,
        ) =~= formatted_items(elems, ind, j));
    }
}

/// Earlier one-per-line pair renderings are prefixes of later ones.
proof fn lemma_fmt_pairs_prefix(pairs: Seq<(Seq<char>, ValueView)>, ind: int, j: int, m: int)
    requires
        0 <= j <= m <= pairs.len(),
    ensures
        formatted_pairs(pairs, ind, j).len() <= formatted_pairs(pairs, ind, m).len(),
        formatted_pairs(pairs, ind, m).subrange(0, formatted_pairs(pairs, ind, j).len() as int)
            == formatted_pairs(pairs, ind, j),
    decreases m,
{
    if j < m {
        lemma_fmt_pairs_prefix(pairs, ind, j, m - 1);
        assert(formatted_pairs(pairs, ind, m).subrange(
            0,
            formatted_pairs(pairs, ind, j).len() as int,
        ) =~= formatted_pairs(pairs, ind, j));
    } else {
        assert(formatted_pairs(pairs, ind, m).subrange(
            0,
            formatted_pairs(pairs, ind, j).len() as int,
        ) =~= formatted_pairs(pairs, ind, j));
    }
}

/// Parsing one value over a window that spells its formatted rendering at
/// level `tab`, followed by a separator, a closing bracket, whitespace or
/// the end of the input, gives the value back and stops after the window.
#[verifier::rlimit(100)]
#[verifier::spinoff_prover]
proof fn lemma_enc_fmt_value(s: Seq<u8>, i: int, v: ValueView, depth: int, tab: int)
    requires
        view_wf(v),
        signed_canonical(v),
        0 <= depth,
        depth + height(v) <= RECURSION_LIMIT,
        0 <= tab,
        0 <= i,
        i + encode_formatted(v, tab).len() <= s.len(),
        s.subrange(i, i + encode_formatted(v, tab).len() as int) == encode_formatted(v, tab),
        ({
            let e = i + encode_formatted(v, tab).len();
            e == s.len() || s[e] == 44 || s[e] == 93 || s[e] == 125 || is_ws(s[e])
        }),
    ensures
        spec_parse_value(s, i, depth) == PStep::<ValueView>::Parsed(
            v,
            i + encode_formatted(v, tab).len() as int,
        ),
    decreases v, 1int, 0int,
{
    let t = encode_formatted(v, tab);
    let e = i + t.len();
    assert forall|k: int| 0 <= k < t.len() implies s[i + k] == t[k] by {
        assert(s.subrange(i, e as int)[k] == t[k]);
    }
    lemma_enc_fmt_shape(v, tab);
    lemma_enc_first_byte(v);
    match v {
        ValueView::Array(elems) => {
            let n = elems.len() as int;
            crate::value::lemma_heights_nonneg(elems, n);
            assert(s[i] == 91);
            assert(spec_skip_ws(s, i) == i);
            if has_container(elems) {
                let ind = tab + 1;
                assert(t == fmt_array_window(elems, ind));
                assert(n >= 1) by {
                    let w = choose|m: int|
                        0 <= m < elems.len() && (elems[m] is Array || elems[m] is Object);
                }
                lemma_indent_ws(ind);
                assert(elems.take(0) =~= Seq::<ValueView>::empty());
                lemma_enc_fmt_items(s, i, elems, 0, depth + 1, ind);
            } else {
                assert(t == seq![91u8] + inline_items(elems, n) + seq![93u8]);
                assert(inline_items(elems, 0).len() == 0);
                assert(elems.take(0) =~= Seq::<ValueView>::empty());
                lemma_enc_inline_items(s, i, elems, 0, depth + 1);
            }
            assert(elems.take(n) =~= elems);
        },
        ValueView::Object(pairs) => {
            let n = pairs.len() as int;
            crate::value::lemma_pair_heights_nonneg(pairs, n);
            assert(s[i] == 123);
            assert(spec_skip_ws(s, i) == i);
            if n == 0 {
                assert(t =~= seq![123u8, 125u8]);
                assert(s[i + 1] == 125);
                assert(spec_skip_ws(s, i + 1) == i + 1);
                assert(pairs =~= Seq::<(Seq<char>, ValueView)>::empty());
            } else {
                let ind = tab + 1;
                assert(t == fmt_object_window(pairs, ind));
                lemma_indent_ws(ind);
                assert(formatted_pairs(pairs, ind, 0).len() == 0);
                assert(pairs.take(0) =~= Seq::<(Seq<char>, ValueView)>::empty());
                lemma_enc_fmt_pairs(s, i, pairs, 0, depth + 1, ind);
            }
            assert(pairs.take(n) =~= pairs);
        },
        _ => {
            assert(t == encode_compact(v));
            assert(s.subrange(i, i + encode_compact(v).len() as int) == encode_compact(v));
            lemma_enc_value(s, i, v, depth);
        },
    }
}

/// The bytes around the `k`-th element of an array window that breaks one
/// element per line: the separator before it, the whitespace run, the
/// element's own rendering, and the byte after it.
#[verifier::rlimit(100)]
#[verifier::spinoff_prover]
proof fn lemma_fmt_item_layout(
    s: Seq<u8>,
    base: int,
    elems: Seq<ValueView>,
    k: int,
    ind: int,
    r: int,
    p: int,
    after: int,
)
    requires
        0 <= k < elems.len(),
        1 <= ind,
        0 <= base,
        base + fmt_array_window(elems, ind).len() <= s.len(),
        s.subrange(base, base + fmt_array_window(elems, ind).len() as int) == fmt_array_window(
            elems,
            ind,
        ),
        r == base + 2 + indent(ind).len() + formatted_items(elems, ind, k).len(),
        p == r + if k == 0 {
            0int
        } else {
            2 + indent(ind).len() as int
        },
        after == p + encode_formatted(elems[k], ind).len(),
    ensures
        after == base + 2 + indent(ind).len() + formatted_items(elems, ind, k + 1).len(),
        after < base + fmt_array_window(elems, ind).len(),
        k > 0 ==> s[r] == 44,
        k > 0 ==> forall|q: int| r + 1 <= q < p ==> is_ws(#[trigger] s[q]),
        k == 0 ==> forall|q: int| base + 1 <= q < p ==> is_ws(#[trigger] s[q]),
        s.subrange(p, after) == encode_formatted(elems[k], ind),
        s[after] == 44 || s[after] == 10,
{
    let n = elems.len() as int;
    let items = formatted_items(elems, ind, n);
    let a = fmt_array_window(elems, ind);
    lemma_indent_ws(ind);
    lemma_indent_ws(ind - 1);
    let pre = 2 + indent(ind).len() as int;
    assert(a.len() == pre + items.len() + 2 + indent(ind - 1).len());
    assert forall|q: int| 0 <= q < a.len() implies s[base + q] == a[q] by {
        assert(s.subrange(base, base + a.len() as int)[q] == a[q]);
    }
    assert(a[0] == 91 && a[1] == 10);
    assert forall|q: int| 2 <= q < 2 + indent(ind).len() implies #[trigger] a[q] == 32 by {
        assert(a[q] == indent(ind)[q - 2]);
    }
    assert forall|q: int| 0 <= q < items.len() implies a[pre + q] == #[trigger] items[q] by {}
    assert(a[pre + items.len()] == 10);
    lemma_fmt_items_prefix(elems, ind, k, n);
    let ek = elems[k];
    let enc_k = encode_formatted(ek, ind);
    lemma_fmt_items_prefix(elems, ind, k + 1, n);
    assert(formatted_items(elems, ind, k + 1) == formatted_items(elems, ind, k) + (if k == 0 {
        Seq::<u8>::empty()
    } else {
        seq![44u8, 10u8] + indent(ind)
    }) + enc_k);
    // the window of the element itself
    assert forall|x: int| 0 <= x < enc_k.len() implies s[p + x] == enc_k[x] by {
        assert(s[p + x] == a[p + x - base]);
        assert(a[p + x - base] == items[p + x - base - pre]);
        assert(items[formatted_items(elems, ind, k + 1).len() - enc_k.len() + x]
            == formatted_items(elems, ind, k + 1)[formatted_items(elems, ind, k + 1).len()
            - enc_k.len() + x]);
    }
    assert(s.subrange(p, after) =~= enc_k);
    // the byte after the element: a separator or the final line feed
    assert(s[after] == 44 || s[after] == 10) by {
        if k + 1 == n {
            assert(s[after] == a[pre + items.len()]);
        } else {
            assert(formatted_items(elems, ind, k + 2) == formatted_items(elems, ind, k + 1)
                + seq![44u8, 10u8] + indent(ind) + encode_formatted(elems[k + 1], ind));
            lemma_fmt_items_prefix(elems, ind, k + 2, n);
            assert(s[after] == a[after - base]);
            assert(a[after - base] == items[after - base - pre]);
            assert(items[formatted_items(elems, ind, k + 1).len() as int] == formatted_items(
                elems,
                ind,
                k + 2,
            )[formatted_items(elems, ind, k + 1).len() as int]);
        }
    }
    if k == 0 {
        // the opening line feed and indentation before the first element
        assert forall|q: int| base + 1 <= q < p implies is_ws(#[trigger] s[q]) by {
            if q == base + 1 {
                assert(s[q] == a[1]);
            } else {
                assert(s[q] == a[2 + (q - base - 2)]);
            }
        }
    } else {
        assert(s[r] == 44) by {
            assert(s[r] == a[r - base]);
            assert(a[r - base] == items[r - base - pre]);
            assert(items[formatted_items(elems, ind, k).len() as int] == formatted_items(
                elems,
                ind,
                k + 1,
            )[formatted_items(elems, ind, k).len() as int]);
        }
        // the line feed and indentation between the comma and the element
        assert forall|q: int| r + 1 <= q < p implies is_ws(#[trigger] s[q]) by {
            assert(s[q] == a[q - base]);
            assert(a[q - base] == items[q - base - pre]);
            assert(items[formatted_items(elems, ind, k).len() + (q - r - 1) + 1]
                == formatted_items(elems, ind, k + 1)[formatted_items(elems, ind, k).len() + (q - r
                - 1) + 1]);
        }
    }
}

/// Parsing the elements of an array from its `k`-th element onward, over a
/// window that spells the array's one-element-per-line formatted rendering,
/// collects all the elements and stops after the closing bracket.
#[verifier::rlimit(100)]
#[verifier::spinoff_prover]
proof fn lemma_enc_fmt_items(
    s: Seq<u8>,
    base: int,
    elems: Seq<ValueView>,
    k: int,
    depth: int,
    ind: int,
)
    requires
        0 <= k <= elems.len(),
        1 <= elems.len(),
        1 <= depth,
        1 <= ind,
        view_wf(ValueView::Array(elems)),
        signed_canonical(ValueView::Array(elems)),
        depth + heights(elems, elems.len() as int) <= RECURSION_LIMIT,
        0 <= base,
        base + fmt_array_window(elems, ind).len() <= s.len(),
        s.subrange(base, base + fmt_array_window(elems, ind).len() as int) == fmt_array_window(
            elems,
            ind,
        ),
    ensures
        spec_array_items(
            s,
            if k == 0 {
                base + 1
            } else {
                base + 2 + indent(ind).len() + formatted_items(elems, ind, k).len() as int
            },
            depth,
            elems.take(k),
            if k == 0 {
                CState::Start
            } else {
                CState::NoComma
            },
        ) == PStep::<Seq<ValueView>>::Parsed(
            elems,
            base + fmt_array_window(elems, ind).len() as int,
        ),
    decreases ValueView::Array(elems), 0int, elems.len() - k,
{
    let n = elems.len() as int;
    let items = formatted_items(elems, ind, n);
    let a = fmt_array_window(elems, ind);
    lemma_indent_ws(ind);
    lemma_indent_ws(ind - 1);
    let pre = 2 + indent(ind).len() as int;
    assert(a.len() == pre + items.len() + 2 + indent(ind - 1).len());
    lemma_fmt_items_prefix(elems, ind, k, n);
    let r = base + pre + formatted_items(elems, ind, k).len();
    if k == n {
        // after the last element: a line feed, the closing indentation, and
        // the bracket
        let z = r + 1 + indent(ind - 1).len();
        assert forall|q: int| 0 <= q < a.len() implies s[base + q] == a[q] by {
            assert(s.subrange(base, base + a.len() as int)[q] == a[q]);
        }
        assert(s[z] == 93) by {
            assert(a[a.len() - 1] == 93);
        }
        assert forall|q: int| r <= q < z implies is_ws(#[trigger] s[q]) by {
            if q == r {
                assert(s[q] == a[pre + items.len()]);
                assert(a[pre + items.len()] == 10);
            } else {
                assert(s[q] == a[pre + items.len() + 1 + (q - r - 1)]);
                assert(a[pre + items.len() + 1 + (q - r - 1)] == indent(ind - 1)[q - r - 1]);
            }
        }
        lemma_skip_ws_window(s, r, z);
        assert(elems.take(k) =~= elems);
        assert(z + 1 == base + a.len());
    } else {
        let ek = elems[k];
        lemma_tree_elem(elems, k);
        let enc_k = encode_formatted(ek, ind);
        let sep: int = if k == 0 {
            0
        } else {
            2 + indent(ind).len() as int
        };
        let p = r + sep;
        let after = p + enc_k.len();
        lemma_fmt_item_layout(s, base, elems, k, ind, r, p, after);
        lemma_heights_ge(elems, n, k);
        lemma_arr_dec(elems, k);
        lemma_enc_fmt_shape(ek, ind);
        lemma_enc_first_byte(ek);
        assert(s[p] == enc_k[0]) by {
            assert(s.subrange(p, after)[0] == enc_k[0]);
        }
        assert(!is_ws(enc_k[0]) && enc_k[0] != 93);
        lemma_enc_fmt_value(s, p, ek, depth, ind);
        let ni = after;
        lemma_enc_fmt_items(s, base, elems, k + 1, depth, ind);
        assert(elems.take(k).push(ek) =~= elems.take(k + 1));
        assert(spec_array_items(s, ni, depth, elems.take(k + 1), CState::NoComma)
            == PStep::<Seq<ValueView>>::Parsed(elems, base + a.len() as int));
        if k == 0 {
            lemma_skip_ws_window(s, base + 1, p);
            assert(spec_array_items(s, base + 1, depth, elems.take(k), CState::Start)
                == spec_array_items(s, ni, depth, elems.take(k).push(ek), CState::NoComma));
        } else {
            assert(spec_skip_ws(s, r) == r);
            lemma_skip_ws_window(s, r + 1, p);
            assert(spec_array_items(s, r + 1, depth, elems.take(k), CState::AfterComma)
                == spec_array_items(s, ni, depth, elems.take(k).push(ek), CState::NoComma));
            assert(spec_array_items(s, r, depth, elems.take(k), CState::NoComma)
                == spec_array_items(s, r + 1, depth, elems.take(k), CState::AfterComma));
        }
    }
}

/// The bytes around the `k`-th pair of an object window that breaks one pair
/// per line: the separator before it, the whitespace run, the key, the colon
/// and space, the value's rendering, and the byte after it.
#[verifier::rlimit(100)]
#[verifier::spinoff_prover]
proof fn lemma_fmt_pair_layout(
    s: Seq<u8>,
    base: int,
    pairs: Seq<(Seq<char>, ValueView)>,
    k: int,
    ind: int,
    r: int,
    p: int,
    kq: int,
    c: int,
    vp: int,
    after: int,
)
    requires
        0 <= k < pairs.len(),
        1 <= ind,
        0 <= base,
        base + fmt_object_window(pairs, ind).len() <= s.len(),
        s.subrange(base, base + fmt_object_window(pairs, ind).len() as int) == fmt_object_window(
            pairs,
            ind,
        ),
        r == base + 1 + formatted_pairs(pairs, ind, k).len(),
        p == r + if k == 0 {
            0int
        } else {
            1int
        },
        kq == p + 1 + indent(ind).len(),
        c == kq + encode_string(pairs[k].0).len(),
        vp == c + 2,
        after == vp + encode_formatted(pairs[k].1, ind).len(),
    ensures
        after == base + 1 + formatted_pairs(pairs, ind, k + 1).len(),
        after < base + fmt_object_window(pairs, ind).len(),
        k > 0 ==> s[r] == 44,
        forall|q: int| p <= q < kq ==> is_ws(#[trigger] s[q]),
        s[kq] == 34,
        s.subrange(kq + 1, c) == escape_bytes(vstd::utf8::encode_utf8(pairs[k].0)) + seq![
            34u8,
        ],
        s[c] == 58,
        s[c + 1] == 32,
        s.subrange(vp, after) == encode_formatted(pairs[k].1, ind),
        s[after] == 44 || s[after] == 10,
{
    let n = pairs.len() as int;
    let items = formatted_pairs(pairs, ind, n);
    let a = fmt_object_window(pairs, ind);
    lemma_indent_ws(ind);
    lemma_indent_ws(ind - 1);
    assert(a.len() == 1 + items.len() + 2 + indent(ind - 1).len());
    assert forall|q: int| 0 <= q < a.len() implies s[base + q] == a[q] by {
        assert(s.subrange(base, base + a.len() as int)[q] == a[q]);
    }
    assert(a[0] == 123);
    assert forall|q: int| 0 <= q < items.len() implies a[1 + q] == #[trigger] items[q] by {}
    assert(a[1 + items.len() as int] == 10);
    lemma_fmt_pairs_prefix(pairs, ind, k, n);
    let kv = pairs[k].0;
    let ev = pairs[k].1;
    let ks = encode_string(kv);
    let enc_v = encode_formatted(ev, ind);
    let chunk = seq![10u8] + indent(ind) + ks + seq![58u8, 32u8] + enc_v;
    lemma_fmt_pairs_prefix(pairs, ind, k + 1, n);
    assert(formatted_pairs(pairs, ind, k + 1) == formatted_pairs(pairs, ind, k) + (if k == 0 {
        Seq::<u8>::empty()
    } else {
        seq![44u8]
    }) + chunk);
    // the window of the pair itself
    assert forall|x: int| 0 <= x < chunk.len() implies s[p + x] == chunk[x] by {
        assert(s[p + x] == a[p + x - base]);
        assert(a[p + x - base] == items[p + x - base - 1]);
        assert(items[formatted_pairs(pairs, ind, k + 1).len() - chunk.len() + x]
            == formatted_pairs(pairs, ind, k + 1)[formatted_pairs(pairs, ind, k + 1).len()
            - chunk.len() + x]);
    }
    // the line feed and indentation before the key
    assert forall|q: int| p <= q < kq implies is_ws(#[trigger] s[q]) by {
        if q == p {
            assert(s[q] == chunk[0]);
        } else {
            assert(s[q] == chunk[1 + (q - p - 1)]);
        }
    }
    // the key string, the colon, the space, and the value
    let eb = vstd::utf8::encode_utf8(kv);
    let ebs = escape_bytes(eb);
    assert(ks == seq![34u8] + ebs + seq![34u8]);
    assert(s[kq] == chunk[1 + indent(ind).len() as int] && chunk[1 + indent(ind).len() as int]
        == ks[0]);
    assert(s.subrange(kq + 1, c) =~= ebs + seq![34u8]) by {
        assert forall|x: int| 0 <= x < ebs.len() + 1 implies s.subrange(kq + 1, c)[x] == (ebs
            + seq![34u8])[x] by {
            assert(s[kq + 1 + x] == chunk[1 + indent(ind).len() as int + 1 + x]);
            assert(chunk[1 + indent(ind).len() as int + 1 + x] == ks[1 + x]);
        }
    }
    assert(s[c] == chunk[1 + indent(ind).len() as int + ks.len()] && chunk[1 + indent(ind).len()
        as int + ks.len()] == 58);
    assert(s[c + 1] == 32) by {
        assert(s[c + 1] == chunk[1 + indent(ind).len() as int + ks.len() + 1]);
    }
    assert forall|x: int| 0 <= x < enc_v.len() implies s.subrange(vp, after)[x] == enc_v[x] by {
        assert(s[vp + x] == chunk[1 + indent(ind).len() as int + ks.len() + 2 + x]);
    }
    assert(s.subrange(vp, after) =~= enc_v);
    // the byte after the value: a separator or the final line feed
    assert(s[after] == 44 || s[after] == 10) by {
        if k + 1 == n {
            assert(s[after] == a[1 + items.len() as int]);
        } else {
            assert(formatted_pairs(pairs, ind, k + 2) == formatted_pairs(pairs, ind, k + 1)
                + seq![44u8] + seq![10u8] + indent(ind) + encode_string(pairs[k + 1].0) + seq![
                58u8,
                32u8,
            ] + encode_formatted(pairs[k + 1].1, ind));
            lemma_fmt_pairs_prefix(pairs, ind, k + 2, n);
            assert(s[after] == a[after - base]);
            assert(a[after - base] == items[after - base - 1]);
            assert(items[formatted_pairs(pairs, ind, k + 1).len() as int] == formatted_pairs(
                pairs,
                ind,
                k + 2,
            )[formatted_pairs(pairs, ind, k + 1).len() as int]);
        }
    }
    if k > 0 {
        assert(s[r] == 44) by {
            assert(s[r] == a[r - base]);
            assert(a[r - base] == items[r - base - 1]);
            assert(items[formatted_pairs(pairs, ind, k).len() as int] == formatted_pairs(
                pairs,
                ind,
                k + 1,
            )[formatted_pairs(pairs, ind, k).len() as int]);
        }
    }
}

/// Parsing the pairs of an object from its `k`-th pair onward, over a window
/// that spells the object's one-pair-per-line formatted rendering, collects
/// all the pairs and stops after the closing brace.
#[verifier::rlimit(100)]
#[verifier::spinoff_prover]
proof fn lemma_enc_fmt_pairs(
    s: Seq<u8>,
    base: int,
    pairs: Seq<(Seq<char>, ValueView)>,
    k: int,
    depth: int,
    ind: int,
)
    requires
        0 <= k <= pairs.len(),
        1 <= pairs.len(),
        1 <= depth,
        1 <= ind,
        view_wf(ValueView::Object(pairs)),
        signed_canonical(ValueView::Object(pairs)),
        depth + pair_heights(pairs, pairs.len() as int) <= RECURSION_LIMIT,
        0 <= base,
        base + fmt_object_window(pairs, ind).len() <= s.len(),
        s.subrange(base, base + fmt_object_window(pairs, ind).len() as int) == fmt_object_window(
            pairs,
            ind,
        ),
    ensures
        spec_object_items(
            s,
            base + 1 + formatted_pairs(pairs, ind, k).len() as int,
            depth,
            pairs.take(k),
            if k == 0 {
                CState::Start
            } else {
                CState::NoComma
            },
        ) == PStep::<Seq<(Seq<char>, ValueView)>>::Parsed(
            pairs,
            base + fmt_object_window(pairs, ind).len() as int,
        ),
    decreases ValueView::Object(pairs), 0int, pairs.len() - k,
{
    let n = pairs.len() as int;
    let items = formatted_pairs(pairs, ind, n);
    let a = fmt_object_window(pairs, ind);
    lemma_indent_ws(ind);
    lemma_indent_ws(ind - 1);
    assert(a.len() == 1 + items.len() + 2 + indent(ind - 1).len());
    lemma_fmt_pairs_prefix(pairs, ind, k, n);
    let r = base + 1 + formatted_pairs(pairs, ind, k).len();
    if k == n {
        // after the last pair: a line feed, the closing indentation, and the
        // brace
        let z = r + 1 + indent(ind - 1).len();
        assert forall|q: int| 0 <= q < a.len() implies s[base + q] == a[q] by {
            assert(s.subrange(base, base + a.len() as int)[q] == a[q]);
        }
        assert(s[z] == 125) by {
            assert(a[a.len() - 1] == 125);
        }
        assert forall|q: int| r <= q < z implies is_ws(#[trigger] s[q]) by {
            if q == r {
                assert(s[q] == a[1 + items.len() as int]);
                assert(a[1 + items.len() as int] == 10);
            } else {
                assert(s[q] == a[1 + items.len() as int + 1 + (q - r - 1)]);
                assert(a[1 + items.len() as int + 1 + (q - r - 1)] == indent(ind - 1)[q - r - 1]);
            }
        }
        lemma_skip_ws_window(s, r, z);
        assert(pairs.take(k) =~= pairs);
        assert(z + 1 == base + a.len());
    } else {
        let kv = pairs[k].0;
        let ev = pairs[k].1;
        let ks = encode_string(kv);
        lemma_tree_pair(pairs, k);
        let enc_v = encode_formatted(ev, ind);
        let sep: int = if k == 0 {
            0
        } else {
            1
        };
        let p = r + sep;
        let kq = p + 1 + indent(ind).len();
        let c = kq + ks.len();
        let vp = c + 2;
        let after = vp + enc_v.len();
        lemma_fmt_pair_layout(s, base, pairs, k, ind, r, p, kq, c, vp, after);
        // the key string
        let eb = vstd::utf8::encode_utf8(kv);
        let ebs = escape_bytes(eb);
        assert(ks == seq![34u8] + ebs + seq![34u8]);
        assert(s.subrange(kq + 1, kq + 1 + ebs.len() as int + 1) == ebs + seq![34u8]) by {
            assert(kq + 1 + ebs.len() as int + 1 == c);
        }
        lemma_string_bytes_escaped(s, kq + 1, eb, Seq::empty());
        assert(Seq::empty() + eb =~= eb);
        assert(vstd::utf8::valid_utf8(eb)) by {
            broadcast use vstd::utf8::encode_utf8_valid_utf8;

        }
        assert(vstd::utf8::decode_utf8(eb) == kv) by {
            broadcast use vstd::utf8::encode_utf8_decode_utf8;

        }
        // the colon, the space, and the value
        assert(spec_skip_ws(s, c) == c);
        lemma_pair_heights_ge(pairs, n, k);
        lemma_obj_dec(pairs, k);
        lemma_enc_fmt_shape(ev, ind);
        lemma_enc_first_byte(ev);
        assert(s[vp] == enc_v[0]) by {
            assert(s.subrange(vp, after)[0] == enc_v[0]);
        }
        assert(!is_ws(enc_v[0]));
        lemma_enc_fmt_value(s, vp, ev, depth, ind);
        assert(spec_skip_ws(s, c + 1) == vp) by {
            lemma_skip_ws_window(s, c + 1, vp);
        }
        lemma_parse_value_ws(s, c + 1, depth);
        assert(spec_parse_value(s, c + 1, depth) == PStep::<ValueView>::Parsed(ev, after));
        let ni = after;
        lemma_enc_fmt_pairs(s, base, pairs, k + 1, depth, ind);
        assert(pairs.take(k).push((kv, ev)) =~= pairs.take(k + 1));
        assert(spec_object_items(s, ni, depth, pairs.take(k + 1), CState::NoComma)
            == PStep::<Seq<(Seq<char>, ValueView)>>::Parsed(pairs, base + a.len() as int));
        assert(s[kq] == 34);
        lemma_skip_ws_window(s, p, kq);
        if k == 0 {
            assert(spec_object_items(s, r, depth, pairs.take(k), CState::Start)
                == spec_object_items(s, ni, depth, pairs.take(k).push((kv, ev)), CState::NoComma));
        } else {
            assert(s[r] == 44);
            assert(spec_skip_ws(s, r) == r);
            assert(spec_object_items(s, r + 1, depth, pairs.take(k), CState::AfterComma)
                == spec_object_items(s, ni, depth, pairs.take(k).push((kv, ev)), CState::NoComma));
            assert(spec_object_items(s, r, depth, pairs.take(k), CState::NoComma)
                == spec_object_items(s, r + 1, depth, pairs.take(k), CState::AfterComma));
        }
    }
}

/// Round trip of the formatted rendering: parsing the formatted rendering of
/// a well-formed value tree — one whose float literals are complete, whose
/// signed numbers are strictly negative, and whose nesting stays within the
/// recursion limit — gives the very value back.
#[verifier::rlimit(100)]
#[verifier::spinoff_prover]
pub proof fn lemma_formatted_round_trip(v: ValueView)
    requires
        view_wf(v),
        signed_canonical(v),
        height(v) <= RECURSION_LIMIT,
    ensures
        spec_parse(encode_formatted_top(v)) == Ok::<ValueView, Error>(v),
{
    let s = encode_formatted_top(v);
    let t = encode_formatted(v, 0);
    assert(s == t + seq![10u8]);
    assert(s.subrange(0, t.len() as int) =~= t);
    assert(s[t.len() as int] == 10);
    lemma_enc_fmt_value(s, 0, v, 0, 0);
    lemma_skip_ws_window(s, t.len() as int, s.len() as int);
}

/// An array of elements in canonical spelling is a canonical tree.
proof fn lemma_signed_arr(s: Seq<ValueView>)
    requires
        forall|j: int| 0 <= j < s.len() ==> signed_canonical(#[trigger] s[j]),
    ensures
        signed_canonical(ValueView::Array(s)),
{
    let v = ValueView::Array(s);
    match v {
        ValueView::Array(t) => {
            assert(forall|j: int| 0 <= j < t.len() ==> signed_canonical(#[trigger] t[j]));
        },
        _ => {},
    }
}

/// An object of values in canonical spelling is a canonical tree.
proof fn lemma_signed_obj(s: Seq<(Seq<char>, ValueView)>)
    requires
        forall|j: int| 0 <= j < s.len() ==> signed_canonical((#[trigger] s[j]).1),
    ensures
        signed_canonical(ValueView::Object(s)),
{
    let v = ValueView::Object(s);
    match v {
        ValueView::Object(t) => {
            assert(forall|j: int| 0 <= j < t.len() ==> signed_canonical((#[trigger] t[j]).1));
        },
        _ => {},
    }
}

/// Canonical spelling makes every signed number strictly negative.
proof fn lemma_canon_signed(v: ValueView)
    ensures
        signed_canonical(canon_view(v)),
    decreases v, 1int, 0int,
{
    match v {
        ValueView::Number(n) => {
            match n {
                NumberView::Signed(x) => {},
                _ => {},
            }
        },
        ValueView::Array(s) => {
            let n = s.len() as int;
            lemma_canon_views_at(s, n);
            lemma_canon_signed_elems(s, n);
            lemma_signed_arr(canon_views(s, n));
        },
        ValueView::Object(s) => {
            let n = s.len() as int;
            lemma_canon_pairs_at(s, n);
            lemma_canon_signed_pairs(s, n);
            lemma_signed_obj(canon_pairs(s, n));
        },
        _ => {},
    }
}

/// Element-wise, canonical spelling makes signed numbers strictly negative.
proof fn lemma_canon_signed_elems(s: Seq<ValueView>, i: int)
    requires
        0 <= i <= s.len(),
    ensures
        forall|j: int|
            0 <= j < i ==> signed_canonical(#[trigger] canon_views(s, s.len() as int)[j]),
    decreases ValueView::Array(s), 0int, i,
{
    lemma_canon_views_at(s, s.len() as int);
    if i > 0 {
        lemma_canon_signed_elems(s, i - 1);
        lemma_arr_dec(s, i - 1);
        lemma_canon_signed(s[i - 1]);
    }
}

/// Pair-wise, canonical spelling makes signed numbers strictly negative.
proof fn lemma_canon_signed_pairs(s: Seq<(Seq<char>, ValueView)>, i: int)
    requires
        0 <= i <= s.len(),
    ensures
        forall|j: int|
            0 <= j < i ==> signed_canonical((#[trigger] canon_pairs(s, s.len() as int)[j]).1),
    decreases ValueView::Object(s), 0int, i,
{
    lemma_canon_pairs_at(s, s.len() as int);
    if i > 0 {
        lemma_canon_signed_pairs(s, i - 1);
        lemma_obj_dec(s, i - 1);
        lemma_canon_signed(s[i - 1].1);
    }
}

/// Canonical spelling leaves the compact rendering unchanged.
proof fn lemma_canon_enc(v: ValueView)
    ensures
        encode_compact(canon_view(v)) == encode_compact(v),
    decreases v, 1int, 0int,
{
    match v {
        ValueView::Number(n) => {
            match n {
                NumberView::Signed(x) => {
                    if x >= 0 {
                        assert(render_number(canon_num(n)) == dec_render(x as int));
                    }
                },
                _ => {},
            }
        },
        ValueView::Array(s) => {
            let n = s.len() as int;
            lemma_canon_views_at(s, n);
            lemma_canon_items(s, n);
        },
        ValueView::Object(s) => {
            let n = s.len() as int;
            lemma_canon_pairs_at(s, n);
            lemma_canon_cpairs(s, n);
        },
        _ => {},
    }
}

/// Element-wise, canonical spelling leaves the compact item run unchanged.
proof fn lemma_canon_items(s: Seq<ValueView>, i: int)
    requires
        0 <= i <= s.len(),
    ensures
        compact_items(canon_views(s, s.len() as int), i) == compact_items(s, i),
    decreases ValueView::Array(s), 0int, i,
{
    lemma_canon_views_at(s, s.len() as int);
    if i > 0 {
        lemma_canon_items(s, i - 1);
        lemma_arr_dec(s, i - 1);
        lemma_canon_enc(s[i - 1]);
    }
}

/// Pair-wise, canonical spelling leaves the compact pair run unchanged.
proof fn lemma_canon_cpairs(s: Seq<(Seq<char>, ValueView)>, i: int)
    requires
        0 <= i <= s.len(),
    ensures
        compact_pairs(canon_pairs(s, s.len() as int), i) == compact_pairs(s, i),
    decreases ValueView::Object(s), 0int, i,
{
    lemma_canon_pairs_at(s, s.len() as int);
    if i > 0 {
        lemma_canon_cpairs(s, i - 1);
        lemma_obj_dec(s, i - 1);
        lemma_canon_enc(s[i - 1].1);
    }
}

/// Canonical spelling leaves the formatted rendering unchanged.
proof fn lemma_canon_enc_fmt(v: ValueView, tab: int)
    ensures
        encode_formatted(canon_view(v), tab) == encode_formatted(v, tab),
    decreases v, 1int, 0int,
{
    match v {
        ValueView::Number(n) => {
            match n {
                NumberView::Signed(x) => {
                    if x >= 0 {
                        assert(render_number(canon_num(n)) == dec_render(x as int));
                    }
                },
                _ => {},
            }
        },
        ValueView::Array(s) => {
            let n = s.len() as int;
            let cs = canon_views(s, n);
            lemma_canon_views_at(s, n);
            assert(has_container(cs) == has_container(s)) by {
                if has_container(s) {
                    let w = choose|m: int|
                        0 <= m < s.len() && ((#[trigger] s[m]) is Array || s[m] is Object);
                    lemma_canon_kind(s[w]);
                    assert(cs[w] is Array || cs[w] is Object);
                    assert(has_container(cs));
                }
                if has_container(cs) {
                    let w = choose|m: int|
                        0 <= m < cs.len() && ((#[trigger] cs[m]) is Array || cs[m] is Object);
                    lemma_canon_kind(s[w]);
                    assert(s[w] is Array || s[w] is Object);
                    assert(has_container(s));
                }
            }
            if has_container(s) {
                lemma_canon_fmt_items(s, tab + 1, n);
            } else {
                lemma_canon_inline(s, n);
            }
        },
        ValueView::Object(s) => {
            let n = s.len() as int;
            lemma_canon_pairs_at(s, n);
            if n > 0 {
                lemma_canon_fpairs(s, tab + 1, n);
            }
        },
        _ => {},
    }
}

/// Element-wise, canonical spelling leaves the one-line item run unchanged.
proof fn lemma_canon_inline(s: Seq<ValueView>, i: int)
    requires
        0 <= i <= s.len(),
    ensures
        inline_items(canon_views(s, s.len() as int), i) == inline_items(s, i),
    decreases ValueView::Array(s), 0int, i,
{
    lemma_canon_views_at(s, s.len() as int);
    if i > 0 {
        lemma_canon_inline(s, i - 1);
        lemma_arr_dec(s, i - 1);
        lemma_canon_enc_fmt(s[i - 1], 0);
    }
}

/// Element-wise, canonical spelling leaves the one-per-line item run
/// unchanged.
proof fn lemma_canon_fmt_items(s: Seq<ValueView>, ind: int, i: int)
    requires
        0 <= i <= s.len(),
    ensures
        formatted_items(canon_views(s, s.len() as int), ind, i) == formatted_items(s, ind, i),
    decreases ValueView::Array(s), 0int, i,
{
    lemma_canon_views_at(s, s.len() as int);
    if i > 0 {
        lemma_canon_fmt_items(s, ind, i - 1);
        lemma_arr_dec(s, i - 1);
        lemma_canon_enc_fmt(s[i - 1], ind);
    }
}

/// Pair-wise, canonical spelling leaves the one-per-line pair run unchanged.
proof fn lemma_canon_fpairs(s: Seq<(Seq<char>, ValueView)>, ind: int, i: int)
    requires
        0 <= i <= s.len(),
    ensures
        formatted_pairs(canon_pairs(s, s.len() as int), ind, i) == formatted_pairs(s, ind, i),
    decreases ValueView::Object(s), 0int, i,
{
    lemma_canon_pairs_at(s, s.len() as int);
    if i > 0 {
        lemma_canon_fpairs(s, ind, i - 1);
        lemma_obj_dec(s, i - 1);
        lemma_canon_enc_fmt(s[i - 1].1, ind);
    }
}

/// Round trip of the compact rendering for every well-formed tree within the
/// recursion limit: the parse returns the tree with its numbers in canonical
/// spelling, the same document under document equality.
pub proof fn lemma_compact_round_trip_all(v: ValueView)
    requires
        view_wf(v),
        height(v) <= RECURSION_LIMIT,
    ensures
        spec_parse(encode_compact(v)) == Ok::<ValueView, Error>(canon_view(v)),
        value_eq(canon_view(v), v),
{
    lemma_canon_props(v);
    lemma_canon_signed(v);
    lemma_canon_enc(v);
    lemma_compact_round_trip(canon_view(v));
}

/// Round trip of the formatted rendering for every well-formed tree within
/// the recursion limit: the parse returns the tree with its numbers in
/// canonical spelling, the same document under document equality.
pub proof fn lemma_formatted_round_trip_all(v: ValueView)
    requires
        view_wf(v),
        height(v) <= RECURSION_LIMIT,
    ensures
        spec_parse(encode_formatted_top(v)) == Ok::<ValueView, Error>(canon_view(v)),
        value_eq(canon_view(v), v),
{
    lemma_canon_props(v);
    lemma_canon_signed(v);
    lemma_canon_enc_fmt(v, 0);
    lemma_formatted_round_trip(canon_view(v));
    assert(encode_formatted_top(canon_view(v)) == encode_formatted_top(v));
}

/// The formatted rendering is idempotent across one parse for every
/// well-formed tree within the recursion limit: what its rendering parses
/// to — and it does parse — renders to the same text again.
pub proof fn lemma_formatted_idempotent_all(v: ValueView)
    requires
        view_wf(v),
        height(v) <= RECURSION_LIMIT,
    ensures
        spec_parse(encode_formatted_top(v)) matches Ok(w) ==> encode_formatted_top(w)
            == encode_formatted_top(v),
{
    lemma_formatted_round_trip_all(v);
    lemma_canon_enc_fmt(v, 0);
}

impl JsonValue {
    /// Parses one complete JSON document from a byte slice; trailing bytes
    /// that are not whitespace are rejected.
    #[verifier::rlimit(100)]
    #[verifier::spinoff_prover]
    pub fn from_text(text: &[u8]) -> (r: Result<JsonValue, Error>)
        ensures
            match r {
                Ok(v) => spec_parse(text@) == Ok::<ValueView, Error>(v@) && crate::value::view_wf(
                    v@,
                ),
                Err(e) => spec_parse(text@) == Err::<ValueView, Error>(e),
            },
    {
        let mut d = Deserializer::new_from_slice(text);
        proof {
            d.lemma_views();
        }
        start_parsing(&mut d)
    }

    /// Parses one complete JSON document from a string slice.
    pub fn from_str_text(text: &str) -> (r: Result<JsonValue, Error>)
        ensures
            match r {
                Ok(v) => spec_parse(vstd::utf8::encode_utf8(text@)) == Ok::<ValueView, Error>(v@)
                    && crate::value::view_wf(v@),
                Err(e) => spec_parse(vstd::utf8::encode_utf8(text@)) == Err::<ValueView, Error>(e),
            },
    {
        JsonValue::from_text(text.as_bytes())
    }

    /// Parses one complete JSON document from a byte stream.  The value, when
    /// one comes back, is the parse of the bytes the stream delivered.
    ///
    /// The stream is opened here, so the contract can only say that some
    /// input parses to the result.  A caller that wants the result pinned to
    /// a stream it can name should build the reader itself and parse through
    /// it: [`Deserializer::new_from_io`] followed by [`start_parsing`] states
    /// the result exactly against that reader's input.
    #[verifier::rlimit(100)]
    #[verifier::spinoff_prover]
    pub fn from_reader<R: std::io::Read + 'static>(input: R) -> (r: Result<JsonValue, Error>)
        ensures
            match r {
                Ok(v) => crate::value::view_wf(v@) && exists|inp: Seq<u8>|
                    spec_parse(inp) == Ok::<ValueView, Error>(v@),
                Err(e) => e is Io || e is Reader || exists|inp: Seq<u8>|
                    spec_parse(inp) == Err::<ValueView, Error>(e),
            },
    {
        let mut d = Deserializer::new_from_io(input);
        proof {
            d.lemma_views();
        }
        let ghost inp = d.reader.input();
        let r = start_parsing(&mut d);
        proof {
            match r {
                Ok(ref v) => {
                    assert(spec_parse(inp) == Ok::<ValueView, Error>(v@));
                },
                Err(ref e) => {
                    assert(*e is Io || *e is Reader || spec_parse(inp) == Err::<
                        ValueView,
                        Error,
                    >(*e));
                },
            }
        }
        r
    }
}

} // verus!
