//! A JSON library: parsing byte input into a tagged value tree and
//! serializing that tree back to bytes, in a compact and a formatted
//! rendering.
//!
//! The value tree is a closed tagged union of null, booleans, numbers,
//! strings, arrays and objects; arrays and objects are backed by a verified
//! doubly-linked list held in an index arena, with stable node handles for
//! constant-time replacement and removal.  The parser is a recursive
//! descent over a byte source — an in-memory slice or a buffered stream —
//! with a bounded nesting depth, and it is specified against a functional
//! parser over the source's whole input; the two encoders are specified
//! against functional renderings of the value tree.

mod deserializer;
mod encoder;
mod error;
mod linked_list;
mod number;
mod reader;
mod states;
mod value;

pub use deserializer::Deserializer;
pub use encoder::{
    encode_compact, encode_formatted, encode_formatted_top, encode_string, escape_byte,
    escape_bytes, formatted_items, formatted_pairs, has_container, indent, inline_items,
    CompactEncoder, FormattedEncoder,
};
pub use error::{
    hex_digit_byte, hex_digits_of, hex_render, parse_error_text, quoted_char, quoted_special,
    Error, ParseError,
};
pub use linked_list::{Cursor, Iter, LinkedList, Node, NIL};
pub use number::{
    canon_num, dec_render, dec_value, digits_of_nat, is_digit, is_float_literal, num_eq,
    number_eq_full, render_number, CanonDec, Number, NumberView,
};
pub use reader::{col_of, line_of, BytesReader, IoReader, Position, SliceReader};
pub use states::{
    check_recursion, eat_digits, eat_ws, lemma_compact_round_trip, lemma_compact_round_trip_all,
    lemma_formatted_idempotent_all, lemma_formatted_round_trip,
    lemma_formatted_round_trip_all, lemma_plain_reaches, lemma_string_control_byte, match_lit,
    parse_array, parse_number, parse_object, parse_string_inner, parse_value, scan_reaches,
    signed_canonical, spec_err_char, spec_parse, spec_parse_at, spec_parse_number,
    spec_parse_value, spec_skip_ws, spec_string_bytes, start_parsing, CState, PStep,
    RECURSION_LIMIT,
};
pub use value::{
    canon_pairs, canon_view, canon_views, has_key, height, key_index, lemma_canon_kind,
    lemma_canon_pairs_at, lemma_canon_props, lemma_canon_views_at, lemma_remove_by_handle,
    seq_pair_eq, seq_value_eq, value_eq, view_wf, Array, JsonValue, Object, ValueView,
};
