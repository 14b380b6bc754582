//! The two byte-level renderings of a value tree: compact, with no
//! whitespace between tokens, and formatted, with four spaces of indentation
//! per nesting level.
//!
//! String contents are escaped byte by byte: quotes, backslashes and the
//! five named control characters take their two-character escapes, any other
//! control byte becomes `\u00XX`, and every other byte — including multi-byte
//! UTF-8 sequences — passes through verbatim.

use crate::error::Error;
use crate::number::{render_number, write_number, Number};
use crate::value::{
    bytes_to_string, height, lemma_arr_dec, lemma_heights_ge, lemma_obj_dec,
    lemma_pair_heights_ge, Array, JsonValue, Object, ValueView,
};
use vstd::prelude::*;

verus! {

broadcast use vstd::std_specs::vec::axiom_spec_len;

/// The lowercase hexadecimal digit of a value below 16.
pub open spec fn hex_digit(n: u8) -> u8 {
    if n < 10 {
        (48 + n) as u8
    } else {
        (87 + n) as u8
    }
}

/// How one byte of string content is rendered.
pub open spec fn escape_byte(b: u8) -> Seq<u8> {
    if b == 34 {
        seq![92u8, 34u8]
    } else if b == 92 {
        seq![92u8, 92u8]
    } else if b == 8 {
        seq![92u8, 98u8]
    } else if b == 9 {
        seq![92u8, 116u8]
    } else if b == 10 {
        seq![92u8, 110u8]
    } else if b == 12 {
        seq![92u8, 102u8]
    } else if b == 13 {
        seq![92u8, 114u8]
    } else if b < 32 {
        seq![92u8, 117u8, 48u8, 48u8, hex_digit(b / 16), hex_digit(b % 16)]
    } else {
        seq![b]
    }
}

/// How a whole string content is rendered, byte by byte.
pub open spec fn escape_bytes(s: Seq<u8>) -> Seq<u8>
    decreases s.len(),
{
    if s.len() == 0 {
        Seq::empty()
    } else {
        escape_bytes(s.drop_last()) + escape_byte(s.last())
    }
}

/// A string value: quoted, escaped UTF-8 bytes.
pub open spec fn encode_string(s: Seq<char>) -> Seq<u8> {
    seq![34u8] + escape_bytes(vstd::utf8::encode_utf8(s)) + seq![34u8]
}

/// The compact rendering of a value: no whitespace between tokens.
pub open spec fn encode_compact(v: ValueView) -> Seq<u8>
    decreases v, 1int, 0int,
{
    match v {
        ValueView::Null => seq![110u8, 117u8, 108u8, 108u8],
        ValueView::Boolean(b) => if b {
            seq![116u8, 114u8, 117u8, 101u8]
        } else {
            seq![102u8, 97u8, 108u8, 115u8, 101u8]
        },
        ValueView::Number(n) => render_number(n),
        ValueView::String(s) => encode_string(s),
        ValueView::Array(elems) => seq![91u8] + compact_items(elems, elems.len() as int) + seq![
            93u8,
        ],
        ValueView::Object(pairs) => seq![123u8] + compact_pairs(pairs, pairs.len() as int) + seq![
            125u8,
        ],
    }
}

/// The first `i` array elements, joined by commas.
pub open spec fn compact_items(s: Seq<ValueView>, i: int) -> Seq<u8>
    decreases s, 0int, i,
{
    if i <= 0 || i > s.len() {
        Seq::empty()
    } else {
        compact_items(s, i - 1) + if i == 1 {
            encode_compact(s[i - 1])
        } else {
            seq![44u8] + encode_compact(s[i - 1])
        }
    }
}

/// The first `i` object pairs, joined by commas.
pub open spec fn compact_pairs(s: Seq<(Seq<char>, ValueView)>, i: int) -> Seq<u8>
    decreases s, 0int, i,
{
    if i <= 0 || i > s.len() {
        Seq::empty()
    } else {
        compact_pairs(s, i - 1) + if i == 1 {
            encode_string(s[i - 1].0) + seq![58u8] + encode_compact(s[i - 1].1)
        } else {
            seq![44u8] + encode_string(s[i - 1].0) + seq![58u8] + encode_compact(s[i - 1].1)
        }
    }
}

/// `4 * n` spaces of indentation.
pub open spec fn indent(n: int) -> Seq<u8>
    decreases n,
{
    if n <= 0 {
        Seq::empty()
    } else {
        indent(n - 1) + seq![32u8, 32u8, 32u8, 32u8]
    }
}

/// An element of the sequence is itself an array or an object.
pub open spec fn has_container(s: Seq<ValueView>) -> bool {
    exists|i: int| 0 <= i < s.len() && ((#[trigger] s[i]) is Array || s[i] is Object)
}

/// The formatted rendering of a value standing at nesting level `tab`.
///
/// Objects always break one pair per line; arrays break one element per
/// line only when some element is itself a container.
pub open spec fn encode_formatted(v: ValueView, tab: int) -> Seq<u8>
    decreases v, 1int, 0int,
{
    match v {
        ValueView::Null => seq![110u8, 117u8, 108u8, 108u8],
        ValueView::Boolean(b) => if b {
            seq![116u8, 114u8, 117u8, 101u8]
        } else {
            seq![102u8, 97u8, 108u8, 115u8, 101u8]
        },
        ValueView::Number(n) => render_number(n),
        ValueView::String(s) => encode_string(s),
        ValueView::Array(elems) => if has_container(elems) {
            seq![91u8, 10u8] + indent(tab + 1) + formatted_items(
                elems,
                tab + 1,
                elems.len() as int,
            ) + seq![10u8] + indent(tab) + seq![93u8]
        } else {
            seq![91u8] + inline_items(elems, elems.len() as int) + seq![93u8]
        },
        ValueView::Object(pairs) => if pairs.len() == 0 {
            seq![123u8, 125u8]
        } else {
            seq![123u8] + formatted_pairs(pairs, tab + 1, pairs.len() as int) + seq![10u8] + indent(
                tab,
            ) + seq![125u8]
        },
    }
}

/// The first `i` array elements on one line, joined by comma and space.
pub open spec fn inline_items(s: Seq<ValueView>, i: int) -> Seq<u8>
    decreases s, 0int, i,
{
    if i <= 0 || i > s.len() {
        Seq::empty()
    } else {
        inline_items(s, i - 1) + if i == 1 {
            encode_formatted(s[i - 1], 0)
        } else {
            seq![44u8, 32u8] + encode_formatted(s[i - 1], 0)
        }
    }
}

/// The first `i` array elements, one per line at level `tab`.
pub open spec fn formatted_items(s: Seq<ValueView>, tab: int, i: int) -> Seq<u8>
    decreases s, 0int, i,
{
    if i <= 0 || i > s.len() {
        Seq::empty()
    } else {
        formatted_items(s, tab, i - 1) + if i == 1 {
            encode_formatted(s[i - 1], tab)
        } else {
            seq![44u8, 10u8] + indent(tab) + encode_formatted(s[i - 1], tab)
        }
    }
}

/// The first `i` object pairs, one per line at level `tab`; each line starts
/// on a fresh line.
pub open spec fn formatted_pairs(s: Seq<(Seq<char>, ValueView)>, tab: int, i: int) -> Seq<u8>
    decreases s, 0int, i,
{
    if i <= 0 || i > s.len() {
        Seq::empty()
    } else {
        formatted_pairs(s, tab, i - 1) + (if i == 1 {
            Seq::<u8>::empty()
        } else {
            seq![44u8]
        }) + seq![10u8] + indent(tab) + encode_string(s[i - 1].0) + seq![58u8, 32u8]
            + encode_formatted(s[i - 1].1, tab)
    }
}

/// The whole formatted document: the value at level zero and a final
/// newline.
pub open spec fn encode_formatted_top(v: ValueView) -> Seq<u8> {
    encode_formatted(v, 0) + seq![10u8]
}

/// Appends the escape of one content byte.
fn write_escape_byte(b: u8, out: &mut Vec<u8>)
    ensures
        final(out)@ == old(out)@ + escape_byte(b),
{
    if b == 34 {
        out.push(92);
        out.push(34);
    } else if b == 92 {
        out.push(92);
        out.push(92);
    } else if b == 8 {
        out.push(92);
        out.push(98);
    } else if b == 9 {
        out.push(92);
        out.push(116);
    } else if b == 10 {
        out.push(92);
        out.push(110);
    } else if b == 12 {
        out.push(92);
        out.push(102);
    } else if b == 13 {
        out.push(92);
        out.push(114);
    } else if b < 32 {
        out.push(92);
        out.push(117);
        out.push(48);
        out.push(48);
        let hi = b / 16;
        let lo = b % 16;
        out.push(if hi < 10 { 48 + hi } else { 87 + hi });
        out.push(if lo < 10 { 48 + lo } else { 87 + lo });
    } else {
        out.push(b);
    }
    proof {
        assert(final(out)@ =~= old(out)@ + escape_byte(b));
    }
}

/// Appends the escaped content bytes of a string slice.
fn write_escaped(s: &str, out: &mut Vec<u8>)
    ensures
        final(out)@ == old(out)@ + escape_bytes(vstd::utf8::encode_utf8(s@)),
{
    let bytes = s.as_bytes();
    let n = bytes.len();
    let mut i: usize = 0;
    proof {
        assert(escape_bytes(bytes@.take(0)) =~= Seq::<u8>::empty());
        assert(out@ =~= old(out)@ + escape_bytes(bytes@.take(0)));
    }
    while i < n
        invariant
            0 <= i <= n,
            n == bytes@.len(),
            bytes@ == vstd::utf8::encode_utf8(s@),
            out@ == old(out)@ + escape_bytes(bytes@.take(i as int)),
        decreases n - i,
    {
        let b = bytes[i];
        write_escape_byte(b, out);
        proof {
            assert(bytes@.take(i + 1).drop_last() =~= bytes@.take(i as int));
            assert(bytes@.take(i + 1).last() == b);
            assert(out@ =~= old(out)@ + escape_bytes(bytes@.take(i + 1)));
        }
        i = i + 1;
    }
    proof {
        assert(bytes@.take(n as int) =~= bytes@);
    }
}

/// Appends a quoted, escaped string.
fn write_string(s: &str, out: &mut Vec<u8>)
    ensures
        final(out)@ == old(out)@ + encode_string(s@),
{
    out.push(34);
    write_escaped(s, out);
    out.push(34);
    proof {
        assert(final(out)@ =~= old(out)@ + encode_string(s@));
    }
}

/// Whether some element of the array is itself a container.
fn array_has_container(a: &Array) -> (r: bool)
    ensures
        r == has_container(a@),
{
    let n = a.len();
    let mut i: usize = 0;
    while i < n
        invariant
            0 <= i <= n,
            n == a@.len(),
            forall|j: int| 0 <= j < i ==> !((#[trigger] a@[j]) is Array) && !(a@[j] is Object),
        decreases n - i,
    {
        let e = match a.get(i) {
            Some(v) => v,
            None => {
                proof {
                    assert(false);
                }
                vstd::pervasive::unreached()
            },
        };
        if e.is_array() || e.is_object() {
            proof {
                assert(has_container(a@));
            }
            return true;
        }
        i = i + 1;
    }
    false
}

/// Appends `4 * tab` spaces.
fn write_indent(tab: usize, out: &mut Vec<u8>)
    ensures
        final(out)@ == old(out)@ + indent(tab as int),
{
    let mut j: usize = 0;
    proof {
        assert(out@ =~= old(out)@ + indent(0));
    }
    while j < tab
        invariant
            0 <= j <= tab,
            out@ == old(out)@ + indent(j as int),
        decreases tab - j,
    {
        out.push(32);
        out.push(32);
        out.push(32);
        out.push(32);
        proof {
            assert(out@ =~= old(out)@ + indent(j + 1));
        }
        j = j + 1;
    }
}

/// Appends the compact rendering of a value.
fn write_value_compact(v: &JsonValue, out: &mut Vec<u8>)
    ensures
        final(out)@ == old(out)@ + encode_compact(v@),
    decreases v@,
{
    match v {
        JsonValue::Null => {
            out.push(110);
            out.push(117);
            out.push(108);
            out.push(108);
            proof {
                assert(final(out)@ =~= old(out)@ + encode_compact(v@));
            }
        },
        JsonValue::Boolean(b) => {
            if *b {
                out.push(116);
                out.push(114);
                out.push(117);
                out.push(101);
            } else {
                out.push(102);
                out.push(97);
                out.push(108);
                out.push(115);
                out.push(101);
            }
            proof {
                assert(final(out)@ =~= old(out)@ + encode_compact(v@));
            }
        },
        JsonValue::Number(n) => {
            write_number(n, out);
        },
        JsonValue::String(s) => {
            write_string(s.as_str(), out);
        },
        JsonValue::Array(a) => {
            let ghost base = out@;
            out.push(91);
            let n = a.len();
            let mut i: usize = 0;
            while i < n
                invariant
                    0 <= i <= n,
                    n == a@.len(),
                    v@ == ValueView::Array(a@),
                    out@ == base + seq![91u8] + compact_items(a@, i as int),
                decreases n - i,
            {
                if i > 0 {
                    out.push(44);
                }
                let e = match a.get(i) {
                    Some(x) => x,
                    None => {
                        proof {
                            assert(false);
                        }
                        vstd::pervasive::unreached()
                    },
                };
                proof {
                    lemma_arr_dec(a@, i as int);
                }
                write_value_compact(e, out);
                proof {
                    assert(out@ =~= base + seq![91u8] + compact_items(a@, i + 1));
                }
                i = i + 1;
            }
            out.push(93);
            proof {
                assert(final(out)@ =~= base + encode_compact(v@));
            }
        },
        JsonValue::Object(o) => {
            let ghost base = out@;
            out.push(123);
            let n = o.len();
            let mut i: usize = 0;
            while i < n
                invariant
                    0 <= i <= n,
                    n == o@.len(),
                    v@ == ValueView::Object(o@),
                    out@ == base + seq![123u8] + compact_pairs(o@, i as int),
                decreases n - i,
            {
                if i > 0 {
                    out.push(44);
                }
                let e = match o.get_pair(i) {
                    Some(x) => x,
                    None => {
                        proof {
                            assert(false);
                        }
                        vstd::pervasive::unreached()
                    },
                };
                write_string(e.0.as_str(), out);
                out.push(58);
                proof {
                    lemma_obj_dec(o@, i as int);
                }
                write_value_compact(&e.1, out);
                proof {
                    assert(out@ =~= base + seq![123u8] + compact_pairs(o@, i + 1));
                }
                i = i + 1;
            }
            out.push(125);
            proof {
                assert(final(out)@ =~= base + encode_compact(v@));
            }
        },
    }
}

/// Appends the formatted rendering of a value standing at level `tab`.
fn write_value_formatted(v: &JsonValue, tab: usize, out: &mut Vec<u8>)
    requires
        tab + height(v@) <= usize::MAX,
    ensures
        final(out)@ == old(out)@ + encode_formatted(v@, tab as int),
    decreases v@,
{
    match v {
        JsonValue::Null => {
            out.push(110);
            out.push(117);
            out.push(108);
            out.push(108);
            proof {
                assert(final(out)@ =~= old(out)@ + encode_formatted(v@, tab as int));
            }
        },
        JsonValue::Boolean(b) => {
            if *b {
                out.push(116);
                out.push(114);
                out.push(117);
                out.push(101);
            } else {
                out.push(102);
                out.push(97);
                out.push(108);
                out.push(115);
                out.push(101);
            }
            proof {
                assert(final(out)@ =~= old(out)@ + encode_formatted(v@, tab as int));
            }
        },
        JsonValue::Number(n) => {
            write_number(n, out);
        },
        JsonValue::String(s) => {
            write_string(s.as_str(), out);
        },
        JsonValue::Array(a) => {
            let ghost base = out@;
            let n = a.len();
            proof {
                crate::value::lemma_heights_nonneg(a@, a@.len() as int);
            }
            if array_has_container(a) {
                out.push(91);
                out.push(10);
                write_indent(tab + 1, out);
                let mut i: usize = 0;
                while i < n
                    invariant
                        0 <= i <= n,
                        n == a@.len(),
                        v@ == ValueView::Array(a@),
                        tab + height(v@) <= usize::MAX,
                        tab + 1 <= usize::MAX,
                        out@ == base + seq![91u8, 10u8] + indent(tab + 1) + formatted_items(
                            a@,
                            tab + 1,
                            i as int,
                        ),
                    decreases n - i,
                {
                    if i > 0 {
                        out.push(44);
                        out.push(10);
                        write_indent(tab + 1, out);
                    }
                    let e = match a.get(i) {
                        Some(x) => x,
                        None => {
                            proof {
                                assert(false);
                            }
                            vstd::pervasive::unreached()
                        },
                    };
                    proof {
                        lemma_arr_dec(a@, i as int);
                        lemma_heights_ge(a@, a@.len() as int, i as int);
                    }
                    write_value_formatted(e, tab + 1, out);
                    proof {
                        assert(out@ =~= base + seq![91u8, 10u8] + indent(tab + 1)
                            + formatted_items(a@, tab + 1, i + 1));
                    }
                    i = i + 1;
                }
                out.push(10);
                write_indent(tab, out);
                out.push(93);
                proof {
                    assert(final(out)@ =~= base + encode_formatted(v@, tab as int));
                }
            } else {
                out.push(91);
                let mut i: usize = 0;
                while i < n
                    invariant
                        0 <= i <= n,
                        n == a@.len(),
                        v@ == ValueView::Array(a@),
                        tab + height(v@) <= usize::MAX,
                        out@ == base + seq![91u8] + inline_items(a@, i as int),
                    decreases n - i,
                {
                    if i > 0 {
                        out.push(44);
                        out.push(32);
                    }
                    let e = match a.get(i) {
                        Some(x) => x,
                        None => {
                            proof {
                                assert(false);
                            }
                            vstd::pervasive::unreached()
                        },
                    };
                    proof {
                        lemma_arr_dec(a@, i as int);
                        lemma_heights_ge(a@, a@.len() as int, i as int);
                        crate::value::lemma_height_pos(a@[i as int]);
                    }
                    write_value_formatted(e, 0, out);
                    proof {
                        assert(out@ =~= base + seq![91u8] + inline_items(a@, i + 1));
                    }
                    i = i + 1;
                }
                out.push(93);
                proof {
                    assert(final(out)@ =~= base + encode_formatted(v@, tab as int));
                }
            }
        },
        JsonValue::Object(o) => {
            let ghost base = out@;
            let n = o.len();
            proof {
                crate::value::lemma_pair_heights_nonneg(o@, o@.len() as int);
            }
            out.push(123);
            if n == 0 {
                out.push(125);
                proof {
                    assert(final(out)@ =~= base + encode_formatted(v@, tab as int));
                }
                return ;
            }
            let mut i: usize = 0;
            while i < n
                invariant
                    0 <= i <= n,
                    n == o@.len(),
                    v@ == ValueView::Object(o@),
                    tab + height(v@) <= usize::MAX,
                    tab + 1 <= usize::MAX,
                    out@ == base + seq![123u8] + formatted_pairs(o@, tab + 1, i as int),
                decreases n - i,
            {
                if i > 0 {
                    out.push(44);
                }
                out.push(10);
                write_indent(tab + 1, out);
                let e = match o.get_pair(i) {
                    Some(x) => x,
                    None => {
                        proof {
                            assert(false);
                        }
                        vstd::pervasive::unreached()
                    },
                };
                write_string(e.0.as_str(), out);
                out.push(58);
                out.push(32);
                proof {
                    lemma_obj_dec(o@, i as int);
                    lemma_pair_heights_ge(o@, o@.len() as int, i as int);
                }
                write_value_formatted(&e.1, tab + 1, out);
                proof {
                    assert(out@ =~= base + seq![123u8] + formatted_pairs(o@, tab + 1, i + 1));
                }
                i = i + 1;
            }
            out.push(10);
            write_indent(tab, out);
            out.push(125);
            proof {
                assert(final(out)@ =~= base + encode_formatted(v@, tab as int));
            }
        },
    }
}

/// JSON encoder without extra whitespace: it renders a value to the bytes of
/// its compact form.
pub struct CompactEncoder {}

impl CompactEncoder {
    /// Creates a compact encoder.
    pub fn new() -> (r: CompactEncoder) {
        CompactEncoder {  }
    }

    /// Appends the compact rendering of a value.
    pub fn encode(&mut self, value: &JsonValue, output: &mut Vec<u8>) -> (r: Result<(), Error>)
        ensures
            r is Ok,
            final(output)@ == old(output)@ + encode_compact(value@),
    {
        write_value_compact(value, output);
        Ok(())
    }
}

/// JSON encoder with formatting: four spaces of indentation per level, one
/// object pair per line, and a final newline after the document.
pub struct FormattedEncoder {
    tab: usize,
}

impl FormattedEncoder {
    /// Creates a formatted encoder starting at nesting level zero.
    pub fn new() -> (r: FormattedEncoder)
        ensures
            r.spec_tab() == 0,
    {
        FormattedEncoder { tab: 0 }
    }

    /// The nesting level the encoder stands at.
    pub closed spec fn spec_tab(&self) -> int {
        self.tab as int
    }

    /// Goes one nesting level deeper.
    pub fn add_tab(&mut self)
        requires
            old(self).spec_tab() < usize::MAX,
        ensures
            final(self).spec_tab() == old(self).spec_tab() + 1,
    {
        self.tab = self.tab + 1;
    }

    /// Appends the formatted rendering of a whole document: the value and a
    /// final newline.
    pub fn encode(&mut self, value: &JsonValue, output: &mut Vec<u8>) -> (r: Result<(), Error>)
        requires
            old(self).spec_tab() + height(value@) <= usize::MAX,
        ensures
            r is Ok,
            old(self).spec_tab() == 0 ==> final(output)@ == old(output)@ + encode_formatted_top(
                value@,
            ),
            final(output)@ == old(output)@ + encode_formatted(value@, old(self).spec_tab())
                + seq![10u8],
    {
        write_value_formatted(value, self.tab, output);
        output.push(10);
        proof {
            assert(final(output)@ =~= old(output)@ + encode_formatted(
                value@,
                old(self).spec_tab(),
            ) + seq![10u8]);
        }
        Ok(())
    }
}

impl JsonValue {
    /// Appends the compact rendering of the value: no whitespace between
    /// tokens.
    pub fn compact_encode(&self, output: &mut Vec<u8>) -> (r: Result<(), Error>)
        ensures
            r is Ok,
            final(output)@ == old(output)@ + encode_compact(self@),
    {
        write_value_compact(self, output);
        Ok(())
    }

    /// Appends the formatted rendering of the value, with a final newline.
    pub fn formatted_encode(&self, output: &mut Vec<u8>) -> (r: Result<(), Error>)
        requires
            height(self@) <= usize::MAX,
        ensures
            r is Ok,
            final(output)@ == old(output)@ + encode_formatted_top(self@),
    {
        write_value_formatted(self, 0, output);
        output.push(10);
        proof {
            assert(final(output)@ =~= old(output)@ + encode_formatted_top(self@));
        }
        Ok(())
    }

    /// The compact rendering as text.  It fails with a UTF-8 transform error
    /// exactly when the rendered bytes are not UTF-8, which only a number
    /// carrying an ill-formed float literal can cause.
    pub fn to_compact_string(&self) -> (r: Result<String, Error>)
        ensures
            match r {
                Ok(s) => vstd::utf8::encode_utf8(s@) == encode_compact(self@),
                Err(e) => !vstd::utf8::valid_utf8(encode_compact(self@)) && e is Utf8Transform,
            },
    {
        let mut out: Vec<u8> = Vec::new();
        write_value_compact(self, &mut out);
        proof {
            assert(out@ =~= encode_compact(self@));
            broadcast use vstd::utf8::decode_utf8_encode_utf8;

        }
        bytes_to_string(out)
    }

    /// The formatted rendering as text, with a final newline.  It fails with
    /// a UTF-8 transform error exactly when the rendered bytes are not
    /// UTF-8, which only a number carrying an ill-formed float literal can
    /// cause.
    pub fn to_formatted_string(&self) -> (r: Result<String, Error>)
        requires
            height(self@) <= usize::MAX,
        ensures
            match r {
                Ok(s) => vstd::utf8::encode_utf8(s@) == encode_formatted_top(self@),
                Err(e) => !vstd::utf8::valid_utf8(encode_formatted_top(self@))
                    && e is Utf8Transform,
            },
    {
        let mut out: Vec<u8> = Vec::new();
        write_value_formatted(self, 0, &mut out);
        out.push(10);
        proof {
            assert(out@ =~= encode_formatted_top(self@));
            broadcast use vstd::utf8::decode_utf8_encode_utf8;

        }
        bytes_to_string(out)
    }
}

impl JsonValue {
    /// The compact rendering as plain text.  A value whose rendering is not
    /// UTF-8 — possible only through a number carrying an ill-formed float
    /// literal — renders as the empty string.
    pub fn to_text(&self) -> (r: String)
        ensures
            vstd::utf8::valid_utf8(encode_compact(self@)) ==> vstd::utf8::encode_utf8(r@)
                == encode_compact(self@),
    {
        match self.to_compact_string() {
            Ok(s) => s,
            Err(_) => String::new(),
        }
    }
}

impl Array {
    /// The compact rendering of the array as plain text; ill-formed float
    /// literals inside render the whole text empty.
    pub fn to_text(&self) -> (r: String)
        ensures
            vstd::utf8::valid_utf8(encode_compact(ValueView::Array(self@)))
                ==> vstd::utf8::encode_utf8(r@) == encode_compact(ValueView::Array(self@)),
    {
        let v = JsonValue::Array(self.clone());
        match v.to_compact_string() {
            Ok(s) => s,
            Err(_) => String::new(),
        }
    }
}

impl Object {
    /// The compact rendering of the object as plain text; ill-formed float
    /// literals inside render the whole text empty.
    pub fn to_text(&self) -> (r: String)
        ensures
            vstd::utf8::valid_utf8(encode_compact(ValueView::Object(self@)))
                ==> vstd::utf8::encode_utf8(r@) == encode_compact(ValueView::Object(self@)),
    {
        let v = JsonValue::Object(self.clone());
        match v.to_compact_string() {
            Ok(s) => s,
            Err(_) => String::new(),
        }
    }
}

impl Number {
    /// The rendering of the number as plain text; an ill-formed float
    /// literal renders as the empty string.
    pub fn to_text(&self) -> (r: String)
        ensures
            vstd::utf8::valid_utf8(render_number(self@)) ==> vstd::utf8::encode_utf8(r@)
                == render_number(self@),
    {
        let mut out: Vec<u8> = Vec::new();
        write_number(self, &mut out);
        proof {
            assert(out@ =~= render_number(self@));
            broadcast use vstd::utf8::decode_utf8_encode_utf8;

        }
        match bytes_to_string(out) {
            Ok(s) => s,
            Err(_) => String::new(),
        }
    }
}

} // verus!
