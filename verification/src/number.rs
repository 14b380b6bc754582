//! The numeric type of a JSON value, and the decimal grammar behind it.
//!
//! A number is an unsigned integer, a signed integer, or a floating-point
//! literal kept as the exact bytes that spelled it.  Two numbers are equal
//! when they denote the same decimal value: every number is brought to a
//! canonical form — a sign, a digit string without leading or trailing
//! zeroes, and a decimal exponent — and the forms are compared.  Exponent
//! parts beyond `10^19` saturate; such literals overflow every binary
//! floating-point range anyway.

use crate::error::Error;
use vstd::prelude::*;
use vstd::string::StrSliceExecFns;

verus! {

broadcast use vstd::std_specs::vec::axiom_spec_len;

/// Exponent values saturate here; larger ones compare as equal.
pub const EXP_CAP: u64 = 10_000_000_000_000_000_000;

/// The byte is a decimal digit.
pub open spec fn is_digit(b: u8) -> bool {
    48 <= b && b <= 57
}

/// Every byte of the sequence is a decimal digit.
pub open spec fn all_digits(s: Seq<u8>) -> bool {
    forall|i: int| 0 <= i < s.len() ==> is_digit(#[trigger] s[i])
}

/// The number of consecutive digits from position `i` on.
pub open spec fn digit_run(s: Seq<u8>, i: int) -> int
    decreases s.len() - i when 0 <= i <= s.len()
{
    if i < 0 || i >= s.len() || !is_digit(s[i]) {
        0
    } else {
        1 + digit_run(s, i + 1)
    }
}

/// How far a digit run reaches: it stays inside the sequence, covers only
/// digits, and stops at the first byte that is not a digit.
pub proof fn lemma_digit_run_bounds(s: Seq<u8>, i: int)
    requires
        0 <= i <= s.len(),
    ensures
        0 <= digit_run(s, i) <= s.len() - i,
        i + digit_run(s, i) == s.len() || !is_digit(s[i + digit_run(s, i)]),
        forall|j: int| i <= j < i + digit_run(s, i) ==> is_digit(#[trigger] s[j]),
    decreases s.len() - i,
{
    if i < s.len() && is_digit(s[i]) {
        lemma_digit_run_bounds(s, i + 1);
    }
}

/// The integer value of a digit string.
pub open spec fn dec_value(s: Seq<u8>) -> int
    decreases s.len(),
{
    if s.len() == 0 {
        0
    } else {
        dec_value(s.drop_last()) * 10 + (s.last() - 48)
    }
}

/// The integer value of a digit string, saturated at [`EXP_CAP`].
pub open spec fn dec_value_capped(s: Seq<u8>) -> int
    decreases s.len(),
{
    if s.len() == 0 {
        0
    } else {
        let v = dec_value_capped(s.drop_last()) * 10 + (s.last() - 48);
        if v > EXP_CAP {
            EXP_CAP as int
        } else {
            v
        }
    }
}

/// The decimal digits of a non-negative integer, without leading zeroes;
/// zero has no digits.
pub open spec fn digits_of_nat(n: int) -> Seq<u8>
    decreases n,
{
    if n <= 0 {
        Seq::empty()
    } else {
        digits_of_nat(n / 10).push((48 + n % 10) as u8)
    }
}

/// The sequence without its trailing zero digits.
pub open spec fn strip_trailing_zeros(s: Seq<u8>) -> Seq<u8>
    decreases s.len(),
{
    if s.len() > 0 && s.last() == 48 {
        strip_trailing_zeros(s.drop_last())
    } else {
        s
    }
}

/// The sequence without its leading zero digits.
pub open spec fn strip_leading_zeros(s: Seq<u8>) -> Seq<u8>
    decreases s.len(),
{
    if s.len() > 0 && s[0] == 48 {
        strip_leading_zeros(s.skip(1))
    } else {
        s
    }
}

/// Where the parts of a number literal lie inside a byte sequence.
pub ghost struct NumSpan {
    /// A leading minus sign is present.
    pub neg: bool,
    /// The integer digits.
    pub int_start: int,
    pub int_end: int,
    /// The fraction digits, after a decimal point.
    pub has_frac: bool,
    pub frac_start: int,
    pub frac_end: int,
    /// The exponent digits, after `e`/`E` and an optional sign.
    pub has_exp: bool,
    pub exp_neg: bool,
    pub exp_start: int,
    pub exp_end: int,
    /// One past the last byte of the literal.
    pub end: int,
}

/// Scans one number literal beginning at `i`: an optional minus sign, an
/// integer part that is a single `0` or starts with a nonzero digit, an
/// optional fraction of at least one digit, and an optional exponent of at
/// least one digit.  The scan is maximal: it ends at the first byte that
/// cannot continue the literal.
pub open spec fn scan_number(s: Seq<u8>, i: int) -> Option<NumSpan>
    recommends
        0 <= i <= s.len(),
{
    let neg = i < s.len() && s[i] == 45;
    let j = if neg {
        i + 1
    } else {
        i
    };
    if j >= s.len() || !is_digit(s[j]) {
        None
    } else {
        let int_end = if s[j] == 48 {
            j + 1
        } else {
            j + digit_run(s, j)
        };
        let has_frac = int_end < s.len() && s[int_end] == 46 && digit_run(s, int_end + 1) > 0;
        if int_end < s.len() && s[int_end] == 46 && !has_frac {
            None
        } else {
            let frac_start = if has_frac {
                int_end + 1
            } else {
                int_end
            };
            let frac_end = if has_frac {
                frac_start + digit_run(s, frac_start)
            } else {
                int_end
            };
            let k = frac_end;
            let has_e = k < s.len() && (s[k] == 101 || s[k] == 69);
            if !has_e {
                Some(
                    NumSpan {
                        neg,
                        int_start: j,
                        int_end,
                        has_frac,
                        frac_start,
                        frac_end,
                        has_exp: false,
                        exp_neg: false,
                        exp_start: k,
                        exp_end: k,
                        end: k,
                    },
                )
            } else {
                let exp_neg = k + 1 < s.len() && s[k + 1] == 45;
                let exp_start = if k + 1 < s.len() && (s[k + 1] == 45 || s[k + 1] == 43) {
                    k + 2
                } else {
                    k + 1
                };
                let run = digit_run(s, exp_start);
                if run == 0 {
                    None
                } else {
                    Some(
                        NumSpan {
                            neg,
                            int_start: j,
                            int_end,
                            has_frac,
                            frac_start,
                            frac_end,
                            has_exp: true,
                            exp_neg,
                            exp_start,
                            exp_end: exp_start + run,
                            end: exp_start + run,
                        },
                    )
                }
            }
        }
    }
}

/// The bytes spell one complete number literal that carries a fraction or an
/// exponent: the floating-point literals.
pub open spec fn is_float_literal(s: Seq<u8>) -> bool {
    match scan_number(s, 0) {
        Some(p) => p.end == s.len() && (p.has_frac || p.has_exp),
        None => false,
    }
}

/// The canonical decimal form of a number: a sign, the significant digits,
/// and a decimal exponent.  Zero is `(false, empty, 0)`.
pub ghost struct CanonDec {
    pub neg: bool,
    pub digits: Seq<u8>,
    pub exp: int,
}

/// Canonical form of `mant_digits * 10^exp0` with the given sign.
pub open spec fn canon_from_digits(neg: bool, mant: Seq<u8>, exp0: int) -> CanonDec {
    let lead = strip_leading_zeros(mant);
    if lead.len() == 0 {
        CanonDec { neg: false, digits: Seq::empty(), exp: 0 }
    } else {
        let digits = strip_trailing_zeros(lead);
        CanonDec { neg, digits, exp: exp0 + (lead.len() - digits.len()) }
    }
}

/// Canonical form of an integer value.
pub open spec fn canon_of_int(v: int) -> CanonDec {
    let m = if v < 0 {
        -v
    } else {
        v
    };
    canon_from_digits(v < 0, digits_of_nat(m), 0)
}

/// Canonical form of a floating-point literal.
pub open spec fn canon_of_float(s: Seq<u8>) -> CanonDec
    recommends
        is_float_literal(s),
{
    let p = scan_number(s, 0).unwrap();
    let mant = s.subrange(p.int_start, p.int_end) + if p.has_frac {
        s.subrange(p.frac_start, p.frac_end)
    } else {
        Seq::empty()
    };
    let e = if p.has_exp {
        let ev = dec_value_capped(s.subrange(p.exp_start, p.exp_end));
        if p.exp_neg {
            -ev
        } else {
            ev
        }
    } else {
        0
    };
    let frac_len: int = if p.has_frac {
        p.frac_end - p.frac_start
    } else {
        0
    };
    canon_from_digits(p.neg, mant, e - frac_len)
}

/// Numerical type.
///
/// An unsigned or signed integer, or a floating-point number kept as the
/// bytes of its literal.
pub enum Number {
    /// Unsigned integer.
    Unsigned(u64),
    /// Signed integer.
    Signed(i64),
    /// Floating-point number: the bytes of its decimal literal.
    Float(Vec<u8>),
}

/// The mathematical content of a [`Number`].
pub enum NumberView {
    Unsigned(u64),
    Signed(i64),
    Float(Seq<u8>),
}

impl View for Number {
    type V = NumberView;

    open spec fn view(&self) -> NumberView {
        match self {
            Number::Unsigned(u) => NumberView::Unsigned(*u),
            Number::Signed(i) => NumberView::Signed(*i),
            Number::Float(v) => NumberView::Float(v@),
        }
    }
}

impl NumberView {
    /// A float variant holds a complete floating-point literal.
    pub open spec fn wf(&self) -> bool {
        match self {
            NumberView::Float(s) => is_float_literal(*s),
            _ => true,
        }
    }

    /// The canonical decimal form this number denotes.
    pub open spec fn canon(&self) -> CanonDec {
        match self {
            NumberView::Unsigned(u) => canon_of_int(*u as int),
            NumberView::Signed(i) => canon_of_int(*i as int),
            NumberView::Float(s) => canon_of_float(*s),
        }
    }
}

/// Two numbers denote the same decimal value.
pub open spec fn num_eq(a: NumberView, b: NumberView) -> bool {
    a.canon() == b.canon()
}

impl Number {
    /// Determines whether the number is an unsigned integer.
    pub fn is_unsigned(&self) -> (r: bool)
        ensures
            r == (self@ is Unsigned),
    {
        matches!(*self, Number::Unsigned(_))
    }

    /// Determines whether the number is a signed integer.
    pub fn is_signed(&self) -> (r: bool)
        ensures
            r == (self@ is Signed),
    {
        matches!(*self, Number::Signed(_))
    }

    /// Determines whether the number is a floating-point number.
    pub fn is_float(&self) -> (r: bool)
        ensures
            r == (self@ is Float),
    {
        matches!(*self, Number::Float(_))
    }

    /// Tries to read the number as `u64`; only the unsigned case succeeds.
    pub fn try_as_u64(&self) -> (r: Result<u64, Error>)
        ensures
            match r {
                Ok(u) => self@ == NumberView::Unsigned(u),
                Err(e) => !(self@ is Unsigned) && e is TypeTransform,
            },
    {
        match self {
            Number::Unsigned(u) => Ok(*u),
            _ => Err(Error::TypeTransform),
        }
    }

    /// Tries to read the number as `i64`: signed numbers succeed, unsigned
    /// numbers succeed when they fit, floating-point numbers fail.
    pub fn try_as_i64(&self) -> (r: Result<i64, Error>)
        ensures
            match r {
                Ok(i) => self@ == NumberView::Signed(i) || (self@ == NumberView::Unsigned(
                    i as u64,
                ) && i >= 0),
                Err(e) => e is TypeTransform && match self@ {
                    NumberView::Unsigned(u) => u > i64::MAX,
                    NumberView::Signed(_) => false,
                    NumberView::Float(_) => true,
                },
            },
    {
        match self {
            Number::Unsigned(u) => {
                if *u <= 0x7fff_ffff_ffff_ffff {
                    Ok(*u as i64)
                } else {
                    Err(Error::TypeTransform)
                }
            },
            Number::Signed(i) => Ok(*i),
            Number::Float(_) => Err(Error::TypeTransform),
        }
    }

    /// Builds a floating-point number from the bytes of its literal; the
    /// text must be ASCII and spell a complete number literal with a
    /// fraction or an exponent, and is rejected exactly otherwise.
    pub fn new_float_literal(text: &str) -> (r: Result<Number, Error>)
        ensures
            match r {
                Ok(n) => n@ == NumberView::Float(text@.map_values(|c: char| c as u8))
                    && n@.wf(),
                Err(e) => e is ParseNumber && ((exists|i: int|
                    0 <= i < text@.len() && (#[trigger] text@[i]) as u32 > 127)
                    || !is_float_literal(text@.map_values(|c: char| c as u8))),
            },
    {
        let bytes = ascii_str_to_bytes(text);
        match bytes {
            Some(v) => {
                if is_float_literal_exec(&v) {
                    Ok(Number::Float(v))
                } else {
                    Err(Error::ParseNumber)
                }
            },
            None => Err(Error::ParseNumber),
        }
    }
}

/// The bytes of an ASCII string, or `None` if any character is not ASCII.
fn ascii_str_to_bytes(text: &str) -> (r: Option<Vec<u8>>)
    ensures
        match r {
            Some(v) => v@ == text@.map_values(|c: char| c as u8) && forall|i: int|
                0 <= i < text@.len() ==> (#[trigger] text@[i]) as u32 <= 127,
            None => exists|i: int| 0 <= i < text@.len() && (#[trigger] text@[i]) as u32 > 127,
        },
{
    let mut out: Vec<u8> = Vec::new();
    let len = text.unicode_len();
    let mut i: usize = 0;
    while i < len
        invariant
            0 <= i <= len,
            len == text@.len(),
            out@ == text@.subrange(0, i as int).map_values(|c: char| c as u8),
            forall|k: int| 0 <= k < i ==> (#[trigger] text@[k]) as u32 <= 127,
        decreases len - i,
    {
        let c = text.get_char(i);
        let u = c as u32;
        if u > 127 {
            return None;
        }
        out.push(u as u8);
        proof {
            assert(out@ =~= text@.subrange(0, i + 1 as int).map_values(|c: char| c as u8));
        }
        i = i + 1;
    }
    proof {
        assert(text@.subrange(0, len as int) =~= text@);
    }
    Some(out)
}

/// The end of the run of digits that starts at `i`.
pub(crate) fn digit_run_end(v: &Vec<u8>, i: usize) -> (r: usize)
    requires
        i <= v@.len(),
    ensures
        r == i + digit_run(v@, i as int),
        i <= r <= v@.len(),
{
    let mut j = i;
    while j < v.len() && v[j] >= 48 && v[j] <= 57
        invariant
            i <= j <= v@.len(),
            digit_run(v@, i as int) == (j - i) + digit_run(v@, j as int),
        decreases v@.len() - j,
    {
        j = j + 1;
    }
    j
}

/// Whether the bytes spell one complete floating-point literal.
pub(crate) fn is_float_literal_exec(v: &Vec<u8>) -> (r: bool)
    ensures
        r == is_float_literal(v@),
{
    match scan_number_exec(v) {
        Some(p) => p.end == v.len() && (p.has_frac || p.has_exp),
        None => false,
    }
}

/// The parts of a scanned number literal, as positions into the bytes.
pub(crate) struct SpanParts {
    pub neg: bool,
    pub int_start: usize,
    pub int_end: usize,
    pub has_frac: bool,
    pub frac_start: usize,
    pub frac_end: usize,
    pub has_exp: bool,
    pub exp_neg: bool,
    pub exp_start: usize,
    pub exp_end: usize,
    pub end: usize,
}

impl SpanParts {
    /// The exec scan found the same parts as the specification scan.
    pub(crate) open spec fn matches(&self, p: NumSpan) -> bool {
        &&& self.neg == p.neg
        &&& self.int_start == p.int_start
        &&& self.int_end == p.int_end
        &&& self.has_frac == p.has_frac
        &&& self.has_frac ==> self.frac_start == p.frac_start && self.frac_end == p.frac_end
        &&& self.has_exp == p.has_exp
        &&& self.has_exp ==> self.exp_neg == p.exp_neg && self.exp_start == p.exp_start
            && self.exp_end == p.exp_end
        &&& self.end == p.end
    }
}

/// Scans a number literal at the start of the bytes.
pub(crate) fn scan_number_exec(v: &Vec<u8>) -> (r: Option<SpanParts>)
    ensures
        match r {
            Some(parts) => {
                &&& scan_number(v@, 0) is Some
                &&& parts.matches(scan_number(v@, 0).unwrap())
                &&& parts.int_start <= parts.int_end <= v@.len()
                &&& parts.has_frac ==> parts.frac_start <= parts.frac_end <= v@.len()
                &&& parts.has_exp ==> parts.exp_start < parts.exp_end <= v@.len()
                &&& parts.end <= v@.len()
            },
            None => scan_number(v@, 0) is None,
        },
{
    let len = v.len();
    let neg = len > 0 && v[0] == 45;
    let j: usize = if neg {
        1
    } else {
        0
    };
    if j >= len || v[j] < 48 || v[j] > 57 {
        return None;
    }
    let int_end: usize = if v[j] == 48 {
        j + 1
    } else {
        digit_run_end(v, j)
    };
    let has_frac = int_end < len && v[int_end] == 46 && int_end + 1 < len && v[int_end + 1] >= 48
        && v[int_end + 1] <= 57;
    proof {
        if int_end < v@.len() && v@[int_end as int] == 46 {
            lemma_digit_run_bounds(v@, int_end + 1);
            assert(digit_run(v@, int_end + 1) > 0 <==> (int_end + 1 < v@.len() && is_digit(
                v@[int_end + 1],
            )));
        }
    }
    if int_end < len && v[int_end] == 46 && !has_frac {
        return None;
    }
    let frac_start: usize = if has_frac {
        int_end + 1
    } else {
        int_end
    };
    let frac_end: usize = if has_frac {
        digit_run_end(v, int_end + 1)
    } else {
        int_end
    };
    let k = frac_end;
    let has_e = k < len && (v[k] == 101 || v[k] == 69);
    if !has_e {
        return Some(
            SpanParts {
                neg,
                int_start: j,
                int_end,
                has_frac,
                frac_start,
                frac_end,
                has_exp: false,
                exp_neg: false,
                exp_start: k,
                exp_end: k,
                end: k,
            },
        );
    }
    let exp_neg = k + 1 < len && v[k + 1] == 45;
    let exp_start: usize = if k + 1 < len && (v[k + 1] == 45 || v[k + 1] == 43) {
        k + 2
    } else {
        k + 1
    };
    let exp_end = digit_run_end(v, exp_start);
    if exp_end == exp_start {
        return None;
    }
    Some(
        SpanParts {
            neg,
            int_start: j,
            int_end,
            has_frac,
            frac_start,
            frac_end,
            has_exp: true,
            exp_neg,
            exp_start,
            exp_end,
            end: exp_end,
        },
    )
}

/// The digits of a positive integer start with a nonzero digit.
pub proof fn lemma_digits_of_nat_form(n: int)
    requires
        n > 0,
    ensures
        digits_of_nat(n).len() > 0,
        digits_of_nat(n)[0] != 48,
        all_digits(digits_of_nat(n)),
    decreases n,
{
    if n / 10 > 0 {
        lemma_digits_of_nat_form(n / 10);
        assert(digits_of_nat(n) == digits_of_nat(n / 10).push((48 + n % 10) as u8));
    } else {
        assert(n % 10 == n) by {
            assert(n == 10 * (n / 10) + n % 10);
        }
        assert(n >= 1);
        assert(digits_of_nat(n) == digits_of_nat(0).push((48 + n % 10) as u8));
    }
}

/// Stripping leading zeroes keeps exactly the part after them.
proof fn lemma_strip_leading(s: Seq<u8>, k: int)
    requires
        0 <= k <= s.len(),
        forall|j: int| 0 <= j < k ==> #[trigger] s[j] == 48,
        k == s.len() || s[k] != 48,
    ensures
        strip_leading_zeros(s) == s.skip(k),
    decreases k,
{
    if k == 0 {
        assert(s.skip(0) =~= s);
        if s.len() > 0 {
            assert(s[0] != 48);
        }
    } else {
        assert(s[0] == 48);
        lemma_strip_leading(s.skip(1), k - 1);
        assert(s.skip(1).skip(k - 1) =~= s.skip(k));
    }
}

/// Stripping trailing zeroes keeps exactly the part before them.
proof fn lemma_strip_trailing(s: Seq<u8>, t: int)
    requires
        0 <= t <= s.len(),
        forall|j: int| s.len() - t <= j < s.len() ==> #[trigger] s[j] == 48,
        t == s.len() || s[s.len() - t - 1] != 48,
    ensures
        strip_trailing_zeros(s) == s.take(s.len() - t),
    decreases t,
{
    if t == 0 {
        assert(s.take(s.len() as int) =~= s);
    } else {
        assert(s.last() == 48);
        lemma_strip_trailing(s.drop_last(), t - 1);
        assert(s.drop_last().take(s.len() - t) =~= s.take(s.len() - t));
    }
}

/// Computes the decimal digits of an unsigned integer.
pub(crate) fn u64_digits(u: u64) -> (r: Vec<u8>)
    ensures
        r@ == digits_of_nat(u as int),
{
    let mut out: Vec<u8> = Vec::new();
    let mut cur = u;
    while cur > 0
        invariant
            digits_of_nat(u as int) == digits_of_nat(cur as int) + out@,
        decreases cur,
    {
        let ghost prev = out@;
        let d = (cur % 10) as u8 + 48;
        out.insert(0, d);
        proof {
            assert(out@ =~= seq![d] + prev);
            assert(digits_of_nat(cur as int) =~= digits_of_nat(cur as int / 10) + seq![d]);
            assert((digits_of_nat(cur as int / 10) + seq![d]) + prev =~= digits_of_nat(
                cur as int / 10,
            ) + (seq![d] + prev));
            assert(cur as int / 10 < cur as int) by (nonlinear_arith)
                requires
                    cur > 0,
            ;
        }
        cur = cur / 10;
    }
    proof {
        assert(digits_of_nat(u as int) =~= out@);
    }
    out
}

/// A loose bound on intermediate exponent values: saturated exponents plus
/// position offsets stay far inside this.
pub(crate) const EXP_BOUND: i128 = 0x4000_0000_0000_0000_0000_0000_0000;

/// Canonical form of digit bytes times `10^exp0`, computed.
fn canon_from_vec(neg: bool, mant: &Vec<u8>, exp0: i128) -> (r: (bool, Vec<u8>, i128))
    requires
        -EXP_BOUND <= exp0 <= EXP_BOUND,
    ensures
        ({
            let c = canon_from_digits(neg, mant@, exp0 as int);
            r.0 == c.neg && r.1@ == c.digits && r.2 as int == c.exp
        }),
{
    let len = mant.len();
    let mut k: usize = 0;
    while k < len && mant[k] == 48
        invariant
            0 <= k <= len,
            len == mant@.len(),
            forall|j: int| 0 <= j < k ==> #[trigger] mant@[j] == 48,
        decreases len - k,
    {
        k = k + 1;
    }
    proof {
        lemma_strip_leading(mant@, k as int);
    }
    if k == len {
        return (false, Vec::new(), 0);
    }
    let ghost lead = mant@.skip(k as int);
    let mut e: usize = len;
    while e > k && mant[e - 1] == 48
        invariant
            k <= e <= len,
            len == mant@.len(),
            mant@[k as int] != 48,
            forall|j: int| e <= j < len ==> #[trigger] mant@[j] == 48,
        decreases e,
    {
        proof {
            if e - 1 == k {
                assert(mant@[k as int] != 48);
            }
        }
        e = e - 1;
    }
    proof {
        assert(e > k);
        assert forall|j: int| lead.len() - (len - e) <= j < lead.len()
            implies #[trigger] lead[j] == 48 by {
            assert(lead[j] == mant@[j + k]);
        }
        assert(lead[lead.len() - (len - e) - 1] == mant@[e - 1]);
        lemma_strip_trailing(lead, len - e);
    }
    let mut digits: Vec<u8> = Vec::new();
    let mut i = k;
    while i < e
        invariant
            k <= i <= e <= len,
            len == mant@.len(),
            digits@ == mant@.subrange(k as int, i as int),
        decreases e - i,
    {
        digits.push(mant[i]);
        proof {
            assert(digits@ =~= mant@.subrange(k as int, i + 1));
        }
        i = i + 1;
    }
    let t = len - e;
    proof {
        assert(strip_trailing_zeros(lead) =~= lead.take(lead.len() - (len - e)));
        assert(lead.take(lead.len() - (len - e)) =~= mant@.subrange(k as int, e as int));
        assert(lead.len() - strip_trailing_zeros(lead).len() == t);
    }
    (neg, digits, exp0 + t as i128)
}

/// The saturated integer value of a run of digit bytes.
fn dec_capped_exec(v: &Vec<u8>, start: usize, end: usize) -> (r: u64)
    requires
        start <= end <= v@.len(),
        forall|j: int| start <= j < end ==> is_digit(#[trigger] v@[j]),
    ensures
        r as int == dec_value_capped(v@.subrange(start as int, end as int)),
        r <= EXP_CAP,
{
    let mut acc: u64 = 0;
    let mut i = start;
    proof {
        assert(v@.subrange(start as int, start as int) =~= Seq::<u8>::empty());
    }
    while i < end
        invariant
            start <= i <= end <= v@.len(),
            forall|j: int| start <= j < end ==> is_digit(#[trigger] v@[j]),
            acc as int == dec_value_capped(v@.subrange(start as int, i as int)),
            acc <= EXP_CAP,
        decreases end - i,
    {
        let ghost pre = v@.subrange(start as int, i as int);
        let b = v[i];
        proof {
            assert(is_digit(v@[i as int]));
        }
        let d: u64 = (b - 48) as u64;
        proof {
            assert(v@.subrange(start as int, i + 1).drop_last() =~= pre);
        }
        if acc > 1_844_674_407_370_955_160 {
            acc = EXP_CAP;
        } else {
            let next = acc * 10 + d;
            acc = if next > EXP_CAP {
                EXP_CAP
            } else {
                next
            };
        }
        i = i + 1;
    }
    acc
}

/// Compares two byte strings.
pub(crate) fn bytes_eq(a: &Vec<u8>, b: &Vec<u8>) -> (r: bool)
    ensures
        r == (a@ == b@),
{
    if a.len() != b.len() {
        proof {
            assert(a@ != b@);
        }
        return false;
    }
    let n = a.len();
    let mut i: usize = 0;
    while i < n
        invariant
            0 <= i <= n,
            n == a@.len() == b@.len(),
            forall|j: int| 0 <= j < i ==> a@[j] == b@[j],
        decreases n - i,
    {
        if a[i] != b[i] {
            proof {
                assert(a@[i as int] != b@[i as int]);
            }
            return false;
        }
        i = i + 1;
    }
    proof {
        assert(a@ =~= b@);
    }
    true
}

/// The canonical decimal form of a number, computed.
fn number_canon(n: &Number) -> (r: (bool, Vec<u8>, i128))
    requires
        n@.wf(),
    ensures
        ({
            let c = n@.canon();
            r.0 == c.neg && r.1@ == c.digits && r.2 as int == c.exp
        }),
{
    match n {
        Number::Unsigned(u) => {
            let digits = u64_digits(*u);
            canon_from_vec(false, &digits, 0)
        },
        Number::Signed(i) => {
            let neg = *i < 0;
            let mag: u64 = if *i == i64::MIN {
                9_223_372_036_854_775_808
            } else if *i < 0 {
                (-*i) as u64
            } else {
                *i as u64
            };
            let digits = u64_digits(mag);
            let r = canon_from_vec(neg, &digits, 0);
            proof {
                if *i >= 0 && neg {
                    assert(false);
                }
                if *i >= 0 {
                    assert(canon_of_int(*i as int) == canon_from_digits(
                        false,
                        digits_of_nat(mag as int),
                        0,
                    ));
                }
            }
            r
        },
        Number::Float(v) => {
            let parts = match scan_number_exec(v) {
                Some(p) => p,
                None => {
                    proof {
                        assert(false);
                    }
                    vstd::pervasive::unreached()
                },
            };
            let mut mant: Vec<u8> = Vec::new();
            let mut i = parts.int_start;
            while i < parts.int_end
                invariant
                    parts.int_start <= i <= parts.int_end <= v@.len(),
                    mant@ == v@.subrange(parts.int_start as int, i as int),
                decreases parts.int_end - i,
            {
                mant.push(v[i]);
                proof {
                    assert(mant@ =~= v@.subrange(parts.int_start as int, i + 1));
                }
                i = i + 1;
            }
            let ghost int_part = v@.subrange(parts.int_start as int, parts.int_end as int);
            if parts.has_frac {
                let mut i = parts.frac_start;
                while i < parts.frac_end
                    invariant
                        parts.has_frac,
                        parts.frac_start <= i <= parts.frac_end <= v@.len(),
                        mant@ == int_part + v@.subrange(parts.frac_start as int, i as int),
                    decreases parts.frac_end - i,
                {
                    mant.push(v[i]);
                    proof {
                        assert(mant@ =~= int_part + v@.subrange(parts.frac_start as int, i + 1));
                    }
                    i = i + 1;
                }
            } else {
                proof {
                    assert(mant@ =~= int_part + Seq::<u8>::empty());
                }
            }
            let e_mag: u64 = if parts.has_exp {
                proof {
                    lemma_digit_run_bounds(v@, parts.exp_start as int);
                }
                dec_capped_exec(v, parts.exp_start, parts.exp_end)
            } else {
                0
            };
            let e_signed: i128 = if parts.has_exp && parts.exp_neg {
                -(e_mag as i128)
            } else {
                e_mag as i128
            };
            let frac_len: usize = if parts.has_frac {
                parts.frac_end - parts.frac_start
            } else {
                0
            };
            let exp0: i128 = e_signed - frac_len as i128;
            canon_from_vec(parts.neg, &mant, exp0)
        },
    }
}

/// Two numbers are equal when they are both well formed and denote the same
/// decimal value, or, failing well-formedness, when they are spelled the
/// same.
pub open spec fn number_eq_full(a: NumberView, b: NumberView) -> bool {
    if a.wf() && b.wf() {
        num_eq(a, b)
    } else {
        a == b
    }
}

/// The canonical spelling of a number: a non-negative signed integer reads
/// as the unsigned integer it is, and everything else keeps its spelling.
/// Parsing a rendering hands numbers back in this spelling.
pub open spec fn canon_num(n: NumberView) -> NumberView {
    match n {
        NumberView::Signed(x) => if x >= 0 {
            NumberView::Unsigned(x as u64)
        } else {
            n
        },
        _ => n,
    }
}

impl PartialEq for Number {
    /// Numbers compare by the decimal value they denote: `1` equals `1.0`
    /// and `-0` equals `0`, while the spelling of a float is otherwise kept
    /// out of the comparison.
    fn eq(&self, other: &Number) -> (r: bool) {
        let awf = match self {
            Number::Float(v) => is_float_literal_exec(v),
            _ => true,
        };
        let bwf = match other {
            Number::Float(v) => is_float_literal_exec(v),
            _ => true,
        };
        if awf && bwf {
            let ca = number_canon(self);
            let cb = number_canon(other);
            ca.0 == cb.0 && ca.2 == cb.2 && bytes_eq(&ca.1, &cb.1)
        } else {
            match (self, other) {
                (Number::Unsigned(a), Number::Unsigned(b)) => *a == *b,
                (Number::Signed(a), Number::Signed(b)) => *a == *b,
                (Number::Float(a), Number::Float(b)) => bytes_eq(a, b),
                _ => false,
            }
        }
    }
}

impl vstd::std_specs::cmp::PartialEqSpecImpl for Number {
    open spec fn obeys_eq_spec() -> bool {
        true
    }

    open spec fn eq_spec(&self, other: &Number) -> bool {
        number_eq_full(self@, other@)
    }
}


/// The decimal rendering of a non-negative integer; zero renders as `0`.
pub open spec fn dec_render(n: int) -> Seq<u8> {
    if n == 0 {
        seq![48u8]
    } else {
        digits_of_nat(n)
    }
}

/// The bytes a number is rendered to: integers in plain decimal, floats as
/// the literal they were built from.
pub open spec fn render_number(nv: NumberView) -> Seq<u8> {
    match nv {
        NumberView::Unsigned(u) => dec_render(u as int),
        NumberView::Signed(i) => if i < 0 {
            seq![45u8] + dec_render(-(i as int))
        } else {
            dec_render(i as int)
        },
        NumberView::Float(s) => s,
    }
}

/// Appends the decimal rendering of an unsigned integer.
pub(crate) fn write_u64(u: u64, out: &mut Vec<u8>)
    ensures
        final(out)@ == old(out)@ + dec_render(u as int),
{
    if u == 0 {
        out.push(48);
        proof {
            assert(final(out)@ =~= old(out)@ + dec_render(0));
        }
    } else {
        let mut d = u64_digits(u);
        out.append(&mut d);
    }
}

/// Appends the rendering of a number.
pub(crate) fn write_number(n: &Number, out: &mut Vec<u8>)
    ensures
        final(out)@ == old(out)@ + render_number(n@),
{
    match n {
        Number::Unsigned(u) => {
            write_u64(*u, out);
        },
        Number::Signed(i) => {
            if *i < 0 {
                out.push(45);
                let mag: u64 = if *i == i64::MIN {
                    9_223_372_036_854_775_808
                } else {
                    (-*i) as u64
                };
                write_u64(mag, out);
                proof {
                    assert(final(out)@ =~= old(out)@ + (seq![45u8] + dec_render(mag as int)));
                }
            } else {
                write_u64(*i as u64, out);
            }
        },
        Number::Float(v) => {
            let mut copy: Vec<u8> = Vec::new();
            let n0 = v.len();
            let mut i: usize = 0;
            while i < n0
                invariant
                    0 <= i <= n0,
                    n0 == v@.len(),
                    copy@ == v@.subrange(0, i as int),
                decreases n0 - i,
            {
                copy.push(v[i]);
                proof {
                    assert(copy@ =~= v@.subrange(0, i + 1));
                }
                i = i + 1;
            }
            proof {
                assert(copy@ =~= v@);
            }
            out.append(&mut copy);
        },
    }
}

impl From<u8> for Number {
    fn from(u: u8) -> (r: Self) {
        Number::Unsigned(u as u64)
    }
}

impl vstd::std_specs::convert::FromSpecImpl<u8> for Number {
    open spec fn obeys_from_spec() -> bool {
        true
    }

    open spec fn from_spec(u: u8) -> Self {
        Number::Unsigned(u as u64)
    }
}

impl From<u16> for Number {
    fn from(u: u16) -> (r: Self) {
        Number::Unsigned(u as u64)
    }
}

impl vstd::std_specs::convert::FromSpecImpl<u16> for Number {
    open spec fn obeys_from_spec() -> bool {
        true
    }

    open spec fn from_spec(u: u16) -> Self {
        Number::Unsigned(u as u64)
    }
}

impl From<u32> for Number {
    fn from(u: u32) -> (r: Self) {
        Number::Unsigned(u as u64)
    }
}

impl vstd::std_specs::convert::FromSpecImpl<u32> for Number {
    open spec fn obeys_from_spec() -> bool {
        true
    }

    open spec fn from_spec(u: u32) -> Self {
        Number::Unsigned(u as u64)
    }
}

impl From<u64> for Number {
    fn from(u: u64) -> (r: Self) {
        Number::Unsigned(u)
    }
}

impl vstd::std_specs::convert::FromSpecImpl<u64> for Number {
    open spec fn obeys_from_spec() -> bool {
        true
    }

    open spec fn from_spec(u: u64) -> Self {
        Number::Unsigned(u)
    }
}

impl From<usize> for Number {
    fn from(u: usize) -> (r: Self) {
        Number::Unsigned(u as u64)
    }
}

impl vstd::std_specs::convert::FromSpecImpl<usize> for Number {
    open spec fn obeys_from_spec() -> bool {
        true
    }

    open spec fn from_spec(u: usize) -> Self {
        Number::Unsigned(u as u64)
    }
}

impl From<i8> for Number {
    fn from(i: i8) -> (r: Self) {
        Number::Signed(i as i64)
    }
}

impl vstd::std_specs::convert::FromSpecImpl<i8> for Number {
    open spec fn obeys_from_spec() -> bool {
        true
    }

    open spec fn from_spec(i: i8) -> Self {
        Number::Signed(i as i64)
    }
}

impl From<i16> for Number {
    fn from(i: i16) -> (r: Self) {
        Number::Signed(i as i64)
    }
}

impl vstd::std_specs::convert::FromSpecImpl<i16> for Number {
    open spec fn obeys_from_spec() -> bool {
        true
    }

    open spec fn from_spec(i: i16) -> Self {
        Number::Signed(i as i64)
    }
}

impl From<i32> for Number {
    fn from(i: i32) -> (r: Self) {
        Number::Signed(i as i64)
    }
}

impl vstd::std_specs::convert::FromSpecImpl<i32> for Number {
    open spec fn obeys_from_spec() -> bool {
        true
    }

    open spec fn from_spec(i: i32) -> Self {
        Number::Signed(i as i64)
    }
}

impl From<i64> for Number {
    fn from(i: i64) -> (r: Self) {
        Number::Signed(i)
    }
}

impl vstd::std_specs::convert::FromSpecImpl<i64> for Number {
    open spec fn obeys_from_spec() -> bool {
        true
    }

    open spec fn from_spec(i: i64) -> Self {
        Number::Signed(i)
    }
}

impl From<isize> for Number {
    fn from(i: isize) -> (r: Self) {
        Number::Signed(i as i64)
    }
}

impl vstd::std_specs::convert::FromSpecImpl<isize> for Number {
    open spec fn obeys_from_spec() -> bool {
        true
    }

    open spec fn from_spec(i: isize) -> Self {
        Number::Signed(i as i64)
    }
}

impl Clone for Number {
    /// An equal number with the same spelling.
    fn clone(&self) -> (r: Self)
        ensures
            r@ == self@,
    {
        match self {
            Number::Unsigned(u) => Number::Unsigned(*u),
            Number::Signed(i) => Number::Signed(*i),
            Number::Float(v) => {
                let mut copy: Vec<u8> = Vec::new();
                let n0 = v.len();
                let mut i: usize = 0;
                while i < n0
                    invariant
                        0 <= i <= n0,
                        n0 == v@.len(),
                        copy@ == v@.subrange(0, i as int),
                    decreases n0 - i,
                {
                    copy.push(v[i]);
                    proof {
                        assert(copy@ =~= v@.subrange(0, i + 1));
                    }
                    i = i + 1;
                }
                proof {
                    assert(copy@ =~= v@);
                }
                Number::Float(copy)
            },
        }
    }
}

} // verus!
