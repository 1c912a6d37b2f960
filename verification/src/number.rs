//! Numbers: the integer widths, decimal literals, and how a number is written
//! and read.

use vstd::prelude::*;
use crate::chars::{chars_of, string_of, append_chars};
use crate::decimal::{all_digits, decimal_text, digits_value, is_digit, lemma_digits_value_prefix, push_decimal, push_digits};

verus! {

/// Whether `s` has the character `c` at position `p`.
pub open spec fn has(s: Seq<char>, p: int, c: char) -> bool {
    0 <= p < s.len() && s[p] == c
}

/// The first position from `p` on that holds no digit.
pub open spec fn digits_end(s: Seq<char>, p: int) -> int
    decreases s.len() - p,
{
    if 0 <= p < s.len() && is_digit(s[p]) {
        digits_end(s, p + 1)
    } else {
        p
    }
}

/// The position behind a minus sign at `p`, or `p` if there is none.
pub open spec fn sign_end(s: Seq<char>, p: int) -> int {
    if has(s, p, '-') {
        p + 1
    } else {
        p
    }
}

/// The position behind the fraction that starts at `p` with a point, or `p`
/// if there is no point at `p`.
pub open spec fn fraction_end(s: Seq<char>, p: int) -> int {
    if has(s, p, '.') {
        digits_end(s, p + 1)
    } else {
        p
    }
}

/// The position where the digits of an exponent start, if an exponent starts
/// at `p` with `e` or `E`: behind the letter and a sign.
pub open spec fn exponent_digits(s: Seq<char>, p: int) -> int {
    if has(s, p + 1, '+') || has(s, p + 1, '-') {
        p + 2
    } else {
        p + 1
    }
}

/// The end of the numeric literal that starts at `p`, or the position where
/// a digit is missing.
///
/// A literal is an optional minus sign and one or more digits; then
/// optionally a point and one or more digits; then optionally `e` or `E`, an
/// optional sign, and one or more digits.
pub open spec fn number_end(s: Seq<char>, p: int) -> Result<int, int> {
    let a = sign_end(s, p);
    let b = digits_end(s, a);
    let c = fraction_end(s, b);
    if b == a {
        Err(a)
    } else if has(s, b, '.') && c == b + 1 {
        Err(c)
    } else if has(s, c, 'e') || has(s, c, 'E') {
        let d = exponent_digits(s, c);
        let e = digits_end(s, d);
        if e == d {
            Err(d)
        } else {
            Ok(e)
        }
    } else {
        Ok(c)
    }
}

/// Whether all of `t` is one numeric literal.
pub open spec fn is_numeric_literal(t: Seq<char>) -> bool {
    number_end(t, 0) == Ok::<int, int>(t.len() as int)
}

/// Whether all of `t` is an optional minus sign and one or more digits.
pub open spec fn is_integer_literal(t: Seq<char>) -> bool {
    sign_end(t, 0) < t.len() && digits_end(t, sign_end(t, 0)) == t.len()
}

/// The integer that an integer literal denotes.
pub open spec fn integer_value(t: Seq<char>) -> int {
    if has(t, 0, '-') {
        -(digits_value(t.skip(1)) as int)
    } else {
        digits_value(t) as int
    }
}

/// The digits from `p` up to `digits_end` are digits, and no digit follows
/// them.
pub proof fn lemma_digits_end(s: Seq<char>, p: int)
    requires
        0 <= p <= s.len(),
    ensures
        p <= digits_end(s, p) <= s.len(),
        forall|k: int| p <= k < digits_end(s, p) ==> is_digit(#[trigger] s[k]),
        digits_end(s, p) < s.len() ==> !is_digit(s[digits_end(s, p)]),
    decreases s.len() - p,
{
    if p < s.len() && is_digit(s[p]) {
        lemma_digits_end(s, p + 1);
    }
}

/// Digits from `p` to `q`, and none at `q`, make `q` the end.
pub proof fn lemma_digits_end_is(s: Seq<char>, p: int, q: int)
    requires
        0 <= p <= q <= s.len(),
        forall|k: int| p <= k < q ==> is_digit(#[trigger] s[k]),
        q < s.len() ==> !is_digit(s[q]),
    ensures
        digits_end(s, p) == q,
    decreases q - p,
{
    if p < q {
        lemma_digits_end_is(s, p + 1, q);
    }
}

/// Scanning digits in a part of a text stops where scanning in the whole
/// text stops, or at the end of the part.
pub proof fn lemma_digits_end_within(s: Seq<char>, from: int, to: int, k: int)
    requires
        0 <= from <= from + k <= to <= s.len(),
        0 <= k,
    ensures
        digits_end(s.subrange(from, to), k) == (if digits_end(s, from + k) < to {
            digits_end(s, from + k) - from
        } else {
            to - from
        }),
    decreases to - from - k,
{
    let t = s.subrange(from, to);
    lemma_digits_end(s, from + k);
    if from + k < to {
        assert(t[k] == s[from + k]);
        if is_digit(s[from + k]) {
            lemma_digits_end_within(s, from, to, k + 1);
        }
    }
}

/// What the scanner takes for a numeric literal is one when it stands alone.
pub proof fn lemma_number_lexeme(s: Seq<char>, p: int)
    requires
        0 <= p <= s.len(),
        number_end(s, p) is Ok,
    ensures
        p < number_end(s, p)->Ok_0 <= s.len(),
        is_numeric_literal(s.subrange(p, number_end(s, p)->Ok_0)),
{
    let e = number_end(s, p)->Ok_0;
    let a = sign_end(s, p);
    let b = digits_end(s, a);
    let c = fraction_end(s, b);
    lemma_digits_end(s, a);
    if has(s, b, '.') {
        lemma_digits_end(s, b + 1);
    }
    if has(s, c, 'e') || has(s, c, 'E') {
        lemma_digits_end(s, exponent_digits(s, c));
    }
    let t = s.subrange(p, e);
    assert(forall|i: int| 0 <= i < t.len() ==> t[i] == s[p + i]);
    lemma_digits_end_within(s, p, e, a - p);
    if has(s, b, '.') {
        lemma_digits_end_within(s, p, e, b + 1 - p);
    }
    if has(s, c, 'e') || has(s, c, 'E') {
        lemma_digits_end_within(s, p, e, exponent_digits(s, c) - p);
    }
    assert(sign_end(t, 0) == a - p);
    assert(digits_end(t, a - p) == b - p);
    assert(fraction_end(t, b - p) == c - p);
}

/// A numeric literal written as a text: what stands for a floating-point
/// number in a value.
///
/// The encoders write the text as it is, and the decoder keeps the text of a
/// literal that has a fraction or an exponent, or that no integer width can
/// hold.
#[derive(Debug, PartialEq, Eq)]
pub struct Decimal {
    text: Vec<char>,
}

impl View for Decimal {
    type V = Seq<char>;

    closed spec fn view(&self) -> Seq<char> {
        self.text@
    }
}

impl Clone for Decimal {
    fn clone(&self) -> (r: Decimal)
        ensures
            r@ == self@,
    {
        let mut text: Vec<char> = Vec::new();
        append_chars(&mut text, &self.text);
        assert(text@ =~= self.text@);
        Decimal { text }
    }
}

/// Whether `c` is one of `0` to `9`.
pub fn is_digit_char(c: char) -> (r: bool)
    ensures
        r == is_digit(c),
{
    let x: u32 = c as u32;
    0x30 <= x && x <= 0x39
}

/// The first position from `p` on that holds no digit.
pub fn scan_digits(chars: &Vec<char>, p: usize) -> (q: usize)
    requires
        p <= chars.len(),
    ensures
        q == digits_end(chars@, p as int),
        p <= q <= chars.len(),
{
    let mut q: usize = p;
    while q < chars.len() && is_digit_char(chars[q])
        invariant
            p <= q <= chars.len(),
            digits_end(chars@, p as int) == digits_end(chars@, q as int),
        decreases chars.len() - q,
    {
        q += 1;
    }
    q
}

/// The end of the numeric literal that starts at `p`, or the position where
/// a digit is missing.
pub fn scan_number(chars: &Vec<char>, p: usize) -> (r: Result<usize, usize>)
    requires
        p <= chars.len(),
    ensures
        match number_end(chars@, p as int) {
            Ok(e) => r == Ok::<usize, usize>(e as usize) && p < e <= chars.len(),
            Err(e) => r == Err::<usize, usize>(e as usize) && p <= e <= chars.len(),
        },
{
    let n: usize = chars.len();
    let a: usize = if p < n && chars[p] == '-' {
        p + 1
    } else {
        p
    };
    let b: usize = scan_digits(chars, a);
    if b == a {
        return Err(a);
    }
    let c: usize = if b < n && chars[b] == '.' {
        let c: usize = scan_digits(chars, b + 1);
        if c == b + 1 {
            return Err(c);
        }
        c
    } else {
        b
    };
    if c < n && (chars[c] == 'e' || chars[c] == 'E') {
        let d: usize = if c + 1 < n && (chars[c + 1] == '+' || chars[c + 1] == '-') {
            c + 2
        } else {
            c + 1
        };
        let e: usize = scan_digits(chars, d);
        if e == d {
            Err(d)
        } else {
            Ok(e)
        }
    } else {
        Ok(c)
    }
}

impl Decimal {
    /// Whether the text is a numeric literal, as it is for every `Decimal`
    /// that `parse` or the decoder made.
    pub open spec fn wf(&self) -> bool {
        is_numeric_literal(self@)
    }

    /// The decimal with the given text, if the text is a numeric literal.
    pub fn parse(text: &str) -> (r: Option<Decimal>)
        ensures
            match r {
                Some(d) => is_numeric_literal(text@) && d@ == text@ && d.wf(),
                None => !is_numeric_literal(text@),
            },
    {
        let chars = chars_of(text);
        match scan_number(&chars, 0) {
            Ok(e) => {
                if e == chars.len() {
                    Some(Decimal { text: chars })
                } else {
                    None
                }
            },
            Err(_) => None,
        }
    }

    /// The decimal with the given text.
    pub(crate) fn from_chars(text: Vec<char>) -> (d: Decimal)
        ensures
            d@ == text@,
    {
        Decimal { text }
    }

    /// The text of the literal.
    pub fn to_string(&self) -> (s: String)
        ensures
            s@ == self@,
    {
        string_of(&self.text)
    }

    /// Appends the text of the literal to `out`.
    pub fn append_to(&self, out: &mut Vec<char>)
        ensures
            final(out)@ == old(out)@ + self@,
    {
        append_chars(out, &self.text);
    }
}

/// A number of one of the integer widths, or a decimal literal that stands
/// for a floating-point number of one of two widths.
#[derive(Debug, PartialEq)]
pub enum Number {
    U8(u8),
    I8(i8),
    U16(u16),
    I16(i16),
    U32(u32),
    I32(i32),
    U64(u64),
    I64(i64),
    U128(u128),
    I128(i128),
    F32(Decimal),
    F64(Decimal),
}

/// A number as specifications see it: the same variants, a decimal by its
/// text.
pub enum Numeral {
    U8(u8),
    I8(i8),
    U16(u16),
    I16(i16),
    U32(u32),
    I32(i32),
    U64(u64),
    I64(i64),
    U128(u128),
    I128(i128),
    F32(Seq<char>),
    F64(Seq<char>),
}

impl View for Number {
    type V = Numeral;

    open spec fn view(&self) -> Numeral {
        match self {
            Number::U8(v) => Numeral::U8(*v),
            Number::I8(v) => Numeral::I8(*v),
            Number::U16(v) => Numeral::U16(*v),
            Number::I16(v) => Numeral::I16(*v),
            Number::U32(v) => Numeral::U32(*v),
            Number::I32(v) => Numeral::I32(*v),
            Number::U64(v) => Numeral::U64(*v),
            Number::I64(v) => Numeral::I64(*v),
            Number::U128(v) => Numeral::U128(*v),
            Number::I128(v) => Numeral::I128(*v),
            Number::F32(d) => Numeral::F32(d@),
            Number::F64(d) => Numeral::F64(d@),
        }
    }
}

/// The variant that holds the integer `v`: the narrowest signed width that
/// has room for it, the unsigned 128-bit width for what lies above all signed
/// widths, and the literal `t` itself as a 64-bit decimal for what no width
/// holds.
pub open spec fn integer_number(v: int, t: Seq<char>) -> Numeral {
    if i8::MIN <= v <= i8::MAX {
        Numeral::I8(v as i8)
    } else if i16::MIN <= v <= i16::MAX {
        Numeral::I16(v as i16)
    } else if i32::MIN <= v <= i32::MAX {
        Numeral::I32(v as i32)
    } else if i64::MIN <= v <= i64::MAX {
        Numeral::I64(v as i64)
    } else if i128::MIN <= v <= i128::MAX {
        Numeral::I128(v as i128)
    } else if 0 <= v <= u128::MAX {
        Numeral::U128(v as u128)
    } else {
        Numeral::F64(t)
    }
}

/// The number that the decoder reads from the numeric literal `t`: an
/// integer literal gives the variant of `integer_number`, a literal with a
/// fraction or an exponent a 64-bit decimal with the literal as its text.
pub open spec fn literal_number(t: Seq<char>) -> Numeral {
    if is_integer_literal(t) {
        integer_number(integer_value(t), t)
    } else {
        Numeral::F64(t)
    }
}

impl Numeral {
    /// How the number is written: an integer in decimal digits with a minus
    /// sign if it is negative, a decimal by its text.
    pub open spec fn text(self) -> Seq<char> {
        match self {
            Numeral::U8(v) => decimal_text(v as int),
            Numeral::I8(v) => decimal_text(v as int),
            Numeral::U16(v) => decimal_text(v as int),
            Numeral::I16(v) => decimal_text(v as int),
            Numeral::U32(v) => decimal_text(v as int),
            Numeral::I32(v) => decimal_text(v as int),
            Numeral::U64(v) => decimal_text(v as int),
            Numeral::I64(v) => decimal_text(v as int),
            Numeral::U128(v) => decimal_text(v as int),
            Numeral::I128(v) => decimal_text(v as int),
            Numeral::F32(t) => t,
            Numeral::F64(t) => t,
        }
    }

    /// Whether a decimal in the number has a numeric literal as its text.
    pub open spec fn wf(self) -> bool {
        match self {
            Numeral::F32(t) => is_numeric_literal(t),
            Numeral::F64(t) => is_numeric_literal(t),
            _ => true,
        }
    }

    /// The number that is read back from the text of this one.
    pub open spec fn canonical(self) -> Numeral {
        literal_number(self.text())
    }
}

impl Clone for Number {
    fn clone(&self) -> (r: Number)
        ensures
            r@ == self@,
    {
        match self {
            Number::U8(v) => Number::U8(*v),
            Number::I8(v) => Number::I8(*v),
            Number::U16(v) => Number::U16(*v),
            Number::I16(v) => Number::I16(*v),
            Number::U32(v) => Number::U32(*v),
            Number::I32(v) => Number::I32(*v),
            Number::U64(v) => Number::U64(*v),
            Number::I64(v) => Number::I64(*v),
            Number::U128(v) => Number::U128(*v),
            Number::I128(v) => Number::I128(*v),
            Number::F32(d) => Number::F32(d.clone()),
            Number::F64(d) => Number::F64(d.clone()),
        }
    }
}

fn narrowest(v: i128) -> (n: Number)
    ensures
        n@ == integer_number(v as int, Seq::empty()),
{
    if -128 <= v && v <= 127 {
        Number::I8(v as i8)
    } else if -32768 <= v && v <= 32767 {
        Number::I16(v as i16)
    } else if -2147483648 <= v && v <= 2147483647 {
        Number::I32(v as i32)
    } else if -9223372036854775808 <= v && v <= 9223372036854775807 {
        Number::I64(v as i64)
    } else {
        Number::I128(v)
    }
}

impl Number {
    /// Appends the text of the number to `out`.
    pub fn append_to(&self, out: &mut Vec<char>)
        ensures
            final(out)@ == old(out)@ + self@.text(),
    {
        match self {
            Number::U8(v) => push_digits(out, *v as u128),
            Number::I8(v) => push_decimal(out, *v as i128),
            Number::U16(v) => push_digits(out, *v as u128),
            Number::I16(v) => push_decimal(out, *v as i128),
            Number::U32(v) => push_digits(out, *v as u128),
            Number::I32(v) => push_decimal(out, *v as i128),
            Number::U64(v) => push_digits(out, *v as u128),
            Number::I64(v) => push_decimal(out, *v as i128),
            Number::U128(v) => push_digits(out, *v),
            Number::I128(v) => push_decimal(out, *v),
            Number::F32(d) => d.append_to(out),
            Number::F64(d) => d.append_to(out),
        }
    }

    /// The text of the number: an integer in decimal digits, a decimal by its
    /// literal.
    pub fn to_string(&self) -> (s: String)
        ensures
            s@ == self@.text(),
    {
        let mut out: Vec<char> = Vec::new();
        self.append_to(&mut out);
        assert(out@ =~= self@.text());
        string_of(&out)
    }

    /// The number that the numeric literal `text` denotes.
    pub(crate) fn from_literal(text: Vec<char>) -> (n: Number)
        requires
            is_numeric_literal(text@),
        ensures
            n@ == literal_number(text@),
            n@.wf(),
    {
        let ghost t = text@;
        let negative: bool = text.len() > 0 && text[0] == '-';
        let start: usize = if negative {
            1
        } else {
            0
        };
        proof {
            lemma_digits_end(t, start as int);
        }
        let mut i: usize = start;
        let mut m: u128 = 0;
        assert(t.subrange(start as int, start as int) =~= Seq::<char>::empty());
        while i < text.len()
            invariant
                t == text@,
                is_numeric_literal(t),
                start <= i <= text.len(),
                start == sign_end(t, 0),
                forall|k: int| start <= k < i ==> is_digit(#[trigger] t[k]),
                m == digits_value(t.subrange(start as int, i as int)),
                start <= digits_end(t, start as int) <= t.len(),
                forall|k: int| start <= k < digits_end(t, start as int) ==> is_digit(#[trigger] t[k]),
            decreases text.len() - i,
        {
            let c = text[i];
            if !is_digit_char(c) {
                assert(!is_integer_literal(t));
                return Number::F64(Decimal::from_chars(text));
            }
            let d: u128 = (c as u32 - 0x30) as u128;
            let ghost next = t.subrange(start as int, i + 1);
            assert(next.drop_last() =~= t.subrange(start as int, i as int));
            assert(digits_value(next) == m * 10 + d);
            let grown = match m.checked_mul(10) {
                Some(x) => x.checked_add(d),
                None => None,
            };
            match grown {
                Some(y) => {
                    m = y;
                },
                None => {
                    proof {
                        assert(digits_value(next) > u128::MAX);
                        if is_integer_literal(t) {
                            let u = t.skip(start as int);
                            assert(all_digits(u)) by {
                                assert forall|k: int| 0 <= k < u.len() implies is_digit(
                                    #[trigger] u[k],
                                ) by {
                                    assert(u[k] == t[k + start]);
                                }
                            }
                            lemma_digits_value_prefix(u, i + 1 - start);
                            assert(u.take(i + 1 - start) =~= next);
                            assert(digits_value(u) > u128::MAX);
                            assert(t.skip(0) =~= t);
                        }
                    }
                    return Number::F64(Decimal::from_chars(text));
                },
            }
            i += 1;
        }
        proof {
            lemma_digits_end_is(t, start as int, t.len() as int);
            assert(t.subrange(start as int, t.len() as int) =~= t.skip(start as int));
            assert(t.skip(0) =~= t);
            assert(is_integer_literal(t));
            assert(m == digits_value(t.skip(start as int)));
        }
        if negative {
            if m <= 170141183460469231731687303715884105727 {
                let v: i128 = -(m as i128);
                let n = narrowest(v);
                n
            } else if m == 170141183460469231731687303715884105728 {
                Number::I128(i128::MIN)
            } else {
                Number::F64(Decimal::from_chars(text))
            }
        } else {
            if m <= 170141183460469231731687303715884105727 {
                let n = narrowest(m as i128);
                n
            } else {
                Number::U128(m)
            }
        }
    }
}

} // verus!
