//! The decoder: from the written form back to a value, with the place of the
//! first fault if the text is malformed.

use vstd::prelude::*;
use crate::chars::{append_range, append_str, chars_of, push_char, string_of};
use crate::decimal::is_digit;
use crate::error::{clamped, column_of, line_of, locate, Error};
use crate::number::{
    has, is_digit_char, lemma_number_lexeme, literal_number, number_end, scan_number, Number,
};
use crate::syntax::{boolean_text, null_text, Bracket};
use crate::text::{
    is_control, is_control_char, lemma_unescape_failure_inside, unescape, unescape_range,
    EscapeFault,
};
use crate::value::{
    all_wf, lemma_array_view, lemma_put_all_wf, put, value_of, views, Data, Entries, Value,
};

verus! {

/// What the decoder found wrong.
#[derive(Clone, Copy, Debug, PartialEq, Eq, Structural)]
pub enum Fault {
    /// A value should start here.
    ExpectedValue,
    /// A quoted key of an object entry should start here.
    ExpectedKey,
    /// The name of a struct field should start here.
    ExpectedName,
    /// `(` should follow `@`.
    ExpectedOpen,
    /// `:` should follow the key of an object entry, `=` the name of a struct
    /// field.
    ExpectedBinder(Bracket),
    /// A comma or the closing bracket should follow an item.
    ExpectedSeparator(Bracket),
    /// The input ends inside a text literal.
    UnterminatedText,
    /// A control character stands unescaped inside a text literal.
    ControlInText,
    /// An escape inside a text literal is malformed.
    BadEscape(EscapeFault),
    /// A digit is missing in a number.
    MissingDigit,
    /// The key or name occurred before in the same object or struct.
    DuplicateKey,
    /// Something follows the value.
    TrailingInput,
}

/// A fault and the position in the input that it is reported at.
pub struct Failure {
    pub fault: Fault,
    pub at: int,
}

/// Whether `c` is a space, a tab, a line feed or a carriage return.
pub open spec fn is_space(c: char) -> bool {
    c == ' ' || c == '\t' || c == '\n' || c == '\r'
}

/// The first position from `p` on that holds no white space.
pub open spec fn skip_spaces(s: Seq<char>, p: int) -> int
    decreases s.len() - p,
{
    if 0 <= p < s.len() && is_space(s[p]) {
        skip_spaces(s, p + 1)
    } else {
        p
    }
}

/// Whether a name can start with `c`: a letter of the Latin alphabet or an
/// underscore.
pub open spec fn is_name_start(c: char) -> bool {
    let x = c as u32;
    (0x41 <= x && x <= 0x5A) || (0x61 <= x && x <= 0x7A) || x == 0x5F
}

/// Whether a name can go on with `c`: a letter, a digit or an underscore.
pub open spec fn is_name_char(c: char) -> bool {
    is_name_start(c) || is_digit(c)
}

/// The first position from `p` on that holds no character of a name.
pub open spec fn name_end(s: Seq<char>, p: int) -> int
    decreases s.len() - p,
{
    if 0 <= p < s.len() && is_name_char(s[p]) {
        name_end(s, p + 1)
    } else {
        p
    }
}

/// Whether `t` is a name: a name start followed by name characters.
pub open spec fn is_identifier(t: Seq<char>) -> bool {
    t.len() > 0 && is_name_start(t[0]) && forall|i: int| 0 <= i < t.len() ==> is_name_char(#[trigger] t[i])
}

/// The failure for something that is missing behind position `p`, where `q`
/// is the first position from `p` on without white space: reported at `q`,
/// or just behind what came before if the input ends at `q`.
pub open spec fn missing(s: Seq<char>, p: int, q: int, fault: Fault) -> Failure {
    Failure {
        fault,
        at: if q >= s.len() {
            p
        } else {
            q
        },
    }
}

/// The position of the quote that closes the text literal whose inside
/// starts at `p`.
///
/// A backslash takes the character behind it along, whatever it is. The
/// search fails at an unescaped control character, and at the end of the
/// input.
pub open spec fn text_end(s: Seq<char>, p: int) -> Result<int, Failure>
    decreases s.len() - p,
{
    if p < 0 || p >= s.len() {
        Err(Failure { fault: Fault::UnterminatedText, at: s.len() as int })
    } else if s[p] == '"' {
        Ok(p)
    } else if s[p] == '\\' {
        if p + 1 >= s.len() {
            Err(Failure { fault: Fault::UnterminatedText, at: s.len() as int })
        } else {
            text_end(s, p + 2)
        }
    } else if is_control(s[p]) {
        Err(Failure { fault: Fault::ControlInText, at: p })
    } else {
        text_end(s, p + 1)
    }
}

/// The text that the literal with its opening quote at `p` denotes, and the
/// position behind its closing quote.
pub open spec fn text_at(s: Seq<char>, p: int) -> Result<(Seq<char>, int), Failure> {
    match text_end(s, p + 1) {
        Err(f) => Err(f),
        Ok(q) => match unescape(s.subrange(p + 1, q)) {
            Ok(t) => Ok((t, q + 1)),
            Err(f) => Err(Failure { fault: Fault::BadEscape(f.fault), at: p + 1 + f.at }),
        },
    }
}

/// The value that a word stands for, if it is a keyword.
pub open spec fn keyword_value(w: Seq<char>) -> Option<Data> {
    if w == null_text() {
        Some(Data::Null)
    } else if w == boolean_text(true) {
        Some(Data::Boolean(true))
    } else if w == boolean_text(false) {
        Some(Data::Boolean(false))
    } else {
        None
    }
}

/// What follows an item.
pub enum Step {
    /// A comma; the next item, or the closing bracket, is looked for from
    /// this position on.
    More(int),
    /// The closing bracket; the composite ends at this position.
    Done(int),
    /// Neither.
    Stop(Failure),
}

/// What follows the item that ends at `e` in a composite with bracket `b`.
pub open spec fn after_item(s: Seq<char>, e: int, b: Bracket) -> Step {
    let r = skip_spaces(s, e);
    if has(s, r, ',') {
        Step::More(r + 1)
    } else if has(s, r, b.close_char()) {
        Step::Done(r + 1)
    } else {
        Step::Stop(missing(s, e, r, Fault::ExpectedSeparator(b)))
    }
}

/// The character between a key and its value: `=` in a struct, `:` in an
/// object.
pub open spec fn binder_char(b: Bracket) -> char {
    if b == Bracket::Struct {
        '='
    } else {
        ':'
    }
}

/// The key that starts behind `p`, and the position behind it: in a struct a
/// name, in an object a text literal.
pub open spec fn key_at(s: Seq<char>, p: int, b: Bracket) -> Result<(Seq<char>, int), Failure> {
    let q = skip_spaces(s, p);
    if b == Bracket::Struct {
        if 0 <= q < s.len() && is_name_start(s[q]) {
            Ok((s.subrange(q, name_end(s, q)), name_end(s, q)))
        } else {
            Err(missing(s, p, q, Fault::ExpectedName))
        }
    } else {
        if has(s, q, '"') {
            text_at(s, q)
        } else {
            Err(missing(s, p, q, Fault::ExpectedKey))
        }
    }
}

/// The value that starts behind `p`, white space skipped, and the position
/// behind it.
pub open spec fn value_at(s: Seq<char>, p: int) -> Result<(Data, int), Failure>
    decreases s.len() - p, 0nat,
{
    let q = skip_spaces(s, p);
    if p < 0 || q >= s.len() {
        Err(missing(s, p, q, Fault::ExpectedValue))
    } else if s[q] == '[' {
        proof {
            lemma_skip_spaces(s, p);
        }
        match values_at(s, q + 1, Bracket::Array, Seq::empty()) {
            Ok((a, e)) => Ok((Data::Array(a), e)),
            Err(f) => Err(f),
        }
    } else if s[q] == '(' {
        proof {
            lemma_skip_spaces(s, p);
        }
        match values_at(s, q + 1, Bracket::Tuple, Seq::empty()) {
            Ok((a, e)) => Ok((Data::Tuple(a), e)),
            Err(f) => Err(f),
        }
    } else if s[q] == '{' {
        proof {
            lemma_skip_spaces(s, p);
        }
        match entries_at(s, q + 1, Bracket::Object, Seq::empty()) {
            Ok((a, e)) => Ok((Data::Object(a), e)),
            Err(f) => Err(f),
        }
    } else if s[q] == '@' {
        let o = skip_spaces(s, q + 1);
        if has(s, o, '(') {
            proof {
                lemma_skip_spaces(s, p);
                lemma_skip_spaces(s, q + 1);
            }
            match entries_at(s, o + 1, Bracket::Struct, Seq::empty()) {
                Ok((a, e)) => Ok((Data::Struct(Seq::empty(), a), e)),
                Err(f) => Err(f),
            }
        } else {
            Err(missing(s, q + 1, o, Fault::ExpectedOpen))
        }
    } else if s[q] == '"' {
        match text_at(s, q) {
            Ok((t, e)) => Ok((Data::Text(t), e)),
            Err(f) => Err(f),
        }
    } else if s[q] == '-' || is_digit(s[q]) {
        match number_end(s, q) {
            Ok(e) => Ok((Data::Number(literal_number(s.subrange(q, e))), e)),
            Err(at) => Err(Failure { fault: Fault::MissingDigit, at }),
        }
    } else if is_name_start(s[q]) {
        match keyword_value(s.subrange(q, name_end(s, q))) {
            Some(d) => Ok((d, name_end(s, q))),
            None => Err(Failure { fault: Fault::ExpectedValue, at: q }),
        }
    } else {
        Err(Failure { fault: Fault::ExpectedValue, at: q })
    }
}

/// The values of an array or a tuple from behind `p` up to the closing
/// bracket, added to `acc`, and the position behind the bracket.
///
/// Values are separated by commas; a comma may also follow the last one.
pub open spec fn values_at(s: Seq<char>, p: int, b: Bracket, acc: Seq<Data>) -> Result<
    (Seq<Data>, int),
    Failure,
>
    decreases s.len() - p, 1nat,
{
    let q = skip_spaces(s, p);
    if has(s, q, b.close_char()) {
        Ok((acc, q + 1))
    } else {
        match value_at(s, p) {
            Err(f) => Err(f),
            Ok((d, e)) => {
                // No value ends where it starts; the test makes that plain
                // to the proof of termination.
                if e <= p {
                    Err(Failure { fault: Fault::ExpectedValue, at: p })
                } else {
                    proof {
                        lemma_skip_spaces(s, e);
                    }
                    match after_item(s, e, b) {
                        Step::More(n) => values_at(s, n, b, acc.push(d)),
                        Step::Done(n) => Ok((acc.push(d), n)),
                        Step::Stop(f) => Err(f),
                    }
                }
            },
        }
    }
}

/// The value of an entry whose key ends at `e1`, and the position behind
/// the value: the binder of the composite, then a value.
pub open spec fn bound_value_at(s: Seq<char>, e1: int, b: Bracket) -> Result<(Data, int), Failure>
    decreases s.len() - e1, 0nat,
{
    let r = skip_spaces(s, e1);
    if !(has(s, r, binder_char(b))) {
        Err(missing(s, e1, r, Fault::ExpectedBinder(b)))
    } else {
        proof {
            lemma_skip_spaces(s, e1);
        }
        value_at(s, r + 1)
    }
}

/// The entries of an object or a struct from behind `p` up to the closing
/// bracket, put into `acc`, and the position behind the bracket.
///
/// Entries are separated by commas; a comma may also follow the last one. A
/// key that `acc` holds already is a fault, reported where the key starts.
pub open spec fn entries_at(
    s: Seq<char>,
    p: int,
    b: Bracket,
    acc: Seq<(Seq<char>, Data)>,
) -> Result<(Seq<(Seq<char>, Data)>, int), Failure>
    decreases s.len() - p, 1nat,
{
    let q = skip_spaces(s, p);
    if has(s, q, b.close_char()) {
        Ok((acc, q + 1))
    } else {
        match key_at(s, p, b) {
            Err(f) => Err(f),
            Ok((k, e1)) => {
                if value_of(acc, k) is Some {
                    Err(Failure { fault: Fault::DuplicateKey, at: q })
                } else {
                    proof {
                        lemma_key_at(s, p, b);
                    }
                    match bound_value_at(s, e1, b) {
                        Err(f) => Err(f),
                        Ok((d, e)) => {
                            // As for the values of an array: no value ends
                            // where it starts.
                            if e <= e1 {
                                Err(Failure { fault: Fault::ExpectedValue, at: e1 })
                            } else {
                                proof {
                                    lemma_skip_spaces(s, e);
                                }
                                match after_item(s, e, b) {
                                    Step::More(n) => entries_at(s, n, b, put(acc, k, d)),
                                    Step::Done(n) => Ok((put(acc, k, d), n)),
                                    Step::Stop(f) => Err(f),
                                }
                            }
                        },
                    }
                }
            },
        }
    }
}

/// The value that all of `s` denotes: one value with nothing but white space
/// around it.
pub open spec fn parse(s: Seq<char>) -> Result<Data, Failure> {
    match value_at(s, 0) {
        Err(f) => Err(f),
        Ok((d, e)) => {
            let r = skip_spaces(s, e);
            if r >= s.len() {
                Ok(d)
            } else {
                Err(Failure { fault: Fault::TrailingInput, at: r })
            }
        },
    }
}

/// Skipping white space moves forward, stops inside the input, and stops at
/// something that is no white space.
pub proof fn lemma_skip_spaces(s: Seq<char>, p: int)
    ensures
        p <= skip_spaces(s, p),
        0 <= p <= s.len() ==> skip_spaces(s, p) <= s.len(),
        0 <= skip_spaces(s, p) < s.len() ==> !is_space(s[skip_spaces(s, p)]),
    decreases s.len() - p,
{
    if 0 <= p < s.len() && is_space(s[p]) {
        lemma_skip_spaces(s, p + 1);
    }
}

/// A name ends behind its start, inside the input, and consists of name
/// characters.
pub proof fn lemma_name_end(s: Seq<char>, p: int)
    requires
        0 <= p <= s.len(),
    ensures
        p <= name_end(s, p) <= s.len(),
        forall|k: int| p <= k < name_end(s, p) ==> is_name_char(#[trigger] s[k]),
        name_end(s, p) < s.len() ==> !is_name_char(s[name_end(s, p)]),
    decreases s.len() - p,
{
    if p < s.len() && is_name_char(s[p]) {
        lemma_name_end(s, p + 1);
    }
}

/// The closing quote lies at or behind the start of the search, inside the
/// input; a failure lies there too.
pub proof fn lemma_text_end(s: Seq<char>, p: int)
    requires
        0 <= p <= s.len(),
    ensures
        match text_end(s, p) {
            Ok(q) => p <= q < s.len(),
            Err(f) => p <= f.at <= s.len(),
        },
    decreases s.len() - p,
{
    if p < s.len() && s[p] != '"' {
        if s[p] == '\\' {
            if p + 1 < s.len() {
                lemma_text_end(s, p + 2);
            }
        } else if !is_control(s[p]) {
            lemma_text_end(s, p + 1);
        }
    }
}

/// A key ends behind the position that it was looked for from, inside the
/// input.
pub proof fn lemma_key_at(s: Seq<char>, p: int, b: Bracket)
    ensures
        key_at(s, p, b) matches Ok((k, e)) ==> p < e <= s.len() && 0 <= skip_spaces(s, p),
{
    lemma_skip_spaces(s, p);
    let q = skip_spaces(s, p);
    if b == Bracket::Struct {
        if 0 <= q < s.len() && is_name_start(s[q]) {
            lemma_name_end(s, q + 1);
        }
    } else {
        if has(s, q, '"') {
            lemma_text_end(s, q + 1);
        }
    }
}

/// What the decoder hands back on failure: the fault and the position.
pub type Failed = (Fault, usize);

/// Whether `x` stands for the failure `f`, at a position of an input of
/// length `n`.
pub open spec fn failed_as(x: Failed, f: Failure, n: usize) -> bool {
    x.0 == f.fault && x.1 as int == f.at && x.1 <= n
}

fn is_space_char(c: char) -> (r: bool)
    ensures
        r == is_space(c),
{
    c == ' ' || c == '\t' || c == '\n' || c == '\r'
}

fn is_name_start_char(c: char) -> (r: bool)
    ensures
        r == is_name_start(c),
{
    let x: u32 = c as u32;
    (0x41 <= x && x <= 0x5A) || (0x61 <= x && x <= 0x7A) || x == 0x5F
}

fn is_name_char_char(c: char) -> (r: bool)
    ensures
        r == is_name_char(c),
{
    is_name_start_char(c) || is_digit_char(c)
}

/// The first position from `p` on that holds no white space.
fn skip(chars: &Vec<char>, p: usize) -> (q: usize)
    requires
        p <= chars.len(),
    ensures
        q == skip_spaces(chars@, p as int),
        p <= q <= chars.len(),
{
    let mut q: usize = p;
    while q < chars.len() && is_space_char(chars[q])
        invariant
            p <= q <= chars.len(),
            skip_spaces(chars@, p as int) == skip_spaces(chars@, q as int),
        decreases chars.len() - q,
    {
        q += 1;
    }
    q
}

/// The first position from `p` on that holds no character of a name.
fn scan_name(chars: &Vec<char>, p: usize) -> (q: usize)
    requires
        p <= chars.len(),
    ensures
        q == name_end(chars@, p as int),
        p <= q <= chars.len(),
{
    let mut q: usize = p;
    while q < chars.len() && is_name_char_char(chars[q])
        invariant
            p <= q <= chars.len(),
            name_end(chars@, p as int) == name_end(chars@, q as int),
        decreases chars.len() - q,
    {
        q += 1;
    }
    q
}

/// The failure for something missing behind `p`.
fn missing_at(chars: &Vec<char>, p: usize, q: usize, fault: Fault) -> (x: Failed)
    requires
        p <= q <= chars.len(),
    ensures
        failed_as(x, missing(chars@, p as int, q as int, fault), chars.len()),
{
    if q >= chars.len() {
        (fault, p)
    } else {
        (fault, q)
    }
}

/// The position of the quote that closes the text literal whose inside
/// starts at `p`.
fn scan_text(chars: &Vec<char>, p: usize) -> (r: Result<usize, Failed>)
    requires
        p <= chars.len(),
    ensures
        match text_end(chars@, p as int) {
            Ok(q) => r == Ok::<usize, Failed>(q as usize) && p <= q < chars.len(),
            Err(f) => r matches Err(x) && failed_as(x, f, chars.len()),
        },
{
    let n: usize = chars.len();
    let mut q: usize = p;
    loop
        invariant
            p <= q <= n,
            n == chars.len(),
            text_end(chars@, p as int) == text_end(chars@, q as int),
        decreases n - q,
    {
        if q >= n {
            return Err((Fault::UnterminatedText, n));
        }
        let c = chars[q];
        if c == '"' {
            return Ok(q);
        } else if c == '\\' {
            if n - q < 2 {
                return Err((Fault::UnterminatedText, n));
            }
            q += 2;
        } else if is_control_char(c) {
            return Err((Fault::ControlInText, q));
        } else {
            q += 1;
        }
    }
}

/// The text that the literal with its opening quote at `p` denotes, and the
/// position behind its closing quote.
fn read_text(chars: &Vec<char>, p: usize) -> (r: Result<(Vec<char>, usize), Failed>)
    requires
        p < chars.len(),
    ensures
        match text_at(chars@, p as int) {
            Ok((t, e)) => r matches Ok((v, end)) && v@ == t && end == e && p < end
                <= chars.len(),
            Err(f) => r matches Err(x) && failed_as(x, f, chars.len()),
        },
{
    match scan_text(chars, p + 1) {
        Err(x) => Err(x),
        Ok(q) => {
            proof {
                lemma_unescape_failure_inside(chars@.subrange(p + 1, q as int));
            }
            match unescape_range(chars, p + 1, q) {
                Ok(v) => Ok((v, q + 1)),
                Err((fault, at)) => Err((Fault::BadEscape(fault), p + 1 + at)),
            }
        },
    }
}

/// The value that the word `chars[from..to]` stands for, if it is a keyword.
fn read_keyword(chars: &Vec<char>, from: usize, to: usize) -> (r: Option<Value>)
    requires
        from <= to <= chars.len(),
    ensures
        match keyword_value(chars@.subrange(from as int, to as int)) {
            Some(d) => r matches Some(v) && v@ == d,
            None => r is None,
        },
{
    let ghost w = chars@.subrange(from as int, to as int);
    assert(forall|i: int| 0 <= i < w.len() ==> w[i] == chars@[from + i]);
    let n: usize = to - from;
    proof {
        let a = null_text();
        let t = boolean_text(true);
        let f = boolean_text(false);
        assert(a.len() == 4 && a[0] == 'n' && a[1] == 'u' && a[2] == 'l' && a[3] == 'l');
        assert(t.len() == 4 && t[0] == 't' && t[1] == 'r' && t[2] == 'u' && t[3] == 'e');
        assert(f.len() == 5 && f[0] == 'f' && f[1] == 'a' && f[2] == 'l' && f[3] == 's' && f[4]
            == 'e');
    }
    if n == 4 && chars[from] == 'n' && chars[from + 1] == 'u' && chars[from + 2] == 'l'
        && chars[from + 3] == 'l' {
        assert(w =~= null_text());
        Some(Value::Null)
    } else if n == 4 && chars[from] == 't' && chars[from + 1] == 'r' && chars[from + 2] == 'u'
        && chars[from + 3] == 'e' {
        assert(w =~= boolean_text(true));
        Some(Value::Boolean(true))
    } else if n == 5 && chars[from] == 'f' && chars[from + 1] == 'a' && chars[from + 2] == 'l'
        && chars[from + 3] == 's' && chars[from + 4] == 'e' {
        assert(w =~= boolean_text(false));
        Some(Value::Boolean(false))
    } else {
        proof {
            if w == null_text() {
                assert(w[0] == 'n' && w[1] == 'u' && w[2] == 'l' && w[3] == 'l');
            }
            if w == boolean_text(true) {
                assert(w[0] == 't' && w[1] == 'r' && w[2] == 'u' && w[3] == 'e');
            }
            if w == boolean_text(false) {
                assert(w[0] == 'f' && w[1] == 'a' && w[2] == 'l' && w[3] == 's' && w[4] == 'e');
            }
        }
        None
    }
}

/// What follows an item, as the decoder works with it.
enum Next {
    More(usize),
    Done(usize),
}

/// What follows the item that ends at `e`.
fn read_after_item(chars: &Vec<char>, e: usize, b: Bracket) -> (r: Result<Next, Failed>)
    requires
        e <= chars.len(),
    ensures
        match after_item(chars@, e as int, b) {
            Step::More(n) => r matches Ok(Next::More(m)) && m == n && e < m <= chars.len(),
            Step::Done(n) => r matches Ok(Next::Done(m)) && m == n && e < m <= chars.len(),
            Step::Stop(f) => r matches Err(x) && failed_as(x, f, chars.len()),
        },
{
    let q = skip(chars, e);
    if q < chars.len() && chars[q] == ',' {
        Ok(Next::More(q + 1))
    } else if q < chars.len() && chars[q] == b.close() {
        Ok(Next::Done(q + 1))
    } else {
        Err(missing_at(chars, e, q, Fault::ExpectedSeparator(b)))
    }
}

/// The key that starts behind `p`, and the position behind it.
fn read_key(chars: &Vec<char>, p: usize, b: Bracket) -> (r: Result<(Vec<char>, usize), Failed>)
    requires
        p <= chars.len(),
    ensures
        match key_at(chars@, p as int, b) {
            Ok((k, e)) => r matches Ok((v, end)) && v@ == k && end == e && p < end
                <= chars.len(),
            Err(f) => r matches Err(x) && failed_as(x, f, chars.len()),
        },
{
    let q = skip(chars, p);
    match b {
        Bracket::Struct => {
            if q < chars.len() && is_name_start_char(chars[q]) {
                let e = scan_name(chars, q);
                proof {
                    lemma_name_end(chars@, q + 1);
                }
                let mut name: Vec<char> = Vec::new();
                append_range(&mut name, chars, q, e);
                assert(name@ =~= chars@.subrange(q as int, e as int));
                Ok((name, e))
            } else {
                Err(missing_at(chars, p, q, Fault::ExpectedName))
            }
        },
        _ => {
            if q < chars.len() && chars[q] == '"' {
                read_text(chars, q)
            } else {
                Err(missing_at(chars, p, q, Fault::ExpectedKey))
            }
        },
    }
}

/// Whether `r` is what the decoder owes for the outcome `expected`: on
/// success a well-formed value with that view and the same end behind the
/// start `p`; on failure the same fault at the same position.
pub open spec fn value_agrees(
    r: Result<(Value, usize), Failed>,
    expected: Result<(Data, int), Failure>,
    p: usize,
    n: usize,
) -> bool {
    match expected {
        Ok((d, e)) => r matches Ok((v, end)) && v@ == d && v@.wf() && end == e && p < end <= n,
        Err(f) => r matches Err(x) && failed_as(x, f, n),
    }
}

/// The value that starts behind `p`, and the position behind it.
fn read_value(chars: &Vec<char>, p: usize) -> (r: Result<(Value, usize), Failed>)
    requires
        p <= chars.len(),
    ensures
        value_agrees(r, value_at(chars@, p as int), p, chars.len()),
    decreases chars.len() - p, 0nat,
{
    let ghost s = chars@;
    let q = skip(chars, p);
    if q >= chars.len() {
        return Err(missing_at(chars, p, q, Fault::ExpectedValue));
    }
    let c = chars[q];
    if c == '[' {
        match read_values(chars, q + 1, Bracket::Array) {
            Ok((items, e)) => {
                proof {
                    lemma_array_view(items);
                }
                Ok((Value::Array(items), e))
            },
            Err(x) => Err(x),
        }
    } else if c == '(' {
        match read_values(chars, q + 1, Bracket::Tuple) {
            Ok((items, e)) => {
                proof {
                    lemma_array_view(items);
                }
                Ok((Value::Tuple(items), e))
            },
            Err(x) => Err(x),
        }
    } else if c == '{' {
        match read_entries(chars, q + 1, Bracket::Object) {
            Ok((entries, e)) => Ok((Value::Object(entries), e)),
            Err(x) => Err(x),
        }
    } else if c == '@' {
        let o = skip(chars, q + 1);
        if o < chars.len() && chars[o] == '(' {
            match read_entries(chars, o + 1, Bracket::Struct) {
                Ok((entries, e)) => Ok((Value::Struct(String::new(), entries), e)),
                Err(x) => Err(x),
            }
        } else {
            Err(missing_at(chars, q + 1, o, Fault::ExpectedOpen))
        }
    } else if c == '"' {
        match read_text(chars, q) {
            Ok((t, e)) => Ok((Value::Text(string_of(&t)), e)),
            Err(x) => Err(x),
        }
    } else if c == '-' || is_digit_char(c) {
        match scan_number(chars, q) {
            Ok(e) => {
                proof {
                    lemma_number_lexeme(s, q as int);
                }
                let mut lexeme: Vec<char> = Vec::new();
                append_range(&mut lexeme, chars, q, e);
                assert(lexeme@ =~= s.subrange(q as int, e as int));
                Ok((Value::Number(Number::from_literal(lexeme)), e))
            },
            Err(at) => Err((Fault::MissingDigit, at)),
        }
    } else if is_name_start_char(c) {
        let e = scan_name(chars, q);
        proof {
            lemma_name_end(s, q + 1);
        }
        match read_keyword(chars, q, e) {
            Some(v) => Ok((v, e)),
            None => Err((Fault::ExpectedValue, q)),
        }
    } else {
        Err((Fault::ExpectedValue, q))
    }
}

/// The values of an array or a tuple from behind `p` up to the closing
/// bracket, and the position behind the bracket.
fn read_values(chars: &Vec<char>, p: usize, b: Bracket) -> (r: Result<(Vec<Value>, usize), Failed>)
    requires
        p <= chars.len(),
    ensures
        match values_at(chars@, p as int, b, Seq::empty()) {
            Ok((a, e)) => r matches Ok((v, end)) && views(v@) == a && end == e && p < end
                <= chars.len() && forall|i: int| 0 <= i < a.len() ==> (#[trigger] a[i]).wf(),
            Err(f) => r matches Err(x) && failed_as(x, f, chars.len()),
        },
    decreases chars.len() - p, 1nat,
{
    let ghost s = chars@;
    let mut items: Vec<Value> = Vec::new();
    let mut at: usize = p;
    assert(views(items@) =~= Seq::<Data>::empty());
    loop
        invariant
            s == chars@,
            p <= at <= chars.len(),
            values_at(s, p as int, b, Seq::empty()) == values_at(s, at as int, b, views(items@)),
            forall|i: int| 0 <= i < items@.len() ==> (#[trigger] items@[i])@.wf(),
        decreases chars.len() - at,
    {
        let q = skip(chars, at);
        if q < chars.len() && chars[q] == b.close() {
            assert(forall|i: int|
                0 <= i < views(items@).len() ==> (#[trigger] views(items@)[i]) == items@[i]@);
            return Ok((items, q + 1));
        }
        let ghost before = views(items@);
        match read_value(chars, at) {
            Err(x) => {
                return Err(x);
            },
            Ok((v, e)) => {
                items.push(v);
                assert(views(items@) =~= before.push(v@));
                match read_after_item(chars, e, b) {
                    Err(x) => {
                        return Err(x);
                    },
                    Ok(Next::More(n)) => {
                        at = n;
                    },
                    Ok(Next::Done(n)) => {
                        assert(forall|i: int|
                            0 <= i < views(items@).len() ==> (#[trigger] views(items@)[i])
                                == items@[i]@);
                        return Ok((items, n));
                    },
                }
            },
        }
    }
}

/// The value of an entry whose key ends at `e1`, and the position behind
/// the value.
fn read_bound_value(chars: &Vec<char>, e1: usize, b: Bracket) -> (r: Result<(Value, usize), Failed>)
    requires
        e1 <= chars.len(),
    ensures
        value_agrees(r, bound_value_at(chars@, e1 as int, b), e1, chars.len()),
    decreases chars.len() - e1, 0nat,
{
    let r = skip(chars, e1);
    let binder: char = match b {
        Bracket::Struct => '=',
        _ => ':',
    };
    if !(r < chars.len() && chars[r] == binder) {
        return Err(missing_at(chars, e1, r, Fault::ExpectedBinder(b)));
    }
    read_value(chars, r + 1)
}

/// The entries of an object or a struct from behind `p` up to the closing
/// bracket, and the position behind the bracket.
fn read_entries(chars: &Vec<char>, p: usize, b: Bracket) -> (r: Result<(Entries, usize), Failed>)
    requires
        p <= chars.len(),
    ensures
        match entries_at(chars@, p as int, b, Seq::empty()) {
            Ok((a, e)) => r matches Ok((v, end)) && v@ == a && end == e && p < end <= chars.len()
                && v.wf() && all_wf(a),
            Err(f) => r matches Err(x) && failed_as(x, f, chars.len()),
        },
    decreases chars.len() - p, 1nat,
{
    let ghost s = chars@;
    let mut entries = Entries::new();
    let mut at: usize = p;
    loop
        invariant
            s == chars@,
            p <= at <= chars.len(),
            entries_at(s, p as int, b, Seq::empty()) == entries_at(s, at as int, b, entries@),
            entries.wf(),
            all_wf(entries@),
        decreases chars.len() - at,
    {
        let q = skip(chars, at);
        if q < chars.len() && chars[q] == b.close() {
            return Ok((entries, q + 1));
        }
        match read_key(chars, at, b) {
            Err(x) => {
                return Err(x);
            },
            Ok((k, e1)) => {
                if entries.get_chars(&k).is_some() {
                    return Err((Fault::DuplicateKey, q));
                }
                match read_bound_value(chars, e1, b) {
                    Err(x) => {
                        return Err(x);
                    },
                    Ok((v, e)) => {
                        proof {
                            lemma_put_all_wf(entries@, k@, v@);
                        }
                        entries.insert_chars(k, v);
                        match read_after_item(chars, e, b) {
                            Err(x) => {
                                return Err(x);
                            },
                            Ok(Next::More(n)) => {
                                at = n;
                            },
                            Ok(Next::Done(n)) => {
                                return Ok((entries, n));
                            },
                        }
                    },
                }
            },
        }
    }
}

/// Whether the fault says what was expected, so that its message goes on to
/// say what was found.
pub open spec fn is_expectation(fault: Fault) -> bool {
    match fault {
        Fault::ExpectedValue => true,
        Fault::ExpectedKey => true,
        Fault::ExpectedName => true,
        Fault::ExpectedOpen => true,
        Fault::ExpectedBinder(_) => true,
        Fault::ExpectedSeparator(_) => true,
        Fault::TrailingInput => true,
        _ => false,
    }
}

/// What an error says of a fault.
pub open spec fn fault_message(fault: Fault) -> Seq<char> {
    match fault {
        Fault::ExpectedValue => "expected a value"@,
        Fault::ExpectedKey => "expected a quoted key"@,
        Fault::ExpectedName => "expected a field name"@,
        Fault::ExpectedOpen => "expected '(' after '@'"@,
        Fault::ExpectedBinder(b) => if b == Bracket::Struct {
            "expected '='"@
        } else {
            "expected ':'"@
        },
        Fault::ExpectedSeparator(b) => match b {
            Bracket::Array => "expected ',' or ']'"@,
            Bracket::Tuple => "expected ',' or ')'"@,
            Bracket::Object => "expected ',' or '}'"@,
            Bracket::Struct => "expected ',' or ')'"@,
        },
        Fault::UnterminatedText => "unterminated text literal"@,
        Fault::ControlInText => "control character in text literal"@,
        Fault::BadEscape(f) => crate::text::escape_fault_message(f),
        Fault::MissingDigit => "expected a digit"@,
        Fault::DuplicateKey => "duplicate key"@,
        Fault::TrailingInput => "expected end of input"@,
    }
}

/// What stands at or behind position `at`, white space skipped, in the
/// words of an error: the character in quotes, or the end of the input.
pub open spec fn found_text(s: Seq<char>, at: int) -> Seq<char> {
    let q = skip_spaces(s, at);
    if 0 <= q < s.len() {
        seq!['\'', s[q], '\'']
    } else {
        "end of input"@
    }
}

/// The message of the error for a failure: what the fault says, and for an
/// expectation also what was found instead.
pub open spec fn failure_message(s: Seq<char>, f: Failure) -> Seq<char> {
    if is_expectation(f.fault) {
        fault_message(f.fault) + ", found "@ + found_text(s, f.at)
    } else {
        fault_message(f.fault)
    }
}

/// Whether `e` is the error for the failure `f` in the input `s`: the
/// message of the failure, no context, and the line and column of the
/// failure's position.
pub open spec fn reports(e: Error, s: Seq<char>, f: Failure) -> bool {
    &&& e.message@ == failure_message(s, f)
    &&& e.context is None
    &&& e.line == Some(clamped(line_of(s, f.at)))
    &&& e.column == Some(clamped(column_of(s, f.at)))
}

fn fault_text(fault: Fault) -> (m: &'static str)
    ensures
        m@ == fault_message(fault),
{
    match fault {
        Fault::ExpectedValue => "expected a value",
        Fault::ExpectedKey => "expected a quoted key",
        Fault::ExpectedName => "expected a field name",
        Fault::ExpectedOpen => "expected '(' after '@'",
        Fault::ExpectedBinder(b) => match b {
            Bracket::Struct => "expected '='",
            _ => "expected ':'",
        },
        Fault::ExpectedSeparator(b) => match b {
            Bracket::Array => "expected ',' or ']'",
            Bracket::Tuple => "expected ',' or ')'",
            Bracket::Object => "expected ',' or '}'",
            Bracket::Struct => "expected ',' or ')'",
        },
        Fault::UnterminatedText => "unterminated text literal",
        Fault::ControlInText => "control character in text literal",
        Fault::BadEscape(f) => crate::text::escape_fault_text(f),
        Fault::MissingDigit => "expected a digit",
        Fault::DuplicateKey => "duplicate key",
        Fault::TrailingInput => "expected end of input",
    }
}

fn has_found(fault: Fault) -> (r: bool)
    ensures
        r == is_expectation(fault),
{
    match fault {
        Fault::ExpectedValue => true,
        Fault::ExpectedKey => true,
        Fault::ExpectedName => true,
        Fault::ExpectedOpen => true,
        Fault::ExpectedBinder(_) => true,
        Fault::ExpectedSeparator(_) => true,
        Fault::TrailingInput => true,
        _ => false,
    }
}

/// The error for the failure `x` in the input `chars`.
fn error_for(chars: &Vec<char>, x: Failed) -> (e: Error)
    requires
        x.1 <= chars.len(),
    ensures
        reports(e, chars@, Failure { fault: x.0, at: x.1 as int }),
{
    let mut message: String = fault_text(x.0).to_owned();
    if has_found(x.0) {
        message.append(", found ");
        let q = skip(chars, x.1);
        if q < chars.len() {
            push_char(&mut message, '\'');
            push_char(&mut message, chars[q]);
            push_char(&mut message, '\'');
            assert(message@ =~= failure_message(chars@, Failure { fault: x.0, at: x.1 as int }));
        } else {
            message.append("end of input");
        }
    }
    let (line, column) = locate(chars, x.1);
    Error { message, context: None, line: Some(line), column: Some(column) }
}

/// Decodes `text` as one value.
///
/// Succeeds exactly on the texts that `parse` reads: then the value has the
/// view that `parse` gives, and is well formed. A decoded struct has the
/// empty name, for the written form holds none. On every other text the
/// error gives the fault that `parse` finds first, with its line and
/// column.
pub fn from_string(text: &str) -> (r: Result<Value, Error>)
    ensures
        match parse(text@) {
            Ok(d) => r matches Ok(v) && v@ == d && v.wf(),
            Err(f) => r matches Err(e) && reports(e, text@, f),
        },
{
    let chars = chars_of(text);
    match read_value(&chars, 0) {
        Err(x) => {
            Err(error_for(&chars, x))
        },
        Ok((v, e)) => {
            let r = skip(&chars, e);
            if r >= chars.len() {
                Ok(v)
            } else {
                Err(error_for(&chars, (Fault::TrailingInput, r)))
            }
        },
    }
}

} // verus!
