//! Escaping and unescaping of the characters inside a text literal.

use vstd::prelude::*;
use crate::chars::{chars_of, is_scalar_value, string_of};
use crate::error::{clamped, column_of, line_of, locate, Error};

verus! {

/// Control characters: the code points `U+0000..=U+001F` and `U+007F..=U+009F`.
pub open spec fn is_control(c: char) -> bool {
    (c as u32) < 0x20 || (0x7F <= (c as u32) && (c as u32) <= 0x9F)
}

/// The lower-case hexadecimal digit for `n`, which is below 16.
pub open spec fn hex_digit(n: int) -> char {
    if n < 10 {
        (0x30 + n) as char
    } else {
        (0x61 + n - 10) as char
    }
}

/// The value of a hexadecimal digit of either case, if `c` is one.
pub open spec fn hex_value(c: char) -> Option<int> {
    let x = c as u32 as int;
    if 0x30 <= x <= 0x39 {
        Some(x - 0x30)
    } else if 0x61 <= x <= 0x66 {
        Some(x - 0x61 + 10)
    } else if 0x41 <= x <= 0x46 {
        Some(x - 0x41 + 10)
    } else {
        None
    }
}

/// The escape `\u{XXXX}` with the code point of `c` in four hexadecimal digits.
pub open spec fn unicode_escape(c: char) -> Seq<char> {
    let x = c as u32 as int;
    seq![
        '\\',
        'u',
        '{',
        hex_digit((x / 4096) % 16),
        hex_digit((x / 256) % 16),
        hex_digit((x / 16) % 16),
        hex_digit(x % 16),
        '}',
    ]
}

/// The letter that follows the backslash in the short escape of `c`, if `c`
/// has one.
pub open spec fn short_escape(c: char) -> Option<char> {
    if c == '\u{8}' {
        Some('b')
    } else if c == '\u{c}' {
        Some('f')
    } else if c == '\n' {
        Some('n')
    } else if c == '\r' {
        Some('r')
    } else if c == '\t' {
        Some('t')
    } else if c == '\\' {
        Some('\\')
    } else if c == '"' {
        Some('"')
    } else {
        None
    }
}

/// The character that the short escape with letter `e` stands for, if `e` is
/// the letter of one.
pub open spec fn short_unescape(e: char) -> Option<char> {
    if e == 'b' {
        Some('\u{8}')
    } else if e == 'f' {
        Some('\u{c}')
    } else if e == 'n' {
        Some('\n')
    } else if e == 'r' {
        Some('\r')
    } else if e == 't' {
        Some('\t')
    } else if e == '\\' {
        Some('\\')
    } else if e == '"' {
        Some('"')
    } else {
        None
    }
}

/// How one character is written inside a text literal.
pub open spec fn escape_char(c: char) -> Seq<char> {
    match short_escape(c) {
        Some(e) => seq!['\\', e],
        None => if is_control(c) {
            unicode_escape(c)
        } else {
            seq![c]
        },
    }
}

/// How a text is written inside a text literal: each character escaped, in
/// order.
pub open spec fn escape(s: Seq<char>) -> Seq<char>
    decreases s.len(),
{
    if s.len() == 0 {
        Seq::empty()
    } else {
        escape_char(s[0]) + escape(s.skip(1))
    }
}

/// Why an escaped text cannot be read back.
#[derive(Clone, Copy, Debug, PartialEq, Eq, Structural)]
pub enum EscapeFault {
    /// A backslash is the last character.
    Unterminated,
    /// The character after a backslash starts no escape.
    Unrecognized,
    /// `\u` is not followed by `{`, four hexadecimal digits and `}`, or the
    /// digits give a code point that is no character.
    BadUnicode,
}

/// A fault and the index of the backslash that it was found at.
pub struct EscapeFailure {
    pub fault: EscapeFault,
    pub at: int,
}

/// The character written by the unicode escape at the start of `s`, if `s`
/// starts with a well-formed one.
pub open spec fn unicode_unescape(s: Seq<char>) -> Option<char> {
    if s.len() >= 8 && s[0] == '\\' && s[1] == 'u' && s[2] == '{' && s[7] == '}' {
        match (hex_value(s[3]), hex_value(s[4]), hex_value(s[5]), hex_value(s[6])) {
            (Some(a), Some(b), Some(c), Some(d)) => {
                let x = (4096 * a + 256 * b + 16 * c + d) as u32;
                if is_scalar_value(x) {
                    Some(x as char)
                } else {
                    None
                }
            },
            _ => None,
        }
    } else {
        None
    }
}

/// `c` in front of a successful result; a failure moved `n` places to the
/// right.
pub open spec fn after(
    head: Seq<char>,
    n: int,
    rest: Result<Seq<char>, EscapeFailure>,
) -> Result<Seq<char>, EscapeFailure> {
    match rest {
        Ok(t) => Ok(head + t),
        Err(f) => Err(EscapeFailure { fault: f.fault, at: f.at + n }),
    }
}

/// The text that `s` is the escaped form of, or the first fault in `s`.
pub open spec fn unescape(s: Seq<char>) -> Result<Seq<char>, EscapeFailure>
    decreases s.len(),
{
    if s.len() == 0 {
        Ok(Seq::empty())
    } else if s[0] != '\\' {
        after(seq![s[0]], 1, unescape(s.skip(1)))
    } else if s.len() == 1 {
        Err(EscapeFailure { fault: EscapeFault::Unterminated, at: 0 })
    } else if s[1] == 'u' {
        match unicode_unescape(s) {
            Some(c) => after(seq![c], 8, unescape(s.skip(8))),
            None => Err(EscapeFailure { fault: EscapeFault::BadUnicode, at: 0 }),
        }
    } else {
        match short_unescape(s[1]) {
            Some(c) => after(seq![c], 2, unescape(s.skip(2))),
            None => Err(EscapeFailure { fault: EscapeFault::Unrecognized, at: 0 }),
        }
    }
}

proof fn lemma_hex_round(n: int)
    requires
        0 <= n < 16,
    ensures
        hex_value(hex_digit(n)) == Some(n),
{
}

/// Reading back what `escape_char` wrote gives the character, whatever
/// follows.
pub proof fn lemma_unescape_escape_char(c: char, rest: Seq<char>)
    ensures
        unescape(escape_char(c) + rest) == after(seq![c], escape_char(c).len() as int, unescape(rest)),
{
    let s = escape_char(c) + rest;
    match short_escape(c) {
        Some(e) => {
            assert(s[0] == '\\' && s[1] == e);
            assert(s.skip(2) =~= rest);
            assert(short_unescape(e) == Some(c));
        },
        None => {
            if is_control(c) {
                let x = c as u32 as int;
                assert(s[0] == '\\' && s[1] == 'u' && s[2] == '{' && s[7] == '}');
                assert(s[3] == hex_digit((x / 4096) % 16));
                assert(s[4] == hex_digit((x / 256) % 16));
                assert(s[5] == hex_digit((x / 16) % 16));
                assert(s[6] == hex_digit(x % 16));
                lemma_hex_round((x / 4096) % 16);
                lemma_hex_round((x / 256) % 16);
                lemma_hex_round((x / 16) % 16);
                lemma_hex_round(x % 16);
                assert(4096 * ((x / 4096) % 16) + 256 * ((x / 256) % 16) + 16 * ((x / 16) % 16) + x
                    % 16 == x);
                assert(unicode_unescape(s) == Some(c));
                assert(s.skip(8) =~= rest);
            } else {
                assert(s[0] == c);
                assert(s.skip(1) =~= rest);
            }
        },
    }
}

/// Unescaping inverts escaping: every text is read back from its escaped
/// form.
pub proof fn lemma_unescape_escape(s: Seq<char>)
    ensures
        unescape(escape(s)) == Ok::<Seq<char>, EscapeFailure>(s),
    decreases s.len(),
{
    if s.len() == 0 {
        assert(s =~= Seq::<char>::empty());
    } else {
        lemma_unescape_escape(s.skip(1));
        lemma_unescape_escape_char(s[0], escape(s.skip(1)));
        assert(seq![s[0]] + s.skip(1) =~= s);
        assert(unescape(escape(s.skip(1))) == Ok::<Seq<char>, EscapeFailure>(s.skip(1)));
        assert(escape(s) == escape_char(s[0]) + escape(s.skip(1)));
    }
}

/// Escaping distributes over appending a character.
pub proof fn lemma_escape_push(s: Seq<char>, c: char)
    ensures
        escape(s.push(c)) == escape(s) + escape_char(c),
    decreases s.len(),
{
    if s.len() == 0 {
        assert(s.push(c).skip(1) =~= Seq::<char>::empty());
        assert(escape(s.push(c)) =~= escape_char(c) + escape(Seq::<char>::empty()));
        assert(escape(s) + escape_char(c) =~= escape_char(c));
    } else {
        lemma_escape_push(s.skip(1), c);
        assert(s.push(c).skip(1) =~= s.skip(1).push(c));
        assert(s.push(c)[0] == s[0]);
        assert(escape(s.push(c)) =~= escape(s) + escape_char(c));
    }
}

/// `head` in front of what comes `n` places after `inner`, which itself comes
/// `m` places further on.
proof fn lemma_after_twice(
    a: Seq<char>,
    n: int,
    b: Seq<char>,
    m: int,
    r: Result<Seq<char>, EscapeFailure>,
)
    ensures
        after(a, n, after(b, m, r)) == after(a + b, n + m, r),
{
    match r {
        Ok(t) => {
            assert(a + (b + t) =~= (a + b) + t);
        },
        Err(f) => {},
    }
}

/// Whether `c` is a control character.
pub fn is_control_char(c: char) -> (r: bool)
    ensures
        r == is_control(c),
{
    let x: u32 = c as u32;
    x < 0x20 || (0x7F <= x && x <= 0x9F)
}

fn hex_digit_char(n: u32) -> (c: char)
    requires
        n < 16,
    ensures
        c == hex_digit(n as int),
{
    let code: u8 = if n < 10 {
        (0x30 + n) as u8
    } else {
        (0x61 + n - 10) as u8
    };
    code as char
}

fn hex_char_value(c: char) -> (r: Option<u32>)
    ensures
        match hex_value(c) {
            Some(v) => r == Some(v as u32) && v < 16,
            None => r is None,
        },
{
    let x: u32 = c as u32;
    if 0x30 <= x && x <= 0x39 {
        Some(x - 0x30)
    } else if 0x61 <= x && x <= 0x66 {
        Some(x - 0x61 + 10)
    } else if 0x41 <= x && x <= 0x46 {
        Some(x - 0x41 + 10)
    } else {
        None
    }
}

fn short_escape_of(c: char) -> (r: Option<char>)
    ensures
        r == short_escape(c),
{
    if c == '\u{8}' {
        Some('b')
    } else if c == '\u{c}' {
        Some('f')
    } else if c == '\n' {
        Some('n')
    } else if c == '\r' {
        Some('r')
    } else if c == '\t' {
        Some('t')
    } else if c == '\\' {
        Some('\\')
    } else if c == '"' {
        Some('"')
    } else {
        None
    }
}

fn short_unescape_of(e: char) -> (r: Option<char>)
    ensures
        r == short_unescape(e),
{
    if e == 'b' {
        Some('\u{8}')
    } else if e == 'f' {
        Some('\u{c}')
    } else if e == 'n' {
        Some('\n')
    } else if e == 'r' {
        Some('\r')
    } else if e == 't' {
        Some('\t')
    } else if e == '\\' {
        Some('\\')
    } else if e == '"' {
        Some('"')
    } else {
        None
    }
}

/// Appends the escaped form of `c` to `out`.
pub fn push_escaped(out: &mut Vec<char>, c: char)
    ensures
        final(out)@ == old(out)@ + escape_char(c),
{
    match short_escape_of(c) {
        Some(e) => {
            out.push('\\');
            out.push(e);
        },
        None => {
            if is_control_char(c) {
                let x: u32 = c as u32;
                out.push('\\');
                out.push('u');
                out.push('{');
                out.push(hex_digit_char((x / 4096) % 16));
                out.push(hex_digit_char((x / 256) % 16));
                out.push(hex_digit_char((x / 16) % 16));
                out.push(hex_digit_char(x % 16));
                out.push('}');
            } else {
                out.push(c);
            }
        },
    }
    assert(out@ =~= old(out)@ + escape_char(c));
}

/// Appends the escaped form of `input` to `out`.
pub fn append_escaped(out: &mut Vec<char>, input: &Vec<char>)
    ensures
        final(out)@ == old(out)@ + escape(input@),
{
    let mut i: usize = 0;
    assert(input@.take(0) =~= Seq::<char>::empty());
    assert(out@ =~= old(out)@ + escape(input@.take(0)));
    while i < input.len()
        invariant
            i <= input.len(),
            out@ == old(out)@ + escape(input@.take(i as int)),
        decreases input.len() - i,
    {
        push_escaped(out, input[i]);
        proof {
            lemma_escape_push(input@.take(i as int), input@[i as int]);
            assert(input@.take(i + 1) =~= input@.take(i as int).push(input@[i as int]));
            assert(out@ =~= old(out)@ + escape(input@.take(i + 1)));
        }
        i += 1;
    }
    assert(input@.take(input@.len() as int) =~= input@);
}

/// The escaped form of `input`: what stands between the quotes of a text
/// literal that denotes `input`.
pub fn escape_text(input: &str) -> (output: String)
    ensures
        output@ == escape(input@),
{
    let chars = chars_of(input);
    let mut out: Vec<char> = Vec::new();
    append_escaped(&mut out, &chars);
    assert(out@ =~= escape(input@));
    string_of(&out)
}

/// Whether `r` is the outcome `expected`, with the place of a failure counted
/// from the start of the text that was unescaped.
pub open spec fn unescape_agrees(
    r: Result<Vec<char>, (EscapeFault, usize)>,
    expected: Result<Seq<char>, EscapeFailure>,
) -> bool {
    match expected {
        Ok(t) => r matches Ok(v) && v@ == t,
        Err(f) => r matches Err(e) && e.0 == f.fault && e.1 as int == f.at,
    }
}

fn read_unicode_escape(input: &Vec<char>, p: usize, to: usize) -> (r: Option<char>)
    requires
        p + 1 < to <= input.len(),
        input@[p as int] == '\\',
        input@[p + 1] == 'u',
    ensures
        r == unicode_unescape(input@.subrange(p as int, to as int)),
{
    let ghost s = input@.subrange(p as int, to as int);
    if to - p < 8 {
        return None;
    }
    assert(s[2] == input@[p + 2] && s[3] == input@[p + 3] && s[4] == input@[p + 4] && s[5]
        == input@[p + 5] && s[6] == input@[p + 6] && s[7] == input@[p + 7] && s[0] == '\\' && s[1]
        == 'u');
    if input[p + 2] != '{' || input[p + 7] != '}' {
        return None;
    }
    let a = hex_char_value(input[p + 3]);
    let b = hex_char_value(input[p + 4]);
    let c = hex_char_value(input[p + 5]);
    let d = hex_char_value(input[p + 6]);
    match (a, b, c, d) {
        (Some(a), Some(b), Some(c), Some(d)) => {
            let x: u32 = 4096 * a + 256 * b + 16 * c + d;
            char::from_u32(x)
        },
        _ => None,
    }
}

/// Unescapes `input[from..to]`.
pub fn unescape_range(input: &Vec<char>, from: usize, to: usize) -> (r: Result<
    Vec<char>,
    (EscapeFault, usize),
>)
    requires
        from <= to <= input.len(),
    ensures
        unescape_agrees(r, unescape(input@.subrange(from as int, to as int))),
{
    let ghost body = input@.subrange(from as int, to as int);
    let mut out: Vec<char> = Vec::new();
    let mut p: usize = from;
    proof {
        assert(body.skip(0) =~= body);
        match unescape(body) {
            Ok(t) => {
                assert(Seq::<char>::empty() + t =~= t);
            },
            Err(f) => {},
        }
    }
    while p < to
        invariant
            from <= p <= to <= input.len(),
            body == input@.subrange(from as int, to as int),
            unescape(body) == after(out@, p - from, unescape(body.skip(p - from))),
        decreases to - p,
    {
        let ghost k = p - from;
        let ghost rest = body.skip(k);
        let ghost before = out@;
        assert(rest.len() == to - p);
        assert(rest[0] == input@[p as int]);
        let c = input[p];
        if c != '\\' {
            out.push(c);
            proof {
                assert(rest.skip(1) =~= body.skip(k + 1));
                lemma_after_twice(before, k, seq![c], 1, unescape(rest.skip(1)));
                assert(before + seq![c] =~= out@);
            }
            p += 1;
        } else if to - p == 1 {
            return Err((EscapeFault::Unterminated, p - from));
        } else {
            assert(rest[1] == input@[p + 1]);
            let e = input[p + 1];
            if e == 'u' {
                assert(rest =~= input@.subrange(p as int, to as int));
                match read_unicode_escape(input, p, to) {
                    Some(u) => {
                        out.push(u);
                        proof {
                            assert(rest.skip(8) =~= body.skip(k + 8));
                            lemma_after_twice(before, k, seq![u], 8, unescape(rest.skip(8)));
                            assert(before + seq![u] =~= out@);
                        }
                        p += 8;
                    },
                    None => {
                        return Err((EscapeFault::BadUnicode, p - from));
                    },
                }
            } else {
                match short_unescape_of(e) {
                    Some(u) => {
                        out.push(u);
                        proof {
                            assert(rest.skip(2) =~= body.skip(k + 2));
                            lemma_after_twice(before, k, seq![u], 2, unescape(rest.skip(2)));
                            assert(before + seq![u] =~= out@);
                        }
                        p += 2;
                    },
                    None => {
                        return Err((EscapeFault::Unrecognized, p - from));
                    },
                }
            }
        }
    }
    proof {
        assert(body.skip(to - from) =~= Seq::<char>::empty());
        assert(out@ + Seq::<char>::empty() =~= out@);
    }
    Ok(out)
}

/// What an error says of an escape fault.
pub open spec fn escape_fault_message(fault: EscapeFault) -> Seq<char> {
    match fault {
        EscapeFault::Unterminated => "unterminated escape sequence"@,
        EscapeFault::Unrecognized => "unrecognized escape sequence"@,
        EscapeFault::BadUnicode => "invalid unicode escape sequence"@,
    }
}

/// The message for an escape fault.
pub fn escape_fault_text(fault: EscapeFault) -> (m: &'static str)
    ensures
        m@ == escape_fault_message(fault),
{
    match fault {
        EscapeFault::Unterminated => "unterminated escape sequence",
        EscapeFault::Unrecognized => "unrecognized escape sequence",
        EscapeFault::BadUnicode => "invalid unicode escape sequence",
    }
}

/// The text that `input` is the escaped form of.
///
/// Fails at the first backslash that starts no well-formed escape; the error
/// gives the place of that backslash in `input`.
pub fn unescape_text(input: &str) -> (r: Result<String, Error>)
    ensures
        match unescape(input@) {
            Ok(t) => r matches Ok(s) && s@ == t,
            Err(f) => r matches Err(e) && e.message@ == escape_fault_message(f.fault)
                && e.context is None && e.line == Some(clamped(line_of(input@, f.at)))
                && e.column == Some(clamped(column_of(input@, f.at))),
        },
{
    let chars = chars_of(input);
    assert(chars@.subrange(0, chars@.len() as int) =~= chars@);
    match unescape_range(&chars, 0, chars.len()) {
        Ok(v) => Ok(string_of(&v)),
        Err((fault, at)) => {
            proof {
                lemma_unescape_failure_inside(input@);
            }
            let (line, column) = locate(&chars, at);
            Err(Error::with_position(escape_fault_text(fault), line, column))
        },
    }
}

/// A failure is found at a position inside the text.
pub proof fn lemma_unescape_failure_inside(s: Seq<char>)
    ensures
        unescape(s) matches Err(f) ==> 0 <= f.at < s.len(),
    decreases s.len(),
{
    if s.len() == 0 {
    } else if s[0] != '\\' {
        lemma_unescape_failure_inside(s.skip(1));
    } else if s.len() == 1 {
    } else if s[1] == 'u' {
        if unicode_unescape(s) is Some {
            lemma_unescape_failure_inside(s.skip(8));
        }
    } else {
        if short_unescape(s[1]) is Some {
            lemma_unescape_failure_inside(s.skip(2));
        }
    }
}

} // verus!
