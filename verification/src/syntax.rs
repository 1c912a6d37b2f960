//! The pieces of the written form that the encoders and the decoder share:
//! brackets, keywords, quoted texts, and lists of items.

use vstd::prelude::*;
use crate::text::{append_escaped, escape};
use crate::value::Data;

verus! {

/// The four composites, by the brackets that enclose their items.
#[derive(Clone, Copy, Debug, PartialEq, Eq, Structural)]
pub enum Bracket {
    /// `[` and `]`
    Array,
    /// `(` and `)`
    Tuple,
    /// `{` and `}`
    Object,
    /// `@(` and `)`
    Struct,
}

impl Bracket {
    /// What opens the composite.
    pub open spec fn open_text(self) -> Seq<char> {
        match self {
            Bracket::Array => seq!['['],
            Bracket::Tuple => seq!['('],
            Bracket::Object => seq!['{'],
            Bracket::Struct => seq!['@', '('],
        }
    }

    /// The character that closes the composite.
    pub open spec fn close_char(self) -> char {
        match self {
            Bracket::Array => ']',
            Bracket::Tuple => ')',
            Bracket::Object => '}',
            Bracket::Struct => ')',
        }
    }

    /// Appends what opens the composite to `out`.
    pub fn push_open(self, out: &mut Vec<char>)
        ensures
            final(out)@ == old(out)@ + self.open_text(),
    {
        match self {
            Bracket::Array => out.push('['),
            Bracket::Tuple => out.push('('),
            Bracket::Object => out.push('{'),
            Bracket::Struct => {
                out.push('@');
                out.push('(');
            },
        }
        assert(out@ =~= old(out)@ + self.open_text());
    }

    /// The character that closes the composite.
    pub fn close(self) -> (c: char)
        ensures
            c == self.close_char(),
    {
        match self {
            Bracket::Array => ']',
            Bracket::Tuple => ')',
            Bracket::Object => '}',
            Bracket::Struct => ')',
        }
    }
}

/// The keyword for nothing.
pub open spec fn null_text() -> Seq<char> {
    seq!['n', 'u', 'l', 'l']
}

/// The keyword for a truth value.
pub open spec fn boolean_text(b: bool) -> Seq<char> {
    if b {
        seq!['t', 'r', 'u', 'e']
    } else {
        seq!['f', 'a', 'l', 's', 'e']
    }
}

/// A text literal: the escaped text between double quotes.
pub open spec fn quoted(t: Seq<char>) -> Seq<char> {
    seq!['"'] + escape(t) + seq!['"']
}

/// How a value that is no composite is written: a keyword, the text of a
/// number, or a text literal. Composites have no such form.
pub open spec fn atom_text(d: Data) -> Seq<char> {
    match d {
        Data::Null => null_text(),
        Data::Boolean(b) => boolean_text(b),
        Data::Number(n) => n.text(),
        Data::Text(t) => quoted(t),
        _ => Seq::empty(),
    }
}

/// The items one after another with `sep` between each two.
pub open spec fn joined(items: Seq<Seq<char>>, sep: Seq<char>) -> Seq<char>
    decreases items.len(),
{
    if items.len() == 0 {
        Seq::empty()
    } else if items.len() == 1 {
        items[0]
    } else {
        joined(items.drop_last(), sep) + sep + items.last()
    }
}

/// `inner` between the brackets of `b`.
pub open spec fn enclosed(b: Bracket, inner: Seq<char>) -> Seq<char> {
    b.open_text() + inner + seq![b.close_char()]
}

/// The views of a sequence of character vectors.
pub open spec fn texts(items: Seq<Vec<char>>) -> Seq<Seq<char>> {
    Seq::new(items.len(), |i: int| items[i]@)
}

/// Appends the keyword for nothing to `out`.
pub fn push_null(out: &mut Vec<char>)
    ensures
        final(out)@ == old(out)@ + null_text(),
{
    out.push('n');
    out.push('u');
    out.push('l');
    out.push('l');
    assert(out@ =~= old(out)@ + null_text());
}

/// Appends the keyword for `b` to `out`.
pub fn push_boolean(out: &mut Vec<char>, b: bool)
    ensures
        final(out)@ == old(out)@ + boolean_text(b),
{
    if b {
        out.push('t');
        out.push('r');
        out.push('u');
        out.push('e');
    } else {
        out.push('f');
        out.push('a');
        out.push('l');
        out.push('s');
        out.push('e');
    }
    assert(out@ =~= old(out)@ + boolean_text(b));
}

/// Appends the text literal for `t` to `out`.
pub fn push_quoted(out: &mut Vec<char>, t: &Vec<char>)
    ensures
        final(out)@ == old(out)@ + quoted(t@),
{
    out.push('"');
    append_escaped(out, t);
    out.push('"');
    assert(out@ =~= old(out)@ + quoted(t@));
}

} // verus!
