//! The diagnostic that every fallible operation of this crate returns.

use vstd::prelude::*;
use crate::chars::{append_str, chars_of, string_of};
use crate::decimal::{digits_of, push_digits};

verus! {

/// What went wrong, and where in the input if the failure has a place there.
///
/// An error with a line and a column reports malformed input; one without
/// reports a failure that has no place in any text, such as a value of the
/// wrong shape.
#[derive(Debug)]
pub struct Error {
    pub message: String,
    pub context: Option<String>,
    pub line: Option<usize>,
    pub column: Option<usize>,
}

/// The line of position `p` in `s`, counted from 1: one more than the number
/// of line feeds before `p`.
pub open spec fn line_of(s: Seq<char>, p: int) -> int
    decreases p,
{
    if p <= 0 {
        1
    } else if s[p - 1] == '\n' {
        line_of(s, p - 1) + 1
    } else {
        line_of(s, p - 1)
    }
}

/// The column of position `p` in `s`, counted from 1: one more than the
/// number of characters between the last line feed before `p` and `p`.
pub open spec fn column_of(s: Seq<char>, p: int) -> int
    decreases p,
{
    if p <= 0 {
        1
    } else if s[p - 1] == '\n' {
        1
    } else {
        column_of(s, p - 1) + 1
    }
}

/// Line and column never exceed the position by more than one.
pub proof fn lemma_position_bounds(s: Seq<char>, p: int)
    requires
        0 <= p,
    ensures
        1 <= line_of(s, p) <= p + 1,
        1 <= column_of(s, p) <= p + 1,
    decreases p,
{
    if p > 0 {
        lemma_position_bounds(s, p - 1);
    }
}

/// `x` as a `usize`, or the largest `usize` if `x` is above it.
pub open spec fn clamped(x: int) -> usize {
    if x > usize::MAX {
        usize::MAX
    } else {
        x as usize
    }
}

/// The line and the column of position `p` in `chars`.
pub fn locate(chars: &Vec<char>, p: usize) -> (r: (usize, usize))
    requires
        p <= chars.len(),
    ensures
        r.0 == clamped(line_of(chars@, p as int)),
        r.1 == clamped(column_of(chars@, p as int)),
{
    let mut line: usize = 1;
    let mut column: usize = 1;
    let mut i: usize = 0;
    while i < p
        invariant
            i <= p <= chars.len(),
            line == line_of(chars@, i as int),
            column == column_of(chars@, i as int),
        decreases p - i,
    {
        proof {
            lemma_position_bounds(chars@, i as int);
            lemma_position_bounds(chars@, i + 1);
        }
        if i + 1 == p {
            let last_line: usize = if chars[i] == '\n' && line < usize::MAX {
                line + 1
            } else {
                line
            };
            let last_column: usize = if chars[i] == '\n' {
                1
            } else if column < usize::MAX {
                column + 1
            } else {
                column
            };
            return (last_line, last_column);
        }
        if chars[i] == '\n' {
            line += 1;
            column = 1;
        } else {
            column += 1;
        }
        i += 1;
    }
    (line, column)
}

impl Error {
    /// An error without a place in any text.
    pub fn new(message: &str) -> (e: Error)
        ensures
            e.message@ == message@,
            e.context is None,
            e.line is None,
            e.column is None,
    {
        Error { message: message.to_owned(), context: None, line: None, column: None }
    }

    /// An error at a line and a column of the input.
    pub fn with_position(message: &str, line: usize, column: usize) -> (e: Error)
        ensures
            e.message@ == message@,
            e.context is None,
            e.line == Some(line),
            e.column == Some(column),
    {
        Error { message: message.to_owned(), context: None, line: Some(line), column: Some(column) }
    }

    /// An error at a line and a column of the input, with a text that shows
    /// or explains the place.
    pub fn with_context(message: &str, context: &str, line: usize, column: usize) -> (e: Error)
        ensures
            e.message@ == message@,
            e.context matches Some(c) && c@ == context@,
            e.line == Some(line),
            e.column == Some(column),
    {
        Error {
            message: message.to_owned(),
            context: Some(context.to_owned()),
            line: Some(line),
            column: Some(column),
        }
    }

    /// Whether the error has a place in the input: both a line and a column.
    pub open spec fn is_positioned(&self) -> bool {
        self.line is Some && self.column is Some
    }

    /// The text that `to_string` gives.
    ///
    /// With a place: `Parse error at line L, column C: MESSAGE`, followed on
    /// a new line by `Context: CONTEXT` if there is a context. Without:
    /// `Error: MESSAGE`.
    pub open spec fn display(&self) -> Seq<char> {
        if self.is_positioned() {
            let head = "Parse error at line "@ + digits_of(self.line->0 as nat) + ", column "@
                + digits_of(self.column->0 as nat) + ": "@ + self.message@;
            match self.context {
                Some(c) => head + "\nContext: "@ + c@,
                None => head,
            }
        } else {
            "Error: "@ + self.message@
        }
    }

    /// The error as one text, for showing to a person.
    pub fn to_string(&self) -> (s: String)
        ensures
            s@ == self.display(),
    {
        let mut out: Vec<char> = Vec::new();
        match (self.line, self.column) {
            (Some(line), Some(column)) => {
                append_str(&mut out, "Parse error at line ");
                push_digits(&mut out, line as u128);
                append_str(&mut out, ", column ");
                push_digits(&mut out, column as u128);
                append_str(&mut out, ": ");
                append_str(&mut out, self.message.as_str());
                match &self.context {
                    Some(c) => {
                        append_str(&mut out, "\nContext: ");
                        append_str(&mut out, c.as_str());
                    },
                    None => {},
                }
            },
            _ => {
                append_str(&mut out, "Error: ");
                append_str(&mut out, self.message.as_str());
            },
        }
        assert(out@ =~= self.display());
        string_of(&out)
    }
}

} // verus!
