//! The width bound of the pretty encoder: no line is longer than the maximum
//! line length, if every item has room where the layout puts it.

use vstd::prelude::*;
use crate::decimal::{decimal_text, digits_of, is_digit, lemma_digits_of};
use crate::number::{
    digits_end, exponent_digits, fraction_end, has, is_numeric_literal, lemma_digits_end,
    sign_end, Numeral,
};
use crate::pretty::{
    arranged, candidate_len, fits, indent, lemma_indent_deeper, packed, pretty_fields,
    pretty_members, pretty_text, pretty_values, separated, spaces, stacked, stacked_lines,
    total_len, trimmed, Layout,
};
use crate::roundtrip::{blank, lemma_numeral_text, lemma_trimmed_comma, lemma_trimmed_prefix};
use crate::syntax::{atom_text, boolean_text, joined, null_text, quoted, Bracket};
use crate::text::{escape, escape_char, hex_digit, is_control, short_escape};
use crate::value::Data;

verus! {

/// Whether `t` holds no line feed.
pub open spec fn no_newline(t: Seq<char>) -> bool {
    forall|i: int| 0 <= i < t.len() ==> #[trigger] t[i] != '\n'
}

/// The length of the last line of `s`: the number of characters behind the
/// last line feed.
pub open spec fn tail_len(s: Seq<char>) -> nat
    decreases s.len(),
{
    if s.len() == 0 || s.last() == '\n' {
        0
    } else {
        tail_len(s.drop_last()) + 1
    }
}

/// The length of the longest line of `s`.
pub open spec fn widest(s: Seq<char>) -> nat
    decreases s.len(),
{
    if s.len() == 0 {
        0
    } else if widest(s.drop_last()) >= tail_len(s) {
        widest(s.drop_last())
    } else {
        tail_len(s)
    }
}

/// A comma, or nothing.
pub open spec fn comma_text(comma: bool) -> Seq<char> {
    if comma {
        seq![',']
    } else {
        Seq::empty()
    }
}

/// Whether item `j` of `n` items that are written over several lines has a
/// comma behind it: every item but the last, and the last one if a trailing
/// comma is wanted.
pub open spec fn has_comma(n: int, j: int, trailing: bool) -> bool {
    j < n - 1 || trailing
}

/// Whether `t` keeps every line within `max` characters when it stands
/// behind `lead` characters on its first line and, if `comma` says so, has
/// a comma behind it.
pub open spec fn within(t: Seq<char>, lead: nat, comma: bool, max: int) -> bool {
    widest(spaces(lead) + t + comma_text(comma)) <= max
}

/// Whether every item has room on a line of its own: behind a margin of
/// `margin_len` spaces, and with its comma if it has one, it keeps every
/// line within `max` characters.
pub open spec fn all_within(items: Seq<Seq<char>>, margin_len: nat, max: int, trailing: bool) -> bool {
    forall|j: int|
        0 <= j < items.len() ==> within(
            #[trigger] items[j],
            margin_len,
            has_comma(items.len() as int, j, trailing),
            max,
        )
}

/// Whether the value has room where the pretty encoder puts it: at `depth`,
/// behind `lead` characters on its first line, with a comma behind it if
/// `comma` says so.
///
/// A keyword, a number or a text literal has room if it fits behind the
/// lead with its comma. An array, a tuple or an object that goes on one
/// line has room on the same terms. One that is written over several lines,
/// and every struct with fields, has room if its opening bracket fits
/// behind the lead, its closing bracket with the comma fits behind the
/// indentation, and every item has room one level deeper, behind the
/// indentation and its key.
pub open spec fn roomy(d: Data, layout: Layout, depth: nat, lead: nat, comma: bool) -> bool
    decreases d,
{
    let max = layout.max_line_length as int;
    let c: int = if comma {
        1
    } else {
        0
    };
    let margin = indent(layout, depth + 1).len();
    let closing = indent(layout, depth).len() + 1 + c <= max;
    let trailing = layout.trailing_comma;
    match d {
        Data::Array(a) => if a.len() == 0 || fits(
            pretty_values(a, layout, depth + 1, a.len()),
            layout,
            depth,
        ) {
            lead + pretty_text(d, layout, depth).len() + c <= max
        } else {
            lead + 1 <= max && closing && forall|j: int|
                0 <= j < a.len() ==> roomy(
                    #[trigger] a[j],
                    layout,
                    depth + 1,
                    margin,
                    has_comma(a.len() as int, j, trailing),
                )
        },
        Data::Tuple(a) => if a.len() == 0 || fits(
            pretty_values(a, layout, depth + 1, a.len()),
            layout,
            depth,
        ) {
            lead + pretty_text(d, layout, depth).len() + c <= max
        } else {
            lead + 1 <= max && closing && forall|j: int|
                0 <= j < a.len() ==> roomy(
                    #[trigger] a[j],
                    layout,
                    depth + 1,
                    margin,
                    has_comma(a.len() as int, j, trailing),
                )
        },
        Data::Object(e) => if e.len() == 0 || fits(
            pretty_members(e, layout, depth + 1, e.len()),
            layout,
            depth,
        ) {
            lead + pretty_text(d, layout, depth).len() + c <= max
        } else {
            lead + 1 <= max && closing && forall|j: int|
                0 <= j < e.len() ==> roomy(
                    (#[trigger] e[j]).1,
                    layout,
                    depth + 1,
                    margin + quoted(e[j].0).len() + 2,
                    has_comma(e.len() as int, j, trailing),
                )
        },
        Data::Struct(_, e) => if e.len() == 0 {
            lead + 3 + c <= max
        } else {
            lead + 2 <= max && closing && forall|j: int|
                0 <= j < e.len() ==> no_newline((#[trigger] e[j]).0) && roomy(
                    e[j].1,
                    layout,
                    depth + 1,
                    margin + e[j].0.len() + 3,
                    has_comma(e.len() as int, j, trailing),
                )
        },
        _ => lead + pretty_text(d, layout, depth).len() + c <= max,
    }
}

/// Text without a line feed makes the last line longer by its length.
proof fn lemma_append_text(a: Seq<char>, t: Seq<char>)
    requires
        no_newline(t),
    ensures
        tail_len(a + t) == tail_len(a) + t.len(),
        widest(a + t) == (if widest(a) >= tail_len(a) + t.len() {
            widest(a)
        } else {
            tail_len(a) + t.len()
        }),
        widest(a) >= tail_len(a),
    decreases t.len(),
{
    if t.len() == 0 {
        assert(a + t =~= a);
    } else {
        let s = a + t;
        let u = t.drop_last();
        assert(s.drop_last() =~= a + u);
        assert(s.last() == t[t.len() - 1]);
        assert forall|i: int| 0 <= i < u.len() implies #[trigger] u[i] != '\n' by {
            assert(u[i] == t[i]);
        }
        lemma_append_text(a, u);
    }
}

/// A line feed ends the last line and leaves the longest line as it is.
proof fn lemma_append_newline(a: Seq<char>)
    ensures
        tail_len(a + seq!['\n']) == 0,
        widest(a + seq!['\n']) == widest(a),
{
    let s = a + seq!['\n'];
    assert(s.last() == '\n');
    assert(s.drop_last() =~= a);
}

/// No line is longer than the whole text.
proof fn lemma_widest_len(s: Seq<char>)
    ensures
        tail_len(s) <= s.len(),
        widest(s) <= s.len(),
    decreases s.len(),
{
    if s.len() > 0 {
        lemma_widest_len(s.drop_last());
    }
}

/// Behind a finished line, the lines of what is appended are its own.
proof fn lemma_widest_after_break(pre: Seq<char>, x: Seq<char>)
    requires
        tail_len(pre) == 0,
    ensures
        tail_len(pre + x) == tail_len(x),
        widest(pre + x) == (if widest(pre) >= widest(x) {
            widest(pre)
        } else {
            widest(x)
        }),
    decreases x.len(),
{
    if x.len() == 0 {
        assert(pre + x =~= pre);
    } else {
        let s = pre + x;
        assert(s.drop_last() =~= pre + x.drop_last());
        assert(s.last() == x.last());
        lemma_widest_after_break(pre, x.drop_last());
    }
}

/// Appending makes no line shorter.
proof fn lemma_widest_grows(a: Seq<char>, b: Seq<char>)
    ensures
        widest(a) <= widest(a + b),
    decreases b.len(),
{
    if b.len() == 0 {
        assert(a + b =~= a);
    } else {
        let s = a + b;
        assert(s.drop_last() =~= a + b.drop_last());
        lemma_widest_grows(a, b.drop_last());
    }
}

/// Of what stands before a text on its first line, only the length counts.
proof fn lemma_lead_counts(a: Seq<char>, b: Seq<char>, x: Seq<char>)
    requires
        no_newline(a),
        no_newline(b),
        a.len() == b.len(),
    ensures
        tail_len(a + x) == tail_len(b + x),
        widest(a + x) == widest(b + x),
    decreases x.len(),
{
    let empty = Seq::<char>::empty();
    if x.len() == 0 {
        assert(a + x =~= empty + a);
        assert(b + x =~= empty + b);
        lemma_append_text(empty, a);
        lemma_append_text(empty, b);
    } else {
        assert((a + x).drop_last() =~= a + x.drop_last());
        assert((b + x).drop_last() =~= b + x.drop_last());
        assert((a + x).last() == x.last());
        assert((b + x).last() == x.last());
        lemma_lead_counts(a, b, x.drop_last());
    }
}

/// Spaces hold no line feed, and a blank margin is so many spaces.
proof fn lemma_spaces(margin: Seq<char>)
    requires
        blank(margin),
    ensures
        margin == spaces(margin.len()),
        no_newline(margin),
{
    assert(margin =~= spaces(margin.len()));
}

/// An item that has room on a line of its own keeps within the maximum when
/// it is written there, behind the margin and without the spaces at its
/// end.
proof fn lemma_line_within(
    items: Seq<Seq<char>>,
    j: int,
    margin: Seq<char>,
    max: int,
    trailing: bool,
)
    requires
        0 <= j < items.len(),
        blank(margin),
        within(items[j], margin.len(), has_comma(items.len() as int, j, trailing), max),
    ensures
        widest(trimmed(margin + separated(items, j, trailing))) <= max,
{
    let it = items[j];
    let whole = margin + separated(items, j, trailing);
    let comma = has_comma(items.len() as int, j, trailing);
    let measured = spaces(margin.len()) + it + comma_text(comma);
    lemma_spaces(margin);
    if j < items.len() - 1 {
        assert(whole =~= (margin + it) + seq![',', ' ']);
        lemma_trimmed_comma(margin + it);
        assert(trimmed(whole) =~= measured);
    } else if trailing {
        assert(whole =~= (margin + it) + seq![',']);
        assert(whole.last() == ',');
        assert(trimmed(whole) =~= measured);
    } else {
        lemma_trimmed_prefix(whole);
        let k = trimmed(whole).len() as int;
        assert(whole =~= trimmed(whole) + whole.skip(k));
        lemma_widest_grows(trimmed(whole), whole.skip(k));
        assert(whole =~= measured);
    }
}

/// Lines packed from items that have room keep within the maximum length.
proof fn lemma_packed_width(
    pre: Seq<char>,
    items: Seq<Seq<char>>,
    i: nat,
    line: Seq<char>,
    margin: Seq<char>,
    max: int,
    trailing: bool,
)
    requires
        all_within(items, margin.len(), max, trailing),
        i <= items.len(),
        blank(margin),
        line.len() >= margin.len(),
        line.len() == margin.len() ==> line == margin,
        widest(trimmed(line)) <= max,
        tail_len(pre) == 0,
        widest(pre) <= max,
    ensures
        tail_len(pre + packed(items, i, line, margin, max, trailing)) == 0,
        widest(pre + packed(items, i, line, margin, max, trailing)) <= max,
    decreases items.len() - i,
{
    let out = packed(items, i, line, margin, max, trailing);
    let shown = trimmed(line);
    if i >= items.len() {
        if line.len() > margin.len() {
            assert(pre + out =~= (pre + shown) + seq!['\n']);
            lemma_widest_after_break(pre, shown);
            lemma_append_newline(pre + shown);
        } else {
            assert(pre + out =~= pre);
        }
    } else {
        let j = i as int;
        let item = separated(items, j, trailing);
        assert(within(items[j], margin.len(), has_comma(items.len() as int, j, trailing), max));
        if line.len() + item.len() <= max || line.len() <= margin.len() {
            let grown = line + item;
            if line.len() + item.len() <= max {
                lemma_trimmed_prefix(grown);
                lemma_widest_len(trimmed(grown));
            } else {
                assert(grown == margin + item);
                lemma_line_within(items, j, margin, max, trailing);
            }
            if grown.len() == margin.len() {
                assert(grown =~= line);
            }
            lemma_packed_width(pre, items, i + 1, grown, margin, max, trailing);
        } else {
            let fresh = margin + item;
            let rest = packed(items, i + 1, fresh, margin, max, trailing);
            let ended = (pre + shown) + seq!['\n'];
            assert(pre + out =~= ended + rest);
            lemma_widest_after_break(pre, shown);
            lemma_append_newline(pre + shown);
            lemma_line_within(items, j, margin, max, trailing);
            if fresh.len() == margin.len() {
                assert(fresh =~= margin);
            }
            lemma_packed_width(ended, items, i + 1, fresh, margin, max, trailing);
        }
    }
}

/// Fields stacked one to a line keep within the maximum length if each has
/// room on its line.
proof fn lemma_stacked_width(
    pre: Seq<char>,
    items: Seq<Seq<char>>,
    m: nat,
    margin: Seq<char>,
    max: int,
    trailing: bool,
)
    requires
        all_within(items, margin.len(), max, trailing),
        m <= items.len(),
        blank(margin),
        tail_len(pre) == 0,
        widest(pre) <= max,
    ensures
        tail_len(pre + stacked_lines(items, m, margin, trailing)) == 0,
        widest(pre + stacked_lines(items, m, margin, trailing)) <= max,
    decreases m,
{
    if m == 0 {
        assert(pre + stacked_lines(items, m, margin, trailing) =~= pre);
    } else {
        let j = (m - 1) as int;
        let before = pre + stacked_lines(items, (m - 1) as nat, margin, trailing);
        let shown = trimmed(margin + separated(items, j, trailing));
        lemma_stacked_width(pre, items, (m - 1) as nat, margin, max, trailing);
        assert(within(items[j], margin.len(), has_comma(items.len() as int, j, trailing), max));
        lemma_line_within(items, j, margin, max, trailing);
        assert(pre + stacked_lines(items, m, margin, trailing) =~= (before + shown) + seq!['\n']);
        lemma_widest_after_break(before, shown);
        lemma_append_newline(before + shown);
    }
}

/// Items joined by a comma and a space are as long as the items and the
/// separators together.
proof fn lemma_joined_len(items: Seq<Seq<char>>)
    requires
        items.len() > 0,
    ensures
        joined(items, seq![',', ' ']).len() == total_len(items) + 2 * (items.len() - 1),
    decreases items.len(),
{
    if items.len() == 1 {
        assert(items.drop_last() =~= Seq::<Seq<char>>::empty());
        assert(total_len(items.drop_last()) == 0);
    } else {
        lemma_joined_len(items.drop_last());
    }
}

/// A text that is short enough behind its lead and before its comma keeps
/// every line within the maximum.
proof fn lemma_short_within(t: Seq<char>, lead: nat, comma: bool, max: int)
    requires
        lead + t.len() + (if comma {
            1int
        } else {
            0int
        }) <= max,
    ensures
        within(t, lead, comma, max),
{
    lemma_widest_len(spaces(lead) + t + comma_text(comma));
}

/// An array, a tuple or an object that is written over several lines keeps
/// within the maximum length, if its brackets fit and every item has room
/// on a line of its own.
proof fn lemma_wrapped_width(
    b: Bracket,
    items: Seq<Seq<char>>,
    layout: Layout,
    depth: nat,
    lead: nat,
    comma: bool,
)
    requires
        b != Bracket::Struct,
        items.len() > 0,
        !fits(items, layout, depth),
        lead + 1 <= layout.max_line_length,
        indent(layout, depth).len() + 1 + (if comma {
            1int
        } else {
            0int
        }) <= layout.max_line_length,
        all_within(
            items,
            indent(layout, depth + 1).len(),
            layout.max_line_length as int,
            layout.trailing_comma,
        ),
    ensures
        within(arranged(b, items, layout, depth), lead, comma, layout.max_line_length as int),
{
    let max = layout.max_line_length as int;
    let t = arranged(b, items, layout, depth);
    let o = b.open_text();
    let margin = indent(layout, depth + 1);
    let back = indent(layout, depth);
    let empty = Seq::<char>::empty();
    let lines = packed(items, 0, margin, margin, max, layout.trailing_comma);
    let first = spaces(lead) + o;
    assert(o.len() == 1);
    assert(no_newline(first));
    assert(empty + first =~= first);
    lemma_append_text(empty, first);
    lemma_append_newline(first);
    let head = first + seq!['\n'];
    lemma_trimmed_prefix(margin);
    assert(widest(trimmed(margin)) == 0);
    lemma_packed_width(head, items, 0, margin, margin, max, layout.trailing_comma);
    let body = head + lines;
    let foot = back + seq![b.close_char()] + comma_text(comma);
    assert(no_newline(foot)) by {
        assert forall|i: int| 0 <= i < foot.len() implies #[trigger] foot[i] != '\n' by {
            if i < back.len() {
                assert(foot[i] == back[i]);
            }
        }
    }
    lemma_append_text(body, foot);
    assert(spaces(lead) + t + comma_text(comma) =~= body + foot);
}

/// A struct with fields keeps within the maximum length, if its brackets
/// fit and every field has room on its line.
proof fn lemma_struct_width(
    items: Seq<Seq<char>>,
    layout: Layout,
    depth: nat,
    lead: nat,
    comma: bool,
)
    requires
        items.len() > 0,
        lead + 2 <= layout.max_line_length,
        indent(layout, depth).len() + 1 + (if comma {
            1int
        } else {
            0int
        }) <= layout.max_line_length,
        all_within(
            items,
            indent(layout, depth + 1).len(),
            layout.max_line_length as int,
            layout.trailing_comma,
        ),
    ensures
        within(stacked(items, layout, depth), lead, comma, layout.max_line_length as int),
{
    let max = layout.max_line_length as int;
    let t = stacked(items, layout, depth);
    let margin = indent(layout, depth + 1);
    let back = indent(layout, depth);
    let empty = Seq::<char>::empty();
    let lines = stacked_lines(items, items.len(), margin, layout.trailing_comma);
    let first = spaces(lead) + seq!['@', '('];
    assert(no_newline(first));
    assert(empty + first =~= first);
    lemma_append_text(empty, first);
    lemma_append_newline(first);
    let head = first + seq!['\n'];
    lemma_stacked_width(head, items, items.len(), margin, max, layout.trailing_comma);
    let body = head + lines;
    let foot = back + seq![')'] + comma_text(comma);
    assert(no_newline(foot)) by {
        assert forall|i: int| 0 <= i < foot.len() implies #[trigger] foot[i] != '\n' by {
            if i < back.len() {
                assert(foot[i] == back[i]);
            }
        }
    }
    lemma_append_text(body, foot);
    assert(spaces(lead) + t + comma_text(comma) =~= body + foot);
}

/// An escaped text holds no line feed.
pub proof fn lemma_escape_on_one_line(t: Seq<char>)
    ensures
        no_newline(escape(t)),
    decreases t.len(),
{
    if t.len() > 0 {
        let c = t[0];
        let head = escape_char(c);
        let rest = escape(t.skip(1));
        lemma_escape_on_one_line(t.skip(1));
        assert(no_newline(head)) by {
            match short_escape(c) {
                Some(e) => {
                    assert(head[0] == '\\' && head[1] == e);
                },
                None => {
                    if is_control(c) {
                        let x = c as u32 as int;
                        assert(head[3] == hex_digit((x / 4096) % 16));
                        assert(head[4] == hex_digit((x / 256) % 16));
                        assert(head[5] == hex_digit((x / 16) % 16));
                        assert(head[6] == hex_digit(x % 16));
                        assert(head[0] == '\\' && head[1] == 'u' && head[2] == '{' && head[7]
                            == '}');
                    } else {
                        assert(head[0] == c);
                    }
                },
            }
        }
        assert forall|i: int| 0 <= i < escape(t).len() implies #[trigger] escape(t)[i] != '\n' by {
            if i < head.len() {
                assert(escape(t)[i] == head[i]);
            } else {
                assert(escape(t)[i] == rest[i - head.len()]);
            }
        }
    }
}

/// A numeric literal holds no line feed.
pub proof fn lemma_literal_on_one_line(t: Seq<char>)
    requires
        is_numeric_literal(t),
    ensures
        no_newline(t),
{
    let a = sign_end(t, 0);
    let b = digits_end(t, a);
    let c = fraction_end(t, b);
    lemma_digits_end(t, a);
    if has(t, b, '.') {
        lemma_digits_end(t, b + 1);
    }
    if has(t, c, 'e') || has(t, c, 'E') {
        lemma_digits_end(t, exponent_digits(t, c));
    }
    assert forall|i: int| 0 <= i < t.len() implies #[trigger] t[i] != '\n' by {
        if i < a {
        } else if i < b {
            assert(is_digit(t[i]));
        } else if i < c {
            if i > b {
                assert(is_digit(t[i]));
            }
        } else {
            let d = exponent_digits(t, c);
            if i >= d {
                assert(is_digit(t[i]));
            }
        }
    }
}

/// A keyword, a number or a text literal of a well-formed value stands on
/// one line: its written form holds no line feed.
pub proof fn lemma_atom_on_one_line(d: Data)
    requires
        d.wf(),
        d is Null || d is Boolean || d is Number || d is Text,
    ensures
        no_newline(atom_text(d)),
{
    let t = atom_text(d);
    match d {
        Data::Null => {
            assert(t[0] == 'n' && t[1] == 'u' && t[2] == 'l' && t[3] == 'l');
        },
        Data::Boolean(v) => {
            if v {
                assert(t[0] == 't' && t[1] == 'r' && t[2] == 'u' && t[3] == 'e');
            } else {
                assert(t[0] == 'f' && t[1] == 'a' && t[2] == 'l' && t[3] == 's' && t[4] == 'e');
            }
        },
        Data::Number(n) => {
            lemma_numeral_text(n);
            lemma_literal_on_one_line(t);
        },
        Data::Text(x) => {
            lemma_escape_on_one_line(x);
            let e = escape(x);
            assert forall|i: int| 0 <= i < t.len() implies #[trigger] t[i] != '\n' by {
                if 0 < i && i <= e.len() {
                    assert(t[i] == e[i - 1]);
                }
            }
        },
        _ => {},
    }
}

/// The items of an array or a tuple have room on lines of their own if its
/// values have room there.
proof fn lemma_values_within(a: Seq<Data>, layout: Layout, depth: nat)
    requires
        forall|j: int|
            0 <= j < a.len() ==> within(
                pretty_text(#[trigger] a[j], layout, depth + 1),
                indent(layout, depth + 1).len(),
                has_comma(a.len() as int, j, layout.trailing_comma),
                layout.max_line_length as int,
            ),
    ensures
        pretty_values(a, layout, depth + 1, a.len()).len() == a.len(),
        all_within(
            pretty_values(a, layout, depth + 1, a.len()),
            indent(layout, depth + 1).len(),
            layout.max_line_length as int,
            layout.trailing_comma,
        ),
{
    let items = pretty_values(a, layout, depth + 1, a.len());
    lemma_pretty_values(a, layout, depth + 1, a.len());
    assert forall|j: int| 0 <= j < items.len() implies within(
        #[trigger] items[j],
        indent(layout, depth + 1).len(),
        has_comma(items.len() as int, j, layout.trailing_comma),
        layout.max_line_length as int,
    ) by {
        assert(items[j] == pretty_text(a[j], layout, depth + 1));
    }
}

/// The pretty forms of the values are the values' pretty forms, place by
/// place.
proof fn lemma_pretty_values(a: Seq<Data>, layout: Layout, depth: nat, n: nat)
    requires
        n <= a.len(),
    ensures
        pretty_values(a, layout, depth, n).len() == n,
        forall|j: int|
            0 <= j < n ==> #[trigger] pretty_values(a, layout, depth, n)[j] == pretty_text(
                a[j],
                layout,
                depth,
            ),
    decreases n,
{
    if n > 0 {
        lemma_pretty_values(a, layout, depth, (n - 1) as nat);
    }
}

/// The pretty forms of the entries of an object are `"key": ` and the
/// value's pretty form, place by place.
proof fn lemma_pretty_members(e: Seq<(Seq<char>, Data)>, layout: Layout, depth: nat, n: nat)
    requires
        n <= e.len(),
    ensures
        pretty_members(e, layout, depth, n).len() == n,
        forall|j: int|
            0 <= j < n ==> #[trigger] pretty_members(e, layout, depth, n)[j] == quoted(e[j].0)
                + seq![':', ' '] + pretty_text(e[j].1, layout, depth),
    decreases n,
{
    if n > 0 {
        lemma_pretty_members(e, layout, depth, (n - 1) as nat);
    }
}

/// The pretty forms of the fields of a struct are `name = ` and the value's
/// pretty form, place by place.
proof fn lemma_pretty_fields(e: Seq<(Seq<char>, Data)>, layout: Layout, depth: nat, n: nat)
    requires
        n <= e.len(),
    ensures
        pretty_fields(e, layout, depth, n).len() == n,
        forall|j: int|
            0 <= j < n ==> #[trigger] pretty_fields(e, layout, depth, n)[j] == e[j].0 + seq![
                ' ',
                '=',
                ' ',
            ] + pretty_text(e[j].1, layout, depth),
    decreases n,
{
    if n > 0 {
        lemma_pretty_fields(e, layout, depth, (n - 1) as nat);
    }
}

/// An item that is a key and a value has room behind the margin if the
/// value has room behind the margin and the key.
proof fn lemma_keyed_within(
    key: Seq<char>,
    t: Seq<char>,
    margin_len: nat,
    comma: bool,
    max: int,
)
    requires
        no_newline(key),
        within(t, margin_len + key.len(), comma, max),
    ensures
        within(key + t, margin_len, comma, max),
{
    let a = spaces(margin_len) + key;
    let b = spaces(margin_len + key.len());
    let x = t + comma_text(comma);
    assert(no_newline(a)) by {
        assert forall|i: int| 0 <= i < a.len() implies #[trigger] a[i] != '\n' by {
            if i >= margin_len {
                assert(a[i] == key[i - margin_len]);
            }
        }
    }
    lemma_lead_counts(a, b, x);
    assert(spaces(margin_len) + (key + t) + comma_text(comma) =~= a + x);
    assert(spaces(margin_len + key.len()) + t + comma_text(comma) =~= b + x);
}

/// The width bound, at any place: a well-formed value that has room where
/// it stands keeps every line within the maximum line length.
pub proof fn lemma_width_bound_at(d: Data, layout: Layout, depth: nat, lead: nat, comma: bool)
    requires
        d.wf(),
        roomy(d, layout, depth, lead, comma),
    ensures
        within(pretty_text(d, layout, depth), lead, comma, layout.max_line_length as int),
    decreases d,
{
    let max = layout.max_line_length as int;
    let t = pretty_text(d, layout, depth);
    let margin = indent(layout, depth + 1).len();
    let trailing = layout.trailing_comma;
    match d {
        Data::Array(a) => {
            let items = pretty_values(a, layout, depth + 1, a.len());
            if a.len() == 0 || fits(items, layout, depth) {
                lemma_short_within(t, lead, comma, max);
            } else {
                assert forall|j: int| 0 <= j < a.len() implies within(
                    pretty_text(#[trigger] a[j], layout, depth + 1),
                    margin,
                    has_comma(a.len() as int, j, trailing),
                    max,
                ) by {
                    lemma_width_bound_at(
                        a[j],
                        layout,
                        depth + 1,
                        margin,
                        has_comma(a.len() as int, j, trailing),
                    );
                }
                lemma_values_within(a, layout, depth);
                lemma_wrapped_width(Bracket::Array, items, layout, depth, lead, comma);
            }
        },
        Data::Tuple(a) => {
            let items = pretty_values(a, layout, depth + 1, a.len());
            if a.len() == 0 || fits(items, layout, depth) {
                lemma_short_within(t, lead, comma, max);
            } else {
                assert forall|j: int| 0 <= j < a.len() implies within(
                    pretty_text(#[trigger] a[j], layout, depth + 1),
                    margin,
                    has_comma(a.len() as int, j, trailing),
                    max,
                ) by {
                    lemma_width_bound_at(
                        a[j],
                        layout,
                        depth + 1,
                        margin,
                        has_comma(a.len() as int, j, trailing),
                    );
                }
                lemma_values_within(a, layout, depth);
                lemma_wrapped_width(Bracket::Tuple, items, layout, depth, lead, comma);
            }
        },
        Data::Object(e) => {
            let items = pretty_members(e, layout, depth + 1, e.len());
            if e.len() == 0 || fits(items, layout, depth) {
                lemma_short_within(t, lead, comma, max);
            } else {
                lemma_pretty_members(e, layout, depth + 1, e.len());
                assert forall|j: int| 0 <= j < items.len() implies within(
                    #[trigger] items[j],
                    margin,
                    has_comma(items.len() as int, j, trailing),
                    max,
                ) by {
                    let key = quoted(e[j].0) + seq![':', ' '];
                    let vt = pretty_text(e[j].1, layout, depth + 1);
                    let cj = has_comma(e.len() as int, j, trailing);
                    assert(roomy(e[j].1, layout, depth + 1, margin + quoted(e[j].0).len() + 2, cj));
                    lemma_width_bound_at(
                        e[j].1,
                        layout,
                        depth + 1,
                        margin + quoted(e[j].0).len() + 2,
                        cj,
                    );
                    lemma_escape_on_one_line(e[j].0);
                    let esc = escape(e[j].0);
                    assert(no_newline(key)) by {
                        assert forall|i: int| 0 <= i < key.len() implies #[trigger] key[i]
                            != '\n' by {
                            if 0 < i && i <= esc.len() {
                                assert(key[i] == esc[i - 1]);
                            }
                        }
                    }
                    assert(key.len() == quoted(e[j].0).len() + 2);
                    lemma_keyed_within(key, vt, margin, cj, max);
                    assert(items[j] == key + vt);
                }
                lemma_wrapped_width(Bracket::Object, items, layout, depth, lead, comma);
            }
        },
        Data::Struct(_, e) => {
            let items = pretty_fields(e, layout, depth + 1, e.len());
            if e.len() == 0 {
                assert(t.len() == 3);
                lemma_short_within(t, lead, comma, max);
            } else {
                lemma_pretty_fields(e, layout, depth + 1, e.len());
                assert forall|j: int| 0 <= j < items.len() implies within(
                    #[trigger] items[j],
                    margin,
                    has_comma(items.len() as int, j, trailing),
                    max,
                ) by {
                    let key = e[j].0 + seq![' ', '=', ' '];
                    let vt = pretty_text(e[j].1, layout, depth + 1);
                    let cj = has_comma(e.len() as int, j, trailing);
                    assert(no_newline(e[j].0) && roomy(
                        e[j].1,
                        layout,
                        depth + 1,
                        margin + e[j].0.len() + 3,
                        cj,
                    ));
                    lemma_width_bound_at(e[j].1, layout, depth + 1, margin + e[j].0.len() + 3, cj);
                    assert(no_newline(key)) by {
                        assert forall|i: int| 0 <= i < key.len() implies #[trigger] key[i]
                            != '\n' by {
                            if i < e[j].0.len() {
                                assert(key[i] == e[j].0[i]);
                            }
                        }
                    }
                    lemma_keyed_within(key, vt, margin, cj, max);
                    assert(items[j] == key + vt);
                }
                lemma_struct_width(items, layout, depth, lead, comma);
            }
        },
        _ => {
            lemma_short_within(t, lead, comma, max);
        },
    }
}

/// The width bound: what the pretty encoder writes for a well-formed value
/// that has room has no line longer than the maximum line length.
pub proof fn lemma_width_bound(d: Data, layout: Layout)
    requires
        d.wf(),
        roomy(d, layout, 0, 0, false),
    ensures
        widest(pretty_text(d, layout, 0)) <= layout.max_line_length,
{
    lemma_width_bound_at(d, layout, 0, 0, false);
    assert(spaces(0) + pretty_text(d, layout, 0) + comma_text(false) =~= pretty_text(d, layout, 0));
}

/// A value that goes on one line at the outermost level has room, whatever
/// its items are: what is written is no longer than the maximum line
/// length.
pub proof fn lemma_one_line_is_roomy(d: Data, layout: Layout)
    requires
        match d {
            Data::Array(a) => a.len() > 0 && fits(pretty_values(a, layout, 1, a.len()), layout, 0),
            Data::Tuple(a) => a.len() > 0 && fits(pretty_values(a, layout, 1, a.len()), layout, 0),
            Data::Object(e) => e.len() > 0 && fits(
                pretty_members(e, layout, 1, e.len()),
                layout,
                0,
            ),
            _ => false,
        },
    ensures
        roomy(d, layout, 0, 0, false),
        pretty_text(d, layout, 0).len() <= layout.max_line_length,
{
    let t = pretty_text(d, layout, 0);
    match d {
        Data::Array(a) => {
            let items = pretty_values(a, layout, 1, a.len());
            lemma_pretty_values(a, layout, 1, a.len());
            lemma_joined_len(items);
            assert(t.len() == candidate_len(items));
        },
        Data::Tuple(a) => {
            let items = pretty_values(a, layout, 1, a.len());
            lemma_pretty_values(a, layout, 1, a.len());
            lemma_joined_len(items);
            assert(t.len() == candidate_len(items));
        },
        Data::Object(e) => {
            let items = pretty_members(e, layout, 1, e.len());
            lemma_pretty_members(e, layout, 1, e.len());
            lemma_joined_len(items);
            assert(t.len() == candidate_len(items));
        },
        _ => {},
    }
}

/// An array or a tuple of keywords, numbers and text literals has room at
/// the outermost level, in one line or in several, if each item fits with a
/// comma behind one indentation.
pub proof fn lemma_flat_is_roomy(d: Data, layout: Layout)
    requires
        d.wf(),
        d matches Data::Array(a) ==> a.len() > 0 && forall|j: int|
            0 <= j < a.len() ==> ((#[trigger] a[j]) is Null || a[j] is Boolean || a[j] is Number
                || a[j] is Text) && layout.indent_size + atom_text(a[j]).len() + 1
                <= layout.max_line_length,
        d matches Data::Tuple(a) ==> a.len() > 0 && forall|j: int|
            0 <= j < a.len() ==> ((#[trigger] a[j]) is Null || a[j] is Boolean || a[j] is Number
                || a[j] is Text) && layout.indent_size + atom_text(a[j]).len() + 1
                <= layout.max_line_length,
        d is Array || d is Tuple,
    ensures
        roomy(d, layout, 0, 0, false),
{
    let a = match d {
        Data::Array(a) => a,
        Data::Tuple(a) => a,
        _ => Seq::empty(),
    };
    let items = pretty_values(a, layout, 1, a.len());
    lemma_indent_deeper(layout, 0);
    assert(indent(layout, 0).len() == 0);
    assert(indent(layout, 1).len() == layout.indent_size);
    assert(a[0] is Null || a[0] is Boolean || a[0] is Number || a[0] is Text);
    if fits(items, layout, 0) {
        lemma_one_line_is_roomy(d, layout);
    } else {
        assert forall|j: int| 0 <= j < a.len() implies roomy(
            #[trigger] a[j],
            layout,
            1,
            indent(layout, 1).len(),
            has_comma(a.len() as int, j, layout.trailing_comma),
        ) by {
            assert(pretty_text(a[j], layout, 1) == atom_text(a[j]));
        }
    }
}

} // verus!
