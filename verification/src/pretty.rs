//! The pretty encoder: a value over several lines, indented by depth, with
//! lines filled up to a maximum length.

use vstd::prelude::*;
use crate::chars::{append_chars, append_range, chars_of, string_of};
use crate::error::Error;
use crate::number::Number;
use crate::syntax::{atom_text, joined, push_boolean, push_null, push_quoted, quoted, texts, Bracket};
use crate::value::{lemma_array_view, views, Data, Entries, Value};

verus! {

/// How the pretty encoder lays a value out.
#[derive(Clone, Copy, Debug, PartialEq, Eq, Structural)]
pub struct Layout {
    /// The number of spaces by which each level of nesting is indented.
    pub indent_size: usize,
    /// The number of characters that a line should not exceed.
    pub max_line_length: usize,
    /// Whether the last item of a composite written over several lines is
    /// followed by a comma.
    pub trailing_comma: bool,
}

/// The layout of an encoder whose settings were not changed: two spaces per
/// level, lines of up to 100 characters, a comma after the last item.
pub open spec fn default_layout() -> Layout {
    Layout { indent_size: 2, max_line_length: 100, trailing_comma: true }
}

/// `n` spaces.
pub open spec fn spaces(n: nat) -> Seq<char> {
    Seq::new(n, |i: int| ' ')
}

/// The indentation at nesting depth `depth`.
pub open spec fn indent(layout: Layout, depth: nat) -> Seq<char> {
    spaces(depth * (layout.indent_size as nat))
}

/// The lengths of the items, added up.
pub open spec fn total_len(items: Seq<Seq<char>>) -> nat
    decreases items.len(),
{
    if items.len() == 0 {
        0
    } else {
        total_len(items.drop_last()) + items.last().len()
    }
}

/// The length of the items on one line: a bracket, the items with a comma
/// and a space between each two, and a bracket.
pub open spec fn candidate_len(items: Seq<Seq<char>>) -> int {
    1 + total_len(items) + 2 * (items.len() - 1) + 1
}

/// The room kept free for a comma that the enclosing composite may put
/// behind a nested one.
pub open spec fn comma_allowance(depth: nat) -> int {
    if depth > 0 {
        1
    } else {
        0
    }
}

/// Whether the items of a composite at `depth` go on one line: indentation,
/// the items on one line and the comma allowance stay within the maximum
/// line length.
pub open spec fn fits(items: Seq<Seq<char>>, layout: Layout, depth: nat) -> bool {
    indent(layout, depth).len() + candidate_len(items) + comma_allowance(depth)
        <= layout.max_line_length
}

/// Item `i` with what follows it on its line: a comma and a space behind
/// every item but the last; behind the last a comma alone if a trailing
/// comma is wanted, else nothing.
pub open spec fn separated(items: Seq<Seq<char>>, i: int, trailing: bool) -> Seq<char> {
    if i < items.len() - 1 {
        items[i] + seq![',', ' ']
    } else if trailing {
        items[i] + seq![',']
    } else {
        items[i]
    }
}

/// `line` without the spaces at its end.
pub open spec fn trimmed(line: Seq<char>) -> Seq<char>
    decreases line.len(),
{
    if line.len() > 0 && line.last() == ' ' {
        trimmed(line.drop_last())
    } else {
        line
    }
}

/// The lines that hold the items from `i` on, when `line` is the line begun
/// so far and every line starts with `margin`.
///
/// An item goes on the line begun if the line then stays within `max`
/// characters, or if the line holds nothing but the margin yet. Otherwise the
/// line begun is ended and the item starts the next one. Every line is
/// written without the spaces at its end.
pub open spec fn packed(
    items: Seq<Seq<char>>,
    i: nat,
    line: Seq<char>,
    margin: Seq<char>,
    max: int,
    trailing: bool,
) -> Seq<char>
    decreases items.len() - i,
{
    if i >= items.len() {
        if line.len() > margin.len() {
            trimmed(line) + seq!['\n']
        } else {
            Seq::empty()
        }
    } else {
        let item = separated(items, i as int, trailing);
        if line.len() + item.len() <= max || line.len() <= margin.len() {
            packed(items, i + 1, line + item, margin, max, trailing)
        } else {
            trimmed(line) + seq!['\n'] + packed(items, i + 1, margin + item, margin, max, trailing)
        }
    }
}

/// An array, a tuple or an object at `depth` with the given items: the
/// brackets alone if there is no item; all on one line if that fits; else
/// the opening bracket, the items packed into lines one level deeper, and
/// the closing bracket on a line of its own.
pub open spec fn arranged(b: Bracket, items: Seq<Seq<char>>, layout: Layout, depth: nat) -> Seq<
    char,
> {
    if items.len() == 0 {
        b.open_text() + seq![b.close_char()]
    } else if fits(items, layout, depth) {
        b.open_text() + joined(items, seq![',', ' ']) + seq![b.close_char()]
    } else {
        b.open_text() + seq!['\n'] + packed(
            items,
            0,
            indent(layout, depth + 1),
            indent(layout, depth + 1),
            layout.max_line_length as int,
            layout.trailing_comma,
        ) + indent(layout, depth) + seq![b.close_char()]
    }
}

/// The first `n` items, each on a line of its own that starts with `margin`.
pub open spec fn stacked_lines(items: Seq<Seq<char>>, n: nat, margin: Seq<char>, trailing: bool) -> Seq<
    char,
>
    decreases n,
{
    if n == 0 {
        Seq::empty()
    } else {
        stacked_lines(items, (n - 1) as nat, margin, trailing) + trimmed(
            margin + separated(items, n - 1, trailing),
        ) + seq!['\n']
    }
}

/// A struct at `depth` with the given fields: the brackets alone if there is
/// no field; else every field on a line of its own, whatever the maximum
/// line length.
pub open spec fn stacked(items: Seq<Seq<char>>, layout: Layout, depth: nat) -> Seq<char> {
    if items.len() == 0 {
        seq!['@', '(', ')']
    } else {
        seq!['@', '(', '\n'] + stacked_lines(
            items,
            items.len(),
            indent(layout, depth + 1),
            layout.trailing_comma,
        ) + indent(layout, depth) + seq![')']
    }
}

/// The pretty form of a value at nesting depth `depth`.
///
/// A keyword, a number or a text literal stands as it is. The items of a
/// composite are its values in pretty form one level deeper: for an object
/// `"key": value`, for a struct `name = value`, in the order of the keys.
/// They are laid out as `arranged` and `stacked` say. The name of a struct is
/// not written.
pub open spec fn pretty_text(d: Data, layout: Layout, depth: nat) -> Seq<char>
    decreases d, 0nat,
{
    match d {
        Data::Array(a) => arranged(
            Bracket::Array,
            pretty_values(a, layout, depth + 1, a.len()),
            layout,
            depth,
        ),
        Data::Tuple(a) => arranged(
            Bracket::Tuple,
            pretty_values(a, layout, depth + 1, a.len()),
            layout,
            depth,
        ),
        Data::Object(e) => arranged(
            Bracket::Object,
            pretty_members(e, layout, depth + 1, e.len()),
            layout,
            depth,
        ),
        Data::Struct(_, e) => stacked(pretty_fields(e, layout, depth + 1, e.len()), layout, depth),
        _ => atom_text(d),
    }
}

/// The pretty forms at `depth` of the first `n` values of `a`.
pub open spec fn pretty_values(a: Seq<Data>, layout: Layout, depth: nat, n: nat) -> Seq<Seq<char>>
    decreases a, n,
{
    if n == 0 || n > a.len() {
        Seq::empty()
    } else {
        pretty_values(a, layout, depth, (n - 1) as nat).push(pretty_text(a[n - 1], layout, depth))
    }
}

/// The pretty forms at `depth` of the first `n` entries of an object:
/// `"key": value`.
pub open spec fn pretty_members(e: Seq<(Seq<char>, Data)>, layout: Layout, depth: nat, n: nat) -> Seq<
    Seq<char>,
>
    decreases e, n,
{
    if n == 0 || n > e.len() {
        Seq::empty()
    } else {
        pretty_members(e, layout, depth, (n - 1) as nat).push(
            quoted(e[n - 1].0) + seq![':', ' '] + pretty_text(e[n - 1].1, layout, depth),
        )
    }
}

/// The pretty forms at `depth` of the first `n` fields of a struct:
/// `name = value`.
pub open spec fn pretty_fields(e: Seq<(Seq<char>, Data)>, layout: Layout, depth: nat, n: nat) -> Seq<
    Seq<char>,
>
    decreases e, n,
{
    if n == 0 || n > e.len() {
        Seq::empty()
    } else {
        pretty_fields(e, layout, depth, (n - 1) as nat).push(
            e[n - 1].0 + seq![' ', '=', ' '] + pretty_text(e[n - 1].1, layout, depth),
        )
    }
}

/// The indentation one level deeper is the indentation plus one indent.
pub proof fn lemma_indent_deeper(layout: Layout, depth: nat)
    ensures
        indent(layout, depth + 1) == indent(layout, depth) + spaces(layout.indent_size as nat),
{
    let size = layout.indent_size as nat;
    assert((depth + 1) * size == depth * size + size) by (nonlinear_arith);
    assert(indent(layout, depth + 1) =~= indent(layout, depth) + spaces(size));
}

/// Appends `line` without the spaces at its end to `out`.
fn push_trimmed(out: &mut Vec<char>, line: &Vec<char>)
    ensures
        final(out)@ == old(out)@ + trimmed(line@),
{
    let mut end: usize = line.len();
    assert(line@.take(end as int) =~= line@);
    while end > 0 && line[end - 1] == ' '
        invariant
            end <= line.len(),
            trimmed(line@) == trimmed(line@.take(end as int)),
        decreases end,
    {
        assert(line@.take(end as int).drop_last() =~= line@.take(end - 1));
        end -= 1;
    }
    assert(line@.take(end as int) =~= line@.subrange(0, end as int));
    append_range(out, line, 0, end);
}

/// The sum of `acc` and `x` if it is at most `max`.
fn add_within(acc: usize, x: usize, max: usize) -> (r: Option<usize>)
    requires
        acc <= max,
    ensures
        match r {
            Some(s) => s == acc + x && s <= max,
            None => acc + x > max,
        },
{
    if x <= max - acc {
        Some(acc + x)
    } else {
        None
    }
}

/// A value that is ready to be written in pretty form, and the layout to
/// write it in.
pub struct Encoder {
    input: Value,
    layout: Layout,
}

impl View for Encoder {
    type V = Data;

    closed spec fn view(&self) -> Data {
        self.input@
    }
}

impl Encoder {
    /// The layout that the encoder writes in.
    pub closed spec fn layout(&self) -> Layout {
        self.layout
    }

    /// An encoder for `input` with the default layout.
    pub fn new(input: Value) -> (r: Encoder)
        ensures
            r@ == input@,
            r.layout() == default_layout(),
    {
        Encoder {
            input,
            layout: Layout { indent_size: 2, max_line_length: 100, trailing_comma: true },
        }
    }

    /// The same encoder with `size` spaces per level of nesting.
    pub fn indent_size(self, size: usize) -> (r: Encoder)
        ensures
            r@ == self@,
            r.layout() == (Layout { indent_size: size, ..self.layout() }),
    {
        let mut r = self;
        r.layout.indent_size = size;
        r
    }

    /// The same encoder with lines of up to `length` characters.
    pub fn max_line_length(self, length: usize) -> (r: Encoder)
        ensures
            r@ == self@,
            r.layout() == (Layout { max_line_length: length, ..self.layout() }),
    {
        let mut r = self;
        r.layout.max_line_length = length;
        r
    }

    /// The same encoder with or without a comma after the last item of a
    /// composite that is written over several lines.
    pub fn trailing_comma(self, enabled: bool) -> (r: Encoder)
        ensures
            r@ == self@,
            r.layout() == (Layout { trailing_comma: enabled, ..self.layout() }),
    {
        let mut r = self;
        r.layout.trailing_comma = enabled;
        r
    }

    /// The pretty form of the value, laid out from depth 0. It never fails.
    pub fn encode(self) -> (r: Result<String, Error>)
        ensures
            r matches Ok(s) && s@ == pretty_text(self@, self.layout(), 0),
    {
        let margin: Vec<char> = Vec::new();
        assert(margin@ =~= indent(self.layout, 0));
        let out = self.encode_value(&self.input, &margin, false, Ghost(0));
        Ok(string_of(&out))
    }

    /// The indentation one level deeper than `margin`.
    fn indent(&self, margin: &Vec<char>, Ghost(depth): Ghost<nat>) -> (r: Vec<char>)
        requires
            margin@ == indent(self.layout, depth),
        ensures
            r@ == indent(self.layout, depth + 1),
    {
        let mut r: Vec<char> = Vec::new();
        append_chars(&mut r, margin);
        let mut i: usize = 0;
        assert(r@ =~= margin@ + spaces(0));
        while i < self.layout.indent_size
            invariant
                i <= self.layout.indent_size,
                r@ == margin@ + spaces(i as nat),
            decreases self.layout.indent_size - i,
        {
            r.push(' ');
            assert(r@ =~= margin@ + spaces((i + 1) as nat));
            i += 1;
        }
        proof {
            lemma_indent_deeper(self.layout, depth);
        }
        r
    }

    fn encode_null(&self) -> (r: Vec<char>)
        ensures
            r@ == atom_text(Data::Null),
    {
        let mut r: Vec<char> = Vec::new();
        push_null(&mut r);
        assert(r@ =~= atom_text(Data::Null));
        r
    }

    fn encode_boolean(&self, value: bool) -> (r: Vec<char>)
        ensures
            r@ == atom_text(Data::Boolean(value)),
    {
        let mut r: Vec<char> = Vec::new();
        push_boolean(&mut r, value);
        assert(r@ =~= atom_text(Data::Boolean(value)));
        r
    }

    fn encode_number(&self, value: &Number) -> (r: Vec<char>)
        ensures
            r@ == atom_text(Data::Number(value@)),
    {
        let mut r: Vec<char> = Vec::new();
        value.append_to(&mut r);
        assert(r@ =~= atom_text(Data::Number(value@)));
        r
    }

    fn encode_text(&self, value: &String) -> (r: Vec<char>)
        ensures
            r@ == atom_text(Data::Text(value@)),
    {
        let chars = chars_of(value.as_str());
        let mut r: Vec<char> = Vec::new();
        push_quoted(&mut r, &chars);
        assert(r@ =~= atom_text(Data::Text(value@)));
        r
    }

    /// Whether the items of a composite go on one line.
    fn fits_on_line(&self, items: &Vec<Vec<char>>, margin_len: usize, nested: bool) -> (r: bool)
        requires
            items@.len() > 0,
        ensures
            r == (margin_len + candidate_len(texts(items@)) + (if nested {
                1int
            } else {
                0int
            }) <= self.layout.max_line_length),
    {
        let max: usize = self.layout.max_line_length;
        let ghost t = texts(items@);
        let extra: usize = if nested {
            3
        } else {
            2
        };
        if margin_len > max {
            return false;
        }
        let mut acc: usize = match add_within(margin_len, extra, max) {
            Some(s) => s,
            None => {
                return false;
            },
        };
        let mut i: usize = 0;
        assert(t.take(0) =~= Seq::<Seq<char>>::empty());
        while i < items.len()
            invariant
                i <= items.len(),
                t == texts(items@),
                acc <= max,
                max == self.layout.max_line_length,
                extra == (if nested {
                    3int
                } else {
                    2int
                }),
                acc == margin_len + extra + total_len(t.take(i as int)) + (if i > 0 {
                    2 * (i - 1)
                } else {
                    0
                }),
            decreases items.len() - i,
        {
            proof {
                assert(t.take(i + 1).drop_last() =~= t.take(i as int));
                assert(t.take(i + 1).last() == items@[i as int]@);
                lemma_total_len_prefix(t, i + 1);
                lemma_total_len_monotone(t, i as int);
                lemma_total_len_monotone(t, i + 1);
            }
            if i > 0 {
                match add_within(acc, 2, max) {
                    Some(s) => {
                        acc = s;
                    },
                    None => {
                        return false;
                    },
                }
            }
            match add_within(acc, items[i].len(), max) {
                Some(s) => {
                    acc = s;
                },
                None => {
                    return false;
                },
            }
            i += 1;
        }
        assert(t.take(items@.len() as int) =~= t);
        true
    }

    /// An array, a tuple or an object with the given items.
    fn arrange(
        &self,
        bracket: Bracket,
        items: &Vec<Vec<char>>,
        margin: &Vec<char>,
        nested: bool,
        Ghost(depth): Ghost<nat>,
    ) -> (r: Vec<char>)
        requires
            margin@ == indent(self.layout, depth),
            nested == (depth > 0),
        ensures
            r@ == arranged(bracket, texts(items@), self.layout, depth),
    {
        let ghost t = texts(items@);
        let n: usize = items.len();
        let mut out: Vec<char> = Vec::new();
        bracket.push_open(&mut out);
        if n == 0 {
            out.push(bracket.close());
            assert(out@ =~= arranged(bracket, t, self.layout, depth));
            return out;
        }
        if self.fits_on_line(items, margin.len(), nested) {
            let mut i: usize = 0;
            assert(t.take(0) =~= Seq::<Seq<char>>::empty());
            assert(out@ =~= bracket.open_text() + joined(t.take(0), seq![',', ' ']));
            while i < n
                invariant
                    i <= n,
                    n == items.len(),
                    t == texts(items@),
                    out@ == bracket.open_text() + joined(t.take(i as int), seq![',', ' ']),
                decreases n - i,
            {
                if i > 0 {
                    out.push(',');
                    out.push(' ');
                }
                append_chars(&mut out, &items[i]);
                proof {
                    assert(t.take(i + 1).drop_last() =~= t.take(i as int));
                    assert(t.take(i + 1).last() == items@[i as int]@);
                    assert(out@ =~= bracket.open_text() + joined(t.take(i + 1), seq![',', ' ']));
                }
                i += 1;
            }
            assert(t.take(n as int) =~= t);
            out.push(bracket.close());
            assert(out@ =~= arranged(bracket, t, self.layout, depth));
            return out;
        }
        let next = self.indent(margin, Ghost(depth));
        let max: usize = self.layout.max_line_length;
        let trailing: bool = self.layout.trailing_comma;
        out.push('\n');
        let mut line: Vec<char> = Vec::new();
        append_chars(&mut line, &next);
        assert(line@ =~= next@);
        let ghost head = out@;
        let ghost full = head + packed(t, 0, next@, next@, max as int, trailing);
        let mut i: usize = 0;
        while i < n
            invariant
                i <= n,
                n == items.len(),
                t == texts(items@),
                full == out@ + packed(t, i as nat, line@, next@, max as int, trailing),
            decreases n - i,
        {
            let mut item: Vec<char> = Vec::new();
            append_chars(&mut item, &items[i]);
            if i < n - 1 {
                item.push(',');
                item.push(' ');
            } else if trailing {
                item.push(',');
            }
            assert(item@ =~= separated(t, i as int, trailing));
            let within: bool = match line.len().checked_add(item.len()) {
                Some(s) => s <= max,
                None => false,
            };
            if within || line.len() <= next.len() {
                append_chars(&mut line, &item);
            } else {
                let ghost before = out@;
                let ghost ended = line@;
                push_trimmed(&mut out, &line);
                out.push('\n');
                line = Vec::new();
                append_chars(&mut line, &next);
                append_chars(&mut line, &item);
                proof {
                    assert(line@ =~= next@ + item@);
                    let rest = packed(t, (i + 1) as nat, next@ + item@, next@, max as int, trailing);
                    assert(out@ + rest =~= before + (trimmed(ended) + seq!['\n'] + rest));
                }
            }
            i += 1;
        }
        if line.len() > next.len() {
            push_trimmed(&mut out, &line);
            out.push('\n');
        }
        assert(out@ =~= full);
        append_chars(&mut out, margin);
        out.push(bracket.close());
        assert(out@ =~= arranged(bracket, t, self.layout, depth));
        out
    }

    /// A struct with the given fields.
    fn stack(&self, items: &Vec<Vec<char>>, margin: &Vec<char>, Ghost(depth): Ghost<nat>) -> (r:
        Vec<char>)
        requires
            margin@ == indent(self.layout, depth),
        ensures
            r@ == stacked(texts(items@), self.layout, depth),
    {
        let ghost t = texts(items@);
        let n: usize = items.len();
        let trailing: bool = self.layout.trailing_comma;
        let mut out: Vec<char> = Vec::new();
        out.push('@');
        out.push('(');
        if n == 0 {
            out.push(')');
            assert(out@ =~= stacked(t, self.layout, depth));
            return out;
        }
        out.push('\n');
        let next = self.indent(margin, Ghost(depth));
        let ghost head = out@;
        let mut i: usize = 0;
        assert(out@ =~= head + stacked_lines(t, 0, next@, trailing));
        while i < n
            invariant
                i <= n,
                n == items.len(),
                t == texts(items@),
                out@ == head + stacked_lines(t, i as nat, next@, trailing),
            decreases n - i,
        {
            let mut line: Vec<char> = Vec::new();
            append_chars(&mut line, &next);
            append_chars(&mut line, &items[i]);
            if i < n - 1 {
                line.push(',');
                line.push(' ');
            } else if trailing {
                line.push(',');
            }
            assert(line@ =~= next@ + separated(t, i as int, trailing));
            push_trimmed(&mut out, &line);
            out.push('\n');
            assert(out@ =~= head + stacked_lines(t, (i + 1) as nat, next@, trailing));
            i += 1;
        }
        append_chars(&mut out, margin);
        out.push(')');
        assert(head =~= seq!['@', '(', '\n']);
        assert(out@ =~= stacked(t, self.layout, depth));
        out
    }

    /// The pretty forms at `depth` of the values of `items`.
    fn encode_items(
        &self,
        items: &Vec<Value>,
        margin: &Vec<char>,
        Ghost(depth): Ghost<nat>,
    ) -> (r: Vec<Vec<char>>)
        requires
            margin@ == indent(self.layout, depth),
            depth > 0,
        ensures
            texts(r@) == pretty_values(views(items@), self.layout, depth, items@.len()),
        decreases items, 0nat,
    {
        let ghost a = views(items@);
        let mut r: Vec<Vec<char>> = Vec::new();
        let mut i: usize = 0;
        assert(texts(r@) =~= pretty_values(a, self.layout, depth, 0));
        while i < items.len()
            invariant
                i <= items.len(),
                a == views(items@),
                margin@ == indent(self.layout, depth),
                depth > 0,
                texts(r@) == pretty_values(a, self.layout, depth, i as nat),
            decreases items.len() - i,
        {
            let ghost before = texts(r@);
            let text = self.encode_value(&items[i], margin, true, Ghost(depth));
            r.push(text);
            assert(texts(r@) =~= before.push(text@));
            i += 1;
        }
        r
    }

    fn encode_array(
        &self,
        value: &Vec<Value>,
        margin: &Vec<char>,
        nested: bool,
        Ghost(depth): Ghost<nat>,
    ) -> (r: Vec<char>)
        requires
            margin@ == indent(self.layout, depth),
            nested == (depth > 0),
        ensures
            r@ == pretty_text(Data::Array(views(value@)), self.layout, depth),
        decreases value, 1nat,
    {
        let next = self.indent(margin, Ghost(depth));
        let items = self.encode_items(value, &next, Ghost(depth + 1));
        self.arrange(Bracket::Array, &items, margin, nested, Ghost(depth))
    }

    fn encode_tuple(
        &self,
        value: &Vec<Value>,
        margin: &Vec<char>,
        nested: bool,
        Ghost(depth): Ghost<nat>,
    ) -> (r: Vec<char>)
        requires
            margin@ == indent(self.layout, depth),
            nested == (depth > 0),
        ensures
            r@ == pretty_text(Data::Tuple(views(value@)), self.layout, depth),
        decreases value, 1nat,
    {
        let next = self.indent(margin, Ghost(depth));
        let items = self.encode_items(value, &next, Ghost(depth + 1));
        self.arrange(Bracket::Tuple, &items, margin, nested, Ghost(depth))
    }

    fn encode_object(
        &self,
        value: &Entries,
        margin: &Vec<char>,
        nested: bool,
        Ghost(depth): Ghost<nat>,
    ) -> (r: Vec<char>)
        requires
            margin@ == indent(self.layout, depth),
            nested == (depth > 0),
        ensures
            r@ == pretty_text(Data::Object(value@), self.layout, depth),
        decreases value, 1nat,
    {
        let ghost e = value@;
        let next = self.indent(margin, Ghost(depth));
        let mut items: Vec<Vec<char>> = Vec::new();
        let mut i: usize = 0;
        assert(texts(items@) =~= pretty_members(e, self.layout, depth + 1, 0));
        while i < value.len()
            invariant
                i <= e.len(),
                e == value@,
                next@ == indent(self.layout, depth + 1),
                texts(items@) == pretty_members(e, self.layout, depth + 1, i as nat),
            decreases e.len() - i,
        {
            let ghost before = texts(items@);
            let mut entry: Vec<char> = Vec::new();
            push_quoted(&mut entry, value.key_chars_at(i));
            entry.push(':');
            entry.push(' ');
            let text = self.encode_value(value.value_at(i), &next, true, Ghost(depth + 1));
            append_chars(&mut entry, &text);
            assert(entry@ =~= quoted(e[i as int].0) + seq![':', ' '] + pretty_text(
                e[i as int].1,
                self.layout,
                depth + 1,
            ));
            items.push(entry);
            assert(texts(items@) =~= before.push(entry@));
            i += 1;
        }
        self.arrange(Bracket::Object, &items, margin, nested, Ghost(depth))
    }

    fn encode_struct(&self, value: &Entries, margin: &Vec<char>, Ghost(depth): Ghost<nat>) -> (r:
        Vec<char>)
        requires
            margin@ == indent(self.layout, depth),
        ensures
            forall|name: Seq<char>|
                r@ == #[trigger] pretty_text(Data::Struct(name, value@), self.layout, depth),
        decreases value, 1nat,
    {
        let ghost e = value@;
        let next = self.indent(margin, Ghost(depth));
        let mut items: Vec<Vec<char>> = Vec::new();
        let mut i: usize = 0;
        assert(texts(items@) =~= pretty_fields(e, self.layout, depth + 1, 0));
        while i < value.len()
            invariant
                i <= e.len(),
                e == value@,
                next@ == indent(self.layout, depth + 1),
                texts(items@) == pretty_fields(e, self.layout, depth + 1, i as nat),
            decreases e.len() - i,
        {
            let ghost before = texts(items@);
            let mut field: Vec<char> = Vec::new();
            append_chars(&mut field, value.key_chars_at(i));
            field.push(' ');
            field.push('=');
            field.push(' ');
            let text = self.encode_value(value.value_at(i), &next, true, Ghost(depth + 1));
            append_chars(&mut field, &text);
            assert(field@ =~= e[i as int].0 + seq![' ', '=', ' '] + pretty_text(
                e[i as int].1,
                self.layout,
                depth + 1,
            ));
            items.push(field);
            assert(texts(items@) =~= before.push(field@));
            i += 1;
        }
        self.stack(&items, margin, Ghost(depth))
    }

    fn encode_value(
        &self,
        value: &Value,
        margin: &Vec<char>,
        nested: bool,
        Ghost(depth): Ghost<nat>,
    ) -> (r: Vec<char>)
        requires
            margin@ == indent(self.layout, depth),
            nested == (depth > 0),
        ensures
            r@ == pretty_text(value@, self.layout, depth),
        decreases value, 2nat,
    {
        match value {
            Value::Null => self.encode_null(),
            Value::Boolean(b) => self.encode_boolean(*b),
            Value::Number(n) => self.encode_number(n),
            Value::Text(t) => self.encode_text(t),
            Value::Array(a) => {
                proof {
                    lemma_array_view(*a);
                }
                self.encode_array(a, margin, nested, Ghost(depth))
            },
            Value::Tuple(a) => {
                proof {
                    lemma_array_view(*a);
                }
                self.encode_tuple(a, margin, nested, Ghost(depth))
            },
            Value::Object(e) => self.encode_object(e, margin, nested, Ghost(depth)),
            Value::Struct(_, e) => self.encode_struct(e, margin, Ghost(depth)),
        }
    }
}

/// A prefix is no longer in total than the whole.
pub proof fn lemma_total_len_monotone(t: Seq<Seq<char>>, n: int)
    requires
        0 <= n <= t.len(),
    ensures
        total_len(t.take(n)) <= total_len(t),
    decreases t.len() - n,
{
    if n == t.len() {
        assert(t.take(n) =~= t);
    } else {
        lemma_total_len_monotone(t, n + 1);
        lemma_total_len_prefix(t, n + 1);
    }
}

/// The total length of a prefix grows by the length of the item added.
pub proof fn lemma_total_len_prefix(t: Seq<Seq<char>>, n: int)
    requires
        0 < n <= t.len(),
    ensures
        total_len(t.take(n)) == total_len(t.take(n - 1)) + t[n - 1].len(),
{
    assert(t.take(n).drop_last() =~= t.take(n - 1));
}

} // verus!
