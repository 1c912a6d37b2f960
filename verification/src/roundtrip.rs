//! Decoding inverts encoding: what either encoder writes, the decoder reads
//! back as the same value in canonical form.

use vstd::prelude::*;
use crate::decimal::{decimal_text, digits_of, is_digit, lemma_digits_of};
use crate::decode::{
    after_item, binder_char, bound_value_at, entries_at, is_identifier, is_name_char, is_space,
    key_at, lemma_skip_spaces, name_end, parse, skip_spaces, text_at, text_end, value_at,
    values_at, Failure, Step,
};
use crate::number::{
    digits_end, exponent_digits, fraction_end, has, integer_value, is_integer_literal,
    is_numeric_literal, lemma_digits_end, lemma_digits_end_is, literal_number, number_end,
    sign_end, Numeral,
};
use crate::mini::{compact_fields, compact_members, compact_text, compact_values};
use crate::pretty::{
    arranged, fits, indent, packed, pretty_fields, pretty_members, pretty_text, pretty_values,
    separated, stacked, stacked_lines, trimmed, Layout,
};
use crate::syntax::{atom_text, boolean_text, enclosed, joined, null_text, quoted, Bracket};
use crate::text::{escape, escape_char, hex_digit, is_control, lemma_unescape_escape, short_escape};
use crate::value::{
    lemma_put_inserts, lemma_same_pairs_same_entries, lemma_value_of_absent, put, strictly_sorted,
    text_lt, value_of, Data,
};

verus! {

impl Data {
    /// The value as the decoder gives it back: every number in the variant
    /// that its text is read as, every struct without its name.
    pub open spec fn canonical(self) -> Data
        decreases self, 0nat,
    {
        match self {
            Data::Number(n) => Data::Number(n.canonical()),
            Data::Array(a) => Data::Array(canonical_values(a, a.len())),
            Data::Tuple(a) => Data::Tuple(canonical_values(a, a.len())),
            Data::Object(e) => Data::Object(canonical_entries(e, e.len())),
            Data::Struct(_, e) => Data::Struct(Seq::empty(), canonical_entries(e, e.len())),
            _ => self,
        }
    }

    /// Whether every field of every struct in the value has a name for its
    /// key. The encoders write field names as they are, so that the decoder
    /// reads no other back.
    pub open spec fn plain(self) -> bool
        decreases self,
    {
        match self {
            Data::Array(a) => forall|i: int| 0 <= i < a.len() ==> (#[trigger] a[i]).plain(),
            Data::Tuple(a) => forall|i: int| 0 <= i < a.len() ==> (#[trigger] a[i]).plain(),
            Data::Object(e) => forall|i: int| 0 <= i < e.len() ==> (#[trigger] e[i]).1.plain(),
            Data::Struct(_, e) => forall|i: int|
                0 <= i < e.len() ==> is_identifier((#[trigger] e[i]).0) && e[i].1.plain(),
            _ => true,
        }
    }
}

/// The canonical forms of the first `n` values of `a`.
pub open spec fn canonical_values(a: Seq<Data>, n: nat) -> Seq<Data>
    decreases a, n,
{
    if n == 0 || n > a.len() {
        Seq::empty()
    } else {
        canonical_values(a, (n - 1) as nat).push(a[n - 1].canonical())
    }
}

/// The first `n` entries of `e`, each with its value in canonical form.
pub open spec fn canonical_entries(e: Seq<(Seq<char>, Data)>, n: nat) -> Seq<(Seq<char>, Data)>
    decreases e, n,
{
    if n == 0 || n > e.len() {
        Seq::empty()
    } else {
        canonical_entries(e, (n - 1) as nat).push((e[n - 1].0, e[n - 1].1.canonical()))
    }
}

/// Whether `t` stands in `s` from position `p` on.
spec fn occurs(s: Seq<char>, p: int, t: Seq<char>) -> bool {
    0 <= p && p + t.len() <= s.len() && forall|k: int| 0 <= k < t.len() ==> s[p + k] == #[trigger] t[k]
}

/// Whether `c` ends whatever stands before it: white space, a comma or a
/// closing bracket.
spec fn is_delimiter(c: char) -> bool {
    is_space(c) || c == ',' || c == ']' || c == ')' || c == '}'
}

/// Whether the input ends at `e` or has a delimiter there.
spec fn closed_at(s: Seq<char>, e: int) -> bool {
    e >= s.len() || (0 <= e && is_delimiter(s[e]))
}

/// Whether `t` is what the decoder finds when it looks for an item from `g`
/// on: `t` stands behind the white space from `g` on, and ends there.
spec fn reads_item(s: Seq<char>, g: int, t: Seq<char>) -> bool {
    0 <= g && occurs(s, skip_spaces(s, g), t) && closed_at(s, skip_spaces(s, g) + t.len())
}

/// Whether an item can start with `c`: no white space, no comma and no
/// closing bracket.
spec fn is_item_start(c: char) -> bool {
    !is_delimiter(c)
}

/// Whether from position `p` on the items from `i` on follow one another and
/// then the closing bracket, which stands just before `end`.
///
/// White space may stand before every item and before the bracket. A comma
/// stands directly behind every item but the last, and behind the last one
/// if `trailing` says so.
spec fn loose_at(
    s: Seq<char>,
    p: int,
    items: Seq<Seq<char>>,
    i: int,
    b: Bracket,
    trailing: bool,
    end: int,
) -> bool
    decreases items.len() - i, 1nat,
{
    if i >= items.len() {
        skip_spaces(s, p) == end - 1 && has(s, end - 1, b.close_char())
    } else {
        let q = skip_spaces(s, p);
        occurs(s, q, items[i]) && follows_at(s, q + items[i].len(), items, i, b, trailing, end)
    }
}

/// Whether what stands at `e`, behind item `i`, is what `loose_at` asks
/// for: a comma, if one belongs behind the item, and then the other items
/// and the closing bracket.
spec fn follows_at(
    s: Seq<char>,
    e: int,
    items: Seq<Seq<char>>,
    i: int,
    b: Bracket,
    trailing: bool,
    end: int,
) -> bool
    decreases items.len() - i, 0nat,
{
    if i >= items.len() {
        false
    } else if i < items.len() - 1 || trailing {
        has(s, e, ',') && loose_at(s, e + 1, items, i + 1, b, trailing, end)
    } else {
        loose_at(s, e, items, i + 1, b, trailing, end)
    }
}

/// Whether every item is not empty and starts as an item can.
spec fn solid(items: Seq<Seq<char>>) -> bool {
    forall|j: int|
        0 <= j < items.len() ==> (#[trigger] items[j]).len() > 0 && is_item_start(items[j][0])
}

/// The two halves of what stands in `s` stand in `s`, one behind the other.
proof fn lemma_occurs_split(s: Seq<char>, p: int, a: Seq<char>, b: Seq<char>)
    requires
        occurs(s, p, a + b),
    ensures
        occurs(s, p, a),
        occurs(s, p + a.len(), b),
{
    let t = a + b;
    assert forall|k: int| 0 <= k < a.len() implies s[p + k] == #[trigger] a[k] by {
        assert(t[k] == a[k]);
    }
    assert forall|k: int| 0 <= k < b.len() implies s[p + a.len() + k] == #[trigger] b[k] by {
        assert(t[a.len() + k] == b[k]);
    }
}

/// What stands in `s` is a part of `s`.
proof fn lemma_occurs_subrange(s: Seq<char>, p: int, t: Seq<char>)
    requires
        occurs(s, p, t),
    ensures
        s.subrange(p, p + t.len()) == t,
{
    let u = s.subrange(p, p + t.len());
    assert forall|k: int| 0 <= k < t.len() implies u[k] == t[k] by {
        assert(s[p + k] == t[k]);
    }
    assert(u =~= t);
}

/// Scanning digits in `s` where `t` stands goes as far as in `t`, if `t` is
/// closed off.
proof fn lemma_digits_end_occurs(s: Seq<char>, a: int, t: Seq<char>, k: int)
    requires
        occurs(s, a, t),
        0 <= k <= t.len(),
        closed_at(s, a + t.len()),
    ensures
        digits_end(s, a + k) == a + digits_end(t, k),
    decreases t.len() - k,
{
    if k < t.len() {
        assert(s[a + k] == t[k]);
        if is_digit(t[k]) {
            lemma_digits_end_occurs(s, a, t, k + 1);
        }
    }
}

/// A numeric literal that stands closed off in `s` is what the scanner takes
/// there.
#[verifier::rlimit(60)]
proof fn lemma_number_scans(s: Seq<char>, a: int, t: Seq<char>)
    requires
        occurs(s, a, t),
        is_numeric_literal(t),
        closed_at(s, a + t.len()),
    ensures
        number_end(s, a) == Ok::<int, int>(a + t.len()),
        t.len() > 0,
        t[0] == '-' || is_digit(t[0]),
        is_digit(t.last()),
{
    let at = sign_end(t, 0);
    let bt = digits_end(t, at);
    let ct = fraction_end(t, bt);
    lemma_digits_end(t, at);
    lemma_digits_end_occurs(s, a, t, at);
    assert(forall|k: int| 0 <= k < t.len() ==> s[a + k] == t[k]);
    if has(t, bt, '.') {
        lemma_digits_end(t, bt + 1);
        lemma_digits_end_occurs(s, a, t, bt + 1);
    }
    if has(t, ct, 'e') || has(t, ct, 'E') {
        let dt = exponent_digits(t, ct);
        lemma_digits_end(t, dt);
        lemma_digits_end_occurs(s, a, t, dt);
        assert(is_digit(t[t.len() - 1]));
    } else if has(t, bt, '.') {
        assert(is_digit(t[t.len() - 1]));
    } else {
        assert(is_digit(t[t.len() - 1]));
    }
    assert(sign_end(s, a) == a + at);
    assert(digits_end(s, a + at) == a + bt);
    assert(has(s, a + bt, '.') == has(t, bt, '.'));
    assert(fraction_end(s, a + bt) == a + ct);
    assert(has(s, a + ct, 'e') == has(t, ct, 'e'));
    assert(has(s, a + ct, 'E') == has(t, ct, 'E'));
    if has(t, ct, 'e') || has(t, ct, 'E') {
        assert(exponent_digits(s, a + ct) == a + exponent_digits(t, ct));
    }
}

/// The text of an integer is an integer literal that denotes it.
proof fn lemma_decimal_text(i: int)
    ensures
        is_numeric_literal(decimal_text(i)),
        is_integer_literal(decimal_text(i)),
        integer_value(decimal_text(i)) == i,
{
    let t = decimal_text(i);
    let m: nat = if i < 0 {
        (-i) as nat
    } else {
        i as nat
    };
    let ds = digits_of(m);
    lemma_digits_of(m);
    assert(is_digit(ds[0]));
    if i < 0 {
        assert(t[0] == '-');
        assert(t.skip(1) =~= ds);
        assert forall|k: int| 1 <= k < t.len() implies is_digit(#[trigger] t[k]) by {
            assert(t[k] == ds[k - 1]);
        }
        lemma_digits_end_is(t, 1, t.len() as int);
    } else {
        assert(t == ds);
        assert(t[0] != '-');
        assert forall|k: int| 0 <= k < t.len() implies is_digit(#[trigger] t[k]) by {}
        lemma_digits_end_is(t, 0, t.len() as int);
    }
}

/// The text of a well-formed number is a numeric literal.
pub(crate) proof fn lemma_numeral_text(n: Numeral)
    requires
        n.wf(),
    ensures
        is_numeric_literal(n.text()),
{
    match n {
        Numeral::U8(v) => lemma_decimal_text(v as int),
        Numeral::I8(v) => lemma_decimal_text(v as int),
        Numeral::U16(v) => lemma_decimal_text(v as int),
        Numeral::I16(v) => lemma_decimal_text(v as int),
        Numeral::U32(v) => lemma_decimal_text(v as int),
        Numeral::I32(v) => lemma_decimal_text(v as int),
        Numeral::U64(v) => lemma_decimal_text(v as int),
        Numeral::I64(v) => lemma_decimal_text(v as int),
        Numeral::U128(v) => lemma_decimal_text(v as int),
        Numeral::I128(v) => lemma_decimal_text(v as int),
        Numeral::F32(t) => {},
        Numeral::F64(t) => {},
    }
}

/// The closing quote behind an escaped text is found where the escaped text
/// ends.
#[verifier::rlimit(60)]
proof fn lemma_text_end_escaped(s: Seq<char>, p: int, t: Seq<char>)
    requires
        occurs(s, p, escape(t) + seq!['"']),
    ensures
        text_end(s, p) == Ok::<int, Failure>(p + escape(t).len()),
    decreases t.len(),
{
    let whole = escape(t) + seq!['"'];
    if t.len() == 0 {
        assert(whole[0] == '"');
        assert(s[p] == '"');
    } else {
        let c = t[0];
        let head = escape_char(c);
        let rest = escape(t.skip(1)) + seq!['"'];
        assert(whole =~= head + rest);
        lemma_occurs_split(s, p, head, rest);
        lemma_text_end_escaped(s, p + head.len(), t.skip(1));
        assert(forall|k: int| 0 <= k < head.len() ==> s[p + k] == head[k]);
        match short_escape(c) {
            Some(e) => {
                assert(head[0] == '\\');
                assert(s[p] == '\\');
                assert(rest.len() > 0);
            },
            None => {
                if is_control(c) {
                    let x = c as u32 as int;
                    assert(head[0] == '\\' && head[1] == 'u' && head[2] == '{' && head[7] == '}');
                    assert(head[3] == hex_digit((x / 4096) % 16));
                    assert(head[4] == hex_digit((x / 256) % 16));
                    assert(head[5] == hex_digit((x / 16) % 16));
                    assert(head[6] == hex_digit(x % 16));
                    assert(s[p] == '\\');
                    assert(text_end(s, p) == text_end(s, p + 2));
                    assert(s[p + 2] == '{');
                    assert(text_end(s, p + 2) == text_end(s, p + 3));
                    assert(s[p + 3] == head[3]);
                    assert(text_end(s, p + 3) == text_end(s, p + 4));
                    assert(s[p + 4] == head[4]);
                    assert(text_end(s, p + 4) == text_end(s, p + 5));
                    assert(s[p + 5] == head[5]);
                    assert(text_end(s, p + 5) == text_end(s, p + 6));
                    assert(s[p + 6] == head[6]);
                    assert(text_end(s, p + 6) == text_end(s, p + 7));
                    assert(s[p + 7] == '}');
                    assert(text_end(s, p + 7) == text_end(s, p + 8));
                } else {
                    assert(head[0] == c);
                    assert(s[p] == c);
                }
            },
        }
    }
}

/// A text literal that stands in `s` is read as its text.
proof fn lemma_text_reads(s: Seq<char>, a: int, t: Seq<char>)
    requires
        occurs(s, a, quoted(t)),
    ensures
        text_at(s, a) == Ok::<(Seq<char>, int), Failure>((t, a + quoted(t).len())),
        s[a] == '"',
{
    let q = quoted(t);
    let inner = escape(t) + seq!['"'];
    assert(q =~= seq!['"'] + inner);
    lemma_occurs_split(s, a, seq!['"'], inner);
    assert(seq!['"'][0] == '"');
    assert(s[a] == '"');
    lemma_text_end_escaped(s, a + 1, t);
    lemma_occurs_split(s, a + 1, escape(t), seq!['"']);
    lemma_occurs_subrange(s, a + 1, escape(t));
    lemma_unescape_escape(t);
}

/// A name that stands closed off in `s`, or before something that no name
/// goes on with, ends where it ends.
proof fn lemma_name_scans(s: Seq<char>, a: int, t: Seq<char>, k: int)
    requires
        occurs(s, a, t),
        forall|j: int| 0 <= j < t.len() ==> is_name_char(#[trigger] t[j]),
        a + t.len() >= s.len() || !is_name_char(s[a + t.len()]),
        0 <= k <= t.len(),
    ensures
        name_end(s, a + k) == a + t.len(),
    decreases t.len() - k,
{
    if k < t.len() {
        assert(s[a + k] == t[k]);
        lemma_name_scans(s, a, t, k + 1);
    }
}

/// The values of an array or a tuple are read from items that follow one
/// another loosely up to the closing bracket, if every item is read as the
/// value that it stands for.
#[verifier::rlimit(60)]
proof fn lemma_values_read(
    s: Seq<char>,
    p: int,
    items: Seq<Seq<char>>,
    a: Seq<Data>,
    i: int,
    b: Bracket,
    trailing: bool,
    end: int,
)
    requires
        0 <= p,
        0 <= i <= items.len(),
        items.len() == a.len(),
        solid(items),
        loose_at(s, p, items, i, b, trailing, end),
        forall|j: int, g: int|
            0 <= j < items.len() && #[trigger] reads_item(s, g, items[j]) ==> value_at(s, g) == Ok::<
                (Data, int),
                Failure,
            >((a[j].canonical(), skip_spaces(s, g) + items[j].len())),
    ensures
        values_at(s, p, b, canonical_values(a, i as nat)) == Ok::<(Seq<Data>, int), Failure>(
            (canonical_values(a, a.len()), end),
        ),
    decreases items.len() - i,
{
    let acc = canonical_values(a, i as nat);
    let q = skip_spaces(s, p);
    lemma_skip_spaces(s, p);
    if i >= items.len() {
    } else {
        let e = q + items[i].len();
        assert(items[i].len() > 0 && is_item_start(items[i][0]));
        assert(s[q] == items[i][0]);
        assert(!(has(s, q, b.close_char())));
        lemma_skip_spaces(s, e);
        assert(follows_at(s, e, items, i, b, trailing, end));
        let next = canonical_values(a, (i + 1) as nat);
        assert(next == acc.push(a[i].canonical()));
        if i < items.len() - 1 || trailing {
            assert(has(s, e, ','));
            assert(closed_at(s, e));
            assert(reads_item(s, p, items[i]));
            assert(skip_spaces(s, e) == e);
            assert(after_item(s, e, b) == Step::More(e + 1));
            lemma_values_read(s, e + 1, items, a, i + 1, b, trailing, end);
        } else {
            assert(loose_at(s, e, items, i + 1, b, trailing, end));
            assert(skip_spaces(s, e) == end - 1);
            assert(closed_at(s, e));
            assert(reads_item(s, p, items[i]));
            assert(after_item(s, e, b) == Step::Done(end));
        }
    }
}

/// The keys of the first `n` entries in canonical form are the keys of the
/// entries, and there are `n` of them.
proof fn lemma_canonical_entries(e: Seq<(Seq<char>, Data)>, n: nat)
    requires
        n <= e.len(),
    ensures
        canonical_entries(e, n).len() == n,
        forall|j: int| 0 <= j < n ==> (#[trigger] canonical_entries(e, n)[j]).0 == e[j].0,
        forall|j: int| 0 <= j < n ==> (#[trigger] canonical_entries(e, n)[j]).1 == e[j].1.canonical(),
    decreases n,
{
    if n > 0 {
        lemma_canonical_entries(e, (n - 1) as nat);
    }
}

/// Whether the decoder, looking for an entry from `g` on, reads the key `k`
/// and the value `d`, and ends at `end`.
spec fn entry_reads(s: Seq<char>, g: int, b: Bracket, k: Seq<char>, d: Data, end: int) -> bool {
    key_at(s, g, b) matches Ok((key, e1)) && key == k && g < e1 < end && bound_value_at(s, e1, b)
        == Ok::<(Data, int), Failure>((d, end))
}

/// The entries of an object or a struct are read from items that follow one
/// another loosely up to the closing bracket, if every item is read as the
/// key and the value that it stands for, and the keys are in order.
#[verifier::rlimit(60)]
proof fn lemma_entries_read(
    s: Seq<char>,
    p: int,
    items: Seq<Seq<char>>,
    en: Seq<(Seq<char>, Data)>,
    i: int,
    b: Bracket,
    trailing: bool,
    end: int,
)
    requires
        0 <= p,
        0 <= i <= items.len(),
        items.len() == en.len(),
        solid(items),
        strictly_sorted(en),
        loose_at(s, p, items, i, b, trailing, end),
        forall|j: int, g: int|
            0 <= j < items.len() && #[trigger] reads_item(s, g, items[j]) ==> entry_reads(
                s,
                g,
                b,
                en[j].0,
                en[j].1.canonical(),
                skip_spaces(s, g) + items[j].len(),
            ),
    ensures
        entries_at(s, p, b, canonical_entries(en, i as nat)) == Ok::<
            (Seq<(Seq<char>, Data)>, int),
            Failure,
        >((canonical_entries(en, en.len()), end)),
    decreases items.len() - i,
{
    let acc = canonical_entries(en, i as nat);
    let q = skip_spaces(s, p);
    lemma_skip_spaces(s, p);
    if i >= items.len() {
    } else {
        let e = q + items[i].len();
        assert(items[i].len() > 0 && is_item_start(items[i][0]));
        assert(s[q] == items[i][0]);
        assert(!(has(s, q, b.close_char())));
        lemma_skip_spaces(s, e);
        assert(follows_at(s, e, items, i, b, trailing, end));
        let k = en[i].0;
        let d = en[i].1.canonical();
        let next = canonical_entries(en, (i + 1) as nat);
        assert(next == acc.push((k, d)));
        lemma_canonical_entries(en, i as nat);
        assert forall|x: int, y: int| 0 <= x < y < acc.len() implies text_lt(
            #[trigger] acc[x].0,
            #[trigger] acc[y].0,
        ) by {
            assert(text_lt(en[x].0, en[y].0));
        }
        if i > 0 {
            assert(text_lt(en[i - 1].0, en[i].0));
            assert(acc[i - 1].0 == en[i - 1].0);
        }
        lemma_value_of_absent(acc, k, i);
        lemma_put_inserts(acc, k, d, i);
        assert(acc.insert(i, (k, d)) =~= acc.push((k, d)));
        assert(put(acc, k, d) == next);
        if i < items.len() - 1 || trailing {
            assert(has(s, e, ','));
            assert(closed_at(s, e));
            assert(reads_item(s, p, items[i]));
            assert(skip_spaces(s, e) == e);
            assert(after_item(s, e, b) == Step::More(e + 1));
            lemma_entries_read(s, e + 1, items, en, i + 1, b, trailing, end);
        } else {
            assert(loose_at(s, e, items, i + 1, b, trailing, end));
            assert(skip_spaces(s, e) == end - 1);
            assert(closed_at(s, e));
            assert(reads_item(s, p, items[i]));
            assert(after_item(s, e, b) == Step::Done(end));
        }
    }
}

/// Whether every item ends with something other than a space.
spec fn firm(items: Seq<Seq<char>>) -> bool {
    forall|j: int| 0 <= j < items.len() ==> (#[trigger] items[j]).len() > 0 && items[j].last() != ' '
}

/// Whether `x` consists of spaces only.
pub(crate) open spec fn blank(x: Seq<char>) -> bool {
    forall|j: int| 0 <= j < x.len() ==> #[trigger] x[j] == ' '
}

/// White space from `x` up to `y`, and none at `y`, makes skipping from `x`
/// stop at `y`.
proof fn lemma_skip_run(s: Seq<char>, x: int, y: int)
    requires
        0 <= x <= y <= s.len(),
        forall|j: int| x <= j < y ==> is_space(#[trigger] s[j]),
        y == s.len() || !is_space(s[y]),
    ensures
        skip_spaces(s, x) == y,
    decreases y - x,
{
    if x < y {
        lemma_skip_run(s, x + 1, y);
    }
}

/// Trimming leaves a start of the line, and takes only spaces away.
pub(crate) proof fn lemma_trimmed_prefix(x: Seq<char>)
    ensures
        trimmed(x).len() <= x.len(),
        trimmed(x) == x.take(trimmed(x).len() as int),
        forall|j: int| trimmed(x).len() <= j < x.len() ==> #[trigger] x[j] == ' ',
        trimmed(x).len() > 0 ==> trimmed(x).last() != ' ',
        blank(x) ==> trimmed(x).len() == 0,
    decreases x.len(),
{
    if x.len() > 0 && x.last() == ' ' {
        let y = x.drop_last();
        lemma_trimmed_prefix(y);
        assert(y.take(trimmed(y).len() as int) =~= x.take(trimmed(y).len() as int));
        if blank(x) {
            assert(blank(y)) by {
                assert forall|j: int| 0 <= j < y.len() implies #[trigger] y[j] == ' ' by {
                    assert(y[j] == x[j]);
                }
            }
        }
        assert forall|j: int| trimmed(x).len() <= j < x.len() implies #[trigger] x[j] == ' ' by {
            if j < y.len() {
                assert(y[j] == x[j]);
            }
        }
    } else {
        assert(x.take(x.len() as int) =~= x);
        if x.len() > 0 && blank(x) {
            assert(x[x.len() - 1] == ' ');
        }
    }
}

/// Trimming takes the space behind a comma away and nothing else.
pub(crate) proof fn lemma_trimmed_comma(x: Seq<char>)
    ensures
        trimmed(x + seq![',', ' ']) == x + seq![','],
{
    let y = x + seq![',', ' '];
    let z = x + seq![','];
    assert(y.last() == ' ');
    assert(y.drop_last() =~= z);
    assert(z.last() == ',');
    assert(trimmed(z) == z);
    assert(trimmed(y) == trimmed(y.drop_last()));
}

/// Where white space stands, the items may be looked for from the next
/// position on as well.
proof fn lemma_loose_shift(
    s: Seq<char>,
    p: int,
    items: Seq<Seq<char>>,
    i: int,
    b: Bracket,
    trailing: bool,
    end: int,
)
    requires
        0 <= p < s.len(),
        is_space(s[p]),
    ensures
        loose_at(s, p, items, i, b, trailing, end) == loose_at(s, p + 1, items, i, b, trailing, end),
{
    assert(skip_spaces(s, p) == skip_spaces(s, p + 1));
}

/// Items joined by commas, or by commas and spaces, follow one another
/// loosely.
proof fn lemma_joined_loose(
    s: Seq<char>,
    p: int,
    items: Seq<Seq<char>>,
    sep: Seq<char>,
    m: int,
    b: Bracket,
    trailing: bool,
    end: int,
)
    requires
        sep == seq![','] || sep == seq![',', ' '],
        1 <= m <= items.len(),
        solid(items),
        occurs(s, p, joined(items.take(m), sep)),
        follows_at(s, p + joined(items.take(m), sep).len(), items, m - 1, b, trailing, end),
    ensures
        loose_at(s, p, items, 0, b, trailing, end),
    decreases m,
{
    let t = items.take(m);
    let whole = joined(t, sep);
    assert(t[m - 1] == items[m - 1]);
    assert(items[m - 1].len() > 0 && is_item_start(items[m - 1][0]));
    if m == 1 {
        assert(whole == items[0]);
        assert(s[p] == items[0][0]);
        assert(skip_spaces(s, p) == p);
    } else {
        let before = joined(t.drop_last(), sep);
        assert(t.drop_last() =~= items.take(m - 1));
        assert(whole == before + sep + items[m - 1]);
        lemma_occurs_split(s, p, before + sep, items[m - 1]);
        lemma_occurs_split(s, p, before, sep);
        let e = p + before.len();
        assert(sep[0] == ',');
        assert(s[e] == ',');
        let q = e + sep.len();
        assert(s[q] == items[m - 1][0]);
        if sep.len() == 2 {
            assert(sep[1] == ' ');
            assert(s[e + 1] == ' ');
            lemma_skip_run(s, e + 1, q);
        } else {
            lemma_skip_run(s, e + 1, q);
        }
        assert(skip_spaces(s, e + 1) == q);
        assert(loose_at(s, e + 1, items, m - 1, b, trailing, end));
        assert(follows_at(s, e, items, m - 2, b, trailing, end));
        lemma_joined_loose(s, p, items, sep, m - 1, b, trailing, end);
    }
}

/// Items packed into lines follow one another loosely from where the line
/// begun ends, if what stands behind the lines leads to the closing bracket.
#[verifier::rlimit(60)]
proof fn lemma_packed_loose(
    s: Seq<char>,
    start: int,
    items: Seq<Seq<char>>,
    i: nat,
    line: Seq<char>,
    margin: Seq<char>,
    max: int,
    trailing: bool,
    b: Bracket,
    end: int,
)
    requires
        solid(items),
        firm(items),
        i <= items.len(),
        blank(margin),
        line.len() >= margin.len(),
        line.len() == margin.len() ==> blank(line),
        occurs(s, start, packed(items, i, line, margin, max, trailing)),
        skip_spaces(s, start + packed(items, i, line, margin, max, trailing).len()) == end - 1,
        has(s, end - 1, b.close_char()),
    ensures
        occurs(s, start, trimmed(line)),
        loose_at(s, start + trimmed(line).len(), items, i as int, b, trailing, end),
    decreases items.len() - i,
{
    let out = packed(items, i, line, margin, max, trailing);
    let k = trimmed(line).len() as int;
    lemma_trimmed_prefix(line);
    if i >= items.len() {
        if line.len() > margin.len() {
            assert(out == trimmed(line) + seq!['\n']);
            lemma_occurs_split(s, start, trimmed(line), seq!['\n']);
            assert(seq!['\n'][0] == '\n');
            assert(s[start + k] == '\n');
            assert(skip_spaces(s, start + k) == skip_spaces(s, start + k + 1));
        } else {
            assert(trimmed(line).len() == 0);
        }
    } else {
        let item = separated(items, i as int, trailing);
        let it = items[i as int];
        assert(it.len() > 0 && is_item_start(it[0]) && it.last() != ' ');
        let comma = i < items.len() - 1 || trailing;
        let last = !(i < items.len() - 1);
        if !last {
            assert(item == it + seq![',', ' ']);
        } else if trailing {
            assert(item == it + seq![',']);
        } else {
            assert(item == it);
        }
        if line.len() + item.len() <= max || line.len() <= margin.len() {
            let grown = line + item;
            assert(out == packed(items, i + 1, grown, margin, max, trailing));
            lemma_packed_loose(s, start, items, i + 1, grown, margin, max, trailing, b, end);
            if !last {
                assert(grown =~= (line + it) + seq![',', ' ']);
                lemma_trimmed_comma(line + it);
            } else if trailing {
                assert(grown =~= (line + it) + seq![',']);
                assert(grown.last() == ',');
            } else {
                assert(grown.last() == it.last());
            }
            let shown = trimmed(grown);
            assert(shown =~= if comma {
                line + it + seq![',']
            } else {
                line + it
            });
            assert forall|j: int| 0 <= j < k implies s[start + j] == #[trigger] trimmed(line)[j] by {
                assert(shown[j] == line[j]);
                assert(trimmed(line)[j] == line[j]);
            }
            assert forall|j: int| start + k <= j < start + line.len() implies is_space(
                #[trigger] s[j],
            ) by {
                assert(shown[j - start] == line[j - start]);
            }
            let q = start + line.len();
            assert(shown[line.len() as int] == it[0]);
            assert(s[q] == it[0]);
            lemma_skip_run(s, start + k, q);
            assert forall|j: int| 0 <= j < it.len() implies s[q + j] == #[trigger] it[j] by {
                assert(shown[line.len() + j] == it[j]);
            }
            assert(occurs(s, q, it));
            let e = q + it.len();
            if comma {
                assert(shown[(line.len() + it.len()) as int] == ',');
                assert(s[e] == ',');
                assert(e + 1 == start + shown.len());
            } else {
                assert(e == start + shown.len());
            }
            assert(follows_at(s, e, items, i as int, b, trailing, end));
        } else {
            let fresh = margin + item;
            let rest = packed(items, i + 1, fresh, margin, max, trailing);
            assert(out == trimmed(line) + seq!['\n'] + rest);
            lemma_occurs_split(s, start, trimmed(line) + seq!['\n'], rest);
            lemma_occurs_split(s, start, trimmed(line), seq!['\n']);
            assert(seq!['\n'][0] == '\n');
            assert(s[start + k] == '\n');
            let second = start + k + 1;
            lemma_packed_loose(s, second, items, i + 1, fresh, margin, max, trailing, b, end);
            if !last {
                assert(fresh =~= (margin + it) + seq![',', ' ']);
                lemma_trimmed_comma(margin + it);
            } else if trailing {
                assert(fresh =~= (margin + it) + seq![',']);
                assert(fresh.last() == ',');
            } else {
                assert(fresh.last() == it.last());
            }
            let shown = trimmed(fresh);
            assert(shown =~= if comma {
                margin + it + seq![',']
            } else {
                margin + it
            });
            assert forall|j: int| start + k <= j < second + margin.len() implies is_space(
                #[trigger] s[j],
            ) by {
                if j >= second {
                    assert(shown[j - second] == margin[j - second]);
                }
            }
            let q = second + margin.len();
            assert(shown[margin.len() as int] == it[0]);
            assert(s[q] == it[0]);
            lemma_skip_run(s, start + k, q);
            assert forall|j: int| 0 <= j < it.len() implies s[q + j] == #[trigger] it[j] by {
                assert(shown[margin.len() + j] == it[j]);
            }
            assert(occurs(s, q, it));
            let e = q + it.len();
            if comma {
                assert(shown[(margin.len() + it.len()) as int] == ',');
                assert(s[e] == ',');
                assert(e + 1 == second + shown.len());
            } else {
                assert(e == second + shown.len());
            }
            assert(follows_at(s, e, items, i as int, b, trailing, end));
        }
    }
}

/// An item on a line of its own, behind the margin, is found from the start
/// of the line on, if the other items follow behind the line.
#[verifier::rlimit(60)]
proof fn lemma_line_loose(
    s: Seq<char>,
    l: int,
    items: Seq<Seq<char>>,
    i: int,
    margin: Seq<char>,
    trailing: bool,
    b: Bracket,
    end: int,
)
    requires
        solid(items),
        firm(items),
        0 <= i < items.len(),
        blank(margin),
        occurs(s, l, trimmed(margin + separated(items, i, trailing)) + seq!['\n']),
        loose_at(
            s,
            l + trimmed(margin + separated(items, i, trailing)).len() + 1,
            items,
            i + 1,
            b,
            trailing,
            end,
        ),
    ensures
        loose_at(s, l, items, i, b, trailing, end),
{
    let it = items[i];
    assert(it.len() > 0 && is_item_start(it[0]) && it.last() != ' ');
    let item = separated(items, i, trailing);
    let comma = i < items.len() - 1 || trailing;
    let shown = trimmed(margin + item);
    if i < items.len() - 1 {
        assert(margin + item =~= (margin + it) + seq![',', ' ']);
        lemma_trimmed_comma(margin + it);
        assert(shown =~= margin + it + seq![',']);
    } else if trailing {
        assert(margin + item =~= (margin + it) + seq![',']);
        assert((margin + item).last() == ',');
        assert(shown =~= margin + it + seq![',']);
    } else {
        assert((margin + item).last() == it.last());
        assert(shown =~= margin + it);
    }
    lemma_occurs_split(s, l, shown, seq!['\n']);
    assert forall|j: int| l <= j < l + margin.len() implies is_space(#[trigger] s[j]) by {
        assert(shown[j - l] == margin[j - l]);
    }
    let q = l + margin.len();
    assert(shown[margin.len() as int] == it[0]);
    assert(s[q] == it[0]);
    lemma_skip_run(s, l, q);
    assert forall|j: int| 0 <= j < it.len() implies s[q + j] == #[trigger] it[j] by {
        assert(shown[margin.len() + j] == it[j]);
    }
    assert(occurs(s, q, it));
    let e = q + it.len();
    let nl = l + shown.len();
    assert(seq!['\n'][0] == '\n');
    assert(s[nl] == '\n');
    lemma_loose_shift(s, nl, items, i + 1, b, trailing, end);
    if comma {
        assert(shown[(margin.len() + it.len()) as int] == ',');
        assert(s[e] == ',');
        assert(e + 1 == nl);
    } else {
        assert(e == nl);
    }
    assert(follows_at(s, e, items, i, b, trailing, end));
}

/// Items stacked one to a line follow one another loosely.
proof fn lemma_stacked_loose(
    s: Seq<char>,
    p: int,
    items: Seq<Seq<char>>,
    m: nat,
    margin: Seq<char>,
    trailing: bool,
    b: Bracket,
    end: int,
)
    requires
        solid(items),
        firm(items),
        m <= items.len(),
        blank(margin),
        occurs(s, p, stacked_lines(items, m, margin, trailing)),
        loose_at(
            s,
            p + stacked_lines(items, m, margin, trailing).len(),
            items,
            m as int,
            b,
            trailing,
            end,
        ),
    ensures
        loose_at(s, p, items, 0, b, trailing, end),
    decreases m,
{
    if m > 0 {
        let i = (m - 1) as int;
        let before = stacked_lines(items, (m - 1) as nat, margin, trailing);
        let shown = trimmed(margin + separated(items, i, trailing));
        let whole = stacked_lines(items, m, margin, trailing);
        assert(whole == before + shown + seq!['\n']);
        assert(whole =~= before + (shown + seq!['\n']));
        lemma_occurs_split(s, p, before, shown + seq!['\n']);
        lemma_line_loose(s, p + before.len(), items, i, margin, trailing, b, end);
        lemma_stacked_loose(s, p, items, (m - 1) as nat, margin, trailing, b, end);
    }
}

/// The two ways of writing a value: compact, or pretty in a layout at a
/// depth.
enum Style {
    Compact,
    Pretty(Layout, nat),
}

impl Style {
    /// The written form of `d` in this style.
    spec fn text(self, d: Data) -> Seq<char> {
        match self {
            Style::Compact => compact_text(d),
            Style::Pretty(layout, depth) => pretty_text(d, layout, depth),
        }
    }

    /// The style of the items of a composite that is written in this style.
    spec fn deeper(self) -> Style {
        match self {
            Style::Compact => Style::Compact,
            Style::Pretty(layout, depth) => Style::Pretty(layout, depth + 1),
        }
    }

    /// What stands between a key and its value: the binder, in the pretty
    /// form with a space behind it, and for a struct also before it.
    spec fn bound(self, b: Bracket) -> Seq<char> {
        match self {
            Style::Compact => seq![binder_char(b)],
            Style::Pretty(_, _) => if b == Bracket::Struct {
                seq![' ', '=', ' ']
            } else {
                seq![':', ' ']
            },
        }
    }

    /// The written forms of the first `n` values of an array or a tuple.
    spec fn values(self, a: Seq<Data>, n: nat) -> Seq<Seq<char>> {
        match self {
            Style::Compact => compact_values(a, n),
            Style::Pretty(layout, depth) => pretty_values(a, layout, depth + 1, n),
        }
    }

    /// The written forms of the first `n` entries of an object.
    spec fn members(self, e: Seq<(Seq<char>, Data)>, n: nat) -> Seq<Seq<char>> {
        match self {
            Style::Compact => compact_members(e, n),
            Style::Pretty(layout, depth) => pretty_members(e, layout, depth + 1, n),
        }
    }

    /// The written forms of the first `n` fields of a struct.
    spec fn fields(self, e: Seq<(Seq<char>, Data)>, n: nat) -> Seq<Seq<char>> {
        match self {
            Style::Compact => compact_fields(e, n),
            Style::Pretty(layout, depth) => pretty_fields(e, layout, depth + 1, n),
        }
    }
}

/// The written forms of the values are the values' written forms, place by
/// place.
proof fn lemma_style_values(style: Style, a: Seq<Data>, n: nat)
    requires
        n <= a.len(),
    ensures
        style.values(a, n).len() == n,
        forall|j: int| 0 <= j < n ==> #[trigger] style.values(a, n)[j] == style.deeper().text(a[j]),
    decreases n,
{
    if n > 0 {
        lemma_style_values(style, a, (n - 1) as nat);
    }
}

/// The written forms of the entries of an object are `"key"`, the binder
/// and the value's written form, place by place.
proof fn lemma_style_members(style: Style, e: Seq<(Seq<char>, Data)>, n: nat)
    requires
        n <= e.len(),
    ensures
        style.members(e, n).len() == n,
        forall|j: int|
            0 <= j < n ==> #[trigger] style.members(e, n)[j] == quoted(e[j].0) + style.bound(
                Bracket::Object,
            ) + style.deeper().text(e[j].1),
    decreases n,
{
    if n > 0 {
        lemma_style_members(style, e, (n - 1) as nat);
    }
}

/// The written forms of the fields of a struct are the name, the binder and
/// the value's written form, place by place.
proof fn lemma_style_fields(style: Style, e: Seq<(Seq<char>, Data)>, n: nat)
    requires
        n <= e.len(),
    ensures
        style.fields(e, n).len() == n,
        forall|j: int|
            0 <= j < n ==> #[trigger] style.fields(e, n)[j] == e[j].0 + style.bound(
                Bracket::Struct,
            ) + style.deeper().text(e[j].1),
    decreases n,
{
    if n > 0 {
        lemma_style_fields(style, e, (n - 1) as nat);
    }
}

/// The written form of a composite starts with its opening bracket and ends
/// with its closing one.
proof fn lemma_arranged_ends(b: Bracket, items: Seq<Seq<char>>, layout: Layout, depth: nat)
    ensures
        arranged(b, items, layout, depth).len() >= 2,
        arranged(b, items, layout, depth)[0] == b.open_text()[0],
        arranged(b, items, layout, depth).last() == b.close_char(),
{
    let t = arranged(b, items, layout, depth);
    let o = b.open_text();
    assert(o.len() >= 1);
    if items.len() == 0 {
        assert(t[0] == o[0]);
    } else if fits(items, layout, depth) {
        assert(t =~= o + (joined(items, seq![',', ' ']) + seq![b.close_char()]));
        assert(t[0] == o[0]);
    } else {
        let inner = seq!['\n'] + packed(
            items,
            0,
            indent(layout, depth + 1),
            indent(layout, depth + 1),
            layout.max_line_length as int,
            layout.trailing_comma,
        ) + indent(layout, depth) + seq![b.close_char()];
        assert(t =~= o + inner);
        assert(t[0] == o[0]);
    }
}

/// The written form of a well-formed value is not empty, starts as an item
/// can, and ends with something other than a space.
proof fn lemma_text_solid(d: Data, style: Style)
    requires
        d.wf(),
    ensures
        style.text(d).len() > 0,
        is_item_start(style.text(d)[0]),
        style.text(d).last() != ' ',
{
    let t = style.text(d);
    match d {
        Data::Null => {
            assert(t == null_text());
            assert(t[0] == 'n' && t.last() == 'l');
        },
        Data::Boolean(v) => {
            assert(t == boolean_text(v));
            assert(t.last() == 'e');
            assert(t[0] == 't' || t[0] == 'f');
        },
        Data::Number(n) => {
            assert(t == n.text());
            lemma_numeral_text(n);
            assert(occurs(t, 0, t));
            lemma_number_scans(t, 0, t);
        },
        Data::Text(x) => {
            assert(t == quoted(x));
            assert(t[0] == '"');
            assert(t.last() == '"');
        },
        Data::Array(a) => {
            lemma_composite_ends(Bracket::Array, style, style.values(a, a.len()), t);
        },
        Data::Tuple(a) => {
            lemma_composite_ends(Bracket::Tuple, style, style.values(a, a.len()), t);
        },
        Data::Object(e) => {
            lemma_composite_ends(Bracket::Object, style, style.members(e, e.len()), t);
        },
        Data::Struct(_, e) => {
            match style {
                Style::Compact => {
                    lemma_composite_ends(Bracket::Struct, style, style.fields(e, e.len()), t);
                },
                Style::Pretty(layout, depth) => {
                    let items = style.fields(e, e.len());
                    assert(t == stacked(items, layout, depth));
                    if items.len() > 0 {
                        let inner = stacked_lines(
                            items,
                            items.len(),
                            indent(layout, depth + 1),
                            layout.trailing_comma,
                        ) + indent(layout, depth) + seq![')'];
                        assert(t =~= seq!['@', '(', '\n'] + inner);
                        assert(t[0] == '@');
                        assert(t.last() == ')');
                    } else {
                        assert(t[0] == '@');
                        assert(t.last() == ')');
                    }
                },
            }
        },
    }
}

/// An array, a tuple, an object, or a struct in compact form, starts with
/// its opening bracket and ends with its closing one.
proof fn lemma_composite_ends(b: Bracket, style: Style, items: Seq<Seq<char>>, t: Seq<char>)
    requires
        match style {
            Style::Compact => t == enclosed(b, joined(items, seq![','])),
            Style::Pretty(layout, depth) => t == arranged(b, items, layout, depth),
        },
    ensures
        t.len() > 0,
        is_item_start(t[0]),
        t.last() != ' ',
{
    match style {
        Style::Compact => {
            let o = b.open_text();
            assert(t =~= o + (joined(items, seq![',']) + seq![b.close_char()]));
            assert(t[0] == o[0]);
            assert(t.last() == b.close_char());
        },
        Style::Pretty(layout, depth) => {
            lemma_arranged_ends(b, items, layout, depth);
        },
    }
}

/// A keyword, a number or a text literal is read as the value that it
/// stands for, a number in canonical form.
proof fn lemma_atom_reads(s: Seq<char>, g: int, d: Data, style: Style)
    requires
        d.wf(),
        d is Null || d is Boolean || d is Number || d is Text,
        reads_item(s, g, style.text(d)),
    ensures
        value_at(s, g) == Ok::<(Data, int), Failure>(
            (d.canonical(), skip_spaces(s, g) + style.text(d).len()),
        ),
{
    let t = style.text(d);
    let a = skip_spaces(s, g);
    assert(t == atom_text(d));
    lemma_text_solid(d, style);
    assert(s[a] == t[0]);
    lemma_occurs_subrange(s, a, t);
    match d {
        Data::Null => {
            assert(t[0] == 'n' && t[1] == 'u' && t[2] == 'l' && t[3] == 'l');
            lemma_name_scans(s, a, t, 0);
        },
        Data::Boolean(v) => {
            if v {
                assert(t[0] == 't' && t[1] == 'r' && t[2] == 'u' && t[3] == 'e');
            } else {
                assert(t[0] == 'f' && t[1] == 'a' && t[2] == 'l' && t[3] == 's' && t[4] == 'e');
                assert(t != null_text());
                assert(t != boolean_text(true));
            }
            lemma_name_scans(s, a, t, 0);
        },
        Data::Number(n) => {
            lemma_numeral_text(n);
            lemma_number_scans(s, a, t);
        },
        Data::Text(x) => {
            lemma_text_reads(s, a, x);
        },
        _ => {},
    }
}

/// The items of a composite in compact form follow one another loosely
/// behind the opening bracket.
proof fn lemma_enclosed_loose(s: Seq<char>, a: int, b: Bracket, items: Seq<Seq<char>>)
    requires
        solid(items),
        occurs(s, a, enclosed(b, joined(items, seq![',']))),
    ensures
        loose_at(
            s,
            a + b.open_text().len(),
            items,
            0,
            b,
            false,
            a + enclosed(b, joined(items, seq![','])).len(),
        ),
{
    let o = b.open_text();
    let j = joined(items, seq![',']);
    let t = enclosed(b, j);
    let end = a + t.len();
    assert(t =~= o + (j + seq![b.close_char()]));
    lemma_occurs_split(s, a, o, j + seq![b.close_char()]);
    lemma_occurs_split(s, a + o.len(), j, seq![b.close_char()]);
    let e = a + o.len() + j.len();
    assert(seq![b.close_char()][0] == b.close_char());
    assert(s[e] == b.close_char());
    assert(skip_spaces(s, e) == e);
    assert(loose_at(s, e, items, items.len() as int, b, false, end));
    if items.len() > 0 {
        assert(items.take(items.len() as int) =~= items);
        assert(follows_at(s, e, items, items.len() - 1, b, false, end));
        lemma_joined_loose(s, a + o.len(), items, seq![','], items.len() as int, b, false, end);
    } else {
        assert(j.len() == 0);
    }
}

/// The items of an array, a tuple or an object in pretty form follow one
/// another loosely behind the opening bracket.
#[verifier::rlimit(60)]
proof fn lemma_arranged_loose(
    s: Seq<char>,
    a: int,
    b: Bracket,
    items: Seq<Seq<char>>,
    layout: Layout,
    depth: nat,
) -> (trailing: bool)
    requires
        solid(items),
        firm(items),
        occurs(s, a, arranged(b, items, layout, depth)),
    ensures
        loose_at(
            s,
            a + b.open_text().len(),
            items,
            0,
            b,
            trailing,
            a + arranged(b, items, layout, depth).len(),
        ),
{
    let o = b.open_text();
    let t = arranged(b, items, layout, depth);
    let end = a + t.len();
    let close = seq![b.close_char()];
    assert(close[0] == b.close_char());
    if items.len() == 0 {
        lemma_occurs_split(s, a, o, close);
        assert(s[a + o.len()] == b.close_char());
        assert(skip_spaces(s, a + o.len()) == a + o.len());
        false
    } else if fits(items, layout, depth) {
        let j = joined(items, seq![',', ' ']);
        assert(t =~= o + (j + close));
        lemma_occurs_split(s, a, o, j + close);
        lemma_occurs_split(s, a + o.len(), j, close);
        let e = a + o.len() + j.len();
        assert(s[e] == b.close_char());
        assert(skip_spaces(s, e) == e);
        assert(loose_at(s, e, items, items.len() as int, b, false, end));
        assert(items.take(items.len() as int) =~= items);
        assert(follows_at(s, e, items, items.len() - 1, b, false, end));
        lemma_joined_loose(s, a + o.len(), items, seq![',', ' '], items.len() as int, b, false, end);
        false
    } else {
        let margin = indent(layout, depth + 1);
        let lines = packed(
            items,
            0,
            margin,
            margin,
            layout.max_line_length as int,
            layout.trailing_comma,
        );
        let back = indent(layout, depth);
        assert(t =~= (o + seq!['\n']) + (lines + (back + close)));
        lemma_occurs_split(s, a, o + seq!['\n'], lines + (back + close));
        lemma_occurs_split(s, a, o, seq!['\n']);
        assert(seq!['\n'][0] == '\n');
        let nl = a + o.len();
        assert(s[nl] == '\n');
        let start = nl + 1;
        lemma_occurs_split(s, start, lines, back + close);
        let after = start + lines.len();
        lemma_occurs_split(s, after, back, close);
        assert forall|j: int| after <= j < after + back.len() implies is_space(#[trigger] s[j]) by {
            assert(s[j] == back[j - after]);
        }
        assert(s[after + back.len()] == b.close_char());
        lemma_skip_run(s, after, after + back.len());
        lemma_trimmed_prefix(margin);
        lemma_packed_loose(
            s,
            start,
            items,
            0,
            margin,
            margin,
            layout.max_line_length as int,
            layout.trailing_comma,
            b,
            end,
        );
        lemma_loose_shift(s, nl, items, 0, b, layout.trailing_comma, end);
        layout.trailing_comma
    }
}

/// The fields of a struct in pretty form follow one another loosely behind
/// the opening bracket.
proof fn lemma_stacked_text_loose(
    s: Seq<char>,
    a: int,
    items: Seq<Seq<char>>,
    layout: Layout,
    depth: nat,
)
    requires
        solid(items),
        firm(items),
        occurs(s, a, stacked(items, layout, depth)),
    ensures
        loose_at(
            s,
            a + 2,
            items,
            0,
            Bracket::Struct,
            layout.trailing_comma,
            a + stacked(items, layout, depth).len(),
        ),
        s[a] == '@',
        s[a + 1] == '(',
{
    let t = stacked(items, layout, depth);
    let b = Bracket::Struct;
    let end = a + t.len();
    assert(s[a] == t[0] && s[a + 1] == t[1]);
    if items.len() == 0 {
        assert(s[a + 2] == t[2]);
        assert(skip_spaces(s, a + 2) == a + 2);
    } else {
        let margin = indent(layout, depth + 1);
        let lines = stacked_lines(items, items.len(), margin, layout.trailing_comma);
        let back = indent(layout, depth);
        let close = seq![')'];
        assert(close[0] == ')');
        assert(t =~= seq!['@', '(', '\n'] + (lines + (back + close)));
        lemma_occurs_split(s, a, seq!['@', '(', '\n'], lines + (back + close));
        assert(s[a + 2] == t[2]);
        assert(s[a + 2] == '\n');
        let start = a + 3;
        lemma_occurs_split(s, start, lines, back + close);
        let after = start + lines.len();
        lemma_occurs_split(s, after, back, close);
        assert forall|j: int| after <= j < after + back.len() implies is_space(#[trigger] s[j]) by {
            assert(s[j] == back[j - after]);
        }
        assert(s[after + back.len()] == ')');
        lemma_skip_run(s, after, after + back.len());
        assert(loose_at(s, after, items, items.len() as int, b, layout.trailing_comma, end));
        lemma_stacked_loose(s, start, items, items.len(), margin, layout.trailing_comma, b, end);
        lemma_loose_shift(s, a + 2, items, 0, b, layout.trailing_comma, end);
    }
}

/// Whether a written value is read, from wherever it stands, as the
/// canonical form of the value.
spec fn reads_back(s: Seq<char>, d: Data, style: Style) -> bool {
    forall|g: int| #[trigger]
        reads_item(s, g, style.text(d)) ==> value_at(s, g) == Ok::<(Data, int), Failure>(
            (d.canonical(), skip_spaces(s, g) + style.text(d).len()),
        )
}

/// An array or a tuple is read as the canonical form of its values, if each
/// of its values is.
#[verifier::rlimit(60)]
proof fn lemma_sequence_reads(s: Seq<char>, g: int, a: Seq<Data>, b: Bracket, style: Style)
    requires
        b == Bracket::Array || b == Bracket::Tuple,
        forall|j: int| 0 <= j < a.len() ==> (#[trigger] a[j]).wf(),
        forall|j: int| 0 <= j < a.len() ==> reads_back(s, #[trigger] a[j], style.deeper()),
        reads_item(
            s,
            g,
            style.text(
                if b == Bracket::Array {
                    Data::Array(a)
                } else {
                    Data::Tuple(a)
                },
            ),
        ),
    ensures
        ({
            let d = if b == Bracket::Array {
                Data::Array(a)
            } else {
                Data::Tuple(a)
            };
            value_at(s, g) == Ok::<(Data, int), Failure>(
                (d.canonical(), skip_spaces(s, g) + style.text(d).len()),
            )
        }),
{
    let d = if b == Bracket::Array {
        Data::Array(a)
    } else {
        Data::Tuple(a)
    };
    let t = style.text(d);
    let p = skip_spaces(s, g);
    let end = p + t.len();
    let items = style.values(a, a.len());
    lemma_skip_spaces(s, g);
    lemma_style_values(style, a, a.len());
    assert(solid(items) && firm(items)) by {
        assert forall|j: int| 0 <= j < items.len() implies (#[trigger] items[j]).len() > 0
            && is_item_start(items[j][0]) && items[j].last() != ' ' by {
            lemma_text_solid(a[j], style.deeper());
        }
    }
    let trailing = match style {
        Style::Compact => {
            lemma_enclosed_loose(s, p, b, items);
            false
        },
        Style::Pretty(layout, depth) => lemma_arranged_loose(s, p, b, items, layout, depth),
    };
    assert(b.open_text().len() == 1);
    assert(loose_at(s, p + 1, items, 0, b, trailing, end));
    assert forall|j: int, g2: int|
        0 <= j < items.len() && #[trigger] reads_item(s, g2, items[j]) implies value_at(s, g2) == Ok::<
        (Data, int),
        Failure,
    >((a[j].canonical(), skip_spaces(s, g2) + items[j].len())) by {
        assert(reads_back(s, a[j], style.deeper()));
        assert(items[j] == style.deeper().text(a[j]));
    }
    lemma_values_read(s, p + 1, items, a, 0, b, trailing, end);
    lemma_composite_ends(b, style, items, t);
    assert(t[0] == b.open_text()[0]) by {
        match style {
            Style::Compact => {
                assert(t =~= b.open_text() + (joined(items, seq![',']) + seq![b.close_char()]));
            },
            Style::Pretty(layout, depth) => {
                lemma_arranged_ends(b, items, layout, depth);
            },
        }
    }
    assert(s[p] == t[0]);
}

/// What stands behind the key of an entry is read up to the value: the
/// binder is found, and the value is looked for behind it.
proof fn lemma_bound_reads(s: Seq<char>, e1: int, b: Bracket, style: Style, vt: Seq<char>) -> (r:
    int)
    requires
        b == Bracket::Object || b == Bracket::Struct,
        occurs(s, e1, style.bound(b) + vt),
        vt.len() > 0,
        is_item_start(vt[0]),
    ensures
        skip_spaces(s, e1) == r,
        has(s, r, binder_char(b)),
        skip_spaces(s, r + 1) == e1 + style.bound(b).len(),
        0 <= e1 <= r,
{
    let bound = style.bound(b);
    lemma_occurs_split(s, e1, bound, vt);
    let v = e1 + bound.len();
    assert(s[v] == vt[0]);
    assert(forall|k: int| 0 <= k < bound.len() ==> s[e1 + k] == bound[k]);
    match style {
        Style::Compact => {
            assert(bound[0] == binder_char(b));
            assert(s[e1] == binder_char(b));
            assert(skip_spaces(s, e1) == e1);
            lemma_skip_run(s, e1 + 1, v);
            e1
        },
        Style::Pretty(_, _) => {
            if b == Bracket::Struct {
                assert(bound[0] == ' ' && bound[1] == '=' && bound[2] == ' ');
                assert(s[e1] == ' ' && s[e1 + 1] == '=' && s[e1 + 2] == ' ');
                lemma_skip_run(s, e1, e1 + 1);
                lemma_skip_run(s, e1 + 2, v);
                e1 + 1
            } else {
                assert(bound[0] == ':' && bound[1] == ' ');
                assert(s[e1] == ':' && s[e1 + 1] == ' ');
                assert(skip_spaces(s, e1) == e1);
                lemma_skip_run(s, e1 + 1, v);
                e1
            }
        },
    }
}

/// The key of an entry is read from where it stands: a text literal for an
/// object, a name for a struct.
proof fn lemma_key_reads(s: Seq<char>, g: int, b: Bracket, k: Seq<char>, next: char)
    requires
        b == Bracket::Object || b == Bracket::Struct,
        b == Bracket::Struct ==> is_identifier(k),
        0 <= g,
        occurs(
            s,
            skip_spaces(s, g),
            (if b == Bracket::Struct {
                k
            } else {
                quoted(k)
            }) + seq![next],
        ),
        !is_name_char(next),
    ensures
        key_at(s, g, b) == Ok::<(Seq<char>, int), Failure>(
            (
                k,
                skip_spaces(s, g) + (if b == Bracket::Struct {
                    k
                } else {
                    quoted(k)
                }).len(),
            ),
        ),
{
    let kt = if b == Bracket::Struct {
        k
    } else {
        quoted(k)
    };
    let q = skip_spaces(s, g);
    lemma_occurs_split(s, q, kt, seq![next]);
    assert(seq![next][0] == next);
    assert(s[q + kt.len()] == next);
    if b == Bracket::Struct {
        assert(s[q] == k[0]);
        lemma_name_scans(s, q, k, 0);
        lemma_occurs_subrange(s, q, k);
    } else {
        lemma_text_reads(s, q, k);
    }
}

/// An entry of an object or a field of a struct is read as its key and the
/// canonical form of its value, if its value is.
#[verifier::rlimit(60)]
proof fn lemma_entry_reads(
    s: Seq<char>,
    g: int,
    b: Bracket,
    style: Style,
    k: Seq<char>,
    v: Data,
)
    requires
        b == Bracket::Object || b == Bracket::Struct,
        b == Bracket::Struct ==> is_identifier(k),
        v.wf(),
        reads_back(s, v, style.deeper()),
        reads_item(
            s,
            g,
            (if b == Bracket::Struct {
                k
            } else {
                quoted(k)
            }) + style.bound(b) + style.deeper().text(v),
        ),
    ensures
        entry_reads(
            s,
            g,
            b,
            k,
            v.canonical(),
            skip_spaces(s, g) + ((if b == Bracket::Struct {
                k
            } else {
                quoted(k)
            }) + style.bound(b) + style.deeper().text(v)).len(),
        ),
{
    let kt = if b == Bracket::Struct {
        k
    } else {
        quoted(k)
    };
    let bound = style.bound(b);
    let vt = style.deeper().text(v);
    let item = kt + bound + vt;
    let q = skip_spaces(s, g);
    lemma_skip_spaces(s, g);
    lemma_text_solid(v, style.deeper());
    assert(bound.len() > 0 && !is_name_char(bound[0]));
    let rest = bound.skip(1) + vt;
    assert(item =~= (kt + seq![bound[0]]) + rest);
    lemma_occurs_split(s, q, kt + seq![bound[0]], rest);
    lemma_key_reads(s, g, b, k, bound[0]);
    assert(item =~= kt + (bound + vt));
    lemma_occurs_split(s, q, kt, bound + vt);
    let e1 = q + kt.len();
    let r = lemma_bound_reads(s, e1, b, style, vt);
    lemma_occurs_split(s, e1, bound, vt);
    let v0 = e1 + bound.len();
    assert(skip_spaces(s, r + 1) == v0);
    assert(v0 + vt.len() == q + item.len());
    assert(reads_item(s, r + 1, vt));
    assert(value_at(s, r + 1) == Ok::<(Data, int), Failure>((v.canonical(), v0 + vt.len())));
    assert(bound_value_at(s, e1, b) == Ok::<(Data, int), Failure>((v.canonical(), v0 + vt.len())));
}

/// An object or a struct is read as the canonical form of its entries, if
/// each of its values is.
#[verifier::rlimit(60)]
proof fn lemma_record_reads(
    s: Seq<char>,
    g: int,
    name: Seq<char>,
    e: Seq<(Seq<char>, Data)>,
    b: Bracket,
    style: Style,
)
    requires
        b == Bracket::Object || b == Bracket::Struct,
        strictly_sorted(e),
        forall|j: int| 0 <= j < e.len() ==> (#[trigger] e[j]).1.wf(),
        b == Bracket::Struct ==> forall|j: int| 0 <= j < e.len() ==> is_identifier((#[trigger] e[j]).0),
        forall|j: int| 0 <= j < e.len() ==> reads_back(s, (#[trigger] e[j]).1, style.deeper()),
        reads_item(
            s,
            g,
            style.text(
                if b == Bracket::Object {
                    Data::Object(e)
                } else {
                    Data::Struct(name, e)
                },
            ),
        ),
    ensures
        ({
            let d = if b == Bracket::Object {
                Data::Object(e)
            } else {
                Data::Struct(name, e)
            };
            value_at(s, g) == Ok::<(Data, int), Failure>(
                (d.canonical(), skip_spaces(s, g) + style.text(d).len()),
            )
        }),
{
    let d = if b == Bracket::Object {
        Data::Object(e)
    } else {
        Data::Struct(name, e)
    };
    let t = style.text(d);
    let p = skip_spaces(s, g);
    let end = p + t.len();
    let items = if b == Bracket::Object {
        style.members(e, e.len())
    } else {
        style.fields(e, e.len())
    };
    lemma_skip_spaces(s, g);
    lemma_style_members(style, e, e.len());
    lemma_style_fields(style, e, e.len());
    assert(solid(items) && firm(items)) by {
        assert forall|j: int| 0 <= j < items.len() implies (#[trigger] items[j]).len() > 0
            && is_item_start(items[j][0]) && items[j].last() != ' ' by {
            lemma_text_solid(e[j].1, style.deeper());
            let vt = style.deeper().text(e[j].1);
            let kt = if b == Bracket::Struct {
                e[j].0
            } else {
                quoted(e[j].0)
            };
            assert(items[j] == kt + style.bound(b) + vt);
            assert(items[j].last() == vt.last());
            if b == Bracket::Struct {
                assert(is_identifier(e[j].0));
                assert(items[j][0] == e[j].0[0]);
            } else {
                assert(items[j][0] == '"');
            }
        }
    }
    let trailing = match style {
        Style::Compact => {
            lemma_enclosed_loose(s, p, b, items);
            false
        },
        Style::Pretty(layout, depth) => {
            if b == Bracket::Object {
                lemma_arranged_loose(s, p, b, items, layout, depth)
            } else {
                lemma_stacked_text_loose(s, p, items, layout, depth);
                layout.trailing_comma
            }
        },
    };
    let o = b.open_text().len() as int;
    assert(loose_at(s, p + o, items, 0, b, trailing, end));
    assert forall|j: int, g2: int|
        0 <= j < items.len() && #[trigger] reads_item(s, g2, items[j]) implies entry_reads(
        s,
        g2,
        b,
        e[j].0,
        e[j].1.canonical(),
        skip_spaces(s, g2) + items[j].len(),
    ) by {
        lemma_entry_reads(s, g2, b, style, e[j].0, e[j].1);
    }
    lemma_entries_read(s, p + o, items, e, 0, b, trailing, end);
    if b == Bracket::Object {
        lemma_composite_ends(b, style, items, t);
        assert(t[0] == '{') by {
            match style {
                Style::Compact => {
                    assert(t =~= b.open_text() + (joined(items, seq![',']) + seq![b.close_char()]));
                },
                Style::Pretty(layout, depth) => {
                    lemma_arranged_ends(b, items, layout, depth);
                },
            }
        }
        assert(s[p] == t[0]);
    } else {
        match style {
            Style::Compact => {
                assert(t =~= b.open_text() + (joined(items, seq![',']) + seq![b.close_char()]));
                assert(t[0] == '@' && t[1] == '(');
                assert(s[p] == t[0] && s[p + 1] == t[1]);
            },
            Style::Pretty(layout, depth) => {},
        }
        assert(s[p] == '@' && s[p + 1] == '(');
        assert(skip_spaces(s, p + 1) == p + 1);
    }
}

/// A written value is read, from wherever it stands closed off, as the
/// canonical form of the value.
proof fn lemma_value_reads(s: Seq<char>, d: Data, style: Style)
    requires
        d.wf(),
        d.plain(),
    ensures
        reads_back(s, d, style),
    decreases d,
{
    match d {
        Data::Array(a) => {
            assert forall|j: int| 0 <= j < a.len() implies reads_back(
                s,
                #[trigger] a[j],
                style.deeper(),
            ) by {
                lemma_value_reads(s, a[j], style.deeper());
            }
            assert forall|g: int| #[trigger] reads_item(s, g, style.text(d)) implies value_at(s, g)
                == Ok::<(Data, int), Failure>(
                (d.canonical(), skip_spaces(s, g) + style.text(d).len()),
            ) by {
                lemma_sequence_reads(s, g, a, Bracket::Array, style);
            }
        },
        Data::Tuple(a) => {
            assert forall|j: int| 0 <= j < a.len() implies reads_back(
                s,
                #[trigger] a[j],
                style.deeper(),
            ) by {
                lemma_value_reads(s, a[j], style.deeper());
            }
            assert forall|g: int| #[trigger] reads_item(s, g, style.text(d)) implies value_at(s, g)
                == Ok::<(Data, int), Failure>(
                (d.canonical(), skip_spaces(s, g) + style.text(d).len()),
            ) by {
                lemma_sequence_reads(s, g, a, Bracket::Tuple, style);
            }
        },
        Data::Object(e) => {
            assert forall|j: int| 0 <= j < e.len() implies reads_back(
                s,
                (#[trigger] e[j]).1,
                style.deeper(),
            ) by {
                lemma_value_reads(s, e[j].1, style.deeper());
            }
            assert forall|g: int| #[trigger] reads_item(s, g, style.text(d)) implies value_at(s, g)
                == Ok::<(Data, int), Failure>(
                (d.canonical(), skip_spaces(s, g) + style.text(d).len()),
            ) by {
                lemma_record_reads(s, g, Seq::empty(), e, Bracket::Object, style);
            }
        },
        Data::Struct(name, e) => {
            assert forall|j: int| 0 <= j < e.len() implies reads_back(
                s,
                (#[trigger] e[j]).1,
                style.deeper(),
            ) by {
                lemma_value_reads(s, e[j].1, style.deeper());
            }
            assert forall|g: int| #[trigger] reads_item(s, g, style.text(d)) implies value_at(s, g)
                == Ok::<(Data, int), Failure>(
                (d.canonical(), skip_spaces(s, g) + style.text(d).len()),
            ) by {
                lemma_record_reads(s, g, name, e, Bracket::Struct, style);
            }
        },
        _ => {
            assert forall|g: int| #[trigger] reads_item(s, g, style.text(d)) implies value_at(s, g)
                == Ok::<(Data, int), Failure>(
                (d.canonical(), skip_spaces(s, g) + style.text(d).len()),
            ) by {
                lemma_atom_reads(s, g, d, style);
            }
        },
    }
}

/// All of a written value is read as the canonical form of the value.
proof fn lemma_round_trip(d: Data, style: Style)
    requires
        d.wf(),
        d.plain(),
    ensures
        parse(style.text(d)) == Ok::<Data, Failure>(d.canonical()),
{
    let s = style.text(d);
    lemma_text_solid(d, style);
    assert(skip_spaces(s, 0) == 0);
    assert(occurs(s, 0, s));
    assert(reads_item(s, 0, s));
    lemma_value_reads(s, d, style);
    assert(skip_spaces(s, s.len() as int) == s.len());
}

/// Decoding inverts compact encoding: the compact form of a well-formed
/// value whose structs have names for their field keys is read back as the
/// value in canonical form.
pub proof fn lemma_decode_compact(d: Data)
    requires
        d.wf(),
        d.plain(),
    ensures
        parse(compact_text(d)) == Ok::<Data, Failure>(d.canonical()),
{
    lemma_round_trip(d, Style::Compact);
}

/// Decoding inverts pretty encoding in every layout: the pretty form of a
/// well-formed value whose structs have names for their field keys is read
/// back as the value in canonical form.
pub proof fn lemma_decode_pretty(d: Data, layout: Layout)
    requires
        d.wf(),
        d.plain(),
    ensures
        parse(pretty_text(d, layout, 0)) == Ok::<Data, Failure>(d.canonical()),
{
    lemma_round_trip(d, Style::Pretty(layout, 0));
}

/// The name of a struct is not read back: whatever the name, the struct is
/// read back, from either form, with the empty name and its fields in
/// canonical form.
pub proof fn lemma_struct_name_is_dropped(
    name: Seq<char>,
    fields: Seq<(Seq<char>, Data)>,
    layout: Layout,
)
    requires
        Data::Struct(name, fields).wf(),
        Data::Struct(name, fields).plain(),
    ensures
        parse(compact_text(Data::Struct(name, fields))) == Ok::<Data, Failure>(
            Data::Struct(Seq::empty(), canonical_entries(fields, fields.len())),
        ),
        parse(pretty_text(Data::Struct(name, fields), layout, 0)) == Ok::<Data, Failure>(
            Data::Struct(Seq::empty(), canonical_entries(fields, fields.len())),
        ),
{
    lemma_decode_compact(Data::Struct(name, fields));
    lemma_decode_pretty(Data::Struct(name, fields), layout);
}

/// The name of a struct does not show in what is written: two structs with
/// the same fields have the same compact form, and the same pretty form in
/// every layout at every depth.
pub proof fn lemma_struct_name_does_not_show(
    one: Seq<char>,
    other: Seq<char>,
    fields: Seq<(Seq<char>, Data)>,
    layout: Layout,
    depth: nat,
)
    ensures
        compact_text(Data::Struct(one, fields)) == compact_text(Data::Struct(other, fields)),
        pretty_text(Data::Struct(one, fields), layout, depth) == pretty_text(
            Data::Struct(other, fields),
            layout,
            depth,
        ),
{
}

/// The order of insertion does not show in what is written: objects, and
/// structs, whose entries have their keys in order and hold the same values
/// under the same keys have the same compact form, and the same pretty form
/// in every layout at every depth.
pub proof fn lemma_same_pairs_same_text(
    a: Seq<(Seq<char>, Data)>,
    b: Seq<(Seq<char>, Data)>,
    name: Seq<char>,
    layout: Layout,
    depth: nat,
)
    requires
        strictly_sorted(a),
        strictly_sorted(b),
        forall|k: Seq<char>| value_of(a, k) == value_of(b, k),
    ensures
        compact_text(Data::Object(a)) == compact_text(Data::Object(b)),
        pretty_text(Data::Object(a), layout, depth) == pretty_text(Data::Object(b), layout, depth),
        compact_text(Data::Struct(name, a)) == compact_text(Data::Struct(name, b)),
        pretty_text(Data::Struct(name, a), layout, depth) == pretty_text(
            Data::Struct(name, b),
            layout,
            depth,
        ),
{
    lemma_same_pairs_same_entries(a, b);
}

} // verus!
