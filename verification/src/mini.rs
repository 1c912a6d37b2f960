//! The compact encoder: a value on one line, with no space anywhere.

use vstd::prelude::*;
use crate::chars::{append_chars, chars_of, string_of};
use crate::error::Error;
use crate::number::Number;
use crate::syntax::{atom_text, enclosed, joined, push_boolean, push_null, push_quoted, quoted, Bracket};
use crate::value::{lemma_array_view, views, Data, Entries, Value};

verus! {

/// The compact form of a value.
///
/// A keyword, a number or a text literal stands as it is. The items of a
/// composite stand between its brackets with a comma and nothing else between
/// each two: the values of an array or a tuple, `"key":value` for each entry
/// of an object, `name=value` for each field of a struct, entries and fields
/// in the order of their keys. The name of a struct is not written.
pub open spec fn compact_text(d: Data) -> Seq<char>
    decreases d, 0nat,
{
    match d {
        Data::Array(a) => enclosed(Bracket::Array, joined(compact_values(a, a.len()), seq![','])),
        Data::Tuple(a) => enclosed(Bracket::Tuple, joined(compact_values(a, a.len()), seq![','])),
        Data::Object(e) => enclosed(
            Bracket::Object,
            joined(compact_members(e, e.len()), seq![',']),
        ),
        Data::Struct(_, e) => enclosed(
            Bracket::Struct,
            joined(compact_fields(e, e.len()), seq![',']),
        ),
        _ => atom_text(d),
    }
}

/// The compact forms of the first `n` values of `a`.
pub open spec fn compact_values(a: Seq<Data>, n: nat) -> Seq<Seq<char>>
    decreases a, n,
{
    if n == 0 || n > a.len() {
        Seq::empty()
    } else {
        compact_values(a, (n - 1) as nat).push(compact_text(a[n - 1]))
    }
}

/// The compact forms of the first `n` entries of an object: `"key":value`.
pub open spec fn compact_members(e: Seq<(Seq<char>, Data)>, n: nat) -> Seq<Seq<char>>
    decreases e, n,
{
    if n == 0 || n > e.len() {
        Seq::empty()
    } else {
        compact_members(e, (n - 1) as nat).push(
            quoted(e[n - 1].0) + seq![':'] + compact_text(e[n - 1].1),
        )
    }
}

/// The compact forms of the first `n` fields of a struct: `name=value`.
pub open spec fn compact_fields(e: Seq<(Seq<char>, Data)>, n: nat) -> Seq<Seq<char>>
    decreases e, n,
{
    if n == 0 || n > e.len() {
        Seq::empty()
    } else {
        compact_fields(e, (n - 1) as nat).push(e[n - 1].0 + seq!['='] + compact_text(e[n - 1].1))
    }
}

/// A value that is ready to be written in compact form.
pub struct Encoder {
    input: Value,
}

impl View for Encoder {
    type V = Data;

    closed spec fn view(&self) -> Data {
        self.input@
    }
}

impl Encoder {
    /// An encoder for `input`.
    pub fn new(input: Value) -> (r: Encoder)
        ensures
            r@ == input@,
    {
        Encoder { input }
    }

    /// The compact form of the value. It never fails.
    pub fn encode(self) -> (r: Result<String, Error>)
        ensures
            r matches Ok(s) && s@ == compact_text(self@),
    {
        let mut out: Vec<char> = Vec::new();
        self.encode_value(&self.input, &mut out);
        assert(out@ =~= compact_text(self@));
        Ok(string_of(&out))
    }

    fn encode_null(&self, out: &mut Vec<char>)
        ensures
            final(out)@ == old(out)@ + compact_text(Data::Null),
    {
        push_null(out);
    }

    fn encode_boolean(&self, value: bool, out: &mut Vec<char>)
        ensures
            final(out)@ == old(out)@ + compact_text(Data::Boolean(value)),
    {
        push_boolean(out, value);
    }

    fn encode_number(&self, value: &Number, out: &mut Vec<char>)
        ensures
            final(out)@ == old(out)@ + compact_text(Data::Number(value@)),
    {
        value.append_to(out);
    }

    fn encode_text(&self, value: &String, out: &mut Vec<char>)
        ensures
            final(out)@ == old(out)@ + compact_text(Data::Text(value@)),
    {
        let chars = chars_of(value.as_str());
        push_quoted(out, &chars);
    }

    /// Appends the values of `items`, each in compact form, with commas
    /// between them.
    fn encode_items(&self, items: &Vec<Value>, out: &mut Vec<char>)
        ensures
            final(out)@ == old(out)@ + joined(
                compact_values(views(items@), items@.len()),
                seq![','],
            ),
        decreases items, 0nat,
    {
        let ghost a = views(items@);
        let mut i: usize = 0;
        assert(out@ =~= old(out)@ + joined(compact_values(a, 0), seq![',']));
        while i < items.len()
            invariant
                i <= items.len(),
                a == views(items@),
                out@ == old(out)@ + joined(compact_values(a, i as nat), seq![',']),
            decreases items.len() - i,
        {
            if i > 0 {
                out.push(',');
            }
            self.encode_value(&items[i], out);
            proof {
                let done = compact_values(a, i as nat);
                let next = compact_values(a, (i + 1) as nat);
                assert(next == done.push(compact_text(a[i as int])));
                assert(next.drop_last() =~= done);
                lemma_compact_values_len(a, i as nat);
                assert(out@ =~= old(out)@ + joined(next, seq![',']));
            }
            i += 1;
        }
    }

    fn encode_array(&self, value: &Vec<Value>, out: &mut Vec<char>)
        ensures
            final(out)@ == old(out)@ + compact_text(Data::Array(views(value@))),
        decreases value, 1nat,
    {
        out.push('[');
        self.encode_items(value, out);
        out.push(']');
        assert(out@ =~= old(out)@ + compact_text(Data::Array(views(value@))));
    }

    fn encode_tuple(&self, value: &Vec<Value>, out: &mut Vec<char>)
        ensures
            final(out)@ == old(out)@ + compact_text(Data::Tuple(views(value@))),
        decreases value, 1nat,
    {
        out.push('(');
        self.encode_items(value, out);
        out.push(')');
        assert(out@ =~= old(out)@ + compact_text(Data::Tuple(views(value@))));
    }

    fn encode_object(&self, value: &Entries, out: &mut Vec<char>)
        ensures
            final(out)@ == old(out)@ + compact_text(Data::Object(value@)),
        decreases value, 1nat,
    {
        let ghost e = value@;
        out.push('{');
        let ghost opened = out@;
        let mut i: usize = 0;
        assert(out@ =~= opened + joined(compact_members(e, 0), seq![',']));
        while i < value.len()
            invariant
                i <= e.len(),
                e == value@,
                out@ == opened + joined(compact_members(e, i as nat), seq![',']),
            decreases e.len() - i,
        {
            if i > 0 {
                out.push(',');
            }
            push_quoted(out, value.key_chars_at(i));
            out.push(':');
            self.encode_value(value.value_at(i), out);
            proof {
                let done = compact_members(e, i as nat);
                let next = compact_members(e, (i + 1) as nat);
                assert(next.drop_last() =~= done);
                lemma_compact_members_len(e, i as nat);
                assert(out@ =~= opened + joined(next, seq![',']));
            }
            i += 1;
        }
        out.push('}');
        assert(out@ =~= old(out)@ + compact_text(Data::Object(value@)));
    }

    fn encode_struct(&self, value: &Entries, out: &mut Vec<char>)
        ensures
            forall|name: Seq<char>|
                final(out)@ == old(out)@ + #[trigger] compact_text(Data::Struct(name, value@)),
        decreases value, 1nat,
    {
        let ghost e = value@;
        out.push('@');
        out.push('(');
        let ghost opened = out@;
        let mut i: usize = 0;
        assert(out@ =~= opened + joined(compact_fields(e, 0), seq![',']));
        while i < value.len()
            invariant
                i <= e.len(),
                e == value@,
                out@ == opened + joined(compact_fields(e, i as nat), seq![',']),
            decreases e.len() - i,
        {
            if i > 0 {
                out.push(',');
            }
            append_chars(out, value.key_chars_at(i));
            out.push('=');
            self.encode_value(value.value_at(i), out);
            proof {
                let done = compact_fields(e, i as nat);
                let next = compact_fields(e, (i + 1) as nat);
                assert(next.drop_last() =~= done);
                lemma_compact_fields_len(e, i as nat);
                assert(out@ =~= opened + joined(next, seq![',']));
            }
            i += 1;
        }
        out.push(')');
        assert forall|name: Seq<char>|
            out@ == old(out)@ + #[trigger] compact_text(Data::Struct(name, value@)) by {
            assert(out@ =~= old(out)@ + compact_text(Data::Struct(name, value@)));
        }
    }

    fn encode_value(&self, value: &Value, out: &mut Vec<char>)
        ensures
            final(out)@ == old(out)@ + compact_text(value@),
        decreases value, 2nat,
    {
        match value {
            Value::Null => self.encode_null(out),
            Value::Boolean(b) => self.encode_boolean(*b, out),
            Value::Number(n) => self.encode_number(n, out),
            Value::Text(t) => self.encode_text(t, out),
            Value::Array(a) => {
                proof {
                    lemma_array_view(*a);
                }
                self.encode_array(a, out)
            },
            Value::Tuple(a) => {
                proof {
                    lemma_array_view(*a);
                }
                self.encode_tuple(a, out)
            },
            Value::Object(e) => self.encode_object(e, out),
            Value::Struct(_, e) => self.encode_struct(e, out),
        }
    }
}

/// There are as many compact forms as values asked for.
pub proof fn lemma_compact_values_len(a: Seq<Data>, n: nat)
    requires
        n <= a.len(),
    ensures
        compact_values(a, n).len() == n,
    decreases n,
{
    if n > 0 {
        lemma_compact_values_len(a, (n - 1) as nat);
    }
}

/// There are as many compact forms as entries asked for.
pub proof fn lemma_compact_members_len(e: Seq<(Seq<char>, Data)>, n: nat)
    requires
        n <= e.len(),
    ensures
        compact_members(e, n).len() == n,
    decreases n,
{
    if n > 0 {
        lemma_compact_members_len(e, (n - 1) as nat);
    }
}

/// There are as many compact forms as fields asked for.
pub proof fn lemma_compact_fields_len(e: Seq<(Seq<char>, Data)>, n: nat)
    requires
        n <= e.len(),
    ensures
        compact_fields(e, n).len() == n,
    decreases n,
{
    if n > 0 {
        lemma_compact_fields_len(e, (n - 1) as nat);
    }
}

} // verus!
