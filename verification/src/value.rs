//! The value model: what the format can express.

use vstd::prelude::*;
use crate::chars::{append_chars, chars_of, string_of};
use crate::number::{Number, Numeral};

verus! {

/// Whether text `a` comes before text `b`: at the first place where they
/// differ `a` has the smaller code point, or `a` ends there and `b` goes on.
pub open spec fn text_lt(a: Seq<char>, b: Seq<char>) -> bool
    decreases a.len(),
{
    if b.len() == 0 {
        false
    } else if a.len() == 0 {
        true
    } else if a[0] != b[0] {
        (a[0] as u32) < (b[0] as u32)
    } else {
        text_lt(a.skip(1), b.skip(1))
    }
}

/// No text comes before itself, and of two texts at most one comes before the
/// other.
pub proof fn lemma_lt_asymmetric(a: Seq<char>, b: Seq<char>)
    ensures
        text_lt(a, b) ==> !text_lt(b, a) && a != b,
    decreases a.len(),
{
    if b.len() > 0 && a.len() > 0 && a[0] == b[0] {
        lemma_lt_asymmetric(a.skip(1), b.skip(1));
        if a == b {
            assert(a.skip(1) == b.skip(1));
        }
    }
}

/// What comes before a text comes before everything that the text comes
/// before.
pub proof fn lemma_lt_transitive(a: Seq<char>, b: Seq<char>, c: Seq<char>)
    requires
        text_lt(a, b),
        text_lt(b, c),
    ensures
        text_lt(a, c),
    decreases a.len(),
{
    if a.len() > 0 && a[0] == b[0] && b[0] == c[0] {
        lemma_lt_transitive(a.skip(1), b.skip(1), c.skip(1));
    }
}

/// Texts that agree on their first `i` characters are ordered as what
/// follows those characters.
pub proof fn lemma_lt_skip(a: Seq<char>, b: Seq<char>, i: int)
    requires
        0 <= i <= a.len(),
        i <= b.len(),
        forall|k: int| 0 <= k < i ==> a[k] == b[k],
    ensures
        text_lt(a, b) == text_lt(a.skip(i), b.skip(i)),
    decreases i,
{
    if i == 0 {
        assert(a.skip(0) =~= a);
        assert(b.skip(0) =~= b);
    } else {
        assert(a[0] == b[0]);
        lemma_lt_skip(a.skip(1), b.skip(1), i - 1);
        assert(a.skip(1).skip(i - 1) =~= a.skip(i));
        assert(b.skip(1).skip(i - 1) =~= b.skip(i));
    }
}

/// A value as specifications see it: texts as sequences of characters,
/// arrays and tuples as sequences of values, objects and structs as
/// sequences of entries in the order of their keys.
pub enum Data {
    Null,
    Boolean(bool),
    Number(Numeral),
    Text(Seq<char>),
    Array(Seq<Data>),
    Tuple(Seq<Data>),
    Object(Seq<(Seq<char>, Data)>),
    Struct(Seq<char>, Seq<(Seq<char>, Data)>),
}

/// Whether each entry's key comes before the keys of all later entries, so
/// that no key occurs twice.
pub open spec fn strictly_sorted(e: Seq<(Seq<char>, Data)>) -> bool {
    forall|i: int, j: int| 0 <= i < j < e.len() ==> text_lt(#[trigger] e[i].0, #[trigger] e[j].0)
}

/// The value that `e` holds under key `k`, if it holds one.
pub open spec fn value_of(e: Seq<(Seq<char>, Data)>, k: Seq<char>) -> Option<Data>
    decreases e.len(),
{
    if e.len() == 0 {
        None
    } else if e.last().0 == k {
        Some(e.last().1)
    } else {
        value_of(e.drop_last(), k)
    }
}

/// The entries `e` with `v` under key `k`: in place of the entry with that
/// key if there is one, else at the place that keeps the keys in order.
pub open spec fn put(e: Seq<(Seq<char>, Data)>, k: Seq<char>, v: Data) -> Seq<(Seq<char>, Data)>
    decreases e.len(),
{
    if e.len() == 0 {
        seq![(k, v)]
    } else if text_lt(e.last().0, k) {
        e.push((k, v))
    } else if e.last().0 == k {
        e.drop_last().push((k, v))
    } else {
        put(e.drop_last(), k, v).push(e.last())
    }
}

impl Data {
    /// Whether the value is well formed: in every object and struct the keys
    /// are in order, and every decimal is a numeric literal.
    pub open spec fn wf(self) -> bool
        decreases self,
    {
        match self {
            Data::Number(n) => n.wf(),
            Data::Array(a) => forall|i: int| 0 <= i < a.len() ==> (#[trigger] a[i]).wf(),
            Data::Tuple(a) => forall|i: int| 0 <= i < a.len() ==> (#[trigger] a[i]).wf(),
            Data::Object(e) => strictly_sorted(e) && forall|i: int|
                0 <= i < e.len() ==> (#[trigger] e[i]).1.wf(),
            Data::Struct(_, e) => strictly_sorted(e) && forall|i: int|
                0 <= i < e.len() ==> (#[trigger] e[i]).1.wf(),
            _ => true,
        }
    }
}

/// Whether every value of the entries is well formed.
pub open spec fn all_wf(e: Seq<(Seq<char>, Data)>) -> bool {
    forall|i: int| 0 <= i < e.len() ==> (#[trigger] e[i]).1.wf()
}

/// Putting a well-formed value among well-formed ones leaves all well
/// formed.
pub proof fn lemma_put_all_wf(e: Seq<(Seq<char>, Data)>, k: Seq<char>, v: Data)
    requires
        all_wf(e),
        v.wf(),
    ensures
        all_wf(put(e, k, v)),
    decreases e.len(),
{
    if e.len() > 0 && !text_lt(e.last().0, k) && e.last().0 != k {
        let d = e.drop_last();
        assert forall|i: int| 0 <= i < d.len() implies (#[trigger] d[i]).1.wf() by {
            assert(d[i] == e[i]);
        }
        lemma_put_all_wf(d, k, v);
    } else if e.len() > 0 && !text_lt(e.last().0, k) {
        let d = e.drop_last();
        assert forall|i: int| 0 <= i < d.len() implies (#[trigger] d[i]).1.wf() by {
            assert(d[i] == e[i]);
        }
    }
}

/// Putting `v` under `k` inserts at `i` if all keys from `i` on come after
/// `k` and the key before `i` comes before it.
pub proof fn lemma_put_inserts(e: Seq<(Seq<char>, Data)>, k: Seq<char>, v: Data, i: int)
    requires
        0 <= i <= e.len(),
        forall|j: int| i <= j < e.len() ==> text_lt(k, #[trigger] e[j].0),
        i == 0 || text_lt(e[i - 1].0, k),
    ensures
        put(e, k, v) == e.insert(i, (k, v)),
    decreases e.len() - i,
{
    if e.len() == 0 {
        assert(e.insert(0, (k, v)) =~= seq![(k, v)]);
    } else if i == e.len() {
        assert(e.insert(i, (k, v)) =~= e.push((k, v)));
    } else {
        let last = e.last();
        assert(text_lt(k, e[e.len() - 1].0));
        lemma_lt_asymmetric(k, last.0);
        let d = e.drop_last();
        assert forall|j: int| i <= j < d.len() implies text_lt(k, #[trigger] d[j].0) by {
            assert(d[j] == e[j]);
        }
        if i > 0 {
            assert(d[i - 1] == e[i - 1]);
        }
        lemma_put_inserts(d, k, v, i);
        assert(d.insert(i, (k, v)).push(last) =~= e.insert(i, (k, v)));
    }
}

/// Putting `v` under `k` replaces the entry before `i` if that entry has the
/// key `k` and all keys from `i` on come after `k`.
pub proof fn lemma_put_replaces(e: Seq<(Seq<char>, Data)>, k: Seq<char>, v: Data, i: int)
    requires
        0 < i <= e.len(),
        forall|j: int| i <= j < e.len() ==> text_lt(k, #[trigger] e[j].0),
        e[i - 1].0 == k,
    ensures
        put(e, k, v) == e.update(i - 1, (k, v)),
    decreases e.len() - i,
{
    let last = e.last();
    lemma_lt_asymmetric(k, k);
    if i == e.len() {
        assert(e.drop_last().push((k, v)) =~= e.update(i - 1, (k, v)));
    } else {
        assert(text_lt(k, e[e.len() - 1].0));
        lemma_lt_asymmetric(k, last.0);
        let d = e.drop_last();
        assert forall|j: int| i <= j < d.len() implies text_lt(k, #[trigger] d[j].0) by {
            assert(d[j] == e[j]);
        }
        assert(d[i - 1] == e[i - 1]);
        lemma_put_replaces(d, k, v, i);
        assert(d.update(i - 1, (k, v)).push(last) =~= e.update(i - 1, (k, v)));
    }
}

/// No entry of `e` has key `k` if `k` lies between the keys before `i` and
/// those from `i` on.
pub proof fn lemma_value_of_absent(e: Seq<(Seq<char>, Data)>, k: Seq<char>, i: int)
    requires
        strictly_sorted(e),
        0 <= i <= e.len(),
        forall|j: int| i <= j < e.len() ==> text_lt(k, #[trigger] e[j].0),
        i == 0 || text_lt(e[i - 1].0, k),
    ensures
        value_of(e, k) is None,
    decreases e.len(),
{
    if e.len() > 0 {
        let d = e.drop_last();
        let last = e.last();
        assert(d.len() == e.len() - 1);
        assert forall|a: int, b: int| 0 <= a < b < d.len() implies text_lt(
            #[trigger] d[a].0,
            #[trigger] d[b].0,
        ) by {
            assert(d[a] == e[a] && d[b] == e[b]);
        }
        if i == e.len() {
            assert(text_lt(e[i - 1].0, k));
            lemma_lt_asymmetric(last.0, k);
            if d.len() > 0 {
                assert(text_lt(e[d.len() - 1].0, e[i - 1].0));
                lemma_lt_transitive(d[d.len() - 1].0, last.0, k);
            }
            lemma_value_of_absent(d, k, d.len() as int);
        } else {
            assert(text_lt(k, e[e.len() - 1].0));
            lemma_lt_asymmetric(k, last.0);
            assert forall|j: int| i <= j < d.len() implies text_lt(k, #[trigger] d[j].0) by {
                assert(d[j] == e[j]);
            }
            if i > 0 {
                assert(d[i - 1] == e[i - 1]);
            }
            lemma_value_of_absent(d, k, i);
        }
    }
}

/// The entry before `i` holds the value under `k` if it has the key `k` and
/// all keys from `i` on come after `k`.
pub proof fn lemma_value_of_present(e: Seq<(Seq<char>, Data)>, k: Seq<char>, i: int)
    requires
        0 < i <= e.len(),
        forall|j: int| i <= j < e.len() ==> text_lt(k, #[trigger] e[j].0),
        e[i - 1].0 == k,
    ensures
        value_of(e, k) == Some(e[i - 1].1),
    decreases e.len() - i,
{
    if i < e.len() {
        let d = e.drop_last();
        assert(text_lt(k, e[e.len() - 1].0));
        lemma_lt_asymmetric(k, e.last().0);
        assert forall|j: int| i <= j < d.len() implies text_lt(k, #[trigger] d[j].0) by {
            assert(d[j] == e[j]);
        }
        assert(d[i - 1] == e[i - 1]);
        lemma_value_of_present(d, k, i);
    }
}

/// A value: nothing, a truth value, a number, a text, an ordered sequence
/// (array or tuple), a mapping from text keys to values (object), or a named
/// record (struct).
#[derive(Debug, PartialEq)]
pub enum Value {
    Null,
    Boolean(bool),
    Number(Number),
    Text(String),
    Array(Vec<Value>),
    Tuple(Vec<Value>),
    Object(Entries),
    Struct(String, Entries),
}

/// A mapping from text keys to values that keeps its entries in the order of
/// their keys, each key once.
#[derive(Debug, PartialEq)]
pub struct Entries {
    items: Vec<(Vec<char>, Value)>,
}

/// The views of a sequence of values.
pub open spec fn views(a: Seq<Value>) -> Seq<Data> {
    Seq::new(a.len(), |i: int| a[i]@)
}

impl View for Value {
    type V = Data;

    open spec fn view(&self) -> Data
        decreases self,
    {
        match self {
            Value::Null => Data::Null,
            Value::Boolean(b) => Data::Boolean(*b),
            Value::Number(n) => Data::Number(n@),
            Value::Text(t) => Data::Text(t@),
            Value::Array(a) => Data::Array(
                Seq::new(
                    a@.len(),
                    |i: int|
                        if 0 <= i < a@.len() {
                            a@[i]@
                        } else {
                            Data::Null
                        },
                ),
            ),
            Value::Tuple(a) => Data::Tuple(
                Seq::new(
                    a@.len(),
                    |i: int|
                        if 0 <= i < a@.len() {
                            a@[i]@
                        } else {
                            Data::Null
                        },
                ),
            ),
            Value::Object(e) => Data::Object(e@),
            Value::Struct(name, e) => Data::Struct(name@, e@),
        }
    }
}

impl View for Entries {
    type V = Seq<(Seq<char>, Data)>;

    closed spec fn view(&self) -> Seq<(Seq<char>, Data)>
        decreases self,
    {
        Seq::new(
            self.items@.len(),
            |i: int|
                if 0 <= i < self.items@.len() {
                    (self.items@[i].0@, self.items@[i].1@)
                } else {
                    (Seq::empty(), Data::Null)
                },
        )
    }
}

impl Value {
    /// Whether the value is well formed.
    pub open spec fn wf(&self) -> bool {
        self@.wf()
    }

    /// A copy of the value.
    pub fn duplicate(&self) -> (r: Value)
        ensures
            r@ == self@,
        decreases self,
    {
        match self {
            Value::Null => Value::Null,
            Value::Boolean(b) => Value::Boolean(*b),
            Value::Number(n) => Value::Number(n.clone()),
            Value::Text(t) => Value::Text(t.clone()),
            Value::Array(a) => {
                let items = duplicate_all(a);
                proof {
                    lemma_array_view(items);
                    lemma_array_view(*a);
                }
                Value::Array(items)
            },
            Value::Tuple(a) => {
                let items = duplicate_all(a);
                proof {
                    lemma_array_view(items);
                    lemma_array_view(*a);
                }
                Value::Tuple(items)
            },
            Value::Object(e) => Value::Object(e.duplicate()),
            Value::Struct(name, e) => Value::Struct(name.clone(), e.duplicate()),
        }
    }
}

impl Clone for Value {
    fn clone(&self) -> (r: Value)
        ensures
            r@ == self@,
    {
        self.duplicate()
    }
}

impl Clone for Entries {
    fn clone(&self) -> (r: Entries)
        ensures
            r@ == self@,
    {
        self.duplicate()
    }
}

/// Copies of the values of `a`, in order.
fn duplicate_all(a: &Vec<Value>) -> (r: Vec<Value>)
    ensures
        views(r@) == views(a@),
    decreases a,
{
    let mut r: Vec<Value> = Vec::new();
    let mut i: usize = 0;
    while i < a.len()
        invariant
            i <= a.len(),
            r@.len() == i,
            forall|j: int| 0 <= j < i ==> r@[j]@ == a@[j]@,
        decreases a.len() - i,
    {
        r.push(a[i].duplicate());
        i += 1;
    }
    assert(views(r@) =~= views(a@));
    r
}

/// The views of a sequence of values are the values' views, place by place.
pub proof fn lemma_array_view(a: Vec<Value>)
    ensures
        Value::Array(a)@ == Data::Array(views(a@)),
        Value::Tuple(a)@ == Data::Tuple(views(a@)),
{
    reveal_with_fuel(<Value as View>::view, 2);
    let x = Value::Array(a)@->Array_0;
    let y = Value::Tuple(a)@->Tuple_0;
    assert(x.len() == a@.len() && y.len() == a@.len());
    assert forall|i: int| 0 <= i < a@.len() implies x[i] == views(a@)[i] && y[i] == views(a@)[i] by {}
    assert(x =~= views(a@));
    assert(y =~= views(a@));
}

/// Different characters have different code points.
proof fn lemma_distinct_codes(a: char, b: char)
    ensures
        a != b ==> (a as u32) != (b as u32),
{
}

/// Whether the code point of `a` is below that of `b`.
fn code_before(a: char, b: char) -> (r: bool)
    ensures
        r == ((a as u32) < (b as u32)),
{
    a < b
}

enum Side {
    Before,
    Same,
    After,
}

fn side_of(a: &Vec<char>, b: &Vec<char>) -> (r: Side)
    ensures
        match r {
            Side::Before => text_lt(a@, b@),
            Side::Same => a@ == b@,
            Side::After => text_lt(b@, a@),
        },
{
    let mut i: usize = 0;
    while i < a.len() && i < b.len()
        invariant
            i <= a.len(),
            i <= b.len(),
            forall|k: int| 0 <= k < i ==> a@[k] == b@[k],
        decreases a.len() - i,
    {
        let x = a[i];
        let y = b[i];
        if x != y {
            proof {
                lemma_distinct_codes(x, y);
                lemma_lt_skip(a@, b@, i as int);
                lemma_lt_skip(b@, a@, i as int);
                assert(a@.skip(i as int)[0] == a@[i as int]);
                assert(b@.skip(i as int)[0] == b@[i as int]);
            }
            if code_before(x, y) {
                return Side::Before;
            } else {
                return Side::After;
            }
        }
        i += 1;
    }
    proof {
        lemma_lt_skip(a@, b@, i as int);
        lemma_lt_skip(b@, a@, i as int);
    }
    if a.len() == b.len() {
        assert(a@ =~= b@);
        Side::Same
    } else if a.len() < b.len() {
        Side::Before
    } else {
        Side::After
    }
}

spec fn items_view(items: Seq<(Vec<char>, Value)>) -> Seq<(Seq<char>, Data)> {
    Seq::new(items.len(), |i: int| (items[i].0@, items[i].1@))
}

proof fn lemma_entries_view(items: Vec<(Vec<char>, Value)>)
    ensures
        (Entries { items: items })@ == items_view(items@),
{
    let x = (Entries { items: items })@;
    assert(x.len() == items@.len());
    assert forall|i: int| 0 <= i < items@.len() implies x[i] == items_view(items@)[i] by {}
    assert(x =~= items_view(items@));
}

impl Entries {
    /// Whether the keys are in order, each once. Holds of every `Entries`.
    #[verifier::type_invariant]
    pub open spec fn wf(&self) -> bool {
        strictly_sorted(self@)
    }

    /// No entries.
    pub fn new() -> (r: Entries)
        ensures
            r@ == Seq::<(Seq<char>, Data)>::empty(),
            r.wf(),
    {
        let items: Vec<(Vec<char>, Value)> = Vec::new();
        proof {
            lemma_entries_view(items);
            assert(items_view(items@) =~= Seq::<(Seq<char>, Data)>::empty());
        }
        Entries { items }
    }

    /// A copy of the entries.
    pub fn duplicate(&self) -> (r: Entries)
        ensures
            r@ == self@,
        decreases self,
    {
        let mut items: Vec<(Vec<char>, Value)> = Vec::new();
        let mut i: usize = 0;
        while i < self.items.len()
            invariant
                i <= self.items.len(),
                items@.len() == i,
                forall|j: int|
                    0 <= j < i ==> items@[j].0@ == self.items@[j].0@ && items@[j].1@
                        == self.items@[j].1@,
            decreases self.items.len() - i,
        {
            let mut key: Vec<char> = Vec::new();
            append_chars(&mut key, &self.items[i].0);
            assert(key@ =~= self.items@[i as int].0@);
            items.push((key, self.items[i].1.duplicate()));
            i += 1;
        }
        proof {
            use_type_invariant(self);
            lemma_entries_view(self.items);
            assert(items_view(items@) =~= items_view(self.items@));
            lemma_entries_view(items);
        }
        Entries { items }
    }

    /// The number of entries.
    pub fn len(&self) -> (n: usize)
        ensures
            n == self@.len(),
    {
        self.items.len()
    }

    /// Whether there are no entries.
    pub fn is_empty(&self) -> (r: bool)
        ensures
            r == (self@.len() == 0),
    {
        self.items.len() == 0
    }

    /// The key of the entry at place `i`, counted in the order of the keys.
    pub fn key_at(&self, i: usize) -> (k: String)
        requires
            i < self@.len(),
        ensures
            k@ == self@[i as int].0,
    {
        string_of(&self.items[i].0)
    }

    /// The key of the entry at place `i`, as characters.
    pub fn key_chars_at(&self, i: usize) -> (k: &Vec<char>)
        requires
            i < self@.len(),
        ensures
            k@ == self@[i as int].0,
    {
        &self.items[i].0
    }

    /// The value of the entry at place `i`, counted in the order of the keys.
    pub fn value_at(&self, i: usize) -> (v: &Value)
        requires
            i < self@.len(),
        ensures
            v@ == self@[i as int].1,
            decreases_to!(self => v),
    {
        &self.items[i].1
    }

    /// The place of `k` among the keys: the index `i` from which on all keys
    /// come after `k`, and whether the entry before `i` has the key `k`.
    fn place_of(&self, k: &Vec<char>) -> (r: (usize, bool))
        ensures
            r.0 <= self@.len(),
            forall|j: int| r.0 <= j < self@.len() ==> text_lt(k@, #[trigger] self@[j].0),
            r.1 ==> r.0 > 0 && self@[r.0 - 1].0 == k@,
            !r.1 ==> r.0 == 0 || text_lt(self@[r.0 - 1].0, k@),
    {
        let mut i: usize = self.items.len();
        while i > 0
            invariant
                i <= self.items.len(),
                self@.len() == self.items.len(),
                forall|j: int| i <= j < self@.len() ==> text_lt(k@, #[trigger] self@[j].0),
            decreases i,
        {
            match side_of(k, &self.items[i - 1].0) {
                Side::Before => {
                    i -= 1;
                },
                Side::Same => {
                    return (i, true);
                },
                Side::After => {
                    return (i, false);
                },
            }
        }
        (i, false)
    }

    /// The value under `key`, if there is one.
    pub fn get(&self, key: &str) -> (r: Option<&Value>)
        ensures
            match value_of(self@, key@) {
                Some(d) => r matches Some(v) && v@ == d,
                None => r is None,
            },
    {
        let k = chars_of(key);
        self.get_chars(&k)
    }

    /// The value under the key with the characters `k`, if there is one.
    pub fn get_chars(&self, k: &Vec<char>) -> (r: Option<&Value>)
        ensures
            match value_of(self@, k@) {
                Some(d) => r matches Some(v) && v@ == d,
                None => r is None,
            },
    {
        let (i, found) = self.place_of(k);
        proof {
            use_type_invariant(self);
            if found {
                lemma_value_of_present(self@, k@, i as int);
            } else {
                lemma_value_of_absent(self@, k@, i as int);
            }
        }
        if found {
            Some(&self.items[i - 1].1)
        } else {
            None
        }
    }

    /// Whether there is an entry with the key `key`.
    pub fn contains_key(&self, key: &str) -> (r: bool)
        ensures
            r == value_of(self@, key@) is Some,
    {
        self.get(key).is_some()
    }

    /// Puts `value` under `key`, and returns the value that was there before.
    pub fn insert(&mut self, key: &str, value: Value) -> (previous: Option<Value>)
        ensures
            final(self)@ == put(old(self)@, key@, value@),
            final(self).wf(),
            match value_of(old(self)@, key@) {
                Some(d) => previous matches Some(v) && v@ == d,
                None => previous is None,
            },
    {
        let k = chars_of(key);
        self.insert_chars(k, value)
    }

    /// Puts `value` under the key with the characters `k`, and returns the
    /// value that was there before.
    pub fn insert_chars(&mut self, k: Vec<char>, value: Value) -> (previous: Option<Value>)
        ensures
            final(self)@ == put(old(self)@, k@, value@),
            final(self).wf(),
            match value_of(old(self)@, k@) {
                Some(d) => previous matches Some(v) && v@ == d,
                None => previous is None,
            },
    {
        let (i, found) = self.place_of(&k);
        let ghost e = self@;
        let ghost kv = (k@, value@);
        proof {
            use_type_invariant(&*self);
            if found {
                lemma_value_of_present(e, k@, i as int);
                lemma_put_replaces(e, k@, value@, i as int);
            } else {
                lemma_value_of_absent(e, k@, i as int);
                lemma_put_inserts(e, k@, value@, i as int);
            }
        }
        let mut items: Vec<(Vec<char>, Value)> = Vec::new();
        proof {
            lemma_entries_view(self.items);
            lemma_entries_view(items);
            assert(items_view(items@) =~= Seq::<(Seq<char>, Data)>::empty());
        }
        core::mem::swap(&mut items, &mut self.items);
        assert(items_view(items@) =~= e);
        let previous = if found {
            let old_entry = items.remove(i - 1);
            items.insert(i - 1, (k, value));
            assert(items_view(items@) =~= e.update(i - 1, kv));
            assert(old_entry.1@ == e[i - 1].1);
            Some(old_entry.1)
        } else {
            items.insert(i, (k, value));
            assert(items_view(items@) =~= e.insert(i as int, kv));
            None
        };
        proof {
            let f = items_view(items@);
            assert forall|a: int, b: int| 0 <= a < b < f.len() implies text_lt(
                #[trigger] f[a].0,
                #[trigger] f[b].0,
            ) by {
                if found {
                    assert(f[a].0 == e[a].0 && f[b].0 == e[b].0);
                } else {
                    let ea = if a < i { a } else { a - 1 };
                    let eb = if b < i { b } else { b - 1 };
                    if a == i {
                        assert(f[b].0 == e[eb].0);
                    } else if b == i {
                        assert(f[a].0 == e[ea].0);
                        if ea < i - 1 {
                            assert(text_lt(e[ea].0, e[i - 1].0));
                            lemma_lt_transitive(e[ea].0, e[i - 1].0, kv.0);
                        }
                    } else {
                        assert(f[a].0 == e[ea].0 && f[b].0 == e[eb].0);
                    }
                }
            }
        }
        proof {
            lemma_entries_view(items);
        }
        self.items = items;
        previous
    }
}

/// Of two different texts one comes before the other.
pub proof fn lemma_lt_total(a: Seq<char>, b: Seq<char>)
    ensures
        text_lt(a, b) || a == b || text_lt(b, a),
    decreases a.len(),
{
    if a.len() == 0 || b.len() == 0 {
        if a.len() == 0 && b.len() == 0 {
            assert(a =~= b);
        }
    } else if a[0] != b[0] {
        lemma_distinct_codes(a[0], b[0]);
    } else {
        lemma_lt_total(a.skip(1), b.skip(1));
        if a.skip(1) == b.skip(1) {
            assert(a =~= seq![a[0]] + a.skip(1));
            assert(b =~= seq![b[0]] + b.skip(1));
        }
    }
}

/// The value under a key is the value of an entry with that key.
pub proof fn lemma_value_of_witness(e: Seq<(Seq<char>, Data)>, k: Seq<char>) -> (j: int)
    requires
        value_of(e, k) is Some,
    ensures
        0 <= j < e.len(),
        e[j].0 == k,
        e[j].1 == value_of(e, k)->0,
    decreases e.len(),
{
    if e.last().0 == k {
        e.len() - 1
    } else {
        lemma_value_of_witness(e.drop_last(), k)
    }
}

/// After `v` was put under `k`, `k` holds `v` and every other key holds what
/// it held before.
pub proof fn lemma_value_of_put(e: Seq<(Seq<char>, Data)>, k: Seq<char>, v: Data, x: Seq<char>)
    ensures
        value_of(put(e, k, v), x) == (if x == k {
            Some(v)
        } else {
            value_of(e, x)
        }),
    decreases e.len(),
{
    let f = put(e, k, v);
    if e.len() == 0 {
        assert(f == seq![(k, v)]);
        assert(f.last() == (k, v));
        assert(f.drop_last() =~= Seq::<(Seq<char>, Data)>::empty());
        assert(value_of(f.drop_last(), x) is None);
        assert(value_of(e, x) is None);
    } else if text_lt(e.last().0, k) {
        assert(f == e.push((k, v)));
        assert(f.last() == (k, v));
        assert(f.drop_last() =~= e);
    } else if e.last().0 == k {
        let d = e.drop_last();
        assert(f == d.push((k, v)));
        assert(f.last() == (k, v));
        assert(f.drop_last() =~= d);
        if x != k {
            assert(value_of(e, x) == value_of(d, x));
            assert(value_of(f, x) == value_of(d, x));
        }
    } else {
        let d = e.drop_last();
        lemma_value_of_put(d, k, v, x);
        assert(f == put(d, k, v).push(e.last()));
        assert(f.last() == e.last());
        assert(f.drop_last() =~= put(d, k, v));
        if x == e.last().0 {
            assert(value_of(f, x) == Some(e.last().1));
            assert(value_of(e, x) == Some(e.last().1));
        } else {
            assert(value_of(f, x) == value_of(put(d, k, v), x));
            assert(value_of(e, x) == value_of(d, x));
        }
    }
}

/// The place of `k` among keys in order: the index from which on all keys
/// come after `k`, and whether the entry before it has the key `k`.
pub proof fn lemma_place(e: Seq<(Seq<char>, Data)>, k: Seq<char>) -> (r: (int, bool))
    requires
        strictly_sorted(e),
    ensures
        0 <= r.0 <= e.len(),
        forall|j: int| r.0 <= j < e.len() ==> text_lt(k, #[trigger] e[j].0),
        r.1 ==> r.0 > 0 && e[r.0 - 1].0 == k,
        !r.1 ==> r.0 == 0 || text_lt(e[r.0 - 1].0, k),
    decreases e.len(),
{
    if e.len() == 0 {
        (0, false)
    } else if text_lt(e.last().0, k) {
        (e.len() as int, false)
    } else if e.last().0 == k {
        (e.len() as int, true)
    } else {
        lemma_lt_total(e.last().0, k);
        let d = e.drop_last();
        assert forall|a: int, b: int| 0 <= a < b < d.len() implies text_lt(
            #[trigger] d[a].0,
            #[trigger] d[b].0,
        ) by {
            assert(d[a] == e[a] && d[b] == e[b]);
        }
        let r = lemma_place(d, k);
        assert forall|j: int| r.0 <= j < e.len() implies text_lt(k, #[trigger] e[j].0) by {
            if j < d.len() {
                assert(d[j] == e[j]);
            }
        }
        if r.0 > 0 {
            assert(d[r.0 - 1] == e[r.0 - 1]);
        }
        r
    }
}

/// Putting a value into entries whose keys are in order leaves the keys in
/// order.
pub proof fn lemma_put_sorted(e: Seq<(Seq<char>, Data)>, k: Seq<char>, v: Data)
    requires
        strictly_sorted(e),
    ensures
        strictly_sorted(put(e, k, v)),
{
    let (i, found) = lemma_place(e, k);
    let f = put(e, k, v);
    if found {
        lemma_put_replaces(e, k, v, i);
        assert forall|a: int, b: int| 0 <= a < b < f.len() implies text_lt(
            #[trigger] f[a].0,
            #[trigger] f[b].0,
        ) by {
            assert(f[a].0 == e[a].0 && f[b].0 == e[b].0);
        }
    } else {
        lemma_put_inserts(e, k, v, i);
        assert forall|a: int, b: int| 0 <= a < b < f.len() implies text_lt(
            #[trigger] f[a].0,
            #[trigger] f[b].0,
        ) by {
            let ea = if a < i {
                a
            } else {
                a - 1
            };
            let eb = if b < i {
                b
            } else {
                b - 1
            };
            if a == i {
                assert(f[b].0 == e[eb].0);
            } else if b == i {
                assert(f[a].0 == e[ea].0);
                if ea < i - 1 {
                    assert(text_lt(e[ea].0, e[i - 1].0));
                    lemma_lt_transitive(e[ea].0, e[i - 1].0, k);
                }
            } else {
                assert(f[a].0 == e[ea].0 && f[b].0 == e[eb].0);
            }
        }
    }
}

/// Entries with their keys in order are determined by what they hold under
/// each key: two that hold the same values under the same keys are the same
/// sequence, however each was built.
pub proof fn lemma_same_pairs_same_entries(a: Seq<(Seq<char>, Data)>, b: Seq<(Seq<char>, Data)>)
    requires
        strictly_sorted(a),
        strictly_sorted(b),
        forall|k: Seq<char>| value_of(a, k) == value_of(b, k),
    ensures
        a == b,
    decreases a.len(),
{
    if a.len() == 0 {
        if b.len() > 0 {
            assert(value_of(b, b.last().0) is Some);
            assert(value_of(a, b.last().0) is None);
        }
        assert(a =~= b);
    } else {
        let ka = a.last().0;
        assert(value_of(a, ka) == Some(a.last().1));
        assert(value_of(b, ka) is Some);
        let jb = lemma_value_of_witness(b, ka);
        let kb = b.last().0;
        assert(value_of(b, kb) == Some(b.last().1));
        assert(value_of(a, kb) is Some);
        let ja = lemma_value_of_witness(a, kb);
        if jb < b.len() - 1 {
            assert(text_lt(b[jb].0, b[b.len() - 1].0));
            if ja < a.len() - 1 {
                assert(text_lt(a[ja].0, a[a.len() - 1].0));
            }
            lemma_lt_asymmetric(ka, kb);
        }
        assert(ka == kb);
        lemma_lt_asymmetric(ka, ka);
        assert(a.last().1 == b.last().1);
        let da = a.drop_last();
        let db = b.drop_last();
        assert forall|x: int, y: int| 0 <= x < y < da.len() implies text_lt(
            #[trigger] da[x].0,
            #[trigger] da[y].0,
        ) by {
            assert(da[x] == a[x] && da[y] == a[y]);
        }
        assert forall|x: int, y: int| 0 <= x < y < db.len() implies text_lt(
            #[trigger] db[x].0,
            #[trigger] db[y].0,
        ) by {
            assert(db[x] == b[x] && db[y] == b[y]);
        }
        if da.len() > 0 {
            assert(text_lt(a[da.len() - 1].0, a[a.len() - 1].0));
            assert(da[da.len() - 1] == a[da.len() - 1]);
        }
        if db.len() > 0 {
            assert(text_lt(b[db.len() - 1].0, b[b.len() - 1].0));
            assert(db[db.len() - 1] == b[db.len() - 1]);
        }
        lemma_value_of_absent(da, ka, da.len() as int);
        lemma_value_of_absent(db, ka, db.len() as int);
        assert forall|k: Seq<char>| value_of(da, k) == value_of(db, k) by {
            if k != ka {
                assert(value_of(a, k) == value_of(da, k));
                assert(value_of(b, k) == value_of(db, k));
            }
        }
        lemma_same_pairs_same_entries(da, db);
        assert(a =~= da.push(a.last()));
        assert(b =~= db.push(b.last()));
    }
}

/// The order of insertion does not show: putting two values under two
/// different keys gives the same entries whichever is put first.
pub proof fn lemma_put_commutes(
    e: Seq<(Seq<char>, Data)>,
    k1: Seq<char>,
    v1: Data,
    k2: Seq<char>,
    v2: Data,
)
    requires
        strictly_sorted(e),
        k1 != k2,
    ensures
        put(put(e, k1, v1), k2, v2) == put(put(e, k2, v2), k1, v1),
{
    let a = put(put(e, k1, v1), k2, v2);
    let b = put(put(e, k2, v2), k1, v1);
    lemma_put_sorted(e, k1, v1);
    lemma_put_sorted(put(e, k1, v1), k2, v2);
    lemma_put_sorted(e, k2, v2);
    lemma_put_sorted(put(e, k2, v2), k1, v1);
    assert forall|k: Seq<char>| value_of(a, k) == value_of(b, k) by {
        lemma_value_of_put(put(e, k1, v1), k2, v2, k);
        lemma_value_of_put(e, k1, v1, k);
        lemma_value_of_put(put(e, k2, v2), k1, v1, k);
        lemma_value_of_put(e, k2, v2, k);
    }
    lemma_same_pairs_same_entries(a, b);
}

} // verus!
