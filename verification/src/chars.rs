//! Moving between `str`/`String` and sequences of characters.
//!
//! All text processing in this crate works on `Vec<char>`, whose view is the
//! same `Seq<char>` that a string has; the functions here cross over.

use vstd::prelude::*;

verus! {

/// Code points that are Unicode scalar values: everything up to `0x10FFFF`
/// except the surrogates.
pub open spec fn is_scalar_value(x: u32) -> bool {
    x <= 0xD7FF || (0xE000 <= x && x <= 0x10FFFF)
}

/// `char::from_u32`: the character with the given code point, or `None` when
/// the code point is a surrogate or lies above `0x10FFFF`.
pub assume_specification[ char::from_u32 ](x: u32) -> (r: Option<char>)
    ensures
        r == (if is_scalar_value(x) {
            Some(x as char)
        } else {
            None
        }),
;

/// `String::push`: appends one character to the end of the string.
#[verifier::external_body]
pub(crate) fn push_char(s: &mut String, c: char)
    ensures
        final(s)@ == old(s)@.push(c),
{
    s.push(c)
}

/// The characters of `s`, in order.
pub fn chars_of(s: &str) -> (v: Vec<char>)
    ensures
        v@ == s@,
{
    let mut v: Vec<char> = Vec::new();
    for c in it: s.chars()
        invariant
            it.seq() == s@,
            v@ == it.seq().take(it.index() as int),
    {
        v.push(c);
    }
    assert(s@.take(s@.len() as int) == s@);
    v
}

/// A string made of the characters of `v`, in order.
pub fn string_of(v: &Vec<char>) -> (s: String)
    ensures
        s@ == v@,
{
    let mut s = String::new();
    let mut i: usize = 0;
    while i < v.len()
        invariant
            i <= v.len(),
            s@ == v@.take(i as int),
        decreases v.len() - i,
    {
        push_char(&mut s, v[i]);
        assert(v@.take(i + 1) == v@.take(i as int).push(v@[i as int]));
        i += 1;
    }
    assert(v@.take(v@.len() as int) == v@);
    s
}

/// Appends the characters `more[from..to]` to `out`.
pub fn append_range(out: &mut Vec<char>, more: &Vec<char>, from: usize, to: usize)
    requires
        from <= to <= more.len(),
    ensures
        final(out)@ == old(out)@ + more@.subrange(from as int, to as int),
{
    let mut i: usize = from;
    while i < to
        invariant
            from <= i <= to <= more.len(),
            out@ == old(out)@ + more@.subrange(from as int, i as int),
        decreases to - i,
    {
        out.push(more[i]);
        assert(more@.subrange(from as int, i + 1) == more@.subrange(from as int, i as int).push(
            more@[i as int],
        ));
        i += 1;
    }
}

/// Appends all of `more` to `out`.
pub fn append_chars(out: &mut Vec<char>, more: &Vec<char>)
    ensures
        final(out)@ == old(out)@ + more@,
{
    assert(more@.subrange(0, more@.len() as int) == more@);
    append_range(out, more, 0, more.len());
}

/// Appends the characters of `s` to `out`.
pub fn append_str(out: &mut Vec<char>, s: &str)
    ensures
        final(out)@ == old(out)@ + s@,
{
    let more = chars_of(s);
    append_chars(out, &more);
}

} // verus!
