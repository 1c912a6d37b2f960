//! Writing anything that can be turned into a value.

use vstd::prelude::*;
use crate::convert::{Deserialize, Serialize};
use crate::decode::{from_string, parse, reports};
use crate::error::Error;
use crate::mini;
use crate::pretty;
use crate::pretty::{default_layout, pretty_text};
use crate::value::Value;

verus! {

/// Whether `serialized` is something that `value.serialize()` may return:
/// whether the two meet what the implementation of `serialize` for `T`
/// ensures.
pub open spec fn serializes_to<T: ?Sized + Serialize>(
    value: &T,
    serialized: Result<Value, Error>,
) -> bool {
    call_ensures(T::serialize, (value,), serialized)
}

/// Whether `r` is what `to_string` owes for the outcome `serialized` of the
/// serialization: the pretty form of the value in the default layout, or
/// the error of the serialization.
pub open spec fn pretty_string_for(
    serialized: Result<Value, Error>,
    r: Result<String, Error>,
) -> bool {
    match serialized {
        Ok(v) => r matches Ok(s) && s@ == pretty_text(v@, default_layout(), 0),
        Err(e) => r == Err::<String, Error>(e),
    }
}

/// Whether `r` is what `to_mini` owes for the outcome `serialized` of the
/// serialization: a compact encoder for the value, or the error of the
/// serialization.
pub open spec fn mini_encoder_for(
    serialized: Result<Value, Error>,
    r: Result<mini::Encoder, Error>,
) -> bool {
    match serialized {
        Ok(v) => r matches Ok(encoder) && encoder@ == v@,
        Err(e) => r == Err::<mini::Encoder, Error>(e),
    }
}

/// Whether `r` is what `to_pretty` owes for the outcome `serialized` of the
/// serialization: a pretty encoder for the value with the default layout,
/// or the error of the serialization.
pub open spec fn pretty_encoder_for(
    serialized: Result<Value, Error>,
    r: Result<pretty::Encoder, Error>,
) -> bool {
    match serialized {
        Ok(v) => r matches Ok(encoder) && encoder@ == v@ && encoder.layout() == default_layout(),
        Err(e) => r == Err::<pretty::Encoder, Error>(e),
    }
}

/// The pretty form, in the default layout, of what a serialization gave; its
/// error if it failed.
pub fn pretty_string_of(serialized: Result<Value, Error>) -> (r: Result<String, Error>)
    ensures
        pretty_string_for(serialized, r),
{
    match serialized {
        Ok(v) => pretty::Encoder::new(v).encode(),
        Err(e) => Err(e),
    }
}

/// A compact encoder for what a serialization gave; its error if it failed.
pub fn mini_encoder_of(serialized: Result<Value, Error>) -> (r: Result<mini::Encoder, Error>)
    ensures
        mini_encoder_for(serialized, r),
{
    match serialized {
        Ok(v) => Ok(mini::Encoder::new(v)),
        Err(e) => Err(e),
    }
}

/// A pretty encoder with the default layout for what a serialization gave;
/// its error if it failed.
pub fn pretty_encoder_of(serialized: Result<Value, Error>) -> (r: Result<pretty::Encoder, Error>)
    ensures
        pretty_encoder_for(serialized, r),
{
    match serialized {
        Ok(v) => Ok(pretty::Encoder::new(v)),
        Err(e) => Err(e),
    }
}

/// The pretty form of `value` in the default layout.
///
/// Serializes `value` and writes what that gave: the pretty form of the
/// value that `value` was turned into, or the error with which the
/// serialization failed.
pub fn to_string<T: ?Sized + Serialize>(value: &T) -> (r: Result<String, Error>)
    ensures
        exists|serialized: Result<Value, Error>| #[trigger]
            serializes_to(value, serialized) && pretty_string_for(serialized, r),
{
    let serialized = value.serialize();
    assert(serializes_to(value, serialized));
    pretty_string_of(serialized)
}

/// A compact encoder for `value`.
///
/// Serializes `value` and hands on what that gave: an encoder for the value
/// that `value` was turned into, or the error with which the serialization
/// failed.
pub fn to_mini<T: ?Sized + Serialize>(value: &T) -> (r: Result<mini::Encoder, Error>)
    ensures
        exists|serialized: Result<Value, Error>| #[trigger]
            serializes_to(value, serialized) && mini_encoder_for(serialized, r),
{
    let serialized = value.serialize();
    assert(serializes_to(value, serialized));
    mini_encoder_of(serialized)
}

/// A pretty encoder for `value`, with the default layout.
///
/// Serializes `value` and hands on what that gave: an encoder for the value
/// that `value` was turned into, or the error with which the serialization
/// failed.
pub fn to_pretty<T: ?Sized + Serialize>(value: &T) -> (r: Result<pretty::Encoder, Error>)
    ensures
        exists|serialized: Result<Value, Error>| #[trigger]
            serializes_to(value, serialized) && pretty_encoder_for(serialized, r),
{
    let serialized = value.serialize();
    assert(serializes_to(value, serialized));
    pretty_encoder_of(serialized)
}

/// Whether `made` is something that `T::deserialize(value)` may return:
/// whether the two meet what the implementation of `deserialize` for `T`
/// ensures.
pub open spec fn deserializes_from<T: Deserialize>(value: Value, made: Result<T, Error>) -> bool {
    call_ensures(T::deserialize, (value,), made)
}

/// Decodes `text` and makes a `T` from the value.
///
/// On a text that `parse` does not read, fails with the decoder's error. On
/// every other text, hands the decoded value, which is well formed and has
/// the view that `parse` gives, to `T::deserialize`, and returns what that
/// gave.
pub fn from_string_as<T: Deserialize>(text: &str) -> (r: Result<T, Error>)
    ensures
        parse(text@) matches Err(f) ==> r matches Err(e) && reports(e, text@, f),
        parse(text@) matches Ok(d) ==> exists|v: Value| #[trigger]
            deserializes_from::<T>(v, r) && v@ == d && v.wf(),
{
    match from_string(text) {
        Ok(v) => {
            let ghost decoded = v;
            let r = T::deserialize(v);
            assert(deserializes_from::<T>(decoded, r));
            r
        },
        Err(e) => Err(e),
    }
}

} // verus!
