//! The two capabilities that connect types of other crates with the value
//! model: turning into a value, and being made from one.

use vstd::prelude::*;
use crate::error::Error;
use crate::value::Value;

verus! {

/// A type that can be turned into a value.
///
/// Nothing is asked of an implementation: it may fail, for a value of the
/// type whose state has no written form.
pub trait Serialize {
    fn serialize(&self) -> Result<Value, Error>;
}

/// A type that can be made from a value.
///
/// Nothing is asked of an implementation: it fails, with an error that has
/// no place in any text, on a value whose shape does not match the type.
pub trait Deserialize: Sized {
    fn deserialize(value: Value) -> Result<Self, Error>;
}

impl Serialize for Value {
    fn serialize(&self) -> (r: Result<Value, Error>)
        ensures
            r matches Ok(v) && v@ == self@,
    {
        Ok(self.clone())
    }
}

impl Deserialize for Value {
    fn deserialize(value: Value) -> (r: Result<Value, Error>)
        ensures
            r == Ok::<Value, Error>(value),
    {
        Ok(value)
    }
}

} // verus!
