//! A self-describing text format for structured data: a typed value model, a
//! compact and a pretty encoder, and a decoder that reports where malformed
//! input went wrong.
//!
//! # The written form
//!
//! ```text
//! value  := "null" | "true" | "false" | number | text | array | tuple | object | struct
//! array  := "[" [ value ("," value)* [","] ] "]"
//! tuple  := "(" [ value ("," value)* [","] ] ")"
//! object := "{" [ text ":" value ("," text ":" value)* [","] ] "}"
//! struct := "@" "(" [ name "=" value ("," name "=" value)* [","] ] ")"
//! text   := '"' ( escape | any character but a control character, '"' and '\\' )* '"'
//! escape := "\\b" | "\\f" | "\\n" | "\\r" | "\\t" | "\\\\" | "\\\"" | "\\u{" four hexadecimal digits "}"
//! number := ["-"] digits ["." digits] [("e" | "E") ["+" | "-"] digits]
//! name   := a letter or "_", then letters, digits and "_"
//! ```
//!
//! Spaces, tabs, line feeds and carriage returns may stand between any two
//! of these pieces.
//!
//! # What is read back
//!
//! The written form holds neither the width of a number nor the name of a
//! struct, so the decoder settles both:
//!
//! - A number without fraction and exponent is read as the narrowest signed
//!   integer that holds it, as an unsigned 128-bit integer if only that
//!   holds it, and as a 64-bit decimal if no integer does. Every other
//!   number is read as a 64-bit decimal. A decimal keeps the literal that
//!   it was written as.
//! - A struct is read with the empty name.
//!
//! [`roundtrip`] proves that, up to these two points, the decoder reads
//! back what either encoder wrote; [`width`] proves that the pretty
//! encoder writes no line longer than the maximum where every item has
//! room; [`text`] proves that
//! unescaping inverts escaping; [`value`] proves that entries do not
//! depend on the order in which they were inserted.

pub mod chars;
pub mod convert;
pub mod decimal;
pub mod decode;
pub mod encode;
pub mod error;
pub mod mini;
pub mod number;
pub mod pretty;
pub mod roundtrip;
pub mod syntax;
pub mod text;
pub mod value;
pub mod width;

pub use convert::{Deserialize, Serialize};
pub use decode::from_string;
pub use encode::{from_string_as, to_mini, to_pretty, to_string};
pub use error::Error;
pub use number::{Decimal, Number};
pub use text::{escape_text, unescape_text};
pub use value::{Entries, Value};
