//! A small JSON reader and writer whose behaviour is stated and proved.
//!
//! [`parse`] turns a text into a [`Value`]; [`Value::to_string`] turns a
//! value back into compact JSON text. What a text means is defined in
//! [`grammar`], what a value is written as in [`render`]; [`roundtrip`]
//! proves that the two fit together.
//!
//! Numbers are kept as their decimal literals. The library never rounds one
//! to a binary floating-point number: a caller that wants a double parses the
//! literal, and hands a double over as the decimal text that spells it.
pub mod cursor;
pub mod grammar;
pub mod parse;
pub mod render;
pub mod roundtrip;
pub mod text;
pub mod unicode;
pub mod value;

pub use crate::parse::parse;
pub use crate::value::Value;
