//! A small textual data-interchange library built around a single tagged
//! value type: a parser from text to values, a printer back to the canonical
//! text form, and derived operations (typed accessors, a numeric weight used
//! for ordering, a recursive size measure, and a JSON-like structural form).

pub mod b64;
pub mod binary;
pub mod laws;
pub mod number;
pub mod parser;
pub mod text;
pub mod value;

pub use binary::{Binary, DecodeError};
pub use number::{Num, Order};
pub use parser::ValueParser;
pub use value::DataValue;
