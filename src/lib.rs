//! A JSON text parser and value model: a single-pass, recursive-descent
//! scanner turns characters into a tagged value tree, and a serializer
//! renders the tree back into a canonical text form.
pub mod grammar;
pub mod laws;
pub mod parser;
pub mod render;
mod numeral;
mod text;
pub mod values;

pub use values::Value;
pub use parser::{Parser, ParserError};
pub use render::traverse_json;
pub use values::values_equal;
