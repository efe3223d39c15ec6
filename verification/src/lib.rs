//! Junk: a small data language for game entities that maps directly to JSON.
pub mod model;
pub mod grammar;
pub mod value;
pub mod escape;
pub mod parser;
pub mod render;
pub mod range;
pub mod convert;
pub mod laws;
pub mod margins;
pub mod reading;
pub mod output;
mod text;
mod lex;

pub use escape::unescape;
pub use parser::{parse_document, SyntaxError};
pub use convert::parse_junk;
pub use value::{Def, Value};
