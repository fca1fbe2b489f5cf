//! A JSON engine: text is parsed into a tree of values and a tree is written
//! back as compact text.
//!
//! [`parse`] reads a document by recursive descent over a [`Cursor`];
//! [`serialize`] writes a [`Value`] without whitespace. What each of them
//! returns is stated over [`grammar::document`] and [`serializer::render`],
//! and [`roundtrip::law_parse_inverts_render`] shows that reading undoes
//! writing.

pub mod value;
pub mod number;
pub mod cursor;
pub mod error;
pub mod classifier;
pub mod grammar;
pub mod text;
pub mod lemmas;
pub mod parser;
pub mod serializer;
pub mod roundtrip;
pub mod soundness;
pub mod config;

pub use cursor::{Cursor, Position};
pub use error::ParseError;
pub use number::Number;
pub use parser::{parse, tokenize, JSON};
pub use serializer::serialize;
pub use value::Value;
