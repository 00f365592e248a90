//! Parsing of the KeyValues3 (KV3) text format into a tree of values, and
//! mapping of such a tree onto a caller-described schema.

pub mod value;
pub mod chars;
pub mod error;
pub mod lexer;
pub mod token;
pub mod float;
pub mod grammar;
pub mod mapping;
pub mod render;

pub use crate::error::{Expected, ParseError, ParseErrorKind};
pub use crate::grammar::{parse_kv3, parse_kv3_with_depth, DEFAULT_MAX_DEPTH};
pub use crate::value::{KV3Object, KV3Value};
