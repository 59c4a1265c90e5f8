//! A small JSON reader: a lexer that splits text into spans, and a
//! recursive-descent parser over those spans that builds a value tree.

pub mod laws;
pub mod lexer;
pub mod parser;
pub mod round_trip;
pub mod text;
pub mod unescape;
pub mod value;

pub use lexer::{Token, tokenize};
pub use unescape::decode_string;
pub use parser::{JSONParser, ParseError, parse};
pub use value::{JSONValue, Json};
