//! BikeML: a small configuration language of nested dictionaries and lists,
//! read by a tokenizer and a stack-based shift-reduce parser.

pub mod value;
pub mod lexer;
pub mod parser;
pub mod laws;

pub use lexer::{Token, TokenError, Tokenizer};
pub use parser::{parse, Bracket, ErrorCode, Parser};
pub use value::{BObject, Decimal};
