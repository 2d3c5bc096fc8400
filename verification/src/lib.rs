pub mod span;
pub mod ast;
pub mod lexer;
pub mod parser;
pub mod grammar;
pub mod reading;
pub mod symbols;
pub mod document;

pub use parser::{parse, ParseResult};
