//! Evaluation of arithmetic expressions written in postfix notation.
pub mod int32;
pub mod text;
pub mod lexer;
pub mod expression;
pub mod parser;

pub use expression::Expression;
pub use lexer::{Lexer, Token};
pub use parser::{parse, ParseError};
