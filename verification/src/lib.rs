//! A character chomper and a lexer for a CoffeeScript-like language.
pub mod text;
pub mod chomp;
pub mod lex;
pub mod scanner;
pub mod magic_number;
pub mod laws;
pub mod warm_up;

pub use chomp::{ChompResult, Chomper, Position, Span, ToSpan};
pub use lex::{FullSource, LexError, Lexer, SourceCodeProvider, Token, TokenTag, get_region};
