//! Reading arithmetic expressions: a tokeniser, implicit multiplication, and a
//! precedence parser into expression trees.

pub mod unicode;
pub mod token;
pub mod tokenize;
pub mod implicit;
pub mod syntax;
pub mod editor;
pub mod lexical_laws;
pub mod laws;

pub use implicit::insert_impl_mult;
pub use syntax::{ParseError, SyntaxTree, find_openning_bracket};
pub use token::{Operation, Token, tokens_to_string};
pub use tokenize::tokanise_string;
