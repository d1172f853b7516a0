pub mod ast;
pub mod borrow;
pub mod equal;
pub mod errors;
pub mod grammar;
pub mod laws;
pub mod lexer;
pub mod lexer_laws;
pub mod lexer_model;
pub mod parser;
pub mod productions;
pub mod slice;
pub mod token_model;
pub mod token_parser;
