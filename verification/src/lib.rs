//! A scanner, parser and expression printer for the Lox language.
mod char_stream;
pub mod ast;
pub mod number;
pub mod parser;
pub mod scanner;
pub mod visitor;
pub mod environment;
