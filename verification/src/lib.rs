//! A front end for the Lox language (scanner, parser, syntax tree) together
//! with a Wadler-style pretty-printing library.

pub mod ast;
pub mod driver;
pub mod format;
pub mod lex;
pub mod parse;
