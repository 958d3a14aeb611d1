pub mod ast;
pub mod lex;
pub mod parse;
pub mod position;
pub mod report;
pub mod roundtrip;
pub mod precedence;
pub mod token;
