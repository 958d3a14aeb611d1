pub mod err;
pub mod parser;
