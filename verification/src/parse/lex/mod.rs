pub mod err;
pub mod scan;
pub mod words;
