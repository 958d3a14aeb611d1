pub mod pretty;
pub mod html;
pub mod laws;
