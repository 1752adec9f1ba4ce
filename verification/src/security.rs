//! Input sanitizing.
pub mod sanitizer;
