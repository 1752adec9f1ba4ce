//! HTML sanitizing, DOM model, style resolution and block planning for an
//! HTML-to-PDF converter.
pub mod error;
pub mod layout;
pub mod parser;
pub mod security;
pub mod style;
pub mod text;
pub mod types;
