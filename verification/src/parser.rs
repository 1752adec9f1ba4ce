//! The document model and style values.
pub mod css;
pub mod dom;
