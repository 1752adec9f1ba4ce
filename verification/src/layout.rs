//! Preparing a document for page layout: text, images, tables, lists and the block
//! plan.
pub mod engine;
pub mod plan;
