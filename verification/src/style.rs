//! Styles: resolved style enums and per-tag defaults.
pub mod computed;
pub mod defaults;
