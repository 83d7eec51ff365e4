//! Combinatorial helpers and rewrite-rule construction.

pub mod language;
pub mod laws;
pub mod pattern;
pub mod rewrite;
pub mod tools;
