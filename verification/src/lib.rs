//! A layered, filesystem-backed key-value definition store.
//!
//! Each key names a plain-text file whose lines are the key's definitions.
//! A prioritized list of base directories (a built-in default list, or one
//! override value) determines where a key is looked up, stored and deleted.

pub mod catalog;
pub mod engine;
pub mod fs;
pub mod laws;
pub mod render;
pub mod resolver;
pub mod strutil;
