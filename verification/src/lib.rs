//! A small boolean predicate language over platform attributes.
//!
//! Cargo-style `cfg(...)` expressions such as `cfg(all(unix, target_arch = "x86_64"))`
//! are parsed into a predicate tree and evaluated against a platform's attribute
//! map to decide whether that platform matches.

pub mod config;
pub mod lookup;
pub mod parse;
pub mod pred;
pub mod text;
