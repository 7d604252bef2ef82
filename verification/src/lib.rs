//! Verified primitives for package-version strings: a permissive tokenizer
//! that splits a version into separator/component tokens, a range grammar for
//! addressing component spans, extraction and substitution built on the two,
//! and a strict version parser with a total comparison order. The `commands`
//! module ties them together as the `ver_test`, `ver_rs` and `ver_cut`
//! operations, and the `atom`, `eapi` and `repo` modules model, as plain
//! values, what an embedding package layer reads and orders.

pub mod atom;
pub mod commands;
pub mod compare;
pub mod eapi;
pub mod engine;
pub mod error;
pub mod range;
pub mod repo;
pub mod tokens;
pub mod version;
