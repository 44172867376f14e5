//! Compiles decision-tree ensembles to Rust source and evaluates them directly.
pub mod backends;
pub mod emit_crate;
pub mod error;
pub mod frontends;
pub mod inspector;
pub mod interpreter;
pub mod ir;
pub mod json;
pub mod model;
pub mod number;
pub mod parsers;
pub mod report;
pub mod scorer;
pub mod text;
pub mod verify;
