//! Readers of the files inside a MOJO archive.
pub mod ini;
pub mod tree_parser;
