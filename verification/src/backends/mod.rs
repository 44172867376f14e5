//! Code generation.
use crate::error::Failure;
use crate::ir::Forest;
use vstd::prelude::*;

pub mod catboost;
pub mod code;
pub mod rust;
pub mod rust_array;
pub mod templates;
pub mod tokens;

verus! {

/// What turns a forest into source code.
pub trait Backend {
    fn generate(forest: &Forest) -> Result<String, Failure>;
}

} // verus!
