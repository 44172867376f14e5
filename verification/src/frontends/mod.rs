//! Readers of model formats. Every frontend produces the same forest.
use crate::error::Failure;
#[allow(unused_imports)]
use crate::error::FailureView;
use crate::ir::Forest;
use crate::number::F64;
#[allow(unused_imports)]
use crate::ir::ForestView;
use vstd::prelude::*;

pub mod archive;
pub mod catboost;
pub mod lightgbm;
pub mod mojo;
pub mod onnx;
pub mod xgboost;

verus! {

/// What every reader of a model format offers.
pub trait Frontend {
    /// The content of a model file.
    type Input;

    /// The forest that a model file holds.
    spec fn parsed(input: Self::Input) -> Result<ForestView, FailureView>;

    fn parse(&self, input: &Self::Input) -> (r: Result<Forest, Failure>)
        ensures
            match r {
                Ok(forest) => Self::parsed(*input) == Ok::<ForestView, FailureView>(forest@),
                Err(e) => Self::parsed(*input) == Err::<ForestView, FailureView>(e@),
            },
    ;
}

/// The arithmetic that is left to do on a parsed forest.
#[derive(Debug, Clone, Copy, PartialEq, Eq, Structural)]
pub enum Finish {
    /// None: the forest is complete.
    Ready,
    /// The base score `p` is a probability; the forest needs `ln(p / (1 - p))` in its place.
    BaseLogOdds,
    /// Every leaf value has to be multiplied by the scale.
    ScaleLeaves { scale: F64 },
}

/// A forest as its document gives it, and the arithmetic that is left to do.
#[derive(Debug)]
pub struct ParsedModel {
    pub forest: Forest,
    pub finish: Finish,
}

#[verifier::ext_equal]
pub ghost struct ParsedView {
    pub forest: ForestView,
    pub finish: Finish,
}

impl View for ParsedModel {
    type V = ParsedView;

    open spec fn view(&self) -> ParsedView {
        ParsedView { forest: self.forest@, finish: self.finish }
    }
}

} // verus!
