//! What every pass over a chip's parse tree shares.
use crate::error::N2VError;
use crate::parser::ChipHDL;
use crate::strmap::StrMap;
use vstd::prelude::*;

verus! {

/// Extra information that a pass can return.
pub enum OptimizationInfo {
    Nothing,
    /// For each chip name, whether the chip is sequential.
    SequentialFlagMap(StrMap<bool>),
}

/// A pass over the parse tree of a chip. The chips that the chip uses are
/// looked up in `library`.
pub trait OptimizationPass {
    /// The inputs on which the pass runs to its end.
    spec fn can_apply(&self, chip: ChipHDL, library: Seq<ChipHDL>) -> bool;

    /// Runs the pass on `chip`: the new chip and what the pass found.
    fn apply(&mut self, chip: &ChipHDL, library: &Vec<ChipHDL>) -> (r: Result<(ChipHDL, OptimizationInfo), N2VError>)
        requires
            old(self).can_apply(*chip, library@),
    ;
}

} // verus!
