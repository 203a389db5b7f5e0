use vstd::prelude::*;

verus! {

/// The ways the analysis can fail.
///
/// Every failure is fatal for the operation that raised it: graph
/// construction is all-or-nothing, and a candidate lookup that finds no
/// match aborts before any search runs.
#[derive(Clone, Copy, Debug, PartialEq, Eq, Structural)]
pub enum AnalysisError {
    /// An instruction's operand shape is a documented limitation: the
    /// extractor refuses it explicitly rather than silently skipping it.
    UnsupportedOperand,
    /// A double-dereference pointer cell is unset, or its stored value
    /// cannot be interpreted as a memory address.
    UnresolvedMemoryCell,
    /// No recorded memory cell holds the requested literal value.
    ValueNotFound,
}

} // verus!
