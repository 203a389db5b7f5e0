//! Analysis of a recorded execution of a register-based virtual machine.
//!
//! From a memory snapshot and an ordered sequence of per-step register
//! frames, together with each step's decoded instruction, the crate builds a
//! bipartite dependency graph linking executed steps to the memory cells they
//! reference, and searches that graph for chains of instructions and memory
//! cells connecting a source memory value to a target memory value.

pub mod error;
pub mod extract;
pub mod instruction;
pub mod mappings;
pub mod memory;
pub mod search;
pub mod trace;

pub use error::AnalysisError;
pub use instruction::{BinOpOperand, CellRef, DerefOrImmediate, Instruction, Register, ResOperand};
pub use mappings::{CandidateEnd, GraphMappings, StepId, ValueId};
pub use memory::{FieldElement, Memory};
pub use search::{
    run_search_algorithm, BfsQueue, DfsQueue, NodeId, QueueContainer, SearchAlgorithmIter,
};
pub use trace::{RegisterFrame, Trace};
