use crate::memory::FieldElement;
use vstd::prelude::*;

verus! {

/// The register a cell reference is relative to.
#[derive(Clone, Copy, Debug, PartialEq, Eq, Structural)]
pub enum Register {
    /// The allocation pointer.
    Ap,
    /// The frame pointer.
    Fp,
}

/// An operand naming a memory address relative to a register plus a signed
/// offset.
#[derive(Clone, Copy, Debug, PartialEq, Eq, Structural)]
pub struct CellRef {
    pub register: Register,
    pub offset: i16,
}

/// An operand that is either a direct cell reference or an immediate value.
#[derive(Clone, Copy, Debug, PartialEq, Eq, Structural)]
pub enum DerefOrImmediate {
    Deref(CellRef),
    Immediate(FieldElement),
}

/// The two operands of a binary-operation result operand.
#[derive(Clone, Copy, Debug, PartialEq, Eq, Structural)]
pub struct BinOpOperand {
    pub a: CellRef,
    pub b: DerefOrImmediate,
}

/// A result operand, in one of its four shapes.
#[derive(Clone, Copy, Debug, PartialEq, Eq, Structural)]
pub enum ResOperand {
    /// A direct cell reference.
    Deref(CellRef),
    /// A cell whose stored value is itself used as an address, displaced by
    /// the given offset. The analysis records the pointer cell and the cell
    /// the stored value names; the displacement plays no part in it.
    DoubleDeref(CellRef, i16),
    /// An immediate value.
    Immediate(FieldElement),
    /// A binary operation over a cell reference and a second operand.
    BinOp(BinOpOperand),
}

/// One decoded instruction: an opcode tag with its typed operand fields.
#[derive(Clone, Copy, Debug, PartialEq, Eq, Structural)]
pub enum Instruction {
    /// Advance the allocation pointer by the operand.
    AddAp { operand: ResOperand },
    /// Assert that the cell `a` equals the result operand `b`.
    AssertEq { a: CellRef, b: ResOperand },
    /// Call the target.
    Call { target: DerefOrImmediate },
    /// Jump by `jump_offset` if the `condition` cell is non-zero.
    Jnz { condition: CellRef, jump_offset: DerefOrImmediate },
    /// Unconditional jump to the target.
    Jump { target: DerefOrImmediate },
    /// Return from the current call.
    Ret,
}

} // verus!
