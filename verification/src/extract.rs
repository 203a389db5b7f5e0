use crate::error::AnalysisError;
use crate::instruction::{CellRef, DerefOrImmediate, Instruction, Register, ResOperand};
use crate::memory::{mem_at, FieldElement, Memory};
use crate::trace::RegisterFrame;
use vstd::prelude::*;

verus! {

/// The number of distinct machine addresses; cell resolution wraps around
/// modulo this.
pub open spec fn address_space() -> int {
    usize::MAX as int + 1
}

/// The absolute address a cell reference names under a register frame: the
/// frame's value for the referenced register plus the signed offset, with
/// wraparound over the address space. Since the offset is far smaller than
/// the address space, a single correction step is the mathematical modulus.
pub open spec fn spec_resolve(frame: RegisterFrame, cell: CellRef) -> usize {
    let base = (match cell.register {
        Register::Ap => frame.ap,
        Register::Fp => frame.fp,
    }) as int;
    let sum = base + cell.offset as int;
    if sum < 0 {
        (sum + address_space()) as usize
    } else if sum >= address_space() {
        (sum - address_space()) as usize
    } else {
        sum as usize
    }
}

/// Compute the absolute address of a cell reference, wrapping around the
/// address space instead of overflowing.
pub fn resolve_address(frame: &RegisterFrame, cell: &CellRef) -> (r: usize)
    ensures
        r == spec_resolve(*frame, *cell),
{
    let base: usize = match cell.register {
        Register::Ap => frame.ap,
        Register::Fp => frame.fp,
    };
    if cell.offset >= 0 {
        let off: usize = cell.offset as usize;
        if base <= usize::MAX - off {
            base + off
        } else {
            base - (usize::MAX - off) - 1
        }
    } else {
        let off: usize = (-(cell.offset as i32)) as usize;
        if base >= off {
            base - off
        } else {
            base + (usize::MAX - off) + 1
        }
    }
}

/// The addresses one instruction references under its step's register frame,
/// in discovery order, following the per-opcode reference table; or the
/// error the extraction raises on it.
pub open spec fn spec_references(
    instr: Instruction,
    frame: RegisterFrame,
    mem: Seq<Option<FieldElement>>,
) -> Result<Seq<usize>, AnalysisError> {
    match instr {
        Instruction::AddAp { operand } => match operand {
            ResOperand::Immediate(_) => Ok(Seq::empty()),
            _ => Err(AnalysisError::UnsupportedOperand),
        },
        Instruction::AssertEq { a, b } => {
            let ra = spec_resolve(frame, a);
            match b {
                ResOperand::Deref(c) => Ok(seq![ra, spec_resolve(frame, c)]),
                ResOperand::DoubleDeref(c, _) => {
                    let rc = spec_resolve(frame, c);
                    match mem_at(mem, rc as int) {
                        Option::None => Err(AnalysisError::UnresolvedMemoryCell),
                        Option::Some(v) => match v.spec_address() {
                            Option::None => Err(AnalysisError::UnresolvedMemoryCell),
                            Option::Some(target) => Ok(seq![ra, rc, target]),
                        },
                    }
                },
                ResOperand::Immediate(_) => Ok(seq![ra]),
                ResOperand::BinOp(bin) => {
                    let rba = spec_resolve(frame, bin.a);
                    match bin.b {
                        DerefOrImmediate::Deref(c) => Ok(seq![ra, rba, spec_resolve(frame, c)]),
                        DerefOrImmediate::Immediate(_) => Ok(seq![ra, rba]),
                    }
                },
            }
        },
        Instruction::Call { target } => match target {
            DerefOrImmediate::Deref(_) => Err(AnalysisError::UnsupportedOperand),
            DerefOrImmediate::Immediate(_) => Ok(Seq::empty()),
        },
        Instruction::Jnz { condition, jump_offset } => match jump_offset {
            DerefOrImmediate::Deref(_) => Err(AnalysisError::UnsupportedOperand),
            DerefOrImmediate::Immediate(_) => Ok(seq![spec_resolve(frame, condition)]),
        },
        Instruction::Jump { target } => match target {
            DerefOrImmediate::Deref(c) => Ok(seq![spec_resolve(frame, c)]),
            DerefOrImmediate::Immediate(_) => Ok(Seq::empty()),
        },
        Instruction::Ret => Ok(Seq::empty()),
    }
}

/// Gather the addresses the given instruction reads, writes, or uses as an
/// address operand. Operand shapes outside the supported table are refused
/// with an explicit error; a double dereference through an unset or
/// non-addressable cell is refused likewise.
pub fn extract_references(instr: &Instruction, frame: &RegisterFrame, memory: &Memory) -> (r:
    Result<Vec<usize>, AnalysisError>)
    ensures
        match r {
            Ok(refs) => spec_references(*instr, *frame, memory@) == Ok::<_, AnalysisError>(refs@),
            Err(e) => spec_references(*instr, *frame, memory@) == Err::<Seq<usize>, _>(e),
        },
{
    match instr {
        Instruction::AddAp { operand } => match operand {
            ResOperand::Immediate(_) => {
                let refs: Vec<usize> = Vec::new();
                assert(refs@ =~= Seq::<usize>::empty());
                Ok(refs)
            },
            _ => Err(AnalysisError::UnsupportedOperand),
        },
        Instruction::AssertEq { a, b } => {
            let ra = resolve_address(frame, a);
            match b {
                ResOperand::Deref(c) => {
                    let mut refs: Vec<usize> = Vec::new();
                    refs.push(ra);
                    refs.push(resolve_address(frame, c));
                    assert(refs@ =~= seq![ra, spec_resolve(*frame, *c)]);
                    Ok(refs)
                },
                ResOperand::DoubleDeref(c, _) => {
                    let rc = resolve_address(frame, c);
                    match memory.get(rc) {
                        Option::None => Err(AnalysisError::UnresolvedMemoryCell),
                        Option::Some(v) => match v.to_address() {
                            Option::None => Err(AnalysisError::UnresolvedMemoryCell),
                            Option::Some(target) => {
                                let mut refs: Vec<usize> = Vec::new();
                                refs.push(ra);
                                refs.push(rc);
                                refs.push(target);
                                assert(refs@ =~= seq![ra, rc, target]);
                                Ok(refs)
                            },
                        },
                    }
                },
                ResOperand::Immediate(_) => {
                    let mut refs: Vec<usize> = Vec::new();
                    refs.push(ra);
                    assert(refs@ =~= seq![ra]);
                    Ok(refs)
                },
                ResOperand::BinOp(bin) => {
                    let rba = resolve_address(frame, &bin.a);
                    match bin.b {
                        DerefOrImmediate::Deref(c) => {
                            let mut refs: Vec<usize> = Vec::new();
                            refs.push(ra);
                            refs.push(rba);
                            refs.push(resolve_address(frame, &c));
                            assert(refs@ =~= seq![ra, rba, spec_resolve(*frame, c)]);
                            Ok(refs)
                        },
                        DerefOrImmediate::Immediate(_) => {
                            let mut refs: Vec<usize> = Vec::new();
                            refs.push(ra);
                            refs.push(rba);
                            assert(refs@ =~= seq![ra, rba]);
                            Ok(refs)
                        },
                    }
                },
            }
        },
        Instruction::Call { target } => match target {
            DerefOrImmediate::Deref(_) => Err(AnalysisError::UnsupportedOperand),
            DerefOrImmediate::Immediate(_) => {
                let refs: Vec<usize> = Vec::new();
                assert(refs@ =~= Seq::<usize>::empty());
                Ok(refs)
            },
        },
        Instruction::Jnz { condition, jump_offset } => {
            let rc = resolve_address(frame, condition);
            match jump_offset {
                DerefOrImmediate::Deref(_) => Err(AnalysisError::UnsupportedOperand),
                DerefOrImmediate::Immediate(_) => {
                    let mut refs: Vec<usize> = Vec::new();
                    refs.push(rc);
                    assert(refs@ =~= seq![rc]);
                    Ok(refs)
                },
            }
        },
        Instruction::Jump { target } => match target {
            DerefOrImmediate::Deref(c) => {
                let mut refs: Vec<usize> = Vec::new();
                refs.push(resolve_address(frame, c));
                assert(refs@ =~= seq![spec_resolve(*frame, *c)]);
                Ok(refs)
            },
            DerefOrImmediate::Immediate(_) => {
                let refs: Vec<usize> = Vec::new();
                assert(refs@ =~= Seq::<usize>::empty());
                Ok(refs)
            },
        },
        Instruction::Ret => {
            let refs: Vec<usize> = Vec::new();
            assert(refs@ =~= Seq::<usize>::empty());
            Ok(refs)
        },
    }
}

} // verus!
