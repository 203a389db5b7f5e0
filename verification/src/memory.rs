use vstd::prelude::*;

verus! {

/// A value from the virtual machine's finite-field numeric domain, stored as
/// the four 64-bit little-endian limbs of its canonical representation.
///
/// The analysis never computes with field elements: it only compares them for
/// equality and, for double dereferences, reinterprets one as a memory
/// address.
#[derive(Clone, Copy, Debug, PartialEq, Eq, Structural)]
pub struct FieldElement {
    pub d0: u64,
    pub d1: u64,
    pub d2: u64,
    pub d3: u64,
}

impl FieldElement {
    /// The absolute address this value encodes, when it fits the address
    /// space: the three high limbs must be zero and the low limb must fit in
    /// a machine word.
    pub open spec fn spec_address(self) -> Option<usize> {
        if self.d1 == 0 && self.d2 == 0 && self.d3 == 0 && self.d0 <= usize::MAX as u64 {
            Some(self.d0 as usize)
        } else {
            None
        }
    }

    /// Build the field element with the given low limb.
    pub fn from_u64(v: u64) -> (r: FieldElement)
        ensures
            r == (FieldElement { d0: v, d1: 0, d2: 0, d3: 0 }),
    {
        FieldElement { d0: v, d1: 0, d2: 0, d3: 0 }
    }

    /// Interpret the stored value as an absolute memory address, if it is
    /// one.
    pub fn to_address(&self) -> (r: Option<usize>)
        ensures
            r == self.spec_address(),
    {
        if self.d1 == 0 && self.d2 == 0 && self.d3 == 0 && self.d0 <= usize::MAX as u64 {
            Some(self.d0 as usize)
        } else {
            None
        }
    }
}

/// The value a memory snapshot holds at an address: addresses past the
/// stored prefix are unset.
pub open spec fn mem_at(mem: Seq<Option<FieldElement>>, addr: int) -> Option<FieldElement> {
    if 0 <= addr < mem.len() {
        mem[addr]
    } else {
        None
    }
}

/// A sparsely populated mapping from absolute address to an optional field
/// element, recorded once from the analyzed run and read-only afterwards.
pub struct Memory {
    cells: Vec<Option<FieldElement>>,
}

impl View for Memory {
    type V = Seq<Option<FieldElement>>;

    closed spec fn view(&self) -> Seq<Option<FieldElement>> {
        self.cells@
    }
}

impl Memory {
    /// Wrap a dense cell array; index `i` of the array is absolute address
    /// `i`, with `None` marking an unset cell.
    pub fn new(cells: Vec<Option<FieldElement>>) -> (r: Memory)
        ensures
            r@ == cells@,
    {
        Memory { cells }
    }

    /// Point lookup; addresses outside the stored prefix are unset.
    pub fn get(&self, addr: usize) -> (r: Option<FieldElement>)
        ensures
            r == mem_at(self@, addr as int),
    {
        if addr < self.cells.len() {
            self.cells[addr]
        } else {
            None
        }
    }
}

} // verus!
