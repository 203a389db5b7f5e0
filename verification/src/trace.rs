use vstd::prelude::*;

verus! {

/// The per-step snapshot of the program counter and the allocation- and
/// frame-pointer absolute addresses at that point in execution.
#[derive(Clone, Copy, Debug, PartialEq, Eq, Structural)]
pub struct RegisterFrame {
    pub pc: usize,
    pub ap: usize,
    pub fp: usize,
}

/// The ordered sequence of per-step register frames of one recorded run,
/// indexable by step.
pub struct Trace {
    entries: Vec<RegisterFrame>,
}

impl View for Trace {
    type V = Seq<RegisterFrame>;

    closed spec fn view(&self) -> Seq<RegisterFrame> {
        self.entries@
    }
}

impl Trace {
    /// Wrap the recorded frames; index `i` of the array is step `i`.
    pub fn new(entries: Vec<RegisterFrame>) -> (r: Trace)
        ensures
            r@ == entries@,
    {
        Trace { entries }
    }

    /// The number of recorded steps.
    pub fn len(&self) -> (n: usize)
        ensures
            n == self@.len(),
    {
        self.entries.len()
    }

    /// The register frame of one step.
    pub fn frame(&self, step: usize) -> (r: RegisterFrame)
        requires
            step < self@.len(),
        ensures
            r == self@[step as int],
    {
        self.entries[step]
    }
}

} // verus!
