//! Locations in the VM code, with the direction in which the input is read.
use vstd::prelude::*;

verus! {

/// An offset in the VM code, together with the direction of the scan that
/// runs it. The direction orients the `Start` and `End` anchors.
#[derive(Clone, Copy, Debug, PartialEq, Eq)]
pub enum CodeLoc {
    /// A location of a scan that reads the input forwards.
    Forward(usize),
    /// A location of a scan that reads the input backwards.
    Backward(usize),
}

impl CodeLoc {
    pub open spec fn spec_offset(&self) -> usize {
        match *self {
            CodeLoc::Forward(o) => o,
            CodeLoc::Backward(o) => o,
        }
    }

    pub open spec fn spec_backwards(&self) -> bool {
        self is Backward
    }

    /// The offset in the VM code.
    #[verifier::when_used_as_spec(spec_offset)]
    pub fn offset(&self) -> (r: usize)
        ensures
            r == self.spec_offset(),
    {
        match *self {
            CodeLoc::Forward(o) => o,
            CodeLoc::Backward(o) => o,
        }
    }

    /// Whether the scan reads the input backwards.
    #[verifier::when_used_as_spec(spec_backwards)]
    pub fn backwards(&self) -> (r: bool)
        ensures
            r == self.spec_backwards(),
    {
        match *self {
            CodeLoc::Forward(_) => false,
            CodeLoc::Backward(_) => true,
        }
    }

    /// A location at `offset` in the same direction as `self`.
    pub fn with_offset(&self, offset: usize) -> (r: CodeLoc)
        ensures
            r.offset() == offset,
            r.backwards() == self.backwards(),
    {
        match *self {
            CodeLoc::Forward(_) => CodeLoc::Forward(offset),
            CodeLoc::Backward(_) => CodeLoc::Backward(offset),
        }
    }
}

} // verus!
