use vstd::prelude::*;

verus! {

/// A general-purpose register `П0` .. `П30`.
#[derive(Debug, Clone, Copy, PartialEq, Eq, Structural)]
pub enum Register {
    P(u8),
}

impl Register {
    /// The register's index.
    pub open spec fn index(self) -> nat {
        match self {
            Register::P(n) => n as nat,
        }
    }

    /// Only `П0` .. `П30` can be written in a source; 31 is the encoder's own.
    pub open spec fn wf(self) -> bool {
        self.index() <= 30
    }

    /// The register's 5-bit field value.
    pub fn to_u32(&self) -> (r: u32)
        ensures
            r == self.index(),
    {
        match self {
            Register::P(n) => *n as u32,
        }
    }
}

} // verus!
