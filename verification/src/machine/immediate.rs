//! An immediate operand value, tagged with how it came to be known: a
//! raw literal, a label's value, or a concrete address.

use vstd::prelude::*;

verus! {

#[derive(Copy, Clone, PartialEq, Eq, Structural, Debug)]
pub enum Imm {
    Raw(u32),
    Label(u32),
    Address(u32),
}

impl Imm {
    /// The numeric value, whatever the tag.
    pub open spec fn spec_value(self) -> u32 {
        match self {
            Imm::Raw(n) => n,
            Imm::Label(n) => n,
            Imm::Address(n) => n,
        }
    }

    pub fn value(self) -> (r: u32)
        ensures
            r == self.spec_value(),
    {
        match self {
            Imm::Raw(n) => n,
            Imm::Label(n) => n,
            Imm::Address(n) => n,
        }
    }
}

} // verus!
