//! J-type instructions: opcode and a 26-bit target field.  The
//! unresolved form carries a symbolic label; the resolver rewrites it
//! into the resolved form.

use vstd::prelude::*;

use crate::machine::address::Address;

verus! {

#[allow(non_camel_case_types)]
#[derive(Copy, Clone, PartialEq, Eq, Structural, Debug)]
pub enum JInst {
    j,
    jal,
    eret,
}

impl JInst {
    /// The 6-bit opcode field value.
    pub open spec fn spec_code(self) -> u32 {
        match self {
            JInst::j => 0x02,
            JInst::jal => 0x03,
            JInst::eret => 0x18,
        }
    }

    pub open spec fn spec_of_code(c: u32) -> Option<JInst> {
        if c == 0x02 {
            Some(JInst::j)
        } else if c == 0x03 {
            Some(JInst::jal)
        } else if c == 0x18 {
            Some(JInst::eret)
        } else {
            None
        }
    }

    pub fn code(self) -> (r: u32)
        ensures
            r == self.spec_code(),
            r < 64,
    {
        match self {
            JInst::j => 0x02,
            JInst::jal => 0x03,
            JInst::eret => 0x18,
        }
    }

    pub fn from_code(c: u32) -> (r: Option<JInst>)
        ensures
            r == JInst::spec_of_code(c),
    {
        if c == 0x02 {
            Some(JInst::j)
        } else if c == 0x03 {
            Some(JInst::jal)
        } else if c == 0x18 {
            Some(JInst::eret)
        } else {
            None
        }
    }
}

/// A J-type opcode's field value names that opcode back.
pub proof fn lemma_jinst_round_trip(i: JInst)
    ensures
        JInst::spec_of_code(i.spec_code()) == Some(i),
{
}

/// The resolved form: the target is a concrete 26-bit field.
#[derive(Copy, Clone, PartialEq, Eq, Structural, Debug)]
pub struct JTypeImm {
    pub opcode: JInst,
    pub imm: u32,
}

/// The unresolved form: the target is still a symbolic label.
#[derive(Clone, Debug)]
pub struct JTypeLabel {
    pub opcode: JInst,
    pub label: Address,
}

impl JTypeImm {
    /// The target must fit the 26-bit field.
    pub open spec fn wf(self) -> bool {
        self.imm < 0x400_0000
    }

    pub fn new(opcode: JInst, imm: u32) -> (r: JTypeImm)
        requires
            imm < 0x400_0000,
        ensures
            r == (JTypeImm { opcode, imm }),
            r.wf(),
    {
        JTypeImm { opcode, imm }
    }

    /// The 32-bit word this instruction packs to.
    pub open spec fn spec_encode(self) -> u32 {
        (self.opcode.spec_code() << 26) | self.imm
    }

    pub open spec fn spec_decode(n: u32) -> Option<JTypeImm> {
        match JInst::spec_of_code(n >> 26) {
            None => None,
            Some(opcode) => Some(JTypeImm { opcode, imm: n % 0x400_0000 }),
        }
    }

    pub fn encode(&self) -> (r: u32)
        requires
            self.wf(),
        ensures
            r == self.spec_encode(),
    {
        (self.opcode.code() << 26) | self.imm
    }

    pub fn decode(n: u32) -> (r: Option<JTypeImm>)
        ensures
            r == JTypeImm::spec_decode(n),
            r matches Some(i) ==> i.wf(),
    {
        let opcode = match JInst::from_code(n >> 26) {
            Some(o) => o,
            None => {
                return None;
            },
        };
        Some(JTypeImm { opcode, imm: n % 0x400_0000 })
    }
}

impl JTypeLabel {
    pub fn new(opcode: JInst, label: Address) -> (r: JTypeLabel)
        ensures
            r == (JTypeLabel { opcode, label }),
    {
        JTypeLabel { opcode, label }
    }
}

/// Unpacking a packed J-type instruction gives it back bit for bit.
pub proof fn lemma_jtype_round_trip(i: JTypeImm)
    requires
        i.wf(),
    ensures
        JTypeImm::spec_decode(i.spec_encode()) == Some(i),
{
    let oc = i.opcode.spec_code();
    let iv = i.imm;
    let w = (oc << 26) | iv;
    assert((w >> 26) == oc && (w % 0x400_0000) == iv) by (bit_vector)
        requires
            oc < 64,
            iv < 0x400_0000,
            w == (oc << 26) | iv,
    ;
    lemma_jinst_round_trip(i.opcode);
}

} // verus!
