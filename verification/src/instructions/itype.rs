//! I-type instructions: opcode, two registers and a 16-bit immediate.
//! The unresolved form carries a symbolic label in place of the
//! immediate; the resolver rewrites it into the resolved form.

use vstd::prelude::*;

use crate::machine::address::Address;
use crate::machine::register::Reg;

verus! {

#[allow(non_camel_case_types)]
#[derive(Copy, Clone, PartialEq, Eq, Structural, Debug)]
pub enum IInst {
    addi,
    addiu,
    andi,
    beq,
    bne,
    lbu,
    lhu,
    ll,
    li,
    la,
    lui,
    lw,
    ori,
    slti,
    sltiu,
    sb,
    sc,
    sh,
    sw,
}

impl IInst {
    /// The 6-bit opcode field value.
    pub open spec fn spec_code(self) -> u32 {
        match self {
            IInst::addi => 0x08,
            IInst::addiu => 0x09,
            IInst::andi => 0x0C,
            IInst::beq => 0x04,
            IInst::bne => 0x05,
            IInst::lbu => 0x24,
            IInst::lhu => 0x25,
            IInst::ll => 0x30,
            IInst::li => 0x3F,
            IInst::la => 0x01,
            IInst::lui => 0x0F,
            IInst::lw => 0x23,
            IInst::ori => 0x0D,
            IInst::slti => 0x0A,
            IInst::sltiu => 0x0B,
            IInst::sb => 0x28,
            IInst::sc => 0x38,
            IInst::sh => 0x29,
            IInst::sw => 0x2B,
        }
    }

    pub open spec fn spec_of_code(c: u32) -> Option<IInst> {
        if c == 0x08 {
            Some(IInst::addi)
        } else if c == 0x09 {
            Some(IInst::addiu)
        } else if c == 0x0C {
            Some(IInst::andi)
        } else if c == 0x04 {
            Some(IInst::beq)
        } else if c == 0x05 {
            Some(IInst::bne)
        } else if c == 0x24 {
            Some(IInst::lbu)
        } else if c == 0x25 {
            Some(IInst::lhu)
        } else if c == 0x30 {
            Some(IInst::ll)
        } else if c == 0x3F {
            Some(IInst::li)
        } else if c == 0x01 {
            Some(IInst::la)
        } else if c == 0x0F {
            Some(IInst::lui)
        } else if c == 0x23 {
            Some(IInst::lw)
        } else if c == 0x0D {
            Some(IInst::ori)
        } else if c == 0x0A {
            Some(IInst::slti)
        } else if c == 0x0B {
            Some(IInst::sltiu)
        } else if c == 0x28 {
            Some(IInst::sb)
        } else if c == 0x38 {
            Some(IInst::sc)
        } else if c == 0x29 {
            Some(IInst::sh)
        } else if c == 0x2B {
            Some(IInst::sw)
        } else {
            None
        }
    }

    pub fn code(self) -> (r: u32)
        ensures
            r == self.spec_code(),
            r < 64,
    {
        match self {
            IInst::addi => 0x08,
            IInst::addiu => 0x09,
            IInst::andi => 0x0C,
            IInst::beq => 0x04,
            IInst::bne => 0x05,
            IInst::lbu => 0x24,
            IInst::lhu => 0x25,
            IInst::ll => 0x30,
            IInst::li => 0x3F,
            IInst::la => 0x01,
            IInst::lui => 0x0F,
            IInst::lw => 0x23,
            IInst::ori => 0x0D,
            IInst::slti => 0x0A,
            IInst::sltiu => 0x0B,
            IInst::sb => 0x28,
            IInst::sc => 0x38,
            IInst::sh => 0x29,
            IInst::sw => 0x2B,
        }
    }

    pub fn from_code(c: u32) -> (r: Option<IInst>)
        ensures
            r == IInst::spec_of_code(c),
    {
        if c == 0x08 {
            Some(IInst::addi)
        } else if c == 0x09 {
            Some(IInst::addiu)
        } else if c == 0x0C {
            Some(IInst::andi)
        } else if c == 0x04 {
            Some(IInst::beq)
        } else if c == 0x05 {
            Some(IInst::bne)
        } else if c == 0x24 {
            Some(IInst::lbu)
        } else if c == 0x25 {
            Some(IInst::lhu)
        } else if c == 0x30 {
            Some(IInst::ll)
        } else if c == 0x3F {
            Some(IInst::li)
        } else if c == 0x01 {
            Some(IInst::la)
        } else if c == 0x0F {
            Some(IInst::lui)
        } else if c == 0x23 {
            Some(IInst::lw)
        } else if c == 0x0D {
            Some(IInst::ori)
        } else if c == 0x0A {
            Some(IInst::slti)
        } else if c == 0x0B {
            Some(IInst::sltiu)
        } else if c == 0x28 {
            Some(IInst::sb)
        } else if c == 0x38 {
            Some(IInst::sc)
        } else if c == 0x29 {
            Some(IInst::sh)
        } else if c == 0x2B {
            Some(IInst::sw)
        } else {
            None
        }
    }

    /// Branches take a PC-relative word offset; the other label-carrying
    /// operands take the label's absolute value.
    pub open spec fn spec_needs_offset(self) -> bool {
        self is beq || self is bne
    }

    pub fn needs_offset(self) -> (r: bool)
        ensures
            r == self.spec_needs_offset(),
    {
        match self {
            IInst::beq => true,
            IInst::bne => true,
            _ => false,
        }
    }
}

/// An I-type opcode's field value names that opcode back.
pub proof fn lemma_iinst_round_trip(i: IInst)
    ensures
        IInst::spec_of_code(i.spec_code()) == Some(i),
{
}

/// The resolved form: the immediate is a concrete 16-bit field.
#[derive(Copy, Clone, PartialEq, Eq, Structural, Debug)]
pub struct ITypeImm {
    pub opcode: IInst,
    pub rs: Reg,
    pub rt: Reg,
    pub imm: u16,
}

/// The unresolved form: the operand is still a symbolic label.
#[derive(Clone, Debug)]
pub struct ITypeLabel {
    pub opcode: IInst,
    pub rs: Reg,
    pub rt: Reg,
    pub label: Address,
}

impl ITypeImm {
    pub fn new(opcode: IInst, rs: Reg, rt: Reg, imm: u16) -> (r: ITypeImm)
        ensures
            r == (ITypeImm { opcode, rs, rt, imm }),
    {
        ITypeImm { opcode, rs, rt, imm }
    }

    /// The 32-bit word this instruction packs to.
    pub open spec fn spec_encode(self) -> u32 {
        (self.opcode.spec_code() << 26) | (self.rs.spec_number() << 21) | (
        self.rt.spec_number() << 16) | (self.imm as u32)
    }

    pub open spec fn spec_decode(n: u32) -> Option<ITypeImm> {
        match IInst::spec_of_code(n >> 26) {
            None => None,
            Some(opcode) => match Reg::spec_of_number((n >> 21) % 32) {
                None => None,
                Some(rs) => match Reg::spec_of_number((n >> 16) % 32) {
                    None => None,
                    Some(rt) => Some(ITypeImm { opcode, rs, rt, imm: (n % 0x10000) as u16 }),
                },
            },
        }
    }

    pub fn encode(&self) -> (r: u32)
        ensures
            r == self.spec_encode(),
    {
        (self.opcode.code() << 26) | (self.rs.number() << 21) | (self.rt.number() << 16) | (
        self.imm as u32)
    }

    pub fn decode(n: u32) -> (r: Option<ITypeImm>)
        ensures
            r == ITypeImm::spec_decode(n),
    {
        let opcode = match IInst::from_code(n >> 26) {
            Some(o) => o,
            None => {
                return None;
            },
        };
        let rs = match Reg::from_number((n >> 21) % 32) {
            Some(x) => x,
            None => {
                return None;
            },
        };
        let rt = match Reg::from_number((n >> 16) % 32) {
            Some(x) => x,
            None => {
                return None;
            },
        };
        Some(ITypeImm { opcode, rs, rt, imm: (n % 0x10000) as u16 })
    }
}

impl ITypeLabel {
    pub fn new(opcode: IInst, rs: Reg, rt: Reg, label: Address) -> (r: ITypeLabel)
        ensures
            r == (ITypeLabel { opcode, rs, rt, label }),
    {
        ITypeLabel { opcode, rs, rt, label }
    }
}

/// Unpacking a packed I-type instruction gives it back bit for bit.
pub proof fn lemma_itype_round_trip(i: ITypeImm)
    ensures
        ITypeImm::spec_decode(i.spec_encode()) == Some(i),
{
    let oc = i.opcode.spec_code();
    let rsn = i.rs.spec_number();
    let rtn = i.rt.spec_number();
    let iv = i.imm as u32;
    let w = (oc << 26) | (rsn << 21) | (rtn << 16) | iv;
    assert(oc < 64 && rsn < 32 && rtn < 32) by {
        crate::machine::register::lemma_reg_round_trip(i.rs);
    }
    assert((w >> 26) == oc && ((w >> 21) % 32) == rsn && ((w >> 16) % 32) == rtn && (w % 0x10000)
        == iv) by (bit_vector)
        requires
            oc < 64,
            rsn < 32,
            rtn < 32,
            iv < 0x10000,
            w == (oc << 26) | (rsn << 21) | (rtn << 16) | iv,
    ;
    lemma_iinst_round_trip(i.opcode);
    crate::machine::register::lemma_reg_round_trip(i.rs);
    crate::machine::register::lemma_reg_round_trip(i.rt);
}

} // verus!
