//! R-type instructions: three registers, a shift amount and a function
//! code, packed under opcode zero.

use vstd::prelude::*;

use crate::machine::register::Reg;

verus! {

#[allow(non_camel_case_types)]
#[derive(Copy, Clone, PartialEq, Eq, Structural, Debug)]
pub enum RInst {
    add,
    addu,
    and,
    jr,
    nor,
    or,
    slt,
    sltu,
    sll,
    srl,
    sub,
    subu,
    div,
    divu,
}

impl RInst {
    /// The 6-bit function field value.
    pub open spec fn spec_code(self) -> u32 {
        match self {
            RInst::add => 0x20,
            RInst::addu => 0x21,
            RInst::and => 0x24,
            RInst::jr => 0x08,
            RInst::nor => 0x27,
            RInst::or => 0x25,
            RInst::slt => 0x2A,
            RInst::sltu => 0x2B,
            RInst::sll => 0x00,
            RInst::srl => 0x02,
            RInst::sub => 0x22,
            RInst::subu => 0x23,
            RInst::div => 0x1A,
            RInst::divu => 0x1B,
        }
    }

    pub open spec fn spec_of_code(c: u32) -> Option<RInst> {
        if c == 0x20 {
            Some(RInst::add)
        } else if c == 0x21 {
            Some(RInst::addu)
        } else if c == 0x24 {
            Some(RInst::and)
        } else if c == 0x08 {
            Some(RInst::jr)
        } else if c == 0x27 {
            Some(RInst::nor)
        } else if c == 0x25 {
            Some(RInst::or)
        } else if c == 0x2A {
            Some(RInst::slt)
        } else if c == 0x2B {
            Some(RInst::sltu)
        } else if c == 0x00 {
            Some(RInst::sll)
        } else if c == 0x02 {
            Some(RInst::srl)
        } else if c == 0x22 {
            Some(RInst::sub)
        } else if c == 0x23 {
            Some(RInst::subu)
        } else if c == 0x1A {
            Some(RInst::div)
        } else if c == 0x1B {
            Some(RInst::divu)
        } else {
            None
        }
    }

    pub fn code(self) -> (r: u32)
        ensures
            r == self.spec_code(),
            r < 64,
    {
        match self {
            RInst::add => 0x20,
            RInst::addu => 0x21,
            RInst::and => 0x24,
            RInst::jr => 0x08,
            RInst::nor => 0x27,
            RInst::or => 0x25,
            RInst::slt => 0x2A,
            RInst::sltu => 0x2B,
            RInst::sll => 0x00,
            RInst::srl => 0x02,
            RInst::sub => 0x22,
            RInst::subu => 0x23,
            RInst::div => 0x1A,
            RInst::divu => 0x1B,
        }
    }

    pub fn from_code(c: u32) -> (r: Option<RInst>)
        ensures
            r == RInst::spec_of_code(c),
    {
        if c == 0x20 {
            Some(RInst::add)
        } else if c == 0x21 {
            Some(RInst::addu)
        } else if c == 0x24 {
            Some(RInst::and)
        } else if c == 0x08 {
            Some(RInst::jr)
        } else if c == 0x27 {
            Some(RInst::nor)
        } else if c == 0x25 {
            Some(RInst::or)
        } else if c == 0x2A {
            Some(RInst::slt)
        } else if c == 0x2B {
            Some(RInst::sltu)
        } else if c == 0x00 {
            Some(RInst::sll)
        } else if c == 0x02 {
            Some(RInst::srl)
        } else if c == 0x22 {
            Some(RInst::sub)
        } else if c == 0x23 {
            Some(RInst::subu)
        } else if c == 0x1A {
            Some(RInst::div)
        } else if c == 0x1B {
            Some(RInst::divu)
        } else {
            None
        }
    }
}

/// An R-type function field value names that function back.
pub proof fn lemma_rinst_round_trip(i: RInst)
    ensures
        RInst::spec_of_code(i.spec_code()) == Some(i),
{
}

#[derive(Copy, Clone, PartialEq, Eq, Structural, Debug)]
pub struct RType {
    pub rs: Reg,
    pub rt: Reg,
    pub rd: Reg,
    pub shamt: u8,
    pub funct: RInst,
}

impl RType {
    /// The shift amount must fit its 5-bit field.
    pub open spec fn wf(self) -> bool {
        self.shamt < 32
    }

    pub fn new(funct: RInst, rs: Reg, rt: Reg, rd: Reg, shamt: u8) -> (r: RType)
        requires
            shamt < 32,
        ensures
            r == (RType { rs, rt, rd, shamt, funct }),
            r.wf(),
    {
        RType { rs, rt, rd, shamt, funct }
    }

    /// The 32-bit word this instruction packs to; the opcode field is
    /// zero.
    pub open spec fn spec_encode(self) -> u32 {
        (self.rs.spec_number() << 21) | (self.rt.spec_number() << 16) | (self.rd.spec_number()
            << 11) | ((self.shamt as u32) << 6) | self.funct.spec_code()
    }

    pub open spec fn spec_decode(n: u32) -> Option<RType> {
        match Reg::spec_of_number((n >> 21) % 32) {
            None => None,
            Some(rs) => match Reg::spec_of_number((n >> 16) % 32) {
                None => None,
                Some(rt) => match Reg::spec_of_number((n >> 11) % 32) {
                    None => None,
                    Some(rd) => match RInst::spec_of_code(n % 64) {
                        None => None,
                        Some(funct) => Some(
                            RType { rs, rt, rd, shamt: ((n >> 6) % 32) as u8, funct },
                        ),
                    },
                },
            },
        }
    }

    pub fn encode(&self) -> (r: u32)
        ensures
            r == self.spec_encode(),
    {
        (self.rs.number() << 21) | (self.rt.number() << 16) | (self.rd.number() << 11) | ((
        self.shamt as u32) << 6) | self.funct.code()
    }

    pub fn decode(n: u32) -> (r: Option<RType>)
        ensures
            r == RType::spec_decode(n),
            r matches Some(i) ==> i.wf(),
    {
        let rs = match Reg::from_number((n >> 21) % 32) {
            Some(x) => x,
            None => {
                return None;
            },
        };
        let rt = match Reg::from_number((n >> 16) % 32) {
            Some(x) => x,
            None => {
                return None;
            },
        };
        let rd = match Reg::from_number((n >> 11) % 32) {
            Some(x) => x,
            None => {
                return None;
            },
        };
        let funct = match RInst::from_code(n % 64) {
            Some(x) => x,
            None => {
                return None;
            },
        };
        let shamt = ((n >> 6) % 32) as u8;
        Some(RType { rs, rt, rd, shamt, funct })
    }
}

/// Unpacking a packed R-type instruction gives it back bit for bit, and
/// its opcode field is zero.
pub proof fn lemma_rtype_round_trip(i: RType)
    requires
        i.wf(),
    ensures
        RType::spec_decode(i.spec_encode()) == Some(i),
        i.spec_encode() >> 26 == 0u32,
{
    let rsn = i.rs.spec_number();
    let rtn = i.rt.spec_number();
    let rdn = i.rd.spec_number();
    let sh = i.shamt as u32;
    let fc = i.funct.spec_code();
    let w = (rsn << 21) | (rtn << 16) | (rdn << 11) | (sh << 6) | fc;
    assert(((w >> 21) % 32) == rsn && ((w >> 16) % 32) == rtn && ((w >> 11) % 32) == rdn && ((w
        >> 6) % 32) == sh && (w % 64) == fc && (w >> 26) == 0) by (bit_vector)
        requires
            rsn < 32,
            rtn < 32,
            rdn < 32,
            sh < 32,
            fc < 64,
            w == (rsn << 21) | (rtn << 16) | (rdn << 11) | (sh << 6) | fc,
    ;
    crate::machine::register::lemma_reg_round_trip(i.rs);
    crate::machine::register::lemma_reg_round_trip(i.rt);
    crate::machine::register::lemma_reg_round_trip(i.rd);
    lemma_rinst_round_trip(i.funct);
}

} // verus!
