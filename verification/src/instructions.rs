//! The instruction model: R-type, I-type and J-type instructions, each
//! in an unresolved (label-carrying) and a resolved (bit-field) form,
//! with bit-exact packing to and from a 32-bit word.

pub mod itype;
pub mod jtype;
pub mod label;
pub mod rtype;

use vstd::prelude::*;

use itype::{ITypeImm, ITypeLabel};
use jtype::{JInst, JTypeImm, JTypeLabel};
use rtype::RType;

verus! {

#[derive(Clone, Debug)]
pub enum Inst {
    IImm(ITypeImm),
    ILabel(ITypeLabel),
    R(RType),
    JImm(JTypeImm),
    JLabel(JTypeLabel),
}

impl Inst {
    /// Every operand is a concrete bit field; nothing symbolic is left.
    pub open spec fn is_resolved(self) -> bool {
        self is IImm || self is R || self is JImm
    }

    pub open spec fn wf(self) -> bool {
        match self {
            Inst::IImm(_) => true,
            Inst::ILabel(i) => i.label.wf(),
            Inst::R(r) => r.wf(),
            Inst::JImm(j) => j.wf(),
            Inst::JLabel(j) => j.label.wf(),
        }
    }

    /// The 32-bit word a resolved instruction packs to.
    pub open spec fn spec_encode(self) -> u32 {
        match self {
            Inst::IImm(i) => i.spec_encode(),
            Inst::R(r) => r.spec_encode(),
            Inst::JImm(j) => j.spec_encode(),
            _ => 0,
        }
    }

    /// Unpack a word: opcode zero is R-type, a J-type opcode is J-type,
    /// any other known opcode is I-type.
    pub open spec fn spec_decode(n: u32) -> Option<Inst> {
        let op = n >> 26;
        if op == 0 {
            match RType::spec_decode(n) {
                Some(r) => Some(Inst::R(r)),
                None => None,
            }
        } else if JInst::spec_of_code(op) is Some {
            match JTypeImm::spec_decode(n) {
                Some(j) => Some(Inst::JImm(j)),
                None => None,
            }
        } else {
            match ITypeImm::spec_decode(n) {
                Some(i) => Some(Inst::IImm(i)),
                None => None,
            }
        }
    }

    pub fn encode(&self) -> (r: u32)
        requires
            self.is_resolved(),
            self.wf(),
        ensures
            r == self.spec_encode(),
    {
        match self {
            Inst::IImm(i) => i.encode(),
            Inst::R(r) => r.encode(),
            Inst::JImm(j) => j.encode(),
            Inst::ILabel(_) => vstd::pervasive::unreached(),
            Inst::JLabel(_) => vstd::pervasive::unreached(),
        }
    }

    pub fn decode(n: u32) -> (r: Option<Inst>)
        ensures
            r == Inst::spec_decode(n),
            r matches Some(i) ==> i.is_resolved() && i.wf(),
    {
        let op = n >> 26;
        if op == 0 {
            match RType::decode(n) {
                Some(r) => Some(Inst::R(r)),
                None => None,
            }
        } else if JInst::from_code(op).is_some() {
            match JTypeImm::decode(n) {
                Some(j) => Some(Inst::JImm(j)),
                None => None,
            }
        } else {
            match ITypeImm::decode(n) {
                Some(i) => Some(Inst::IImm(i)),
                None => None,
            }
        }
    }
}

/// Round-trip encoding: every well-formed resolved instruction unpacks
/// from its packed word bit for bit.
pub proof fn lemma_inst_round_trip(inst: Inst)
    requires
        inst.is_resolved(),
        inst.wf(),
    ensures
        Inst::spec_decode(inst.spec_encode()) == Some(inst),
{
    let w = inst.spec_encode();
    match inst {
        Inst::IImm(i) => {
            itype::lemma_itype_round_trip(i);
            assert(itype::IInst::spec_of_code(w >> 26) == Some(i.opcode));
            assert(w >> 26 != 0);
            assert(JInst::spec_of_code(w >> 26) is None);
        },
        Inst::R(r) => {
            rtype::lemma_rtype_round_trip(r);
        },
        Inst::JImm(j) => {
            jtype::lemma_jtype_round_trip(j);
            assert(JInst::spec_of_code(w >> 26) == Some(j.opcode));
            assert(w >> 26 != 0);
        },
        _ => {},
    }
}

} // verus!
