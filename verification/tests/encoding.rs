use mips_rs::instructions::itype::{IInst, ITypeImm};
use mips_rs::instructions::jtype::{JInst, JTypeImm};
use mips_rs::instructions::rtype::{RInst, RType};
use mips_rs::instructions::Inst;
use mips_rs::machine::register::Reg;

#[test]
fn itype_packs_its_fields_into_the_expected_word() {
    // addi $t0, $s1, 0x1234: opcode 0x08, rs 17, rt 8.
    let i = ITypeImm::new(IInst::addi, Reg::s1, Reg::t0, 0x1234);
    let w = i.encode();
    assert_eq!(w, (0x08 << 26) | (17 << 21) | (8 << 16) | 0x1234);
}

#[test]
fn rtype_packs_its_fields_into_the_expected_word() {
    // add $t2, $t0, $t1: funct 0x20, rs 8, rt 9, rd 10, shamt 0.
    let r = RType::new(RInst::add, Reg::t0, Reg::t1, Reg::t2, 0);
    let w = r.encode();
    assert_eq!(w, (8 << 21) | (9 << 16) | (10 << 11) | 0x20);
    assert_eq!(w >> 26, 0);
}

#[test]
fn jtype_packs_its_fields_into_the_expected_word() {
    let j = JTypeImm::new(JInst::jal, 0x012_3456);
    assert_eq!(j.encode(), (0x03 << 26) | 0x012_3456);
}

#[test]
fn itype_round_trips_bit_for_bit() {
    let cases = [
        ITypeImm::new(IInst::addi, Reg::s1, Reg::t0, 0x1234),
        ITypeImm::new(IInst::beq, Reg::zero, Reg::ra, 0xFFFC),
        ITypeImm::new(IInst::sw, Reg::sp, Reg::a0, 0),
        ITypeImm::new(IInst::lui, Reg::zero, Reg::t0, 0x1001),
    ];
    for i in cases {
        assert_eq!(ITypeImm::decode(i.encode()), Some(i));
    }
}

#[test]
fn rtype_round_trips_bit_for_bit() {
    let cases = [
        RType::new(RInst::add, Reg::t0, Reg::t1, Reg::t2, 0),
        RType::new(RInst::sll, Reg::zero, Reg::s0, Reg::s1, 31),
        RType::new(RInst::jr, Reg::ra, Reg::zero, Reg::zero, 0),
    ];
    for r in cases {
        assert_eq!(RType::decode(r.encode()), Some(r));
    }
}

#[test]
fn jtype_round_trips_bit_for_bit() {
    let cases = [
        JTypeImm::new(JInst::j, 1),
        JTypeImm::new(JInst::jal, 0x3FF_FFFF),
        JTypeImm::new(JInst::eret, 0),
    ];
    for j in cases {
        assert_eq!(JTypeImm::decode(j.encode()), Some(j));
    }
}

#[test]
fn inst_round_trips_through_the_word_level_dispatch() {
    let cases = [
        Inst::IImm(ITypeImm::new(IInst::ori, Reg::t0, Reg::t0, 0x00FF)),
        Inst::R(RType::new(RInst::subu, Reg::s0, Reg::s1, Reg::s2, 0)),
        Inst::JImm(JTypeImm::new(JInst::j, 0x10_0000)),
    ];
    for inst in cases {
        let w = inst.encode();
        match (Inst::decode(w), &inst) {
            (Some(Inst::IImm(a)), Inst::IImm(b)) => assert_eq!(a, *b),
            (Some(Inst::R(a)), Inst::R(b)) => assert_eq!(a, *b),
            (Some(Inst::JImm(a)), Inst::JImm(b)) => assert_eq!(a, *b),
            (got, want) => panic!("decode mismatch: {:?} vs {:?}", got, want),
        }
    }
}

#[test]
fn decode_rejects_an_unknown_opcode() {
    // Opcode 0x3E names no instruction of any type.
    assert!(Inst::decode(0x3E << 26).is_none());
    assert!(ITypeImm::decode(0x3E << 26).is_none());
}

#[test]
fn decode_rejects_a_register_field_without_a_register() {
    // rs = 26 names no register of the set.
    let w = (0x08 << 26) | (26 << 21);
    assert!(ITypeImm::decode(w).is_none());
}

#[test]
fn decode_rejects_an_unknown_funct_code() {
    // Opcode 0, funct 0x3F is no R-type function.
    assert!(RType::decode(0x3F).is_none());
}

#[test]
fn opcode_tables_match_the_instruction_set() {
    assert_eq!(IInst::addi.code(), 0x08);
    assert_eq!(IInst::beq.code(), 0x04);
    assert_eq!(IInst::sw.code(), 0x2B);
    assert_eq!(IInst::from_code(0x0F), Some(IInst::lui));
    assert_eq!(IInst::from_code(0x02), None);
    assert_eq!(JInst::from_code(0x02), Some(JInst::j));
    assert_eq!(RInst::from_code(0x1A), Some(RInst::div));
    assert_eq!(RInst::from_code(0x3F), None);
}

#[test]
fn only_branches_need_a_pc_relative_offset() {
    assert!(IInst::beq.needs_offset());
    assert!(IInst::bne.needs_offset());
    assert!(!IInst::lui.needs_offset());
    assert!(!IInst::ori.needs_offset());
    assert!(!IInst::lw.needs_offset());
}

#[test]
fn register_numbers_round_trip() {
    let regs = [Reg::zero, Reg::at, Reg::v0, Reg::a3, Reg::t7, Reg::t8, Reg::s7, Reg::sp, Reg::fp, Reg::ra];
    for r in regs {
        assert_eq!(Reg::from_number(r.number()), Some(r));
    }
    assert_eq!(Reg::ra.number(), 31);
    assert_eq!(Reg::from_number(26), None);
    assert_eq!(Reg::from_number(27), None);
    assert_eq!(Reg::from_number(28), None);
    // only the low five bits are a register field
    assert_eq!(Reg::from_number(32), Some(Reg::zero));
}
