use mips_rs::assembler::assembler::SymbolTable;
use mips_rs::assembler::resolver::{
    assign_text_segment_addresses, calculate_offset, define_labels, generate_hi_lo_labels,
    resolve_instruction, ResolveError,
};
use mips_rs::instructions::itype::{IInst, ITypeImm, ITypeLabel};
use mips_rs::instructions::jtype::{JInst, JTypeLabel};
use mips_rs::instructions::Inst;
use mips_rs::machine::address::Address;
use mips_rs::machine::register::Reg;
use mips_rs::parser::parser::TextSegment;

fn label_addr(name: &str) -> Address {
    Address::new(None, Some(vec![name.to_string()]))
}

#[test]
fn symbol_table_binds_and_looks_up_names() {
    let mut st = SymbolTable::new();
    assert_eq!(st.len(), 0);
    assert!(!st.contains_key("main"));
    st.insert("main".to_string(), 0x0A00_0000);
    st.insert("loop".to_string(), 0x0A00_0010);
    assert!(st.contains_key("main"));
    assert_eq!(st.get("main"), Some(0x0A00_0000));
    assert_eq!(st.get("loop"), Some(0x0A00_0010));
    assert_eq!(st.get("exit"), None);
    assert_eq!(st.len(), 2);
}

#[test]
fn generate_hi_lo_appends_split_names_per_label() {
    let mut a = Address::new(None, Some(vec!["x".to_string(), "y".to_string()]));
    generate_hi_lo_labels(&mut a);
    let names = a.label.unwrap();
    assert_eq!(
        names,
        vec![
            "x".to_string(),
            "y".to_string(),
            "x@hi".to_string(),
            "x@lo".to_string(),
            "y@hi".to_string(),
            "y@lo".to_string(),
        ]
    );
}

#[test]
fn define_labels_stores_address_halves_for_split_names() {
    let mut a = Address::new(None, Some(vec!["a".to_string()]));
    generate_hi_lo_labels(&mut a);
    let mut st = SymbolTable::new();
    define_labels(&a, 0x1234_5678, &mut st).unwrap();
    let full = st.get("a").unwrap();
    let hi = st.get("a@hi").unwrap();
    let lo = st.get("a@lo").unwrap();
    assert_eq!(full, 0x1234_5678);
    assert_eq!(hi, 0x1234);
    assert_eq!(lo, 0x5678);
    // hi/lo split correctness: the two halves reconstruct the address
    assert_eq!((hi << 16) | lo, full);
}

#[test]
fn define_labels_rejects_a_second_binding() {
    let a = Address::new(None, Some(vec!["foo".to_string()]));
    let mut st = SymbolTable::new();
    define_labels(&a, 0x1000, &mut st).unwrap();
    let err = define_labels(&a, 0x2000, &mut st).unwrap_err();
    match err {
        ResolveError::DuplicateLabel(name) => assert_eq!(name, "foo"),
        other => panic!("expected a duplicate label error, got {:?}", other),
    }
}

#[test]
fn forward_branch_offset_is_positive_word_distance() {
    assert_eq!(calculate_offset(0x0040_0010, 0x0040_0000).unwrap(), 4);
}

#[test]
fn backward_branch_offset_is_negative_word_distance() {
    assert_eq!(calculate_offset(0x0040_0000, 0x0040_0010).unwrap(), -4);
}

#[test]
fn unaligned_distances_shift_arithmetically() {
    assert_eq!(calculate_offset(7, 0).unwrap(), 1);
    assert_eq!(calculate_offset(0, 7).unwrap(), -2);
}

#[test]
fn distances_outside_signed_32_bits_are_fatal() {
    match calculate_offset(0xFFFF_FFFF, 0).unwrap_err() {
        ResolveError::FieldOverflow { label_addr, inst_addr } => {
            assert_eq!(label_addr, 0xFFFF_FFFF);
            assert_eq!(inst_addr, 0);
        },
        other => panic!("expected field overflow, got {:?}", other),
    }
    assert!(calculate_offset(0, 0xFFFF_FFFF).is_err());
}

#[test]
fn branch_to_forward_label_encodes_positive_offset() {
    // beq at 0x00400000 referencing `loop` at 0x00400010.
    let mut st = SymbolTable::new();
    st.insert("loop".to_string(), 0x0040_0010);
    let inst = Inst::ILabel(ITypeLabel::new(IInst::beq, Reg::t0, Reg::t1, label_addr("loop")));
    match resolve_instruction(inst, 0x0040_0000, &st).unwrap() {
        Inst::IImm(i) => {
            assert_eq!(i.opcode, IInst::beq);
            assert_eq!(i.imm, 0x0004);
        },
        other => panic!("expected a resolved I-type, got {:?}", other),
    }
}

#[test]
fn branch_to_backward_label_encodes_twos_complement_offset() {
    let mut st = SymbolTable::new();
    st.insert("back".to_string(), 0x0040_0000);
    let inst = Inst::ILabel(ITypeLabel::new(IInst::beq, Reg::t0, Reg::t1, label_addr("back")));
    match resolve_instruction(inst, 0x0040_0010, &st).unwrap() {
        Inst::IImm(i) => assert_eq!(i.imm, 0xFFFC),
        other => panic!("expected a resolved I-type, got {:?}", other),
    }
}

#[test]
fn absolute_operand_takes_the_label_value_itself() {
    let mut st = SymbolTable::new();
    st.insert("buffer@lo".to_string(), 0x0123);
    let inst = Inst::ILabel(ITypeLabel::new(IInst::ori, Reg::t0, Reg::t0, label_addr("buffer@lo")));
    match resolve_instruction(inst, 0x0A00_0000, &st).unwrap() {
        Inst::IImm(i) => assert_eq!(i.imm, 0x0123),
        other => panic!("expected a resolved I-type, got {:?}", other),
    }
}

#[test]
fn absolute_operand_wider_than_its_field_is_fatal() {
    let mut st = SymbolTable::new();
    st.insert("big".to_string(), 0x0001_0000);
    let inst = Inst::ILabel(ITypeLabel::new(IInst::ori, Reg::t0, Reg::t0, label_addr("big")));
    assert!(matches!(
        resolve_instruction(inst, 0x0A00_0000, &st),
        Err(ResolveError::FieldOverflow { .. })
    ));
}

#[test]
fn branch_distance_wider_than_its_field_is_fatal() {
    let mut st = SymbolTable::new();
    st.insert("far".to_string(), 0x0042_0000);
    let inst = Inst::ILabel(ITypeLabel::new(IInst::beq, Reg::t0, Reg::t1, label_addr("far")));
    assert!(matches!(
        resolve_instruction(inst, 0x0040_0000, &st),
        Err(ResolveError::FieldOverflow { .. })
    ));
}

#[test]
fn jump_offsets_use_the_wider_field() {
    let mut st = SymbolTable::new();
    st.insert("fwd".to_string(), 0x0040_0400);
    st.insert("back".to_string(), 0x0040_0000);
    let j1 = Inst::JLabel(JTypeLabel::new(JInst::j, label_addr("fwd")));
    match resolve_instruction(j1, 0x0040_0000, &st).unwrap() {
        Inst::JImm(j) => assert_eq!(j.imm, 0x100),
        other => panic!("expected a resolved J-type, got {:?}", other),
    }
    let j2 = Inst::JLabel(JTypeLabel::new(JInst::j, label_addr("back")));
    match resolve_instruction(j2, 0x0040_0010, &st).unwrap() {
        Inst::JImm(j) => assert_eq!(j.imm, 0x400_0000 - 4),
        other => panic!("expected a resolved J-type, got {:?}", other),
    }
}

#[test]
fn an_unknown_label_is_fatal() {
    let st = SymbolTable::new();
    let inst = Inst::ILabel(ITypeLabel::new(IInst::beq, Reg::t0, Reg::t1, label_addr("nowhere")));
    match resolve_instruction(inst, 0x0040_0000, &st).unwrap_err() {
        ResolveError::UnresolvedLabel(name) => assert_eq!(name, "nowhere"),
        other => panic!("expected an unresolved label error, got {:?}", other),
    }
}

#[test]
fn resolved_instructions_pass_through_untouched() {
    let st = SymbolTable::new();
    let inst = Inst::IImm(ITypeImm::new(IInst::addi, Reg::t0, Reg::t1, 5));
    match resolve_instruction(inst, 0, &st).unwrap() {
        Inst::IImm(i) => assert_eq!(i, ITypeImm::new(IInst::addi, Reg::t0, Reg::t1, 5)),
        other => panic!("expected the instruction back, got {:?}", other),
    }
}

#[test]
fn a_resolved_branch_field_carries_the_branch_back_to_its_target() {
    // Sign-extend the field, scale by four, add the branch's address:
    // the result is the label's address, forward and backward.
    let cases = [(0x0040_0000u32, 0x0040_0010u32), (0x0040_0010, 0x0040_0000)];
    for (inst_addr, label_addr) in cases {
        let mut st = SymbolTable::new();
        st.insert("target".to_string(), label_addr);
        let inst =
            Inst::ILabel(ITypeLabel::new(IInst::beq, Reg::t0, Reg::t1, label_addr_of("target")));
        let imm = match resolve_instruction(inst, inst_addr, &st).unwrap() {
            Inst::IImm(i) => i.imm,
            other => panic!("expected a resolved branch, got {:?}", other),
        };
        let signed = if imm < 0x8000 { imm as i64 } else { imm as i64 - 0x10000 };
        assert_eq!(inst_addr as i64 + 4 * signed, label_addr as i64);
    }
}

fn label_addr_of(name: &str) -> Address {
    Address::new(None, Some(vec![name.to_string()]))
}

#[test]
fn addresses_are_assigned_sequentially_from_the_segment_start() {
    let mut seg = TextSegment::new();
    seg.push_addressed_instruction(
        label_addr("main"),
        Inst::IImm(ITypeImm::new(IInst::addi, Reg::zero, Reg::t0, 1)),
    );
    seg.push_instruction(Inst::IImm(ITypeImm::new(IInst::addi, Reg::zero, Reg::t1, 2)));
    seg.push_instruction(Inst::IImm(ITypeImm::new(IInst::addi, Reg::zero, Reg::t2, 3)));
    seg.start_address = Some(Address::from_numeric(0x0A00_0000));
    let mut st = SymbolTable::new();
    assign_text_segment_addresses(&mut seg, &mut st, 0x1000_0000).unwrap();
    let addrs: Vec<u32> = seg
        .instructions
        .iter()
        .map(|(a, _)| a.as_ref().unwrap().numeric.unwrap())
        .collect();
    assert_eq!(addrs, vec![0x0A00_0000, 0x0A00_0004, 0x0A00_0008]);
    assert_eq!(st.get("main"), Some(0x0A00_0000));
    assert_eq!(st.get("main@hi"), Some(0x0A00));
    assert_eq!(st.get("main@lo"), Some(0x0000));
}

#[test]
fn a_segment_reaching_its_region_bound_is_fatal() {
    let mut seg = TextSegment::new();
    for _ in 0..3 {
        seg.push_instruction(Inst::IImm(ITypeImm::new(IInst::addi, Reg::zero, Reg::t0, 0)));
    }
    seg.start_address = Some(Address::from_numeric(0x0FFF_FFF8));
    let mut st = SymbolTable::new();
    match assign_text_segment_addresses(&mut seg, &mut st, 0x1000_0000).unwrap_err() {
        ResolveError::SegmentTooLarge => {},
        other => panic!("expected segment overflow, got {:?}", other),
    }
}
