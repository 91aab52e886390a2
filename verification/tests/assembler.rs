use mips_rs::assembler::assembler::{
    assemble, expand_li_la_imm, expand_li_la_label, expand_pseudo, str_eq, SymbolTable,
};
use mips_rs::assembler::resolver::{layout_text_segment, ResolveError};
use mips_rs::instructions::itype::{IInst, ITypeImm, ITypeLabel};
use mips_rs::instructions::Inst;
use mips_rs::machine::address::Address;
use mips_rs::machine::memory::{TEXT_END, TEXT_START};
use mips_rs::machine::register::Reg;
use mips_rs::parser::parser::{DataEntry, DataSegment, DataWords, Parsed, TextSegment};

fn label_addr(name: &str) -> Address {
    Address::new(None, Some(vec![name.to_string()]))
}

fn nop() -> Inst {
    Inst::IImm(ITypeImm::new(IInst::addi, Reg::zero, Reg::zero, 0))
}

#[test]
fn string_equality_compares_characters() {
    assert!(str_eq("loop", "loop"));
    assert!(!str_eq("loop", "loo"));
    assert!(!str_eq("loop", "lool"));
    assert!(str_eq("", ""));
}

#[test]
fn la_of_a_label_expands_to_lui_then_ori() {
    let (lui, ori) = expand_li_la_label(Reg::zero, Reg::t0, label_addr("buffer"));
    assert_eq!(lui.opcode, IInst::lui);
    assert_eq!(lui.rt, Reg::t0);
    assert_eq!(lui.label.label, Some(vec!["buffer@hi".to_string()]));
    assert_eq!(ori.opcode, IInst::ori);
    assert_eq!(ori.rs, Reg::t0);
    assert_eq!(ori.rt, Reg::t0);
    assert_eq!(ori.label.label, Some(vec!["buffer@lo".to_string()]));
}

#[test]
fn li_of_a_literal_expands_to_its_halves() {
    let (lui, ori) = expand_li_la_imm(Reg::zero, Reg::t0, 0x1234_5678);
    assert_eq!(lui.imm, 0x1234);
    assert_eq!(ori.imm, 0x5678);
    assert_eq!(ori.rs, Reg::t0);
}

#[test]
fn expansion_doubles_pseudo_instructions_and_keeps_labels_on_the_first() {
    let mut seg = TextSegment::new();
    seg.push_addressed_instruction(
        label_addr("start"),
        Inst::ILabel(ITypeLabel::new(IInst::la, Reg::zero, Reg::t0, label_addr("buffer"))),
    );
    seg.push_instruction(nop());
    let out = expand_pseudo(vec![seg]);
    assert_eq!(out.len(), 1);
    let insts = &out[0].instructions;
    assert_eq!(insts.len(), 3);
    // the source entry's label stays on the lui
    assert_eq!(
        insts[0].0.as_ref().unwrap().label,
        Some(vec!["start".to_string()])
    );
    assert!(insts[1].0.is_none());
    match (&insts[0].1, &insts[1].1) {
        (Inst::ILabel(lui), Inst::ILabel(ori)) => {
            assert_eq!(lui.opcode, IInst::lui);
            assert_eq!(ori.opcode, IInst::ori);
        },
        other => panic!("expected lui/ori pair, got {:?}", other),
    }
    assert!(matches!(insts[2].1, Inst::IImm(_)));
}

#[test]
fn duplicate_label_across_segments_is_a_redefinition() {
    let mut seg_a = TextSegment::new();
    seg_a.push_addressed_instruction(label_addr("foo"), nop());
    let mut seg_b = TextSegment::new();
    seg_b.push_addressed_instruction(label_addr("foo"), nop());
    let mut segs = vec![seg_a, seg_b];
    let mut st = SymbolTable::new();
    match layout_text_segment(&mut segs, &mut st, TEXT_START, TEXT_END).unwrap_err() {
        ResolveError::DuplicateLabel(name) => assert_eq!(name, "foo"),
        other => panic!("expected a duplicate label error, got {:?}", other),
    }
}

#[test]
fn la_resolves_to_the_split_halves_of_the_target_address() {
    // buffer sits at 0x10010000; `la $t0, buffer` must load 0x1001 and 0x0000.
    let data_seg = DataSegment {
        data_entries: vec![DataEntry::Words(DataWords {
            words: (Some(label_addr("buffer")), vec![0]),
            alignment: 4,
        })],
        start_address: Some(Address::from_numeric(0x1001_0000)),
    };
    let mut text_seg = TextSegment::new();
    text_seg.push_instruction(Inst::ILabel(ITypeLabel::new(
        IInst::la,
        Reg::zero,
        Reg::t0,
        label_addr("buffer"),
    )));
    let parsed = Parsed {
        text_segment: vec![text_seg],
        ktext_segment: Vec::new(),
        data_segment: vec![data_seg],
        kdata_segment: Vec::new(),
    };
    let (resolved, st) = assemble(parsed).unwrap();
    assert_eq!(st.get("buffer"), Some(0x1001_0000));
    assert_eq!(st.get("buffer@hi"), Some(0x1001));
    assert_eq!(st.get("buffer@lo"), Some(0x0000));
    let insts = &resolved.text_segment[0].instructions;
    assert_eq!(insts.len(), 2);
    match (&insts[0].1, &insts[1].1) {
        (Inst::IImm(lui), Inst::IImm(ori)) => {
            assert_eq!(lui.opcode, IInst::lui);
            assert_eq!(lui.imm, 0x1001);
            assert_eq!(ori.opcode, IInst::ori);
            assert_eq!(ori.imm, 0x0000);
        },
        other => panic!("expected resolved lui/ori, got {:?}", other),
    }
}

#[test]
fn a_whole_program_resolves_to_sequential_addresses_and_final_operands() {
    // A loop: the branch back to `main` from the second word encodes -1.
    let mut text_seg = TextSegment::new();
    text_seg.push_addressed_instruction(label_addr("main"), nop());
    text_seg.push_instruction(Inst::ILabel(ITypeLabel::new(
        IInst::beq,
        Reg::t0,
        Reg::t1,
        label_addr("main"),
    )));
    let parsed = Parsed {
        text_segment: vec![text_seg],
        ktext_segment: Vec::new(),
        data_segment: Vec::new(),
        kdata_segment: Vec::new(),
    };
    let (resolved, st) = assemble(parsed).unwrap();
    let seg = &resolved.text_segment[0];
    let start = seg.start_address.as_ref().unwrap().numeric.unwrap();
    assert_eq!(start, TEXT_START);
    assert_eq!(st.get("main"), Some(start));
    let insts = &seg.instructions;
    assert_eq!(
        insts[1].0.as_ref().unwrap().numeric.unwrap(),
        start + 4
    );
    match &insts[1].1 {
        Inst::IImm(i) => assert_eq!(i.imm, 0xFFFF),
        other => panic!("expected a resolved branch, got {:?}", other),
    }
}

#[test]
fn an_operand_naming_no_label_fails_the_whole_run() {
    let mut text_seg = TextSegment::new();
    text_seg.push_instruction(Inst::ILabel(ITypeLabel::new(
        IInst::beq,
        Reg::t0,
        Reg::t1,
        label_addr("ghost_label"),
    )));
    let parsed = Parsed {
        text_segment: vec![text_seg],
        ktext_segment: Vec::new(),
        data_segment: Vec::new(),
        kdata_segment: Vec::new(),
    };
    match assemble(parsed).unwrap_err() {
        ResolveError::UnresolvedLabel(name) => assert_eq!(name, "ghost_label"),
        other => panic!("expected an unresolved label error, got {:?}", other),
    }
}

#[test]
fn an_empty_program_assembles_to_an_empty_symbol_table() {
    let parsed = Parsed::new();
    let (resolved, st) = assemble(parsed).unwrap();
    assert!(resolved.text_segment.is_empty());
    assert_eq!(st.len(), 0);
}

#[test]
fn co_located_labels_resolve_to_the_same_address() {
    let mut text_seg = TextSegment::new();
    text_seg.push_addressed_instruction(
        Address::new(None, Some(vec!["first".to_string(), "second".to_string()])),
        nop(),
    );
    let parsed = Parsed {
        text_segment: vec![text_seg],
        ktext_segment: Vec::new(),
        data_segment: Vec::new(),
        kdata_segment: Vec::new(),
    };
    let (_, st) = assemble(parsed).unwrap();
    assert_eq!(st.get("first"), st.get("second"));
    assert!(st.get("first").is_some());
    assert!(st.get("first@hi").is_some());
    assert!(st.get("second@lo").is_some());
}

#[test]
fn a_fixed_segment_outside_its_window_fails_placement() {
    let mut text_seg = TextSegment::new();
    text_seg.push_instruction(nop());
    // 0x00400000 lies below the text window
    text_seg.start_address = Some(Address::from_numeric(0x0040_0000));
    let parsed = Parsed {
        text_segment: vec![text_seg],
        ktext_segment: Vec::new(),
        data_segment: Vec::new(),
        kdata_segment: Vec::new(),
    };
    assert!(matches!(
        assemble(parsed).unwrap_err(),
        ResolveError::Placement(_)
    ));
}
