use mips_rs::machine::address::Address;
use mips_rs::machine::immediate::Imm;
use mips_rs::machine::memory::{
    BOTTOM_RESERVED_START, KERNEL_DATA_END, KERNEL_DATA_START, KERNEL_TEXT_END, KERNEL_TEXT_START,
    MMIO_END, MMIO_START, STACK_START, STATIC_DATA_START, TEXT_END, TEXT_START, TOP_RESERVED_END,
};
use mips_rs::instructions::itype::{IInst, ITypeImm};
use mips_rs::instructions::label::Label;
use mips_rs::instructions::Inst;
use mips_rs::machine::register::Reg;
use mips_rs::parser::parser::{
    DataBytes, DataCString, DataEntry, DataHalfs, DataSegment, DataSpace, DataWords, Parsed,
    TextSegment,
};
use mips_rs::parser::parsing_functions::entire_line_is_comment;

#[test]
fn memory_windows_are_adjacent_and_ordered() {
    assert_eq!(TOP_RESERVED_END, 0xFFFF_0010);
    assert_eq!(MMIO_START, TOP_RESERVED_END);
    assert_eq!(MMIO_END, 0xFFFF_0000);
    assert_eq!(KERNEL_DATA_START, MMIO_END);
    assert_eq!(KERNEL_DATA_END, 0x9000_0000);
    assert_eq!(KERNEL_TEXT_START, KERNEL_DATA_END);
    assert_eq!(KERNEL_TEXT_END, 0x8000_0000);
    assert_eq!(STACK_START, KERNEL_TEXT_END);
    assert_eq!(STATIC_DATA_START, 0x1000_0000);
    assert_eq!(TEXT_END, STATIC_DATA_START);
    assert_eq!(TEXT_START, 0x0A00_0000);
    assert_eq!(BOTTOM_RESERVED_START, 0x0600_0000);
}

#[test]
fn a_text_segment_occupies_four_bytes_per_instruction() {
    let mut seg = TextSegment::new();
    assert_eq!(seg.size(), 0);
    for _ in 0..3 {
        seg.push_instruction(Inst::IImm(ITypeImm::new(IInst::addi, Reg::zero, Reg::zero, 0)));
    }
    assert_eq!(seg.size(), 12);
}

#[test]
fn a_cstring_is_padded_as_one_unit() {
    let short = DataCString { chars: (None, vec![1, 2, 3]), alignment: 8, null_terminated: false };
    assert_eq!(short.size(), 8);
    let long = DataCString {
        chars: (None, vec![0; 10]),
        alignment: 4,
        null_terminated: true,
    };
    assert_eq!(long.size(), 10 + 10 % 4);
    let exact = DataCString { chars: (None, vec![0; 4]), alignment: 1, null_terminated: false };
    assert_eq!(exact.size(), 4);
}

#[test]
fn bytes_are_aligned_individually() {
    let b = DataBytes { bytes: (None, vec![1, 2, 3]), alignment: 2 };
    assert_eq!(b.size(), 6);
}

#[test]
fn halfs_occupy_at_least_two_bytes_each() {
    let tight = DataHalfs { halfs: (None, vec![1, 2]), alignment: 1 };
    assert_eq!(tight.size(), 4);
    let padded = DataHalfs { halfs: (None, vec![1, 2]), alignment: 4 };
    assert_eq!(padded.size(), 8);
}

#[test]
fn words_occupy_at_least_four_bytes_each() {
    let tight = DataWords { words: (None, vec![1, 2]), alignment: 1 };
    assert_eq!(tight.size(), 8);
    let padded = DataWords { words: (None, vec![1]), alignment: 8 };
    assert_eq!(padded.size(), 8);
}

#[test]
fn space_occupies_exactly_its_bytes() {
    let s = DataSpace { spaces: (None, vec![0; 7]) };
    assert_eq!(s.size(), 7);
}

#[test]
fn a_data_segment_sums_its_entries() {
    let seg = DataSegment {
        data_entries: vec![
            DataEntry::Bytes(DataBytes { bytes: (None, vec![1, 2]), alignment: 1 }),
            DataEntry::Words(DataWords { words: (None, vec![1]), alignment: 4 }),
            DataEntry::Space(DataSpace { spaces: (None, vec![0; 3]) }),
        ],
        start_address: None,
    };
    assert_eq!(seg.size(), 2 + 4 + 3);
    assert_eq!(DataSegment::new().size(), 0);
}

#[test]
fn a_parsed_program_starts_empty() {
    let p = Parsed::new();
    assert!(p.text_segment.is_empty());
    assert!(p.ktext_segment.is_empty());
    assert!(p.data_segment.is_empty());
    assert!(p.kdata_segment.is_empty());
    let d: Parsed = Default::default();
    assert!(d.text_segment.is_empty());
}

#[test]
fn comment_lines_start_with_a_hash() {
    assert!(entire_line_is_comment("# a comment"));
    assert!(entire_line_is_comment("#"));
    assert!(!entire_line_is_comment(""));
    assert!(!entire_line_is_comment("addi $t0, $t0, 1 # trailing"));
}

#[test]
fn an_address_carries_a_number_or_names() {
    let n = Address::from_numeric(0x10);
    assert_eq!(n.numeric, Some(0x10));
    assert!(n.label.is_none());
    let l = Address::from_label("main".to_string());
    assert!(l.numeric.is_none());
    assert_eq!(l.label, Some(vec!["main".to_string()]));
    let both = Address::new(Some(4), Some(vec!["x".to_string()]));
    assert_eq!(both.numeric, Some(4));
}

#[test]
fn an_immediate_reports_its_value_whatever_its_tag() {
    assert_eq!(Imm::Raw(7).value(), 7);
    assert_eq!(Imm::Label(8).value(), 8);
    assert_eq!(Imm::Address(9).value(), 9);
}

#[test]
fn a_label_binds_a_name_to_an_optional_address() {
    let l = Label::new(Some(16), "loop".to_string());
    assert_eq!(l.addr, Some(16));
    assert_eq!(l.label, "loop");
    let unbound = Label::new(None, "later".to_string());
    assert!(unbound.addr.is_none());
}
