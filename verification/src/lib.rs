//! A verified core for a MIPS-like assembler backend: a first-fit region
//! allocator that places program segments into bounded address windows, a
//! symbol resolver that assigns concrete addresses and rewrites label
//! operands into bit-field immediates, and a bit-exact instruction
//! encoding model.

pub mod assembler;
pub mod instructions;
pub mod machine;
pub mod parser;
