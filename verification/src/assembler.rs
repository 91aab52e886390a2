pub mod assembler;
pub mod resolver;
