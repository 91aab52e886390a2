pub mod address;
pub mod immediate;
pub mod memory;
pub mod register;
