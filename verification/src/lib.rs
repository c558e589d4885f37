pub mod address;
pub mod assembler;
pub mod fmt;
pub mod memory;
pub mod parser;
pub mod program;
pub mod registers;
pub mod vm;
