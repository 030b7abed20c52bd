//! A deterministic stack-based bytecode virtual machine, with its
//! assembler and disassembler, specified and verified with Verus.
pub mod assembler;
pub mod dis;
pub mod isa;
pub mod text;
pub mod vm;
