//! A just-in-time compiler for an eight-symbol tape language: source text is
//! lowered to a compact instruction sequence with resolved loop targets,
//! rewritten by a peephole pass, and then either interpreted on a byte tape or
//! assembled into x86-64 machine code.

pub mod opcode;
pub mod filter;
pub mod lower;
pub mod optimizer;
pub mod compiler;
pub mod vm;
pub mod assembler;
pub mod native;
pub mod mem;
pub mod soundness;
