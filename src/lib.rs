//! A six-opcode virtual machine with two execution backends: a direct
//! bytecode interpreter and a translator into a native control-flow plan
//! that a code generator lowers to machine code.

pub mod opcode;
pub mod program;
pub mod machine;
pub mod vm;
pub mod interpreter;
pub mod native;
pub mod jit;
pub mod equivalence;
pub mod fidelity;
