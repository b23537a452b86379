//! A balanced-ternary virtual machine: trit and word arithmetic, the
//! instruction codec, the program loader and the CPU core.

pub mod error;
pub mod isa;
pub mod trit;
pub mod word;
pub mod cpu;
pub mod program;
