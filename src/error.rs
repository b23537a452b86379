use vstd::prelude::*;

verus! {

/// The faults of loading and running a program.
#[derive(Debug, Copy, Clone, PartialEq, Eq, Structural)]
pub enum VmError {
    /// A byte of the program binary is not -1, 0 or 1; holds that byte as signed.
    InvalidTrit(i8),
    /// The program's byte count, which is not a multiple of 9.
    MalformedProgram(usize),
    /// The program holds more trytes than memory does.
    ProgramTooLarge,
    /// A decoded register index lies outside [0, 26]; holds rd, rs1 and rs2.
    InvalidRegister(i64, i64, i64),
    /// A decoded opcode that names no instruction.
    UnknownOpcode(i64),
    /// The program counter, negative or too close to the end of memory.
    PcOutOfRange(i64),
    /// A load or store address, negative or too close to the end of memory.
    AddressOutOfRange(i128),
    /// The run reached its cycle budget without halting.
    InstructionBudgetExceeded,
}

} // verus!
