use vstd::arithmetic::div_mod::lemma_fundamental_div_mod;
use vstd::prelude::*;

use crate::error::VmError;
use crate::trit::Trit;
use crate::word::{
    half3, lemma_to_trits_len, lemma_to_trits_wrap, lemma_val_to_trits, lemma_wrap_shift,
    lemma_wrap_unique, pow3, to_trits, trits_val, Word,
};

verus! {

/// The instruction set.
#[derive(Debug, Copy, Clone, PartialEq, Eq, Structural)]
pub enum Opcode {
    NOP,
    ADD,
    ADDI,
    SUB,
    SUBI,
    LDW,
    STW,
    JMP,
    CALL,
    RET,
    BRZ,
    HALT,
}

/// The integer tag of each opcode in the instruction word.
pub open spec fn opcode_code(op: Opcode) -> int {
    match op {
        Opcode::NOP => 0,
        Opcode::ADD => 1,
        Opcode::ADDI => 2,
        Opcode::SUB => 3,
        Opcode::SUBI => 4,
        Opcode::LDW => 5,
        Opcode::STW => 6,
        Opcode::JMP => 7,
        Opcode::CALL => 8,
        Opcode::RET => 9,
        Opcode::BRZ => 10,
        Opcode::HALT => 63,
    }
}

/// The opcode with tag `c`, if any.
pub open spec fn opcode_of_code(c: int) -> Option<Opcode> {
    if c == 0 {
        Some(Opcode::NOP)
    } else if c == 1 {
        Some(Opcode::ADD)
    } else if c == 2 {
        Some(Opcode::ADDI)
    } else if c == 3 {
        Some(Opcode::SUB)
    } else if c == 4 {
        Some(Opcode::SUBI)
    } else if c == 5 {
        Some(Opcode::LDW)
    } else if c == 6 {
        Some(Opcode::STW)
    } else if c == 7 {
        Some(Opcode::JMP)
    } else if c == 8 {
        Some(Opcode::CALL)
    } else if c == 9 {
        Some(Opcode::RET)
    } else if c == 10 {
        Some(Opcode::BRZ)
    } else if c == 63 {
        Some(Opcode::HALT)
    } else {
        None
    }
}

impl Opcode {
    /// The integer tag of the opcode.
    pub fn code(self) -> (r: i64)
        ensures
            r as int == opcode_code(self),
    {
        match self {
            Opcode::NOP => 0,
            Opcode::ADD => 1,
            Opcode::ADDI => 2,
            Opcode::SUB => 3,
            Opcode::SUBI => 4,
            Opcode::LDW => 5,
            Opcode::STW => 6,
            Opcode::JMP => 7,
            Opcode::CALL => 8,
            Opcode::RET => 9,
            Opcode::BRZ => 10,
            Opcode::HALT => 63,
        }
    }

    /// The opcode with tag `c`, if any.
    pub fn from_code(c: i64) -> (r: Option<Opcode>)
        ensures
            r == opcode_of_code(c as int),
    {
        match c {
            0 => Some(Opcode::NOP),
            1 => Some(Opcode::ADD),
            2 => Some(Opcode::ADDI),
            3 => Some(Opcode::SUB),
            4 => Some(Opcode::SUBI),
            5 => Some(Opcode::LDW),
            6 => Some(Opcode::STW),
            7 => Some(Opcode::JMP),
            8 => Some(Opcode::CALL),
            9 => Some(Opcode::RET),
            10 => Some(Opcode::BRZ),
            63 => Some(Opcode::HALT),
            _ => None,
        }
    }
}

/// A decoded instruction.
#[derive(Debug, Copy, Clone, PartialEq, Eq, Structural)]
pub struct Instruction {
    pub opcode: Opcode,
    /// Destination register index.
    pub rd: usize,
    /// First source register index.
    pub rs1: usize,
    /// Second source register index.
    pub rs2: usize,
    /// Signed immediate or offset, 12 trits wide in the instruction word.
    pub imm: i64,
}

impl Default for Instruction {
    fn default() -> (r: Instruction)
        ensures
            r == (Instruction { opcode: Opcode::NOP, rd: 0, rs1: 0, rs2: 0, imm: 0 }),
    {
        Instruction { opcode: Opcode::NOP, rd: 0, rs1: 0, rs2: 0, imm: 0 }
    }
}

/// The instruction word of `i`, least significant trit first: 12 trits of
/// immediate, then 3 each of rs2, rs1 and rd, then 6 of opcode. Each field
/// keeps only its low trits.
pub open spec fn encode_spec(i: Instruction) -> Seq<Trit> {
    to_trits(i.imm as int, 12) + to_trits(i.rs2 as int, 3) + to_trits(i.rs1 as int, 3) + to_trits(
        i.rd as int,
        3,
    ) + to_trits(opcode_code(i.opcode), 6)
}

/// The value of the trits `lo..hi` of `w`.
pub open spec fn field(w: Seq<Trit>, lo: int, hi: int) -> int {
    trits_val(w.subrange(lo, hi))
}

/// Decoding an instruction word: the register fields must lie in [0, 26],
/// then the opcode field must name an opcode.
pub open spec fn decode_spec(w: Seq<Trit>) -> Result<Instruction, VmError> {
    let op = field(w, 21, 27);
    let rd = field(w, 18, 21);
    let rs1 = field(w, 15, 18);
    let rs2 = field(w, 12, 15);
    let imm = field(w, 0, 12);
    if !(0 <= rd <= 26 && 0 <= rs1 <= 26 && 0 <= rs2 <= 26) {
        Err(VmError::InvalidRegister(rd as i64, rs1 as i64, rs2 as i64))
    } else {
        match opcode_of_code(op) {
            Some(o) => Ok(
                Instruction {
                    opcode: o,
                    rd: rd as usize,
                    rs1: rs1 as usize,
                    rs2: rs2 as usize,
                    imm: imm as i64,
                },
            ),
            None => Err(VmError::UnknownOpcode(op as i64)),
        }
    }
}

/// The low `k` trits of `n` do not change when a multiple of `3^k` is added.
proof fn lemma_to_trits_shift(n: int, k: nat, q: int)
    ensures
        to_trits(n + pow3(k) * q, k) == to_trits(n, k),
{
    lemma_wrap_shift(n, k, q);
    lemma_to_trits_wrap(n, k);
    lemma_to_trits_wrap(n + pow3(k) * q, k);
}

/// The three-trit field of a register index.
fn register_field(r: usize) -> (t: Vec<Trit>)
    ensures
        t@ == to_trits(r as int, 3),
        t@.len() == 3,
{
    let small = (r % 27) as i64;
    proof {
        reveal_with_fuel(pow3, 4);
        lemma_fundamental_div_mod(r as int, 27);
        lemma_to_trits_shift(small as int, 3, (r / 27) as int);
    }
    crate::word::i64_to_trits_fixed_size(small, 3)
}

/// Packs an instruction into its 27-trit word.
pub fn encode_instruction(inst: &Instruction) -> (r: Word)
    ensures
        r@ == encode_spec(*inst),
{
    let mut word: Word = [Trit::Z; 27];
    let imm_trits = crate::word::i64_to_trits_fixed_size(inst.imm, 12);
    let rs2_trits = register_field(inst.rs2);
    let rs1_trits = register_field(inst.rs1);
    let rd_trits = register_field(inst.rd);
    let opcode_trits = crate::word::i64_to_trits_fixed_size(inst.opcode.code(), 6);
    let mut i: usize = 0;
    while i < 27
        invariant
            0 <= i <= 27,
            imm_trits@.len() == 12,
            rs2_trits@.len() == 3,
            rs1_trits@.len() == 3,
            rd_trits@.len() == 3,
            opcode_trits@.len() == 6,
            forall|j: int|
                0 <= j < i ==> word@[j] == (imm_trits@ + rs2_trits@ + rs1_trits@ + rd_trits@
                    + opcode_trits@)[j],
        decreases 27 - i,
    {
        let t = if i < 12 {
            imm_trits[i]
        } else if i < 15 {
            rs2_trits[i - 12]
        } else if i < 18 {
            rs1_trits[i - 15]
        } else if i < 21 {
            rd_trits[i - 18]
        } else {
            opcode_trits[i - 21]
        };
        word[i] = t;
        i = i + 1;
    }
    assert(word@ =~= encode_spec(*inst));
    word
}

/// A field whose value lies in its balanced range decodes back to that value.
proof fn lemma_field_round_trip(n: int, k: nat)
    requires
        -half3(k) <= n <= half3(k),
    ensures
        trits_val(to_trits(n, k)) == n,
        to_trits(n, k).len() == k,
{
    lemma_val_to_trits(n, k);
    lemma_wrap_unique(n, k, n, 0);
    lemma_to_trits_len(n, k);
}

/// Decoding the encoding of an instruction gives the instruction back when
/// every register index fits the three-trit field (0 to 13) and the
/// immediate fits twelve trits.
pub proof fn law_decode_encode(i: Instruction)
    requires
        i.rd <= 13,
        i.rs1 <= 13,
        i.rs2 <= 13,
        -265720 <= i.imm <= 265720,
    ensures
        decode_spec(encode_spec(i)) == Ok::<Instruction, VmError>(i),
{
    reveal_with_fuel(pow3, 13);
    lemma_field_round_trip(i.imm as int, 12);
    lemma_field_round_trip(i.rs2 as int, 3);
    lemma_field_round_trip(i.rs1 as int, 3);
    lemma_field_round_trip(i.rd as int, 3);
    lemma_field_round_trip(opcode_code(i.opcode), 6);
    let w = encode_spec(i);
    assert(w.subrange(0, 12) =~= to_trits(i.imm as int, 12));
    assert(w.subrange(12, 15) =~= to_trits(i.rs2 as int, 3));
    assert(w.subrange(15, 18) =~= to_trits(i.rs1 as int, 3));
    assert(w.subrange(18, 21) =~= to_trits(i.rd as int, 3));
    assert(w.subrange(21, 27) =~= to_trits(opcode_code(i.opcode), 6));
}

} // verus!
