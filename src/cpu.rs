use vstd::prelude::*;

use crate::error::VmError;
use crate::isa::{decode_spec, Instruction, Opcode};
use crate::trit::{trit_glyph, trit_of, Trit};
use crate::word::{
    add_words, i64_to_word, lemma_add_word_of, lemma_to_trits_len, lemma_trit_of_val, neg_word,
    trits_to_i64, trits_val, word_add, word_neg, word_of, word_to_i64, zero_word, Tryte, Word,
};

verus! {

/// Number of trytes in memory: `3^9`.
pub const MEMORY_TRYTES: usize = 19683;

/// Index of the link register, written by CALL and read by RET.
pub const LINK_REGISTER: usize = 26;

/// The state of the machine: 27 registers, the program counter and memory.
pub struct Cpu {
    gpr: [Word; 27],
    pc: Word,
    memory: Vec<Tryte>,
}

/// The abstract state of a `Cpu`: each register and each tryte as a trit
/// sequence, least significant trit first.
pub struct CpuView {
    pub regs: Seq<Seq<Trit>>,
    pub pc: Seq<Trit>,
    pub mem: Seq<Seq<Trit>>,
}

impl View for Cpu {
    type V = CpuView;

    closed spec fn view(&self) -> CpuView {
        CpuView {
            regs: Seq::new(27, |i: int| self.gpr@[i]@),
            pc: self.pc@,
            mem: Seq::new(self.memory@.len(), |i: int| self.memory@[i]@),
        }
    }
}

/// The shape every state keeps: 27 words of registers with R0 all zero, a
/// 27-trit program counter and `MEMORY_TRYTES` trytes of 9 trits.
pub open spec fn state_wf(s: CpuView) -> bool {
    &&& s.regs.len() == 27
    &&& forall|i: int| 0 <= i < 27 ==> (#[trigger] s.regs[i]).len() == 27
    &&& s.regs[0] == zero_word()
    &&& s.pc.len() == 27
    &&& s.mem.len() == MEMORY_TRYTES
    &&& forall|i: int| 0 <= i < s.mem.len() ==> (#[trigger] s.mem[i]).len() == 9
}

/// The program counter as an integer.
pub open spec fn pc_val(s: CpuView) -> int {
    trits_val(s.pc)
}

/// The word read from the three trytes at `addr`.
pub open spec fn load_word(s: CpuView, addr: int) -> Seq<Trit> {
    s.mem[addr] + s.mem[addr + 1] + s.mem[addr + 2]
}

/// Fetching the instruction word at the program counter; fails unless the
/// three trytes lie in memory.
pub open spec fn fetch_spec(s: CpuView) -> Result<Seq<Trit>, VmError> {
    let p = pc_val(s);
    if p < 0 || p + 2 >= MEMORY_TRYTES {
        Err(VmError::PcOutOfRange(p as i64))
    } else {
        Ok(load_word(s, p))
    }
}

/// The address of the instruction after the current one.
pub open spec fn next_pc_spec(s: CpuView) -> Seq<Trit> {
    word_of(pc_val(s) + 3)
}

/// `s` with the program counter set to `w`.
pub open spec fn with_pc(s: CpuView, w: Seq<Trit>) -> CpuView {
    CpuView { pc: w, ..s }
}

/// `s` with register `rd` set to `w`; a write to R0 is dropped.
pub open spec fn set_reg(s: CpuView, rd: int, w: Seq<Trit>) -> CpuView {
    if rd == 0 {
        s
    } else {
        CpuView { regs: s.regs.update(rd, w), ..s }
    }
}

/// The address `regs[rs1] + imm` of a load or store; fails unless the three
/// trytes there lie in memory.
pub open spec fn ea_spec(s: CpuView, rs1: int, imm: int) -> Result<int, VmError> {
    let e = trits_val(s.regs[rs1]) + imm;
    if e < 0 || e + 2 >= MEMORY_TRYTES {
        Err(VmError::AddressOutOfRange(e as i128))
    } else {
        Ok(e)
    }
}

/// `s` with the word `w` stored in the three trytes at `addr`.
pub open spec fn store_word(s: CpuView, addr: int, w: Seq<Trit>) -> CpuView {
    CpuView {
        mem: s.mem.update(addr, w.subrange(0, 9)).update(addr + 1, w.subrange(9, 18)).update(
            addr + 2,
            w.subrange(18, 27),
        ),
        ..s
    }
}

/// The program counter after a relative jump by `offset` trytes.
pub open spec fn jump_spec(s: CpuView, offset: int) -> Seq<Trit> {
    word_of(pc_val(s) + offset)
}

/// Executing one decoded instruction: the next state and whether to go on.
pub open spec fn execute_spec(s: CpuView, i: Instruction) -> Result<(CpuView, bool), VmError> {
    let next = next_pc_spec(s);
    let a = s.regs[i.rs1 as int];
    let b = s.regs[i.rs2 as int];
    let rd = i.rd as int;
    match i.opcode {
        Opcode::NOP => Ok((with_pc(s, next), true)),
        Opcode::HALT => Ok((s, false)),
        Opcode::ADD => Ok((with_pc(set_reg(s, rd, word_add(a, b)), next), true)),
        Opcode::ADDI => Ok((with_pc(set_reg(s, rd, word_add(a, word_of(i.imm as int))), next), true)),
        Opcode::SUB => Ok((with_pc(set_reg(s, rd, word_add(a, word_neg(b))), next), true)),
        Opcode::SUBI => Ok(
            (with_pc(set_reg(s, rd, word_add(a, word_neg(word_of(i.imm as int)))), next), true),
        ),
        Opcode::LDW => match ea_spec(s, i.rs1 as int, i.imm as int) {
            Ok(e) => Ok((with_pc(set_reg(s, rd, load_word(s, e)), next), true)),
            Err(err) => Err(err),
        },
        Opcode::STW => match ea_spec(s, i.rs1 as int, i.imm as int) {
            Ok(e) => Ok((with_pc(store_word(s, e, b), next), true)),
            Err(err) => Err(err),
        },
        Opcode::JMP => Ok((with_pc(s, jump_spec(s, i.imm as int)), true)),
        Opcode::CALL => Ok(
            (
                with_pc(set_reg(s, LINK_REGISTER as int, next), jump_spec(s, i.imm as int)),
                true,
            ),
        ),
        Opcode::RET => Ok((with_pc(s, s.regs[LINK_REGISTER as int]), true)),
        Opcode::BRZ => if a == zero_word() {
            Ok((with_pc(s, jump_spec(s, i.imm as int)), true))
        } else {
            Ok((with_pc(s, next), true))
        },
    }
}

/// One fetch, decode and execute cycle.
pub open spec fn cycle_spec(s: CpuView) -> Result<(CpuView, bool), VmError> {
    match fetch_spec(s) {
        Err(e) => Err(e),
        Ok(w) => match decode_spec(w) {
            Err(e) => Err(e),
            Ok(i) => execute_spec(s, i),
        },
    }
}

/// Running at most `n` cycles from `s`: the state reached, and `Some` of the
/// outcome when the run halted or faulted within them.
pub open spec fn run_spec(s: CpuView, n: nat) -> (CpuView, Option<Result<(), VmError>>)
    decreases n,
{
    if n == 0 {
        (s, None)
    } else {
        match cycle_spec(s) {
            Err(e) => (s, Some(Err(e))),
            Ok((t, true)) => run_spec(t, (n - 1) as nat),
            Ok((t, false)) => (t, Some(Ok(()))),
        }
    }
}

/// Executing an instruction whose register indices are in range keeps the
/// shape of the state, and R0 stays the all-zero word.
pub proof fn law_execute_keeps_zero_register(s: CpuView, i: Instruction)
    requires
        state_wf(s),
        i.rd < 27,
        i.rs1 < 27,
        i.rs2 < 27,
    ensures
        execute_spec(s, i) matches Ok((t, _)) ==> state_wf(t) && t.regs[0] == zero_word(),
{
    let a = s.regs[i.rs1 as int];
    let b = s.regs[i.rs2 as int];
    lemma_to_trits_len(pc_val(s) + 3, 27);
    lemma_to_trits_len(pc_val(s) + i.imm, 27);
    lemma_to_trits_len(trits_val(a) + trits_val(b), 27);
    lemma_to_trits_len(trits_val(a) + trits_val(word_of(i.imm as int)), 27);
    lemma_to_trits_len(trits_val(a) + trits_val(word_neg(b)), 27);
    lemma_to_trits_len(trits_val(a) + trits_val(word_neg(word_of(i.imm as int))), 27);
    if let Ok((t, _)) = execute_spec(s, i) {
        if let Ok(e) = ea_spec(s, i.rs1 as int, i.imm as int) {
            if i.opcode == Opcode::STW {
                assert forall|k: int| 0 <= k < t.mem.len() implies (#[trigger] t.mem[k]).len()
                    == 9 by {
                    if k != e && k != e + 1 && k != e + 2 {
                        assert(t.mem[k] == s.mem[k]);
                    }
                }
            }
        }
    }
}

/// A cycle that does not fault keeps the shape of the state, and R0 stays
/// the all-zero word.
pub proof fn law_cycle_keeps_zero_register(s: CpuView)
    requires
        state_wf(s),
    ensures
        cycle_spec(s) matches Ok((t, _)) ==> state_wf(t) && t.regs[0] == zero_word(),
{
    if let Ok(w) = fetch_spec(s) {
        if let Ok(i) = decode_spec(w) {
            law_execute_keeps_zero_register(s, i);
        }
    }
}

/// A program byte that stands for a trit: -1, 0 or 1 read as a signed byte.
pub open spec fn is_trit_byte(b: u8) -> bool {
    -1 <= (b as i8) <= 1
}

/// The trit a program byte stands for.
pub open spec fn byte_trit(b: u8) -> Trit {
    trit_of((b as i8) as int)
}

/// How many program bytes are read before the memory is full.
pub open spec fn load_limit(bytes: Seq<u8>) -> int {
    if bytes.len() < 9 * MEMORY_TRYTES {
        bytes.len() as int
    } else {
        9 * MEMORY_TRYTES
    }
}

/// Some byte read before the memory is full stands for no trit.
pub open spec fn has_bad_byte(bytes: Seq<u8>) -> bool {
    exists|i: int| 0 <= i < load_limit(bytes) && !is_trit_byte(#[trigger] bytes[i])
}

/// The first such byte.
pub open spec fn first_bad_byte(bytes: Seq<u8>) -> int {
    choose|i: int|
        0 <= i < load_limit(bytes) && !is_trit_byte(#[trigger] bytes[i]) && forall|j: int|
            0 <= j < i ==> is_trit_byte(#[trigger] bytes[j])
}

/// Why a program binary is refused, if it is: a length that is not a
/// multiple of 9, then a byte that stands for no trit, then a program
/// larger than memory.
pub open spec fn load_error(bytes: Seq<u8>) -> Option<VmError> {
    if bytes.len() % 9 != 0 {
        Some(VmError::MalformedProgram(bytes.len() as usize))
    } else if has_bad_byte(bytes) {
        Some(VmError::InvalidTrit(bytes[first_bad_byte(bytes)] as i8))
    } else if bytes.len() > 9 * MEMORY_TRYTES {
        Some(VmError::ProgramTooLarge)
    } else {
        None
    }
}

/// Memory after loading a program: tryte `t` holds bytes `9t..9t + 9`, the
/// lowest trit first; the trytes past the program keep their contents.
pub open spec fn loaded_memory(mem: Seq<Seq<Trit>>, bytes: Seq<u8>) -> Seq<Seq<Trit>> {
    Seq::new(
        mem.len(),
        |t: int|
            if t < bytes.len() / 9 {
                Seq::new(9, |j: int| byte_trit(bytes[9 * t + j]))
            } else {
                mem[t]
            },
    )
}

/// The word made of three trytes, the first one lowest.
fn join_trytes(t0: &Tryte, t1: &Tryte, t2: &Tryte) -> (r: Word)
    ensures
        r@ == t0@ + t1@ + t2@,
{
    let mut w: Word = [Trit::Z; 27];
    let mut i: usize = 0;
    while i < 9
        invariant
            0 <= i <= 9,
            forall|j: int| 0 <= j < i ==> w@[j] == t0@[j],
            forall|j: int| 0 <= j < i ==> w@[j + 9] == t1@[j],
            forall|j: int| 0 <= j < i ==> w@[j + 18] == t2@[j],
        decreases 9 - i,
    {
        w[i] = t0[i];
        w[i + 9] = t1[i];
        w[i + 18] = t2[i];
        i = i + 1;
    }
    assert(w@ =~= t0@ + t1@ + t2@);
    w
}

/// The tryte made of the trits `base..base + 9` of a word.
fn word_tryte(w: &Word, base: usize) -> (r: Tryte)
    requires
        base + 9 <= 27,
    ensures
        r@ == w@.subrange(base as int, base + 9),
{
    let mut t: Tryte = [Trit::Z; 9];
    let mut i: usize = 0;
    while i < 9
        invariant
            0 <= i <= 9,
            base + 9 <= 27,
            forall|j: int| 0 <= j < i ==> t@[j] == w@[base + j],
        decreases 9 - i,
    {
        t[i] = w[base + i];
        i = i + 1;
    }
    assert(t@ =~= w@.subrange(base as int, base + 9));
    t
}

impl Cpu {
    /// The invariant of the machine state.
    pub open spec fn wf(&self) -> bool {
        state_wf(self@)
    }

    /// A machine with every register, the program counter and all of memory
    /// zero.
    pub fn new() -> (r: Cpu)
        ensures
            r.wf(),
            forall|i: int| 0 <= i < 27 ==> #[trigger] r@.regs[i] == zero_word(),
            r@.pc == zero_word(),
            forall|i: int| 0 <= i < MEMORY_TRYTES ==> #[trigger] r@.mem[i] == Seq::new(
                9,
                |j: int| Trit::Z,
            ),
    {
        let memory: Vec<Tryte> = vec![[Trit::Z; 9]; MEMORY_TRYTES];
        let r = Cpu { gpr: [[Trit::Z; 27]; 27], pc: [Trit::Z; 27], memory };
        assert(r@.regs[0] =~= zero_word());
        assert forall|i: int| 0 <= i < 27 implies #[trigger] r@.regs[i] == zero_word() by {
            assert(r@.regs[i] =~= zero_word());
        }
        assert(r@.pc =~= zero_word());
        assert forall|i: int| 0 <= i < MEMORY_TRYTES implies #[trigger] r@.mem[i] == Seq::new(
            9,
            |j: int| Trit::Z,
        ) by {
            assert(r@.mem[i] =~= Seq::new(9, |j: int| Trit::Z));
        }
        r
    }

    /// The trit a program byte stands for; fails with `InvalidTrit` unless
    /// the byte, read as signed, is -1, 0 or 1.
    fn byte_to_trit(byte: u8) -> (r: Result<Trit, VmError>)
        ensures
            r is Ok <==> is_trit_byte(byte),
            r matches Ok(t) ==> t == byte_trit(byte),
            r matches Err(e) ==> e == VmError::InvalidTrit(byte as i8),
    {
        let val = byte as i8;
        match Trit::from_i8(val) {
            Ok(t) => {
                proof {
                    lemma_trit_of_val(t);
                }
                Ok(t)
            },
            Err(_) => Err(VmError::InvalidTrit(val)),
        }
    }

    /// Loads a program binary, one byte per trit, into memory from tryte 0
    /// on. A refused binary changes nothing.
    pub fn load_program(&mut self, program_bytes: &[u8]) -> (r: Result<(), VmError>)
        requires
            old(self).wf(),
        ensures
            final(self).wf(),
            match load_error(program_bytes@) {
                Some(e) => r == Err::<(), VmError>(e) && final(self)@ == old(self)@,
                None => r is Ok && final(self)@ == (CpuView {
                    mem: loaded_memory(old(self)@.mem, program_bytes@),
                    ..old(self)@
                }),
            },
    {
        let trits_per_tryte: usize = 9;
        let n = program_bytes.len();
        if n % trits_per_tryte != 0 {
            return Err(VmError::MalformedProgram(n));
        }
        let limit: usize = if n < 9 * MEMORY_TRYTES {
            n
        } else {
            9 * MEMORY_TRYTES
        };
        let mut i: usize = 0;
        while i < limit
            invariant
                self.wf(),
                self@ == old(self)@,
                limit == load_limit(program_bytes@),
                limit <= n == program_bytes@.len(),
                n % 9 == 0,
                i <= limit,
                forall|j: int| 0 <= j < i ==> is_trit_byte(#[trigger] program_bytes@[j]),
            decreases limit - i,
        {
            match Self::byte_to_trit(program_bytes[i]) {
                Ok(_) => {},
                Err(e) => {
                    proof {
                        let bytes = program_bytes@;
                        let w = i as int;
                        assert(0 <= w < load_limit(bytes) && !is_trit_byte(bytes[w]) && forall|j: int|
                            0 <= j < w ==> is_trit_byte(#[trigger] bytes[j]));
                        assert(has_bad_byte(bytes));
                        let k = first_bad_byte(bytes);
                        assert(0 <= k < load_limit(bytes) && !is_trit_byte(bytes[k]) && forall|j: int|
                            0 <= j < k ==> is_trit_byte(#[trigger] bytes[j]));
                        if k < w {
                            assert(is_trit_byte(bytes[k]));
                        } else if k > w {
                            assert(is_trit_byte(bytes[w]));
                        }
                        assert(k == w);
                    }
                    return Err(e);
                },
            }
            i = i + 1;
        }
        if n > 9 * MEMORY_TRYTES {
            return Err(VmError::ProgramTooLarge);
        }
        let trytes = n / trits_per_tryte;
        let mut t: usize = 0;
        while t < trytes
            invariant
                trytes == program_bytes@.len() / 9,
                program_bytes@.len() <= 9 * MEMORY_TRYTES,
                forall|j: int| 0 <= j < program_bytes@.len() ==> is_trit_byte(#[trigger] program_bytes@[j]),
                self.gpr == old(self).gpr,
                self.pc == old(self).pc,
                self.memory@.len() == MEMORY_TRYTES,
                old(self).memory@.len() == MEMORY_TRYTES,
                old(self).wf(),
                t <= trytes,
                forall|k: int|
                    0 <= k < t ==> (#[trigger] self.memory@[k])@ == Seq::new(
                        9,
                        |j: int| byte_trit(program_bytes@[9 * k + j]),
                    ),
                forall|k: int| t <= k < MEMORY_TRYTES ==> #[trigger] self.memory@[k] == old(self).memory@[k],
            decreases trytes - t,
        {
            let mut tryte: Tryte = [Trit::Z; 9];
            let mut j: usize = 0;
            while j < 9
                invariant
                    t < trytes,
                    trytes == program_bytes@.len() / 9,
                    program_bytes@.len() <= 9 * MEMORY_TRYTES,
                    forall|j: int| 0 <= j < program_bytes@.len() ==> is_trit_byte(#[trigger] program_bytes@[j]),
                    j <= 9,
                    forall|m: int| 0 <= m < j ==> tryte@[m] == byte_trit(program_bytes@[9 * t + m]),
                decreases 9 - j,
            {
                let trit = match Self::byte_to_trit(program_bytes[9 * t + j]) {
                    Ok(trit) => trit,
                    Err(e) => {
                        return Err(e);
                    },
                };
                tryte[j] = trit;
                j = j + 1;
            }
            assert(tryte@ =~= Seq::new(9, |m: int| byte_trit(program_bytes@[9 * t + m])));
            self.memory[t] = tryte;
            t = t + 1;
        }
        proof {
            assert(self@.mem =~= loaded_memory(old(self)@.mem, program_bytes@));
            assert(self@.regs =~= old(self)@.regs);
            assert(!has_bad_byte(program_bytes@));
        }
        Ok(())
    }

    /// The word in register `idx`.
    pub fn register(&self, idx: usize) -> (r: Word)
        requires
            idx < 27,
        ensures
            r@ == self@.regs[idx as int],
    {
        self.gpr[idx]
    }

    /// The program counter.
    pub fn pc(&self) -> (r: Word)
        ensures
            r@ == self@.pc,
    {
        self.pc
    }

    /// The tryte at `addr`.
    pub fn memory_tryte(&self, addr: usize) -> (r: Tryte)
        requires
            self.wf(),
            addr < MEMORY_TRYTES,
        ensures
            r@ == self@.mem[addr as int],
    {
        self.memory[addr]
    }

    /// The glyphs of register `idx` as a register dump shows them, most
    /// significant trit first.
    pub fn register_glyphs(&self, idx: usize) -> (r: Vec<char>)
        requires
            idx < 27,
        ensures
            r@.len() == 27,
            forall|j: int| 0 <= j < 27 ==> r@[j] == trit_glyph(self@.regs[idx as int][26 - j]),
    {
        let w = self.gpr[idx];
        let mut out: Vec<char> = Vec::new();
        let mut j: usize = 0;
        while j < 27
            invariant
                0 <= j <= 27,
                w@ == self@.regs[idx as int],
                out@.len() == j,
                forall|k: int| 0 <= k < j ==> out@[k] == trit_glyph(w@[26 - k]),
            decreases 27 - j,
        {
            out.push(w[26 - j].glyph());
            j = j + 1;
        }
        out
    }

    /// Reads the instruction word at the program counter.
    fn fetch(&self) -> (r: Result<Word, VmError>)
        requires
            self.wf(),
        ensures
            r matches Ok(w) ==> fetch_spec(self@) == Ok::<Seq<Trit>, VmError>(w@),
            r matches Err(e) ==> fetch_spec(self@) == Err::<Seq<Trit>, VmError>(e),
    {
        let pc_value = word_to_i64(&self.pc);
        if pc_value < 0 {
            return Err(VmError::PcOutOfRange(pc_value));
        }
        if pc_value + 2 >= MEMORY_TRYTES as i64 {
            return Err(VmError::PcOutOfRange(pc_value));
        }
        let pc_address = pc_value as usize;
        let w = join_trytes(
            &self.memory[pc_address],
            &self.memory[pc_address + 1],
            &self.memory[pc_address + 2],
        );
        Ok(w)
    }

    /// Unpacks an instruction word; fails with `InvalidRegister` when a
    /// register field lies outside [0, 26], else with `UnknownOpcode` when
    /// the opcode field names no opcode.
    pub fn decode(&self, instruction_word: &Word) -> (r: Result<Instruction, VmError>)
        ensures
            r == decode_spec(instruction_word@),
            r matches Ok(i) ==> i.rd < 27 && i.rs1 < 27 && i.rs2 < 27,
    {
        let s = instruction_word.as_slice();
        let opcode_val = trits_to_i64(vstd::slice::slice_subrange(s, 21, 27));
        let rd_val = trits_to_i64(vstd::slice::slice_subrange(s, 18, 21));
        let rs1_val = trits_to_i64(vstd::slice::slice_subrange(s, 15, 18));
        let rs2_val = trits_to_i64(vstd::slice::slice_subrange(s, 12, 15));
        let imm_val = trits_to_i64(vstd::slice::slice_subrange(s, 0, 12));
        if rd_val < 0 || rd_val > 26 || rs1_val < 0 || rs1_val > 26 || rs2_val < 0 || rs2_val > 26 {
            return Err(VmError::InvalidRegister(rd_val, rs1_val, rs2_val));
        }
        let opcode = match Opcode::from_code(opcode_val) {
            Some(op) => op,
            None => {
                return Err(VmError::UnknownOpcode(opcode_val));
            },
        };
        Ok(
            Instruction {
                opcode,
                rd: rd_val as usize,
                rs1: rs1_val as usize,
                rs2: rs2_val as usize,
                imm: imm_val,
            },
        )
    }

    /// The address of the next instruction: the program counter plus 3.
    fn next_pc(&self) -> (r: Word)
        ensures
            r@ == next_pc_spec(self@),
    {
        let current_pc_value = word_to_i64(&self.pc);
        i64_to_word(current_pc_value + 3)
    }

    /// Writes `w` to register `rd_idx`, which is not R0.
    fn write_register(&mut self, rd_idx: usize, w: Word)
        requires
            old(self).wf(),
            0 < rd_idx < 27,
        ensures
            final(self)@ == set_reg(old(self)@, rd_idx as int, w@),
            final(self).wf(),
    {
        self.gpr[rd_idx] = w;
        proof {
            assert(self@.regs =~= old(self)@.regs.update(rd_idx as int, w@));
            assert(self@.mem =~= old(self)@.mem);
        }
    }

    /// ADD: `Rd = Rs1 + Rs2`, wrapping; a write to R0 is dropped.
    pub fn op_add(&mut self, rd_idx: usize, rs1_idx: usize, rs2_idx: usize)
        requires
            old(self).wf(),
            rd_idx < 27,
            rs1_idx < 27,
            rs2_idx < 27,
        ensures
            final(self)@ == set_reg(
                old(self)@,
                rd_idx as int,
                word_add(old(self)@.regs[rs1_idx as int], old(self)@.regs[rs2_idx as int]),
            ),
            final(self).wf(),
    {
        if rd_idx == 0 {
            return;
        }
        let result = add_words(&self.gpr[rs1_idx], &self.gpr[rs2_idx]);
        self.write_register(rd_idx, result);
    }

    /// ADDI: `Rd = Rs1 + imm`, wrapping; a write to R0 is dropped.
    pub fn op_addi(&mut self, rd_idx: usize, rs1_idx: usize, imm: i64)
        requires
            old(self).wf(),
            rd_idx < 27,
            rs1_idx < 27,
        ensures
            final(self)@ == set_reg(
                old(self)@,
                rd_idx as int,
                word_add(old(self)@.regs[rs1_idx as int], word_of(imm as int)),
            ),
            final(self).wf(),
    {
        if rd_idx == 0 {
            return;
        }
        let imm_word = i64_to_word(imm);
        let result = add_words(&self.gpr[rs1_idx], &imm_word);
        self.write_register(rd_idx, result);
    }

    /// SUB: `Rd = Rs1 + (-Rs2)`, wrapping; a write to R0 is dropped.
    pub fn op_sub(&mut self, rd_idx: usize, rs1_idx: usize, rs2_idx: usize)
        requires
            old(self).wf(),
            rd_idx < 27,
            rs1_idx < 27,
            rs2_idx < 27,
        ensures
            final(self)@ == set_reg(
                old(self)@,
                rd_idx as int,
                word_add(old(self)@.regs[rs1_idx as int], word_neg(old(self)@.regs[rs2_idx as int])),
            ),
            final(self).wf(),
    {
        if rd_idx == 0 {
            return;
        }
        let rs2_neg = neg_word(&self.gpr[rs2_idx]);
        let result = add_words(&self.gpr[rs1_idx], &rs2_neg);
        self.write_register(rd_idx, result);
    }

    /// SUBI: `Rd = Rs1 + (-imm)`, wrapping; a write to R0 is dropped.
    pub fn op_subi(&mut self, rd_idx: usize, rs1_idx: usize, imm: i64)
        requires
            old(self).wf(),
            rd_idx < 27,
            rs1_idx < 27,
        ensures
            final(self)@ == set_reg(
                old(self)@,
                rd_idx as int,
                word_add(old(self)@.regs[rs1_idx as int], word_neg(word_of(imm as int))),
            ),
            final(self).wf(),
    {
        if rd_idx == 0 {
            return;
        }
        let imm_word_neg = neg_word(&i64_to_word(imm));
        let result = add_words(&self.gpr[rs1_idx], &imm_word_neg);
        self.write_register(rd_idx, result);
    }

    /// The tryte address `Rs1 + imm` of a word access; fails unless the
    /// three trytes there lie in memory.
    fn calculate_effective_address(&self, rs1_idx: usize, imm: i64) -> (r: Result<usize, VmError>)
        requires
            self.wf(),
            rs1_idx < 27,
        ensures
            r matches Ok(e) ==> ea_spec(self@, rs1_idx as int, imm as int) == Ok::<int, VmError>(e as int),
            r matches Err(e) ==> ea_spec(self@, rs1_idx as int, imm as int) == Err::<int, VmError>(e),
    {
        let rs1_value = word_to_i64(&self.gpr[rs1_idx]);
        let effective_address_value: i128 = rs1_value as i128 + imm as i128;
        if effective_address_value < 0 || effective_address_value + 2 >= MEMORY_TRYTES as i128 {
            return Err(VmError::AddressOutOfRange(effective_address_value));
        }
        Ok(effective_address_value as usize)
    }

    /// LDW: `Rd = Mem[Rs1 + offset ..+ 3]`; fails when the address is out of
    /// memory, and then changes nothing. A write to R0 is dropped.
    pub fn op_ldw(&mut self, rd_idx: usize, rs1_idx: usize, offset: i64) -> (r: Result<(), VmError>)
        requires
            old(self).wf(),
            rd_idx < 27,
            rs1_idx < 27,
        ensures
            final(self).wf(),
            match ea_spec(old(self)@, rs1_idx as int, offset as int) {
                Ok(e) => r is Ok && final(self)@ == set_reg(
                    old(self)@,
                    rd_idx as int,
                    load_word(old(self)@, e),
                ),
                Err(err) => r == Err::<(), VmError>(err) && final(self)@ == old(self)@,
            },
    {
        let ea = match self.calculate_effective_address(rs1_idx, offset) {
            Ok(ea) => ea,
            Err(e) => {
                return Err(e);
            },
        };
        if rd_idx == 0 {
            return Ok(());
        }
        let loaded_word = join_trytes(&self.memory[ea], &self.memory[ea + 1], &self.memory[ea + 2]);
        self.write_register(rd_idx, loaded_word);
        Ok(())
    }

    /// STW: `Mem[Rs1 + offset ..+ 3] = Rs2`; fails when the address is out
    /// of memory, and then changes nothing.
    pub fn op_stw(&mut self, rs1_idx: usize, offset: i64, rs2_idx: usize) -> (r: Result<(), VmError>)
        requires
            old(self).wf(),
            rs1_idx < 27,
            rs2_idx < 27,
        ensures
            final(self).wf(),
            match ea_spec(old(self)@, rs1_idx as int, offset as int) {
                Ok(e) => r is Ok && final(self)@ == store_word(
                    old(self)@,
                    e,
                    old(self)@.regs[rs2_idx as int],
                ),
                Err(err) => r == Err::<(), VmError>(err) && final(self)@ == old(self)@,
            },
    {
        let ea = match self.calculate_effective_address(rs1_idx, offset) {
            Ok(ea) => ea,
            Err(e) => {
                return Err(e);
            },
        };
        let data_word = self.gpr[rs2_idx];
        let t0 = word_tryte(&data_word, 0);
        let t1 = word_tryte(&data_word, 9);
        let t2 = word_tryte(&data_word, 18);
        self.memory[ea] = t0;
        self.memory[ea + 1] = t1;
        self.memory[ea + 2] = t2;
        proof {
            let s = store_word(old(self)@, ea as int, data_word@);
            assert(self@.mem =~= s.mem);
            assert(self@.regs =~= s.regs);
        }
        Ok(())
    }

    /// JMP: the program counter moves by `offset` trytes, in word arithmetic.
    pub fn op_jmp(&mut self, offset: i64)
        requires
            old(self).wf(),
        ensures
            final(self)@ == with_pc(old(self)@, jump_spec(old(self)@, offset as int)),
            final(self).wf(),
    {
        let offset_word = i64_to_word(offset);
        self.pc = add_words(&self.pc, &offset_word);
        proof {
            lemma_add_word_of(pc_val(old(self)@), offset as int);
            assert(self@.regs =~= old(self)@.regs);
            assert(self@.mem =~= old(self)@.mem);
            lemma_to_trits_len(pc_val(old(self)@) + offset, 27);
        }
    }

    /// CALL: the link register gets the address of the next instruction,
    /// then the program counter moves by `offset` trytes.
    pub fn op_call(&mut self, offset: i64)
        requires
            old(self).wf(),
        ensures
            final(self)@ == with_pc(
                set_reg(old(self)@, LINK_REGISTER as int, next_pc_spec(old(self)@)),
                jump_spec(old(self)@, offset as int),
            ),
            final(self).wf(),
    {
        let return_address = self.next_pc();
        self.write_register(LINK_REGISTER, return_address);
        self.op_jmp(offset);
    }

    /// RET: the program counter gets the link register.
    pub fn op_ret(&mut self)
        requires
            old(self).wf(),
        ensures
            final(self)@ == with_pc(old(self)@, old(self)@.regs[LINK_REGISTER as int]),
            final(self).wf(),
    {
        self.pc = self.gpr[LINK_REGISTER];
        proof {
            assert(self@.regs =~= old(self)@.regs);
            assert(self@.mem =~= old(self)@.mem);
        }
    }

    /// BRZ: when every trit of `Rs1` is zero the program counter moves by
    /// `offset` trytes, else it goes to the next instruction.
    pub fn op_brz(&mut self, rs1_idx: usize, offset: i64)
        requires
            old(self).wf(),
            rs1_idx < 27,
        ensures
            final(self)@ == (if old(self)@.regs[rs1_idx as int] == zero_word() {
                with_pc(old(self)@, jump_spec(old(self)@, offset as int))
            } else {
                with_pc(old(self)@, next_pc_spec(old(self)@))
            }),
            final(self).wf(),
    {
        let w = self.gpr[rs1_idx];
        let mut is_zero = true;
        let mut i: usize = 0;
        while i < 27
            invariant
                0 <= i <= 27,
                is_zero <==> forall|j: int| 0 <= j < i ==> w@[j] == Trit::Z,
            decreases 27 - i,
        {
            if w[i] != Trit::Z {
                is_zero = false;
            }
            i = i + 1;
        }
        proof {
            if is_zero {
                assert(w@ =~= zero_word());
            } else {
                assert(w@ != zero_word());
            }
        }
        if is_zero {
            self.op_jmp(offset);
        } else {
            self.pc = self.next_pc();
            proof {
                assert(self@.regs =~= old(self)@.regs);
                assert(self@.mem =~= old(self)@.mem);
                lemma_to_trits_len(pc_val(old(self)@) + 3, 27);
            }
        }
    }

    /// Executes a decoded instruction: `Ok(true)` to go on, `Ok(false)` on
    /// HALT. A fault changes nothing.
    pub fn execute(&mut self, instruction: &Instruction) -> (r: Result<bool, VmError>)
        requires
            old(self).wf(),
            instruction.rd < 27,
            instruction.rs1 < 27,
            instruction.rs2 < 27,
        ensures
            final(self).wf(),
            match execute_spec(old(self)@, *instruction) {
                Ok((s, go_on)) => r == Ok::<bool, VmError>(go_on) && final(self)@ == s,
                Err(e) => r == Err::<bool, VmError>(e) && final(self)@ == old(self)@,
            },
    {
        match instruction.opcode {
            Opcode::NOP => {
                self.set_pc_next();
                Ok(true)
            },
            Opcode::HALT => Ok(false),
            Opcode::ADD => {
                self.op_add(instruction.rd, instruction.rs1, instruction.rs2);
                self.set_pc_next();
                Ok(true)
            },
            Opcode::ADDI => {
                self.op_addi(instruction.rd, instruction.rs1, instruction.imm);
                self.set_pc_next();
                Ok(true)
            },
            Opcode::SUB => {
                self.op_sub(instruction.rd, instruction.rs1, instruction.rs2);
                self.set_pc_next();
                Ok(true)
            },
            Opcode::SUBI => {
                self.op_subi(instruction.rd, instruction.rs1, instruction.imm);
                self.set_pc_next();
                Ok(true)
            },
            Opcode::LDW => {
                match self.op_ldw(instruction.rd, instruction.rs1, instruction.imm) {
                    Ok(()) => {},
                    Err(e) => {
                        return Err(e);
                    },
                }
                self.set_pc_next();
                Ok(true)
            },
            Opcode::STW => {
                match self.op_stw(instruction.rs1, instruction.imm, instruction.rs2) {
                    Ok(()) => {},
                    Err(e) => {
                        return Err(e);
                    },
                }
                self.set_pc_next();
                Ok(true)
            },
            Opcode::JMP => {
                self.op_jmp(instruction.imm);
                Ok(true)
            },
            Opcode::CALL => {
                self.op_call(instruction.imm);
                Ok(true)
            },
            Opcode::RET => {
                self.op_ret();
                Ok(true)
            },
            Opcode::BRZ => {
                self.op_brz(instruction.rs1, instruction.imm);
                Ok(true)
            },
        }
    }

    /// Moves the program counter to the next instruction.
    fn set_pc_next(&mut self)
        requires
            old(self).wf(),
        ensures
            final(self)@ == with_pc(old(self)@, next_pc_spec(old(self)@)),
            final(self).wf(),
    {
        self.pc = self.next_pc();
        proof {
            assert(self@.regs =~= old(self)@.regs);
            assert(self@.mem =~= old(self)@.mem);
        }
    }

    /// One fetch, decode and execute cycle: `Ok(true)` to go on, `Ok(false)`
    /// on HALT. A fault changes nothing.
    pub fn step(&mut self) -> (r: Result<bool, VmError>)
        requires
            old(self).wf(),
        ensures
            final(self).wf(),
            match cycle_spec(old(self)@) {
                Ok((s, go_on)) => r == Ok::<bool, VmError>(go_on) && final(self)@ == s,
                Err(e) => r == Err::<bool, VmError>(e) && final(self)@ == old(self)@,
            },
    {
        let instruction_word = match self.fetch() {
            Ok(w) => w,
            Err(e) => {
                return Err(e);
            },
        };
        let instruction = match self.decode(&instruction_word) {
            Ok(i) => i,
            Err(e) => {
                return Err(e);
            },
        };
        self.execute(&instruction)
    }

    /// Runs at most `budget` cycles: `Ok` on HALT, the fault that stopped
    /// the run, or `InstructionBudgetExceeded` when the budget ran out first.
    pub fn run_with_budget(&mut self, budget: u64) -> (r: Result<(), VmError>)
        requires
            old(self).wf(),
        ensures
            final(self).wf(),
            final(self)@ == run_spec(old(self)@, budget as nat).0,
            r == match run_spec(old(self)@, budget as nat).1 {
                Some(outcome) => outcome,
                None => Err(VmError::InstructionBudgetExceeded),
            },
    {
        let mut left = budget;
        while left > 0
            invariant
                self.wf(),
                run_spec(old(self)@, budget as nat) == run_spec(self@, left as nat),
            decreases left,
        {
            match self.step() {
                Ok(true) => {},
                Ok(false) => {
                    return Ok(());
                },
                Err(e) => {
                    return Err(e);
                },
            }
            left = left - 1;
        }
        Err(VmError::InstructionBudgetExceeded)
    }

    /// Runs until HALT or a fault. The run is cut off, with
    /// `InstructionBudgetExceeded`, after `u64::MAX` cycles.
    pub fn run(&mut self) -> (r: Result<(), VmError>)
        requires
            old(self).wf(),
        ensures
            final(self).wf(),
            final(self)@ == run_spec(old(self)@, u64::MAX as nat).0,
            r == match run_spec(old(self)@, u64::MAX as nat).1 {
                Some(outcome) => outcome,
                None => Err(VmError::InstructionBudgetExceeded),
            },
    {
        self.run_with_budget(u64::MAX)
    }
}

} // verus!
