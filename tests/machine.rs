use btern::cpu::{Cpu, MEMORY_TRYTES};
use btern::error::VmError;
use btern::isa::{encode_instruction, Instruction, Opcode};
use btern::program::{assemble, word_to_raw_bytes};
use btern::trit::Trit;
use btern::word::{i64_to_word, word_to_i64, Word};

const ZERO: Word = [Trit::Z; 27];

fn inst(opcode: Opcode, rd: usize, rs1: usize, rs2: usize, imm: i64) -> Instruction {
    Instruction { opcode, rd, rs1, rs2, imm }
}

fn halt() -> Instruction {
    inst(Opcode::HALT, 0, 0, 0, 0)
}

fn boot(program: &Vec<Instruction>) -> Cpu {
    let mut cpu = Cpu::new();
    let bytes = assemble(program);
    assert_eq!(cpu.load_program(&bytes), Ok(()));
    cpu
}

fn reg(cpu: &Cpu, i: usize) -> i64 {
    word_to_i64(&cpu.register(i))
}

#[test]
fn immediate_load_and_add() {
    let mut cpu = boot(&vec![
        inst(Opcode::ADDI, 1, 0, 0, 5),
        inst(Opcode::ADDI, 2, 0, 0, 10),
        inst(Opcode::ADD, 3, 1, 2, 0),
        halt(),
    ]);
    assert_eq!(cpu.run(), Ok(()));
    assert_eq!(reg(&cpu, 0), 0);
    assert_eq!(reg(&cpu, 1), 5);
    assert_eq!(reg(&cpu, 2), 10);
    assert_eq!(reg(&cpu, 3), 15);
    for i in 4..27 {
        assert_eq!(reg(&cpu, i), 0);
    }
    assert_eq!(word_to_i64(&cpu.pc()), 9);
}

#[test]
fn subtraction_with_sign() {
    let mut cpu = boot(&vec![
        inst(Opcode::ADDI, 1, 0, 0, 7),
        inst(Opcode::ADDI, 2, 0, 0, 20),
        inst(Opcode::SUB, 3, 1, 2, 0),
        halt(),
    ]);
    assert_eq!(cpu.run(), Ok(()));
    assert_eq!(reg(&cpu, 3), -13);
}

#[test]
fn subtract_immediate() {
    let mut cpu = boot(&vec![
        inst(Opcode::ADDI, 1, 0, 0, 100),
        inst(Opcode::SUBI, 2, 1, 0, 250),
        inst(Opcode::SUBI, 3, 0, 0, -7),
        halt(),
    ]);
    assert_eq!(cpu.run(), Ok(()));
    assert_eq!(reg(&cpu, 2), -150);
    assert_eq!(reg(&cpu, 3), 7);
}

#[test]
fn zero_register_discards_writes() {
    let mut cpu = boot(&vec![inst(Opcode::ADDI, 0, 0, 0, 42), halt()]);
    assert_eq!(cpu.run(), Ok(()));
    assert_eq!(cpu.register(0), ZERO);
}

#[test]
fn zero_register_after_every_instruction() {
    let mut cpu = boot(&vec![
        inst(Opcode::ADDI, 0, 0, 0, 42),
        inst(Opcode::ADDI, 1, 0, 0, 3),
        inst(Opcode::ADD, 0, 1, 1, 0),
        inst(Opcode::SUB, 0, 0, 1, 0),
        inst(Opcode::SUBI, 0, 1, 0, 9),
        inst(Opcode::LDW, 0, 0, 0, 0),
        halt(),
    ]);
    loop {
        let go_on = cpu.step().unwrap();
        assert_eq!(cpu.register(0), ZERO);
        if !go_on {
            break;
        }
    }
}

#[test]
fn memory_round_trip() {
    let mut cpu = boot(&vec![
        inst(Opcode::ADDI, 1, 0, 0, 100),
        inst(Opcode::ADDI, 2, 0, 0, 777),
        inst(Opcode::STW, 0, 1, 2, 0),
        inst(Opcode::LDW, 3, 1, 0, 0),
        halt(),
    ]);
    assert_eq!(cpu.run(), Ok(()));
    assert_eq!(reg(&cpu, 3), 777);
    let w = i64_to_word(777);
    assert_eq!(&cpu.memory_tryte(100)[..], &w[0..9]);
    assert_eq!(&cpu.memory_tryte(101)[..], &w[9..18]);
    assert_eq!(&cpu.memory_tryte(102)[..], &w[18..27]);
}

#[test]
fn branch_if_zero_taken_and_not_taken() {
    let mut cpu = boot(&vec![
        inst(Opcode::ADDI, 1, 0, 0, 0),
        inst(Opcode::BRZ, 0, 1, 0, 6),
        inst(Opcode::ADDI, 2, 0, 0, 99),
        inst(Opcode::ADDI, 3, 0, 0, 7),
        halt(),
    ]);
    assert_eq!(cpu.run(), Ok(()));
    assert_eq!(reg(&cpu, 2), 0);
    assert_eq!(reg(&cpu, 3), 7);

    let mut cpu = boot(&vec![
        inst(Opcode::ADDI, 1, 0, 0, 1),
        inst(Opcode::BRZ, 0, 1, 0, 6),
        inst(Opcode::ADDI, 2, 0, 0, 99),
        halt(),
    ]);
    assert_eq!(cpu.run(), Ok(()));
    assert_eq!(reg(&cpu, 2), 99);
}

#[test]
fn call_and_return() {
    let mut cpu = boot(&vec![
        inst(Opcode::CALL, 0, 0, 0, 9),
        halt(),
        inst(Opcode::NOP, 0, 0, 0, 0),
        inst(Opcode::ADDI, 4, 0, 0, 55),
        inst(Opcode::RET, 0, 0, 0, 0),
    ]);
    assert_eq!(cpu.run(), Ok(()));
    assert_eq!(reg(&cpu, 4), 55);
    assert_eq!(reg(&cpu, 26), 3);
    assert_eq!(word_to_i64(&cpu.pc()), 3);
}

#[test]
fn jump_backwards_and_forwards() {
    let mut cpu = boot(&vec![
        inst(Opcode::JMP, 0, 0, 0, 9),
        inst(Opcode::ADDI, 1, 0, 0, 1),
        halt(),
        inst(Opcode::JMP, 0, 0, 0, -6),
    ]);
    assert_eq!(cpu.run(), Ok(()));
    assert_eq!(reg(&cpu, 1), 1);
    assert_eq!(word_to_i64(&cpu.pc()), 6);
}

#[test]
fn nop_advances_without_halting() {
    let mut cpu = boot(&vec![inst(Opcode::NOP, 0, 0, 0, 0), inst(Opcode::ADDI, 1, 0, 0, 2), halt()]);
    assert_eq!(cpu.run(), Ok(()));
    assert_eq!(reg(&cpu, 1), 2);
}

#[test]
fn malformed_program_length() {
    let mut cpu = Cpu::new();
    assert_eq!(cpu.load_program(&[0u8; 10]), Err(VmError::MalformedProgram(10)));
}

#[test]
fn invalid_trit_byte() {
    let mut cpu = Cpu::new();
    let mut bytes = [0u8; 9];
    bytes[2] = 5;
    assert_eq!(cpu.load_program(&bytes), Err(VmError::InvalidTrit(5)));
    assert_eq!(cpu.memory_tryte(0), [Trit::Z; 9]);
}

#[test]
fn program_too_large() {
    let mut cpu = Cpu::new();
    let bytes = vec![0u8; 9 * MEMORY_TRYTES + 9];
    assert_eq!(cpu.load_program(&bytes), Err(VmError::ProgramTooLarge));
    let exact = vec![1u8; 9 * MEMORY_TRYTES];
    assert_eq!(cpu.load_program(&exact), Ok(()));
    assert_eq!(cpu.memory_tryte(MEMORY_TRYTES - 1), [Trit::P; 9]);
}

#[test]
fn loader_places_trits_in_order() {
    let mut cpu = Cpu::new();
    let bytes = [0xffu8, 0, 1, 1, 1, 1, 0, 0, 0xff];
    assert_eq!(cpu.load_program(&bytes), Ok(()));
    assert_eq!(
        cpu.memory_tryte(0),
        [Trit::N, Trit::Z, Trit::P, Trit::P, Trit::P, Trit::P, Trit::Z, Trit::Z, Trit::N]
    );
    assert_eq!(cpu.memory_tryte(1), [Trit::Z; 9]);
}

#[test]
fn register_index_out_of_range_at_decode() {
    let cpu = Cpu::new();
    // 14 does not fit three balanced trits and comes back as -13.
    let w = encode_instruction(&inst(Opcode::ADD, 14, 0, 0, 0));
    assert_eq!(cpu.decode(&w), Err(VmError::InvalidRegister(-13, 0, 0)));
    // 27 keeps only its low three trits, which are zero.
    let w = encode_instruction(&inst(Opcode::ADD, 27, 0, 0, 0));
    let i = cpu.decode(&w).unwrap();
    assert_eq!(i.rd, 0);
}

#[test]
fn unknown_opcode_at_decode() {
    let cpu = Cpu::new();
    let w = i64_to_word(11 * 3i64.pow(21));
    assert_eq!(cpu.decode(&w), Err(VmError::UnknownOpcode(11)));
}

#[test]
fn decode_inverts_encode() {
    let cpu = Cpu::new();
    let ops = [
        Opcode::NOP,
        Opcode::ADD,
        Opcode::ADDI,
        Opcode::SUB,
        Opcode::SUBI,
        Opcode::LDW,
        Opcode::STW,
        Opcode::JMP,
        Opcode::CALL,
        Opcode::RET,
        Opcode::BRZ,
        Opcode::HALT,
    ];
    for (k, op) in ops.iter().enumerate() {
        let i = inst(*op, k % 14, (k * 5) % 14, 13, 265720 - 48311 * k as i64);
        let d = cpu.decode(&encode_instruction(&i)).unwrap();
        assert_eq!(d.opcode, i.opcode);
        assert_eq!((d.rd, d.rs1, d.rs2, d.imm), (i.rd, i.rs1, i.rs2, i.imm));
    }
    let d = cpu.decode(&encode_instruction(&inst(Opcode::JMP, 0, 0, 0, -265720))).unwrap();
    assert_eq!(d.imm, -265720);
}

#[test]
fn immediate_truncates_to_twelve_trits() {
    let cpu = Cpu::new();
    let d = cpu.decode(&encode_instruction(&inst(Opcode::ADDI, 1, 0, 0, 265721))).unwrap();
    assert_eq!(d.imm, -265720);
}

#[test]
fn encoding_layout() {
    let w = encode_instruction(&inst(Opcode::HALT, 1, 2, 3, -1));
    assert_eq!(w[0], Trit::N);
    assert_eq!(&w[1..12], &[Trit::Z; 11]);
    assert_eq!(&w[12..15], &[Trit::Z, Trit::P, Trit::Z]);
    assert_eq!(&w[15..18], &[Trit::N, Trit::P, Trit::Z]);
    assert_eq!(&w[18..21], &[Trit::P, Trit::Z, Trit::Z]);
    // 63 = 81 - 27 + 9
    assert_eq!(&w[21..27], &[Trit::Z, Trit::Z, Trit::P, Trit::N, Trit::P, Trit::Z]);
    let d = Instruction::default();
    assert_eq!(d.opcode, Opcode::NOP);
    assert_eq!((d.rd, d.rs1, d.rs2, d.imm), (0, 0, 0, 0));
}

#[test]
fn pc_runs_off_memory() {
    // Zeroed memory decodes as NOP everywhere.
    let mut cpu = Cpu::new();
    assert_eq!(cpu.run(), Err(VmError::PcOutOfRange(MEMORY_TRYTES as i64)));
}

#[test]
fn pc_negative_faults() {
    let mut cpu = boot(&vec![inst(Opcode::JMP, 0, 0, 0, -3)]);
    assert_eq!(cpu.run(), Err(VmError::PcOutOfRange(-3)));
}

#[test]
fn address_out_of_range() {
    let mut cpu = boot(&vec![inst(Opcode::LDW, 1, 0, 0, -1), halt()]);
    assert_eq!(cpu.run(), Err(VmError::AddressOutOfRange(-1)));
    assert_eq!(word_to_i64(&cpu.pc()), 0);
    let mut cpu = boot(&vec![
        inst(Opcode::ADDI, 1, 0, 0, 19681),
        inst(Opcode::STW, 0, 1, 0, 0),
        halt(),
    ]);
    assert_eq!(cpu.run(), Err(VmError::AddressOutOfRange(19681)));
    let mut cpu = boot(&vec![inst(Opcode::ADDI, 1, 0, 0, 19680), inst(Opcode::STW, 0, 1, 1, 0), halt()]);
    assert_eq!(cpu.run(), Ok(()));
    assert_eq!(&cpu.memory_tryte(19680)[..], &i64_to_word(19680)[0..9]);
}

#[test]
fn budget_runs_out() {
    let mut cpu = boot(&vec![inst(Opcode::JMP, 0, 0, 0, 0)]);
    assert_eq!(cpu.run_with_budget(100), Err(VmError::InstructionBudgetExceeded));
    assert_eq!(word_to_i64(&cpu.pc()), 0);
}

#[test]
fn register_dump_glyphs() {
    let mut cpu = boot(&vec![inst(Opcode::ADDI, 1, 0, 0, 5), halt()]);
    assert_eq!(cpu.run(), Ok(()));
    for i in 0..27 {
        assert_eq!(cpu.register_glyphs(i).len(), 27);
    }
    let g: String = cpu.register_glyphs(1).into_iter().collect();
    assert_eq!(g, format!("{}+--", "0".repeat(24)));
}

#[test]
fn direct_operations() {
    let mut cpu = Cpu::new();
    cpu.op_addi(1, 0, 40);
    cpu.op_addi(2, 0, 2);
    cpu.op_add(3, 1, 2);
    assert_eq!(reg(&cpu, 3), 42);
    cpu.op_sub(4, 2, 1);
    assert_eq!(reg(&cpu, 4), -38);
    cpu.op_subi(5, 1, 50);
    assert_eq!(reg(&cpu, 5), -10);
    cpu.op_add(0, 1, 2);
    assert_eq!(reg(&cpu, 0), 0);
    assert_eq!(cpu.op_stw(1, 10, 3), Ok(()));
    assert_eq!(cpu.op_ldw(6, 0, 50), Ok(()));
    assert_eq!(reg(&cpu, 6), 42);
    assert_eq!(cpu.op_ldw(6, 0, -5), Err(VmError::AddressOutOfRange(-5)));
    cpu.op_call(30);
    assert_eq!(reg(&cpu, 26), 3);
    assert_eq!(word_to_i64(&cpu.pc()), 30);
    cpu.op_jmp(-10);
    assert_eq!(word_to_i64(&cpu.pc()), 20);
    cpu.op_brz(1, 100);
    assert_eq!(word_to_i64(&cpu.pc()), 23);
    cpu.op_brz(0, 100);
    assert_eq!(word_to_i64(&cpu.pc()), 123);
    cpu.op_ret();
    assert_eq!(word_to_i64(&cpu.pc()), 3);
    let r = cpu.execute(&inst(Opcode::HALT, 0, 0, 0, 0));
    assert_eq!(r, Ok(false));
}

#[test]
fn raw_bytes_of_a_word() {
    let w = i64_to_word(5);
    let bytes = word_to_raw_bytes(&w);
    assert_eq!(bytes.len(), 27);
    assert_eq!(&bytes[0..4], &[0xff, 0xff, 1, 0]);
    let program = assemble(&vec![halt(), halt()]);
    assert_eq!(program.len(), 54);
    assert_eq!(&program[27..54], &word_to_raw_bytes(&encode_instruction(&halt()))[..]);
}

#[test]
fn loaded_binary_holds_instruction_words() {
    let program = vec![inst(Opcode::ADDI, 1, 0, 0, -42), inst(Opcode::STW, 0, 3, 5, 1234), halt()];
    let cpu = boot(&program);
    for (k, i) in program.iter().enumerate() {
        let w = encode_instruction(i);
        assert_eq!(&cpu.memory_tryte(3 * k)[..], &w[0..9]);
        assert_eq!(&cpu.memory_tryte(3 * k + 1)[..], &w[9..18]);
        assert_eq!(&cpu.memory_tryte(3 * k + 2)[..], &w[18..27]);
    }
    assert_eq!(cpu.memory_tryte(9), [Trit::Z; 9]);
}
