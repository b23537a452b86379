use vstd::arithmetic::div_mod::{
    lemma_fundamental_div_mod, lemma_fundamental_div_mod_converse, lemma_mod_bound,
};
use vstd::prelude::*;

use crate::cpu::{byte_trit, has_bad_byte, is_trit_byte, load_error, loaded_memory, MEMORY_TRYTES};
use crate::isa::{encode_instruction, encode_spec, opcode_code, Instruction};
use crate::trit::Trit;
use crate::word::{lemma_to_trits_len, Word};

verus! {

/// The byte that stands for a trit in a program binary: its value as a
/// signed byte.
pub open spec fn trit_byte(t: Trit) -> u8 {
    match t {
        Trit::N => 0xff,
        Trit::Z => 0,
        Trit::P => 1,
    }
}

/// The bytes of a trit sequence, one per trit, lowest trit first.
pub open spec fn raw_bytes(w: Seq<Trit>) -> Seq<u8> {
    w.map_values(|t: Trit| trit_byte(t))
}

/// The binary of a program: the bytes of each instruction word in turn.
pub open spec fn program_binary(p: Seq<Instruction>) -> Seq<u8>
    decreases p.len(),
{
    if p.len() == 0 {
        Seq::empty()
    } else {
        program_binary(p.drop_last()) + raw_bytes(encode_spec(p.last()))
    }
}

/// The bytes of a word, one per trit, lowest trit first.
pub fn word_to_raw_bytes(word: &Word) -> (r: Vec<u8>)
    ensures
        r@ == raw_bytes(word@),
{
    let mut bytes: Vec<u8> = Vec::new();
    let mut i: usize = 0;
    while i < 27
        invariant
            0 <= i <= 27,
            bytes@ == raw_bytes(word@.subrange(0, i as int)),
        decreases 27 - i,
    {
        let v = word[i].to_i8();
        let b: u8 = if v < 0 {
            0xff
        } else {
            v as u8
        };
        let ghost prev = bytes@;
        bytes.push(b);
        proof {
            assert(b == trit_byte(word@[i as int]));
            assert(raw_bytes(word@.subrange(0, i + 1)) =~= prev.push(b));
        }
        i = i + 1;
    }
    assert(word@.subrange(0, 27) =~= word@);
    bytes
}

/// Assembles a program into its binary: 27 bytes per instruction.
pub fn assemble(program: &Vec<Instruction>) -> (r: Vec<u8>)
    ensures
        r@ == program_binary(program@),
        r@.len() == 27 * program@.len(),
{
    let mut out: Vec<u8> = Vec::new();
    let mut i: usize = 0;
    assert(program@.subrange(0, 0) =~= Seq::<Instruction>::empty());
    while i < program.len()
        invariant
            i <= program@.len(),
            out@ == program_binary(program@.subrange(0, i as int)),
            out@.len() == 27 * i,
        decreases program@.len() - i,
    {
        let word = encode_instruction(&program[i]);
        let raw = word_to_raw_bytes(&word);
        let ghost prev = out@;
        let mut j: usize = 0;
        while j < raw.len()
            invariant
                j <= raw@.len(),
                raw@.len() == 27,
                out@ == prev + raw@.subrange(0, j as int),
            decreases raw@.len() - j,
        {
            out.push(raw[j]);
            j = j + 1;
            assert(out@ =~= prev + raw@.subrange(0, j as int));
        }
        proof {
            let p = program@.subrange(0, i + 1);
            assert(p.drop_last() =~= program@.subrange(0, i as int));
            assert(raw@.subrange(0, 27) =~= raw@);
        }
        i = i + 1;
    }
    assert(program@.subrange(0, program@.len() as int) =~= program@);
    out
}

/// The binary of a program holds, at `27 * k + j`, the byte of trit `j` of
/// instruction `k`.
proof fn lemma_program_binary_index(p: Seq<Instruction>)
    ensures
        program_binary(p).len() == 27 * p.len(),
        forall|k: int, j: int|
            0 <= k < p.len() && 0 <= j < 27 ==> #[trigger] program_binary(p)[27 * k + j]
                == trit_byte(encode_spec(p[k])[j]),
    decreases p.len(),
{
    if p.len() > 0 {
        let q = p.drop_last();
        lemma_program_binary_index(q);
        lemma_encode_len(p.last());
        assert forall|k: int, j: int| 0 <= k < p.len() && 0 <= j < 27 implies #[trigger] program_binary(
            p,
        )[27 * k + j] == trit_byte(encode_spec(p[k])[j]) by {
            if k < q.len() {
                assert(p[k] == q[k]);
                assert(program_binary(q)[27 * k + j] == trit_byte(encode_spec(q[k])[j]));
            }
        }
    }
}

/// Every instruction word is 27 trits long.
proof fn lemma_encode_len(i: Instruction)
    ensures
        encode_spec(i).len() == 27,
{
    lemma_to_trits_len(i.imm as int, 12);
    lemma_to_trits_len(i.rs2 as int, 3);
    lemma_to_trits_len(i.rs1 as int, 3);
    lemma_to_trits_len(i.rd as int, 3);
    lemma_to_trits_len(opcode_code(i.opcode), 6);
}

/// The byte of a trit stands for that trit.
proof fn lemma_trit_byte(t: Trit)
    ensures
        is_trit_byte(trit_byte(t)),
        byte_trit(trit_byte(t)) == t,
{
    assert((0xffu8 as i8) == -1i8) by (bit_vector);
}

/// Tryte `3 * k + d` of the loaded binary holds trits `9 * d .. 9 * d + 9`
/// of instruction `k`.
proof fn lemma_loaded_tryte(mem: Seq<Seq<Trit>>, p: Seq<Instruction>, k: int, d: int)
    requires
        mem.len() == MEMORY_TRYTES,
        27 * p.len() <= 9 * MEMORY_TRYTES,
        0 <= k < p.len(),
        0 <= d < 3,
    ensures
        loaded_memory(mem, program_binary(p))[3 * k + d] == encode_spec(p[k]).subrange(
            9 * d,
            9 * d + 9,
        ),
{
    let b = program_binary(p);
    lemma_program_binary_index(p);
    lemma_encode_len(p[k]);
    lemma_fundamental_div_mod_converse(b.len() as int, 9, 3 * p.len() as int, 0);
    let m = loaded_memory(mem, b);
    let w = encode_spec(p[k]);
    assert forall|j: int| 0 <= j < 9 implies #[trigger] m[3 * k + d][j] == w.subrange(
        9 * d,
        9 * d + 9,
    )[j] by {
        assert(9 * (3 * k + d) + j == 27 * k + (9 * d + j));
        lemma_trit_byte(w[9 * d + j]);
    }
    assert(m[3 * k + d] =~= w.subrange(9 * d, 9 * d + 9));
}

/// Every byte of an assembled binary stands for a trit.
proof fn lemma_binary_bytes(p: Seq<Instruction>)
    ensures
        forall|i: int| 0 <= i < program_binary(p).len() ==> is_trit_byte(#[trigger] program_binary(p)[i]),
{
    let b = program_binary(p);
    lemma_program_binary_index(p);
    assert forall|i: int| 0 <= i < b.len() implies is_trit_byte(#[trigger] b[i]) by {
        lemma_fundamental_div_mod(i, 27);
        lemma_mod_bound(i, 27);
        let kk = i / 27;
        let j = i % 27;
        assert(b[27 * kk + j] == trit_byte(encode_spec(p[kk])[j]));
        lemma_trit_byte(encode_spec(p[kk])[j]);
    }
}

/// The assembler and the loader agree: a program that fits in memory loads
/// without error, and the three trytes from `3 * k` on hold the word of
/// instruction `k`.
pub proof fn law_load_assembled(mem: Seq<Seq<Trit>>, p: Seq<Instruction>, k: int)
    requires
        mem.len() == MEMORY_TRYTES,
        27 * p.len() <= 9 * MEMORY_TRYTES,
        0 <= k < p.len(),
    ensures
        load_error(program_binary(p)) is None,
        ({
            let m = loaded_memory(mem, program_binary(p));
            m[3 * k] + m[3 * k + 1] + m[3 * k + 2] == encode_spec(p[k])
        }),
{
    let b = program_binary(p);
    lemma_program_binary_index(p);
    lemma_encode_len(p[k]);
    lemma_binary_bytes(p);
    lemma_fundamental_div_mod_converse(b.len() as int, 9, 3 * p.len() as int, 0);
    assert(!has_bad_byte(b));
    lemma_loaded_tryte(mem, p, k, 0);
    lemma_loaded_tryte(mem, p, k, 1);
    lemma_loaded_tryte(mem, p, k, 2);
    let m = loaded_memory(mem, b);
    let w = encode_spec(p[k]);
    assert(m[3 * k] + m[3 * k + 1] + m[3 * k + 2] =~= w);
}

} // verus!
