//! The instruction encoder.  Each instruction becomes one 32-bit word with
//! fields (high to low) `opcode[31..25] imm[24..9] rm[8..6] rn[5..3] rd[2..0]`,
//! emitted as four little-endian bytes.
//!
//! When the second source or the offset operand is an immediate or an
//! address, the immediate-select bit `0b0000010` is OR-ed onto the opcode
//! base and the 16-bit value goes in the `imm` field.  No opcode base has
//! that bit set, so the OR never collides (`lemma_opcode_bases_clear_imm_bit`).
//! Note that for `ld`/`lds` at width 8 the sign-extension OR `0b0010000`
//! coincides with the width-8 opcode base itself, so the sign-extension flag
//! does not change the encoded word at that width.

use vstd::prelude::*;
use crate::nums::{i16_bits, i16_to_bits, le32, push_le32};
use crate::parser::{Instruction, InstructionView, RegImmAddr, RegImmAddrView};

verus! {

/// The `(opcode, imm, rm, rn, rd)` fields of the word encoding an
/// instruction, before packing.
pub open spec fn spec_fields(i: InstructionView) -> (u32, u32, u32, u32, u32) {
    match i {
        InstructionView::Halt => (0b0000000u32, 0u32, 0u32, 0u32, 0u32),
        InstructionView::Add(d, n, s) => arith_fields(0b1000000u32, d, n, s),
        InstructionView::Sub(d, n, s) => arith_fields(0b1000100u32, d, n, s),
        InstructionView::Mul(d, n, s) => arith_fields(0b1001000u32, d, n, s),
        InstructionView::Div(d, n, s) => arith_fields(0b1001100u32, d, n, s),
        InstructionView::Mod(d, n, s) => arith_fields(0b1010000u32, d, n, s),
        InstructionView::Asr(d, n, s) => arith_fields(0b1010100u32, d, n, s),
        InstructionView::Lsl(d, n, s) => arith_fields(0b1011000u32, d, n, s),
        InstructionView::And(d, n, s) => arith_fields(0b1011100u32, d, n, s),
        InstructionView::Orr(d, n, s) => arith_fields(0b1100000u32, d, n, s),
        InstructionView::Neg(d, s) => {
            match s {
                RegImmAddrView::Imm(num) => (
                    0b1100100u32 | 0b0000010u32,
                    i16_bits(num) as u32,
                    0u32,
                    0u32,
                    d as u32,
                ),
                RegImmAddrView::Register(r) => (0b1100100u32, 0u32, 0u32, r as u32, d as u32),
                _ => (0b1100100u32, 0u32, 0u32, 0u32, d as u32),
            }
        },
        InstructionView::Swap(a, b) => (0b1101101u32, 0u32, 0u32, b as u32, a as u32),
        InstructionView::Ld(d, s) => {
            match s {
                RegImmAddrView::Imm(num) => (
                    0b1101000u32 | 0b0000010u32,
                    i16_bits(num) as u32,
                    0u32,
                    0u32,
                    d as u32,
                ),
                RegImmAddrView::Register(r) => (0b1101000u32, 0u32, 0u32, r as u32, d as u32),
                RegImmAddrView::Address(a) => (
                    0b1101000u32 | 0b0000010u32,
                    i16_bits(a) as u32,
                    0u32,
                    0u32,
                    d as u32,
                ),
                _ => (0b1101000u32, 0u32, 0u32, 0u32, d as u32),
            }
        },
        InstructionView::LdMem(w, se, d, n, o) => {
            let base = ldmem_opcode(w, se);
            mem_fields(base, d, n, o)
        },
        InstructionView::St(w, s, n, o) => {
            let base = st_opcode(w);
            mem_fields(base, s, n, o)
        },
        InstructionView::B(t) => {
            match t {
                RegImmAddrView::Address(a) => (0b1110000u32, i16_bits(a) as u32, 0u32, 0u32, 0u32),
                _ => (0b1110000u32, 0u32, 0u32, 0u32, 0u32),
            }
        },
        InstructionView::CBZ(r, t) => {
            match t {
                RegImmAddrView::Address(a) => (
                    0b1110100u32,
                    i16_bits(a) as u32,
                    0u32,
                    r as u32,
                    0u32,
                ),
                _ => (0b1110100u32, 0u32, 0u32, r as u32, 0u32),
            }
        },
        InstructionView::CBNZ(r, t) => {
            match t {
                RegImmAddrView::Address(a) => (
                    0b1111000u32,
                    i16_bits(a) as u32,
                    0u32,
                    r as u32,
                    0u32,
                ),
                _ => (0b1111000u32, 0u32, 0u32, r as u32, 0u32),
            }
        },
    }
}

/// Fields of the three-register arithmetic/logical family.
pub open spec fn arith_fields(base: u32, d: u8, n: u8, s: RegImmAddrView) -> (
    u32,
    u32,
    u32,
    u32,
    u32,
) {
    match s {
        RegImmAddrView::Imm(num) => (
            base | 0b0000010u32,
            i16_bits(num) as u32,
            0u32,
            n as u32,
            d as u32,
        ),
        RegImmAddrView::Register(r) => (base, 0u32, r as u32, n as u32, d as u32),
        _ => (base, 0u32, 0u32, n as u32, d as u32),
    }
}

/// Fields of the memory-access forms: `rd` and `rn` carry the named
/// registers, the offset goes in `imm` or `rm`.
pub open spec fn mem_fields(base: u32, d: u8, n: u8, o: RegImmAddrView) -> (
    u32,
    u32,
    u32,
    u32,
    u32,
) {
    match o {
        RegImmAddrView::Imm(num) => (
            base | 0b0000010u32,
            i16_bits(num) as u32,
            0u32,
            n as u32,
            d as u32,
        ),
        RegImmAddrView::Register(r) => (base, 0u32, r as u32, n as u32, d as u32),
        _ => (base, 0u32, 0u32, n as u32, d as u32),
    }
}

/// Opcode base of a memory load, by width, with the sign-extension OR.
pub open spec fn ldmem_opcode(w: u8, se: bool) -> u32 {
    let base: u32 = if w == 1 {
        0b0000100u32
    } else if w == 2 {
        0b0001000u32
    } else if w == 4 {
        0b0001100u32
    } else if w == 8 {
        0b0010000u32
    } else {
        0u32
    };
    if se {
        base | 0b0010000u32
    } else {
        base
    }
}

/// Opcode base of a memory store, by width.
pub open spec fn st_opcode(w: u8) -> u32 {
    if w == 1 {
        0b0100000u32
    } else if w == 2 {
        0b0100100u32
    } else if w == 4 {
        0b0101000u32
    } else if w == 8 {
        0b0101100u32
    } else {
        0u32
    }
}

/// The packed 32-bit word encoding an instruction.
pub open spec fn encode_instr(i: InstructionView) -> u32 {
    let (opcode, imm, rm, rn, rd) = spec_fields(i);
    (opcode << 25) | (imm << 9) | (rm << 6) | (rn << 3) | rd
}

/// The little-endian byte stream encoding a whole instruction sequence.
pub open spec fn encode_all(instrs: Seq<InstructionView>) -> Seq<u8>
    decreases instrs.len(),
{
    if instrs.len() == 0 {
        Seq::empty()
    } else {
        encode_all(instrs.drop_last()) + le32(encode_instr(instrs.last()))
    }
}

/// Every instruction encodes to exactly 4 bytes: the encoded stream of `n`
/// instructions is `4 * n` bytes long.
pub proof fn lemma_encode_all_len(instrs: Seq<InstructionView>)
    ensures
        encode_all(instrs).len() == 4 * instrs.len(),
    decreases instrs.len(),
{
    if instrs.len() > 0 {
        lemma_encode_all_len(instrs.drop_last());
    }
}

/// The 4-byte slice at position `4 * k` of the encoded stream is the
/// little-endian encoding of the word of instruction `k`.
pub proof fn lemma_encode_all_at(instrs: Seq<InstructionView>, k: int)
    requires
        0 <= k < instrs.len(),
    ensures
        encode_all(instrs).subrange(4 * k, 4 * k + 4) == le32(encode_instr(instrs[k])),
    decreases instrs.len(),
{
    lemma_encode_all_len(instrs);
    if k == instrs.len() - 1 {
        lemma_encode_all_len(instrs.drop_last());
        assert(encode_all(instrs).subrange(4 * k, 4 * k + 4) =~= le32(
            encode_instr(instrs.last()),
        ));
    } else {
        lemma_encode_all_at(instrs.drop_last(), k);
        lemma_encode_all_len(instrs.drop_last());
        assert(encode_all(instrs).subrange(4 * k, 4 * k + 4) =~= encode_all(
            instrs.drop_last(),
        ).subrange(4 * k, 4 * k + 4));
    }
}

/// No opcode base has the immediate-select bit `0b0000010` set, so OR-ing
/// that bit onto a base never collides with another base.
pub proof fn lemma_opcode_bases_clear_imm_bit()
    ensures
        0b0000000u32 & 0b0000010u32 == 0,
        0b1000000u32 & 0b0000010u32 == 0,
        0b1000100u32 & 0b0000010u32 == 0,
        0b1001000u32 & 0b0000010u32 == 0,
        0b1001100u32 & 0b0000010u32 == 0,
        0b1010000u32 & 0b0000010u32 == 0,
        0b1010100u32 & 0b0000010u32 == 0,
        0b1011000u32 & 0b0000010u32 == 0,
        0b1011100u32 & 0b0000010u32 == 0,
        0b1100000u32 & 0b0000010u32 == 0,
        0b1100100u32 & 0b0000010u32 == 0,
        0b1101101u32 & 0b0000010u32 == 0,
        0b1101000u32 & 0b0000010u32 == 0,
        0b0000100u32 & 0b0000010u32 == 0,
        0b0001000u32 & 0b0000010u32 == 0,
        0b0001100u32 & 0b0000010u32 == 0,
        0b0010000u32 & 0b0000010u32 == 0,
        0b0100000u32 & 0b0000010u32 == 0,
        0b0100100u32 & 0b0000010u32 == 0,
        0b0101000u32 & 0b0000010u32 == 0,
        0b0101100u32 & 0b0000010u32 == 0,
        0b1110000u32 & 0b0000010u32 == 0,
        0b1110100u32 & 0b0000010u32 == 0,
        0b1111000u32 & 0b0000010u32 == 0,
{
    assert(0b0000000u32 & 0b0000010u32 == 0 && 0b1000000u32 & 0b0000010u32 == 0
        && 0b1000100u32 & 0b0000010u32 == 0 && 0b1001000u32 & 0b0000010u32 == 0
        && 0b1001100u32 & 0b0000010u32 == 0 && 0b1010000u32 & 0b0000010u32 == 0
        && 0b1010100u32 & 0b0000010u32 == 0 && 0b1011000u32 & 0b0000010u32 == 0
        && 0b1011100u32 & 0b0000010u32 == 0 && 0b1100000u32 & 0b0000010u32 == 0
        && 0b1100100u32 & 0b0000010u32 == 0 && 0b1101101u32 & 0b0000010u32 == 0
        && 0b1101000u32 & 0b0000010u32 == 0 && 0b0000100u32 & 0b0000010u32 == 0
        && 0b0001000u32 & 0b0000010u32 == 0 && 0b0001100u32 & 0b0000010u32 == 0
        && 0b0010000u32 & 0b0000010u32 == 0 && 0b0100000u32 & 0b0000010u32 == 0
        && 0b0100100u32 & 0b0000010u32 == 0 && 0b0101000u32 & 0b0000010u32 == 0
        && 0b0101100u32 & 0b0000010u32 == 0 && 0b1110000u32 & 0b0000010u32 == 0
        && 0b1110100u32 & 0b0000010u32 == 0 && 0b1111000u32 & 0b0000010u32 == 0)
        by (bit_vector);
}

/// Encodes one instruction into its 32-bit word.
pub fn encode_one(instr: &Instruction) -> (w: u32)
    ensures
        w == encode_instr(instr@),
{
    let mut opcode: u32 = 0b0000000;
    let mut imm: u32 = 0x0000;
    let mut rm: u32 = 0b000;
    let mut rn: u32 = 0b000;
    let mut rd: u32 = 0b000;
    match instr {
        Instruction::Halt => (),
        Instruction::Add(dst, src1, src2) => {
            opcode = 0b1000000;
            rd = *dst as u32;
            rn = *src1 as u32;
            match src2 {
                RegImmAddr::Imm(num) => {
                    opcode = opcode | 0b0000010;
                    imm = i16_to_bits(*num) as u32;
                },
                RegImmAddr::Register(r) => {
                    rm = *r as u32;
                },
                _ => (),
            }
        },
        Instruction::Sub(dst, src1, src2) => {
            opcode = 0b1000100;
            rd = *dst as u32;
            rn = *src1 as u32;
            match src2 {
                RegImmAddr::Imm(num) => {
                    opcode = opcode | 0b0000010;
                    imm = i16_to_bits(*num) as u32;
                },
                RegImmAddr::Register(r) => {
                    rm = *r as u32;
                },
                _ => (),
            }
        },
        Instruction::Mul(dst, src1, src2) => {
            opcode = 0b1001000;
            rd = *dst as u32;
            rn = *src1 as u32;
            match src2 {
                RegImmAddr::Imm(num) => {
                    opcode = opcode | 0b0000010;
                    imm = i16_to_bits(*num) as u32;
                },
                RegImmAddr::Register(r) => {
                    rm = *r as u32;
                },
                _ => (),
            }
        },
        Instruction::Div(dst, src1, src2) => {
            opcode = 0b1001100;
            rd = *dst as u32;
            rn = *src1 as u32;
            match src2 {
                RegImmAddr::Imm(num) => {
                    opcode = opcode | 0b0000010;
                    imm = i16_to_bits(*num) as u32;
                },
                RegImmAddr::Register(r) => {
                    rm = *r as u32;
                },
                _ => (),
            }
        },
        Instruction::Mod(dst, src1, src2) => {
            opcode = 0b1010000;
            rd = *dst as u32;
            rn = *src1 as u32;
            match src2 {
                RegImmAddr::Imm(num) => {
                    opcode = opcode | 0b0000010;
                    imm = i16_to_bits(*num) as u32;
                },
                RegImmAddr::Register(r) => {
                    rm = *r as u32;
                },
                _ => (),
            }
        },
        Instruction::Asr(dst, src1, src2) => {
            opcode = 0b1010100;
            rd = *dst as u32;
            rn = *src1 as u32;
            match src2 {
                RegImmAddr::Imm(num) => {
                    opcode = opcode | 0b0000010;
                    imm = i16_to_bits(*num) as u32;
                },
                RegImmAddr::Register(r) => {
                    rm = *r as u32;
                },
                _ => (),
            }
        },
        Instruction::Lsl(dst, src1, src2) => {
            opcode = 0b1011000;
            rd = *dst as u32;
            rn = *src1 as u32;
            match src2 {
                RegImmAddr::Imm(num) => {
                    opcode = opcode | 0b0000010;
                    imm = i16_to_bits(*num) as u32;
                },
                RegImmAddr::Register(r) => {
                    rm = *r as u32;
                },
                _ => (),
            }
        },
        Instruction::And(dst, src1, src2) => {
            opcode = 0b1011100;
            rd = *dst as u32;
            rn = *src1 as u32;
            match src2 {
                RegImmAddr::Imm(num) => {
                    opcode = opcode | 0b0000010;
                    imm = i16_to_bits(*num) as u32;
                },
                RegImmAddr::Register(r) => {
                    rm = *r as u32;
                },
                _ => (),
            }
        },
        Instruction::Orr(dst, src1, src2) => {
            opcode = 0b1100000;
            rd = *dst as u32;
            rn = *src1 as u32;
            match src2 {
                RegImmAddr::Imm(num) => {
                    opcode = opcode | 0b0000010;
                    imm = i16_to_bits(*num) as u32;
                },
                RegImmAddr::Register(r) => {
                    rm = *r as u32;
                },
                _ => (),
            }
        },
        Instruction::Neg(dst, src) => {
            opcode = 0b1100100;
            rd = *dst as u32;
            match src {
                RegImmAddr::Imm(num) => {
                    opcode = opcode | 0b0000010;
                    imm = i16_to_bits(*num) as u32;
                },
                RegImmAddr::Register(r) => {
                    rn = *r as u32;
                },
                _ => (),
            }
        },
        Instruction::Swap(reg1, reg2) => {
            opcode = 0b1101101;
            rd = *reg1 as u32;
            rn = *reg2 as u32;
        },
        Instruction::Ld(dst, src) => {
            opcode = 0b1101000;
            rd = *dst as u32;
            match src {
                RegImmAddr::Imm(num) => {
                    opcode = opcode | 0b0000010;
                    imm = i16_to_bits(*num) as u32;
                },
                RegImmAddr::Register(r) => {
                    rn = *r as u32;
                },
                RegImmAddr::Address(addr) => {
                    opcode = opcode | 0b0000010;
                    imm = i16_to_bits(*addr) as u32;
                },
                _ => (),
            }
        },
        Instruction::LdMem(num_bytes, sign_extend, dst, addr_reg, offset) => {
            if *num_bytes == 1 {
                opcode = 0b0000100;
            } else if *num_bytes == 2 {
                opcode = 0b0001000;
            } else if *num_bytes == 4 {
                opcode = 0b0001100;
            } else if *num_bytes == 8 {
                opcode = 0b0010000;
            }
            if *sign_extend {
                opcode = opcode | 0b0010000;
            }
            rd = *dst as u32;
            rn = *addr_reg as u32;
            match offset {
                RegImmAddr::Imm(num) => {
                    opcode = opcode | 0b0000010;
                    imm = i16_to_bits(*num) as u32;
                },
                RegImmAddr::Register(offset_reg) => {
                    rm = *offset_reg as u32;
                },
                _ => (),
            }
        },
        Instruction::St(num_bytes, src, addr_reg, offset) => {
            if *num_bytes == 1 {
                opcode = 0b0100000;
            } else if *num_bytes == 2 {
                opcode = 0b0100100;
            } else if *num_bytes == 4 {
                opcode = 0b0101000;
            } else if *num_bytes == 8 {
                opcode = 0b0101100;
            }
            rd = *src as u32;
            rn = *addr_reg as u32;
            match offset {
                RegImmAddr::Imm(num) => {
                    opcode = opcode | 0b0000010;
                    imm = i16_to_bits(*num) as u32;
                },
                RegImmAddr::Register(offset_reg) => {
                    rm = *offset_reg as u32;
                },
                _ => (),
            }
        },
        Instruction::B(addr) => {
            opcode = 0b1110000;
            match addr {
                RegImmAddr::Address(a) => {
                    imm = i16_to_bits(*a) as u32;
                },
                _ => (),
            }
        },
        Instruction::CBZ(reg, addr) => {
            opcode = 0b1110100;
            rn = *reg as u32;
            match addr {
                RegImmAddr::Address(a) => {
                    imm = i16_to_bits(*a) as u32;
                },
                _ => (),
            }
        },
        Instruction::CBNZ(reg, addr) => {
            opcode = 0b1111000;
            rn = *reg as u32;
            match addr {
                RegImmAddr::Address(a) => {
                    imm = i16_to_bits(*a) as u32;
                },
                _ => (),
            }
        },
    }
    (opcode << 25) | (imm << 9) | (rm << 6) | (rn << 3) | rd
}

/// Encodes a whole instruction list into its little-endian byte stream.
pub fn encode_instructions(instructions: &Vec<Instruction>) -> (r: Vec<u8>)
    ensures
        r@ == encode_all(instructions.deep_view()),
        r@.len() == 4 * instructions@.len(),
{
    let mut out: Vec<u8> = Vec::new();
    let n = instructions.len();
    for i in 0..n
        invariant
            n == instructions@.len(),
            out@ == encode_all(instructions.deep_view().subrange(0, i as int)),
            out@.len() == 4 * i,
    {
        let w = encode_one(&instructions[i]);
        push_le32(&mut out, w);
        proof {
            let views = instructions.deep_view();
            assert(views.subrange(0, i + 1).drop_last() =~= views.subrange(0, i as int));
            assert(views.subrange(0, i + 1).last() == instructions@[i as int]@);
        }
    }
    proof {
        assert(instructions.deep_view().subrange(0, n as int) =~= instructions.deep_view());
    }
    out
}

} // verus!
