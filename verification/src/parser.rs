//! The two-pass parser/assembler: token sequence -> symbol table + constant
//! pool + data section + intermediate instruction list (pass 1), then label
//! resolution into PC-relative 16-bit offsets (pass 2).

use vstd::prelude::*;
use vstd::pervasive::VecAdditionalExecFns;
use crate::error::{AsmError, AsmErrorView, ParseError, ParseErrorKind};
use crate::token::{DataTypeDirective, Loc, SectionDirective, Token, TokenValue, TokenView, TokenValueView};
use crate::symbols::SymbolTable;

verus! {

/// Start of the constant-pool region.
pub const CONSTANT_POOL_OFFSET: usize = 0x0000;
/// Start of the data region.
pub const DATA_OFFSET: usize = 0x40;
/// Start of the text (code) region.
pub const TEXT_OFFSET: usize = 0x80;
/// Total image upper bound.
pub const FILE_LIMIT: usize = 0x100;

/// An instruction operand.  `Unresolved` carries a label name, the PC at the
/// point of issue and the constant-pool cursor at the point of issue; it is
/// produced only in pass 1 and is gone after label resolution.
#[derive(Debug, Clone, PartialEq, Eq)]
pub enum RegImmAddr {
    Register(u8),
    Imm(i16),
    /// A PC-relative offset.
    Address(i16),
    Unresolved(Vec<u8>, usize, usize),
}

/// Mathematical model of an operand.
pub enum RegImmAddrView {
    Register(u8),
    Imm(i16),
    Address(i16),
    Unresolved(Seq<u8>, int, int),
}

impl View for RegImmAddr {
    type V = RegImmAddrView;

    open spec fn view(&self) -> RegImmAddrView {
        match self {
            RegImmAddr::Register(r) => RegImmAddrView::Register(*r),
            RegImmAddr::Imm(n) => RegImmAddrView::Imm(*n),
            RegImmAddr::Address(a) => RegImmAddrView::Address(*a),
            RegImmAddr::Unresolved(name, pc, slot) => {
                RegImmAddrView::Unresolved(name@, *pc as int, *slot as int)
            },
        }
    }
}

impl DeepView for RegImmAddr {
    type V = RegImmAddrView;

    open spec fn deep_view(&self) -> RegImmAddrView {
        self@
    }
}

/// An intermediate instruction.  Register operands are register numbers; the
/// last operand of the three-register family, the source of `Ld`, and the
/// offset of the memory-access forms are `RegImmAddr`.
#[derive(Debug, Clone, PartialEq, Eq)]
pub enum Instruction {
    Halt,
    Add(u8, u8, RegImmAddr),
    Sub(u8, u8, RegImmAddr),
    Mul(u8, u8, RegImmAddr),
    Div(u8, u8, RegImmAddr),
    Mod(u8, u8, RegImmAddr),
    Asr(u8, u8, RegImmAddr),
    Lsl(u8, u8, RegImmAddr),
    And(u8, u8, RegImmAddr),
    Orr(u8, u8, RegImmAddr),
    Neg(u8, RegImmAddr),
    Swap(u8, u8),
    Ld(u8, RegImmAddr),
    /// Width in bytes, sign extension, destination, base register, offset.
    LdMem(u8, bool, u8, u8, RegImmAddr),
    /// Width in bytes, source register, base register, offset.
    St(u8, u8, u8, RegImmAddr),
    B(RegImmAddr),
    CBZ(u8, RegImmAddr),
    CBNZ(u8, RegImmAddr),
}

/// Mathematical model of an instruction.
pub enum InstructionView {
    Halt,
    Add(u8, u8, RegImmAddrView),
    Sub(u8, u8, RegImmAddrView),
    Mul(u8, u8, RegImmAddrView),
    Div(u8, u8, RegImmAddrView),
    Mod(u8, u8, RegImmAddrView),
    Asr(u8, u8, RegImmAddrView),
    Lsl(u8, u8, RegImmAddrView),
    And(u8, u8, RegImmAddrView),
    Orr(u8, u8, RegImmAddrView),
    Neg(u8, RegImmAddrView),
    Swap(u8, u8),
    Ld(u8, RegImmAddrView),
    LdMem(u8, bool, u8, u8, RegImmAddrView),
    St(u8, u8, u8, RegImmAddrView),
    B(RegImmAddrView),
    CBZ(u8, RegImmAddrView),
    CBNZ(u8, RegImmAddrView),
}

impl View for Instruction {
    type V = InstructionView;

    open spec fn view(&self) -> InstructionView {
        match self {
            Instruction::Halt => InstructionView::Halt,
            Instruction::Add(d, n, s) => InstructionView::Add(*d, *n, s@),
            Instruction::Sub(d, n, s) => InstructionView::Sub(*d, *n, s@),
            Instruction::Mul(d, n, s) => InstructionView::Mul(*d, *n, s@),
            Instruction::Div(d, n, s) => InstructionView::Div(*d, *n, s@),
            Instruction::Mod(d, n, s) => InstructionView::Mod(*d, *n, s@),
            Instruction::Asr(d, n, s) => InstructionView::Asr(*d, *n, s@),
            Instruction::Lsl(d, n, s) => InstructionView::Lsl(*d, *n, s@),
            Instruction::And(d, n, s) => InstructionView::And(*d, *n, s@),
            Instruction::Orr(d, n, s) => InstructionView::Orr(*d, *n, s@),
            Instruction::Neg(d, s) => InstructionView::Neg(*d, s@),
            Instruction::Swap(a, b) => InstructionView::Swap(*a, *b),
            Instruction::Ld(d, s) => InstructionView::Ld(*d, s@),
            Instruction::LdMem(w, e, d, n, o) => InstructionView::LdMem(*w, *e, *d, *n, o@),
            Instruction::St(w, s, n, o) => InstructionView::St(*w, *s, *n, o@),
            Instruction::B(t) => InstructionView::B(t@),
            Instruction::CBZ(r, t) => InstructionView::CBZ(*r, t@),
            Instruction::CBNZ(r, t) => InstructionView::CBNZ(*r, t@),
        }
    }
}

impl DeepView for Instruction {
    type V = InstructionView;

    open spec fn deep_view(&self) -> InstructionView {
        self@
    }
}

/// One parsed data-section item.
#[derive(Debug, Clone, PartialEq, Eq)]
pub enum Data {
    String(Vec<u8>),
    Char(u8),
    Byte1(u8),
    Byte2(u16),
    Byte4(u32),
    Byte8(u64),
}

/// Mathematical model of a data item.
pub enum DataView {
    String(Seq<u8>),
    Char(u8),
    Byte1(u8),
    Byte2(u16),
    Byte4(u32),
    Byte8(u64),
}

impl View for Data {
    type V = DataView;

    open spec fn view(&self) -> DataView {
        match self {
            Data::String(s) => DataView::String(s@),
            Data::Char(c) => DataView::Char(*c),
            Data::Byte1(b) => DataView::Byte1(*b),
            Data::Byte2(b) => DataView::Byte2(*b),
            Data::Byte4(b) => DataView::Byte4(*b),
            Data::Byte8(b) => DataView::Byte8(*b),
        }
    }
}

impl DeepView for Data {
    type V = DataView;

    open spec fn deep_view(&self) -> DataView {
        self@
    }
}


// ---------------------------------------------------------------------------
// The assembler's mathematical state
// ---------------------------------------------------------------------------

/// The assembler state after some prefix of the token stream: the symbol
/// table in insertion order, the three byte buffers, and the intermediate
/// instruction list.  The three cursors of the concrete parser are derived:
/// the constant-pool cursor is the pool length, the data cursor is
/// `DATA_OFFSET` plus the data length, and the text cursor is `TEXT_OFFSET`
/// plus four bytes per instruction.
pub struct AsmState {
    pub symbols: Seq<(Seq<u8>, int)>,
    pub pool: Seq<u8>,
    pub data: Seq<u8>,
    pub instrs: Seq<InstructionView>,
}

/// The empty assembler state.
pub open spec fn init_state() -> AsmState {
    AsmState { symbols: Seq::empty(), pool: Seq::empty(), data: Seq::empty(), instrs: Seq::empty() }
}

/// The next free constant-pool address.
pub open spec fn cp_off(st: AsmState) -> int {
    st.pool.len() as int
}

/// The next free data-section address.
pub open spec fn ds_off(st: AsmState) -> int {
    0x40 + st.data.len() as int
}

/// The address of the next instruction.
pub open spec fn ts_off(st: AsmState) -> int {
    0x80 + 4 * st.instrs.len() as int
}

/// Appends one instruction.
pub open spec fn with_instr(st: AsmState, iv: InstructionView) -> AsmState {
    AsmState { instrs: st.instrs.push(iv), ..st }
}

/// First-match lookup in the symbol table.
pub open spec fn sym_lookup(syms: Seq<(Seq<u8>, int)>, name: Seq<u8>) -> Option<int>
    decreases syms.len(),
{
    if syms.len() == 0 {
        None
    } else if syms[0].0 == name {
        Some(syms[0].1)
    } else {
        sym_lookup(syms.skip(1), name)
    }
}

/// Whether a name is defined.
pub open spec fn sym_contains(syms: Seq<(Seq<u8>, int)>, name: Seq<u8>) -> bool {
    sym_lookup(syms, name) is Some
}

// ---------------------------------------------------------------------------
// Token-stream helpers
// ---------------------------------------------------------------------------

/// The first index at or after `i` that is not a `Whitespace` token.
pub open spec fn skip_ws(t: Seq<TokenView>, i: int) -> int
    decreases t.len() - i,
{
    if i < t.len() && t[i].value is Whitespace {
        skip_ws(t, i + 1)
    } else {
        i
    }
}

/// `skip_ws` stays in bounds and lands on a non-whitespace token.
pub proof fn lemma_skip_ws(t: Seq<TokenView>, i: int)
    requires
        0 <= i <= t.len(),
    ensures
        i <= skip_ws(t, i) <= t.len(),
        skip_ws(t, i) < t.len() ==> !(t[skip_ws(t, i)].value is Whitespace),
    decreases t.len() - i,
{
    if i < t.len() && t[i].value is Whitespace {
        lemma_skip_ws(t, i + 1);
    }
}

/// A location for reporting that the stream ended inside a statement: the
/// last token's position, or the start of the file for an empty stream.
pub open spec fn end_loc(t: Seq<TokenView>) -> Loc {
    if t.len() > 0 {
        t[t.len() - 1].loc
    } else {
        Loc { line: 1u32, col: 1u32 }
    }
}

/// The error for a stream that ends inside a statement.
pub open spec fn end_err(t: Seq<TokenView>) -> ParseError {
    ParseError { kind: ParseErrorKind::UnexpectedEnd, loc: end_loc(t) }
}

/// Reads an operand that may be a register, a 16-bit immediate or a
/// character literal, as the three-register family, `neg` and memory
/// offsets accept.  `too_big` is the error kind for an immediate beyond 16
/// bits.
pub open spec fn operand_at(t: Seq<TokenView>, j: int, too_big: ParseErrorKind) -> Result<
    RegImmAddrView,
    ParseError,
> {
    if j >= t.len() {
        Err(end_err(t))
    } else {
        match t[j].value {
            TokenValueView::Register(r) => Ok(RegImmAddrView::Register(r)),
            TokenValueView::Imm(v) => if v > 0xFFFF {
                Err(ParseError { kind: too_big, loc: t[j].loc })
            } else {
                Ok(RegImmAddrView::Imm(crate::nums::i16_of_bits(v as u16)))
            },
            TokenValueView::Char(c) => Ok(RegImmAddrView::Imm(c as i16)),
            _ => Err(
                ParseError { kind: ParseErrorKind::ExpectedRegisterOrImmediate, loc: t[j].loc },
            ),
        }
    }
}

/// Reads a register at `j`.
pub open spec fn register_at(t: Seq<TokenView>, j: int) -> Result<u8, ParseError> {
    if j >= t.len() {
        Err(end_err(t))
    } else {
        match t[j].value {
            TokenValueView::Register(r) => Ok(r),
            _ => Err(ParseError { kind: ParseErrorKind::ExpectedRegister, loc: t[j].loc }),
        }
    }
}

/// Demands a comma at `j`.
pub open spec fn comma_at(t: Seq<TokenView>, j: int) -> Result<(), ParseError> {
    if j >= t.len() {
        Err(end_err(t))
    } else if t[j].value is Comma {
        Ok(())
    } else {
        Err(ParseError { kind: ParseErrorKind::ExpectedComma, loc: t[j].loc })
    }
}

/// Ends a statement: skips whitespace from `j` and demands a newline,
/// returning the index after it.
pub open spec fn finish_stmt(t: Seq<TokenView>, j: int) -> Result<int, ParseError> {
    let k = skip_ws(t, j);
    if k >= t.len() {
        Err(end_err(t))
    } else if t[k].value is Newline {
        Ok(k + 1)
    } else {
        Err(ParseError { kind: ParseErrorKind::UnexpectedToken, loc: t[k].loc })
    }
}

// ---------------------------------------------------------------------------
// Statement parsers, pass 1
// ---------------------------------------------------------------------------

/// `halt` takes no operands.
pub open spec fn parse_halt_spec(t: Seq<TokenView>, i: int, st: AsmState) -> Result<
    (AsmState, int),
    ParseError,
> {
    match finish_stmt(t, i + 1) {
        Ok(n) => Ok((with_instr(st, InstructionView::Halt), n)),
        Err(e) => Err(e),
    }
}

/// `b label`: an unconditional branch with an unresolved target.
pub open spec fn parse_branch_spec(t: Seq<TokenView>, i: int, st: AsmState) -> Result<
    (AsmState, int),
    ParseError,
> {
    let j = skip_ws(t, i + 1);
    if j >= t.len() {
        Err(end_err(t))
    } else {
        match t[j].value {
            TokenValueView::Label(l) => {
                let iv = InstructionView::B(
                    RegImmAddrView::Unresolved(l, ts_off(st), cp_off(st)),
                );
                match finish_stmt(t, j + 1) {
                    Ok(n) => Ok((with_instr(st, iv), n)),
                    Err(e) => Err(e),
                }
            },
            _ => Err(ParseError { kind: ParseErrorKind::ExpectedLabel, loc: t[j].loc }),
        }
    }
}

/// `cbz r, label` / `cbnz r, label`.
pub open spec fn parse_cb_spec(t: Seq<TokenView>, i: int, st: AsmState, zero: bool) -> Result<
    (AsmState, int),
    ParseError,
> {
    let j1 = skip_ws(t, i + 1);
    match register_at(t, j1) {
        Err(e) => Err(e),
        Ok(r) => {
            let j2 = skip_ws(t, j1 + 1);
            match comma_at(t, j2) {
                Err(e) => Err(e),
                Ok(()) => {
                    let j3 = skip_ws(t, j2 + 1);
                    if j3 >= t.len() {
                        Err(end_err(t))
                    } else {
                        match t[j3].value {
                            TokenValueView::Label(l) => {
                                let target = RegImmAddrView::Unresolved(
                                    l,
                                    ts_off(st),
                                    cp_off(st),
                                );
                                let iv = if zero {
                                    InstructionView::CBZ(r, target)
                                } else {
                                    InstructionView::CBNZ(r, target)
                                };
                                match finish_stmt(t, j3 + 1) {
                                    Ok(n) => Ok((with_instr(st, iv), n)),
                                    Err(e) => Err(e),
                                }
                            },
                            _ => Err(
                                ParseError {
                                    kind: ParseErrorKind::ExpectedLabel,
                                    loc: t[j3].loc,
                                },
                            ),
                        }
                    }
                },
            }
        },
    }
}

/// `neg rd, (rn | imm | char)`.
pub open spec fn parse_neg_spec(t: Seq<TokenView>, i: int, st: AsmState) -> Result<
    (AsmState, int),
    ParseError,
> {
    let j1 = skip_ws(t, i + 1);
    match register_at(t, j1) {
        Err(e) => Err(e),
        Ok(rd) => {
            let j2 = skip_ws(t, j1 + 1);
            match comma_at(t, j2) {
                Err(e) => Err(e),
                Ok(()) => {
                    let j3 = skip_ws(t, j2 + 1);
                    match operand_at(t, j3, ParseErrorKind::ImmediateTooBig) {
                        Err(e) => Err(e),
                        Ok(src) => match finish_stmt(t, j3 + 1) {
                            Ok(n) => Ok((with_instr(st, InstructionView::Neg(rd, src)), n)),
                            Err(e) => Err(e),
                        },
                    }
                },
            }
        },
    }
}

/// `swap r, r`.
pub open spec fn parse_swap_spec(t: Seq<TokenView>, i: int, st: AsmState) -> Result<
    (AsmState, int),
    ParseError,
> {
    let j1 = skip_ws(t, i + 1);
    match register_at(t, j1) {
        Err(e) => Err(e),
        Ok(r1) => {
            let j2 = skip_ws(t, j1 + 1);
            match comma_at(t, j2) {
                Err(e) => Err(e),
                Ok(()) => {
                    let j3 = skip_ws(t, j2 + 1);
                    match register_at(t, j3) {
                        Err(e) => Err(e),
                        Ok(r2) => match finish_stmt(t, j3 + 1) {
                            Ok(n) => Ok((with_instr(st, InstructionView::Swap(r1, r2)), n)),
                            Err(e) => Err(e),
                        },
                    }
                },
            }
        },
    }
}

/// The instruction of the three-operand arithmetic/logical family for a
/// mnemonic token, if it belongs to the family.
pub open spec fn arith_mk(op: TokenValueView, d: u8, n: u8, s: RegImmAddrView) -> Option<
    InstructionView,
> {
    match op {
        TokenValueView::Add => Some(InstructionView::Add(d, n, s)),
        TokenValueView::Sub => Some(InstructionView::Sub(d, n, s)),
        TokenValueView::Mul => Some(InstructionView::Mul(d, n, s)),
        TokenValueView::Div => Some(InstructionView::Div(d, n, s)),
        TokenValueView::Mod => Some(InstructionView::Mod(d, n, s)),
        TokenValueView::Asr => Some(InstructionView::Asr(d, n, s)),
        TokenValueView::Lsl => Some(InstructionView::Lsl(d, n, s)),
        TokenValueView::And => Some(InstructionView::And(d, n, s)),
        TokenValueView::Orr => Some(InstructionView::Orr(d, n, s)),
        _ => None,
    }
}

/// `<op> rd, rn, (rm | imm | char)` for the three-operand family.
pub open spec fn parse_rrr_spec(t: Seq<TokenView>, i: int, st: AsmState, op: TokenValueView)
    -> Result<(AsmState, int), ParseError> {
    let j1 = skip_ws(t, i + 1);
    match register_at(t, j1) {
        Err(e) => Err(e),
        Ok(rd) => {
            let j2 = skip_ws(t, j1 + 1);
            match comma_at(t, j2) {
                Err(e) => Err(e),
                Ok(()) => {
                    let j3 = skip_ws(t, j2 + 1);
                    match register_at(t, j3) {
                        Err(e) => Err(e),
                        Ok(rn) => {
                            let j4 = skip_ws(t, j3 + 1);
                            match comma_at(t, j4) {
                                Err(e) => Err(e),
                                Ok(()) => {
                                    let j5 = skip_ws(t, j4 + 1);
                                    match operand_at(t, j5, ParseErrorKind::ImmediateTooBig) {
                                        Err(e) => Err(e),
                                        Ok(s2) => match arith_mk(op, rd, rn, s2) {
                                            None => Err(
                                                ParseError {
                                                    kind: ParseErrorKind::UnexpectedToken,
                                                    loc: t[j5].loc,
                                                },
                                            ),
                                            Some(iv) => match finish_stmt(t, j5 + 1) {
                                                Ok(n) => Ok((with_instr(st, iv), n)),
                                                Err(e) => Err(e),
                                            },
                                        },
                                    }
                                },
                            }
                        },
                    }
                },
            }
        },
    }
}

/// The memory-access form `[ rn (, rm|imm|char)? ]`; an absent offset
/// defaults to `Imm(0)`.  Returns the base register, the offset, and the
/// index after the closing bracket.
pub open spec fn parse_mem_spec(t: Seq<TokenView>, i: int) -> Result<
    ((u8, RegImmAddrView), int),
    ParseError,
> {
    let j1 = skip_ws(t, i + 1);
    match register_at(t, j1) {
        Err(e) => Err(e),
        Ok(rn) => {
            let j2 = skip_ws(t, j1 + 1);
            if j2 < t.len() && t[j2].value is Comma {
                let j3 = skip_ws(t, j2 + 1);
                match operand_at(t, j3, ParseErrorKind::OffsetTooBig) {
                    Err(e) => Err(e),
                    Ok(off) => {
                        let j4 = skip_ws(t, j3 + 1);
                        if j4 >= t.len() {
                            Err(end_err(t))
                        } else if t[j4].value is RBracket {
                            Ok(((rn, off), j4 + 1))
                        } else {
                            Err(
                                ParseError {
                                    kind: ParseErrorKind::ExpectedRBracket,
                                    loc: t[j4].loc,
                                },
                            )
                        }
                    },
                }
            } else {
                let j4 = skip_ws(t, j2);
                if j4 >= t.len() {
                    Err(end_err(t))
                } else if t[j4].value is RBracket {
                    Ok(((rn, RegImmAddrView::Imm(0i16)), j4 + 1))
                } else {
                    Err(ParseError { kind: ParseErrorKind::ExpectedRBracket, loc: t[j4].loc })
                }
            }
        },
    }
}

/// `ld`-family statements: register move, label load through the constant
/// pool, literal load through the constant pool, or memory access.
pub open spec fn parse_ld_spec(t: Seq<TokenView>, i: int, st: AsmState, w: u8, se: bool)
    -> Result<(AsmState, int), ParseError> {
    let j1 = skip_ws(t, i + 1);
    match register_at(t, j1) {
        Err(e) => Err(e),
        Ok(rd) => {
            let j2 = skip_ws(t, j1 + 1);
            match comma_at(t, j2) {
                Err(e) => Err(e),
                Ok(()) => {
                    let j3 = skip_ws(t, j2 + 1);
                    if j3 >= t.len() {
                        Err(end_err(t))
                    } else {
                        match (t[j3].value, w) {
                            (TokenValueView::Register(rn), 8u8) => {
                                let iv = InstructionView::Ld(rd, RegImmAddrView::Register(rn));
                                match finish_stmt(t, j3 + 1) {
                                    Ok(n) => Ok((with_instr(st, iv), n)),
                                    Err(e) => Err(e),
                                }
                            },
                            (TokenValueView::Label(l), 8u8) => {
                                let iv = InstructionView::Ld(
                                    rd,
                                    RegImmAddrView::Unresolved(l, ts_off(st), cp_off(st)),
                                );
                                let st2 = AsmState {
                                    pool: st.pool + crate::nums::le64(0u64),
                                    instrs: st.instrs.push(iv),
                                    ..st
                                };
                                match finish_stmt(t, j3 + 1) {
                                    Ok(n) => Ok((st2, n)),
                                    Err(e) => Err(e),
                                }
                            },
                            (TokenValueView::Imm(v), 8u8) => {
                                let iv = InstructionView::Ld(
                                    rd,
                                    RegImmAddrView::Address(
                                        crate::nums::trunc_i16(cp_off(st) - ts_off(st)),
                                    ),
                                );
                                let st2 = AsmState {
                                    pool: st.pool + crate::nums::le64(v),
                                    instrs: st.instrs.push(iv),
                                    ..st
                                };
                                match finish_stmt(t, j3 + 1) {
                                    Ok(n) => Ok((st2, n)),
                                    Err(e) => Err(e),
                                }
                            },
                            (TokenValueView::Char(c), 8u8) => {
                                let iv = InstructionView::Ld(
                                    rd,
                                    RegImmAddrView::Address(
                                        crate::nums::trunc_i16(cp_off(st) - ts_off(st)),
                                    ),
                                );
                                let st2 = AsmState {
                                    pool: st.pool + crate::nums::le64(c as u64),
                                    instrs: st.instrs.push(iv),
                                    ..st
                                };
                                match finish_stmt(t, j3 + 1) {
                                    Ok(n) => Ok((st2, n)),
                                    Err(e) => Err(e),
                                }
                            },
                            (TokenValueView::LBracket, _) => {
                                match parse_mem_spec(t, j3) {
                                    Err(e) => Err(e),
                                    Ok(((rn, off), n1)) => {
                                        let iv = InstructionView::LdMem(w, se, rd, rn, off);
                                        match finish_stmt(t, n1) {
                                            Ok(n) => Ok((with_instr(st, iv), n)),
                                            Err(e) => Err(e),
                                        }
                                    },
                                }
                            },
                            _ => Err(
                                ParseError { kind: ParseErrorKind::InvalidLd, loc: t[j3].loc },
                            ),
                        }
                    }
                },
            }
        },
    }
}

/// `st`-family statements: `st rd, [rn (, offset)?]`.
pub open spec fn parse_st_spec(t: Seq<TokenView>, i: int, st: AsmState, w: u8) -> Result<
    (AsmState, int),
    ParseError,
> {
    let j1 = skip_ws(t, i + 1);
    match register_at(t, j1) {
        Err(e) => Err(e),
        Ok(src) => {
            let j2 = skip_ws(t, j1 + 1);
            match comma_at(t, j2) {
                Err(e) => Err(e),
                Ok(()) => {
                    let j3 = skip_ws(t, j2 + 1);
                    if j3 >= t.len() {
                        Err(end_err(t))
                    } else if t[j3].value is LBracket {
                        match parse_mem_spec(t, j3) {
                            Err(e) => Err(e),
                            Ok(((rn, off), n1)) => {
                                let iv = InstructionView::St(w, src, rn, off);
                                match finish_stmt(t, n1) {
                                    Ok(n) => Ok((with_instr(st, iv), n)),
                                    Err(e) => Err(e),
                                }
                            },
                        }
                    } else {
                        Err(ParseError { kind: ParseErrorKind::InvalidSt, loc: t[j3].loc })
                    }
                },
            }
        },
    }
}


// ---------------------------------------------------------------------------
// Data-section parsing
// ---------------------------------------------------------------------------

/// What follows a data item: another item after a comma, or the end of the
/// item list (a newline, left unconsumed, or the end of the stream).
pub enum SepScan {
    More(int),
    Stop(int),
}

/// Scans the separator after a data item: whitespace is skipped, a comma
/// continues the list, a newline ends it, anything else is fatal.
pub open spec fn sep_scan(t: Seq<TokenView>, k: int) -> Result<SepScan, ParseError>
    decreases t.len() - k,
{
    if k >= t.len() {
        Ok(SepScan::Stop(k))
    } else {
        match t[k].value {
            TokenValueView::Comma => Ok(SepScan::More(k + 1)),
            TokenValueView::Whitespace => sep_scan(t, k + 1),
            TokenValueView::Newline => Ok(SepScan::Stop(k)),
            _ => Err(ParseError { kind: ParseErrorKind::UnexpectedToken, loc: t[k].loc }),
        }
    }
}

/// The separator scan never moves backwards.
pub proof fn lemma_sep_scan(t: Seq<TokenView>, k: int)
    requires
        0 <= k,
    ensures
        sep_scan(t, k) matches Ok(s) ==> match s {
            SepScan::More(n) => k < n <= t.len(),
            SepScan::Stop(n) => k <= n <= t.len() || n == k,
        },
    decreases t.len() - k,
{
    if k < t.len() && t[k].value is Whitespace {
        lemma_sep_scan(t, k + 1);
    }
}

/// The comma-separated item list after a data-type directive.  Items must
/// match the directive; immediates are checked against its range.  The list
/// ends at a newline (unconsumed), another directive, or the end of the
/// stream.
pub open spec fn parse_data_items(t: Seq<TokenView>, i: int, dt: DataTypeDirective) -> Result<
    (Seq<DataView>, int),
    ParseError,
>
    decreases t.len() - i,
{
    if i >= t.len() {
        Ok((Seq::empty(), i))
    } else {
        match t[i].value {
            TokenValueView::Whitespace => parse_data_items(t, i + 1, dt),
            TokenValueView::DataTypeDirective(_) => Ok((Seq::empty(), i)),
            TokenValueView::Imm(n) => {
                if dt is Byte1 || dt is Byte2 || dt is Byte4 || dt is Byte8 {
                    if dt is Byte1 && n > 0xFF {
                        Err(ParseError { kind: ParseErrorKind::DataTooBig, loc: t[i].loc })
                    } else if dt is Byte2 && n > 0xFFFF {
                        Err(ParseError { kind: ParseErrorKind::DataTooBig, loc: t[i].loc })
                    } else if dt is Byte4 && n > 0xFFFFFFFF {
                        Err(ParseError { kind: ParseErrorKind::DataTooBig, loc: t[i].loc })
                    } else {
                        let item = if dt is Byte1 {
                            DataView::Byte1(n as u8)
                        } else if dt is Byte2 {
                            DataView::Byte2(n as u16)
                        } else if dt is Byte4 {
                            DataView::Byte4(n as u32)
                        } else {
                            DataView::Byte8(n)
                        };
                        items_after(t, i, item, dt)
                    }
                } else {
                    Err(ParseError { kind: ParseErrorKind::UnexpectedToken, loc: t[i].loc })
                }
            },
            TokenValueView::Char(c) => {
                if dt is Char {
                    items_after(t, i, DataView::Char(c), dt)
                } else {
                    Err(ParseError { kind: ParseErrorKind::UnexpectedToken, loc: t[i].loc })
                }
            },
            TokenValueView::String(s) => {
                if dt is String {
                    items_after(t, i, DataView::String(s), dt)
                } else {
                    Err(ParseError { kind: ParseErrorKind::UnexpectedToken, loc: t[i].loc })
                }
            },
            _ => Err(ParseError { kind: ParseErrorKind::UnexpectedToken, loc: t[i].loc }),
        }
    }
}

/// Continues the item list after the item at `i`, following its separator.
pub open spec fn items_after(t: Seq<TokenView>, i: int, item: DataView, dt: DataTypeDirective)
    -> Result<(Seq<DataView>, int), ParseError>
    decreases t.len() - i, 0int,
{
    match sep_scan(t, i + 1) {
        Err(e) => Err(e),
        Ok(SepScan::Stop(k)) => Ok((seq![item], k)),
        Ok(SepScan::More(k)) => {
            if i < k <= t.len() {
                match parse_data_items(t, k, dt) {
                    Err(e) => Err(e),
                    Ok((rest, n)) => Ok((seq![item] + rest, n)),
                }
            } else {
                Err(end_err(t))
            }
        },
    }
}

/// The bytes one data item lays down: strings get a null terminator,
/// multi-byte values are little-endian.
pub open spec fn data_item_bytes(d: DataView) -> Seq<u8> {
    match d {
        DataView::String(s) => s + seq![0u8],
        DataView::Char(c) => seq![c],
        DataView::Byte1(b) => seq![b],
        DataView::Byte2(b) => crate::nums::le16(b),
        DataView::Byte4(b) => crate::nums::le32(b),
        DataView::Byte8(b) => crate::nums::le64(b),
    }
}

/// The bytes an item list lays down, in order.
pub open spec fn data_items_bytes(items: Seq<DataView>) -> Seq<u8>
    decreases items.len(),
{
    if items.len() == 0 {
        Seq::empty()
    } else {
        data_items_bytes(items.drop_last()) + data_item_bytes(items.last())
    }
}

/// A data-type directive statement: its item list appended to the data
/// section.
pub open spec fn parse_datatype_spec(t: Seq<TokenView>, i: int, st: AsmState, dt: DataTypeDirective)
    -> Result<(AsmState, int), ParseError> {
    match parse_data_items(t, i + 1, dt) {
        Err(e) => Err(e),
        Ok((items, n)) => Ok(
            (AsmState { data: st.data + data_items_bytes(items), ..st }, n),
        ),
    }
}

/// The data section: label definitions at the data cursor and data-type
/// directives, until a section directive, `Eof`, or the end of the stream.
pub open spec fn parse_data_sec(t: Seq<TokenView>, i: int, st: AsmState) -> Result<
    (AsmState, int),
    ParseError,
>
    decreases t.len() - i,
{
    if i >= t.len() {
        Ok((st, i))
    } else {
        match t[i].value {
            TokenValueView::SectionDirective(_) => Ok((st, i)),
            TokenValueView::Eof => Ok((st, i)),
            TokenValueView::Whitespace => parse_data_sec(t, i + 1, st),
            TokenValueView::Newline => parse_data_sec(t, i + 1, st),
            TokenValueView::LabelDef(l) => {
                if sym_contains(st.symbols, l) {
                    Err(ParseError { kind: ParseErrorKind::DuplicateLabel, loc: t[i].loc })
                } else {
                    parse_data_sec(
                        t,
                        i + 1,
                        AsmState { symbols: st.symbols.push((l, ds_off(st))), ..st },
                    )
                }
            },
            TokenValueView::DataTypeDirective(dt) => {
                match parse_datatype_spec(t, i, st, dt) {
                    Err(e) => Err(e),
                    Ok((st2, n)) => {
                        if i < n <= t.len() {
                            parse_data_sec(t, n, st2)
                        } else {
                            Err(end_err(t))
                        }
                    },
                }
            },
            _ => Err(ParseError { kind: ParseErrorKind::UnexpectedToken, loc: t[i].loc }),
        }
    }
}

// ---------------------------------------------------------------------------
// Text-section parsing
// ---------------------------------------------------------------------------

/// One text-section statement at `i`, which must hold a mnemonic token.
pub open spec fn parse_stmt_spec(t: Seq<TokenView>, i: int, st: AsmState) -> Result<
    (AsmState, int),
    ParseError,
> {
    match t[i].value {
        TokenValueView::Add | TokenValueView::Sub | TokenValueView::Mul | TokenValueView::Div
            | TokenValueView::Mod | TokenValueView::Asr | TokenValueView::Lsl
            | TokenValueView::And | TokenValueView::Orr => parse_rrr_spec(t, i, st, t[i].value),
        TokenValueView::Neg => parse_neg_spec(t, i, st),
        TokenValueView::Swap => parse_swap_spec(t, i, st),
        TokenValueView::Ld(w, se) => parse_ld_spec(t, i, st, w, se),
        TokenValueView::St(w) => parse_st_spec(t, i, st, w),
        TokenValueView::Halt => parse_halt_spec(t, i, st),
        TokenValueView::B => parse_branch_spec(t, i, st),
        TokenValueView::CBZ => parse_cb_spec(t, i, st, true),
        TokenValueView::CBNZ => parse_cb_spec(t, i, st, false),
        _ => Err(ParseError { kind: ParseErrorKind::UnexpectedToken, loc: t[i].loc }),
    }
}

/// The text section: label definitions at the text cursor and instruction
/// statements, until a section directive, `Eof`, or the end of the stream.
pub open spec fn parse_text_sec(t: Seq<TokenView>, i: int, st: AsmState) -> Result<
    (AsmState, int),
    ParseError,
>
    decreases t.len() - i,
{
    if i >= t.len() {
        Ok((st, i))
    } else {
        match t[i].value {
            TokenValueView::SectionDirective(_) => Ok((st, i)),
            TokenValueView::Eof => Ok((st, i)),
            TokenValueView::Whitespace => parse_text_sec(t, i + 1, st),
            TokenValueView::Newline => parse_text_sec(t, i + 1, st),
            TokenValueView::LabelDef(l) => {
                if sym_contains(st.symbols, l) {
                    Err(ParseError { kind: ParseErrorKind::DuplicateLabel, loc: t[i].loc })
                } else {
                    parse_text_sec(
                        t,
                        i + 1,
                        AsmState { symbols: st.symbols.push((l, ts_off(st))), ..st },
                    )
                }
            },
            _ => {
                match parse_stmt_spec(t, i, st) {
                    Err(e) => Err(e),
                    Ok((st2, n)) => {
                        if i < n <= t.len() {
                            parse_text_sec(t, n, st2)
                        } else {
                            Err(end_err(t))
                        }
                    },
                }
            },
        }
    }
}

// ---------------------------------------------------------------------------
// The driving pass-1 loop and pass 2
// ---------------------------------------------------------------------------

/// Pass 1: tokens are skipped until a section directive, whose section
/// parser then runs; sections may repeat and appear in either order.
pub open spec fn parse_toks(t: Seq<TokenView>, i: int, st: AsmState) -> Result<AsmState, ParseError>
    decreases t.len() - i,
{
    if i >= t.len() {
        Ok(st)
    } else {
        match t[i].value {
            TokenValueView::SectionDirective(SectionDirective::Data) => {
                match parse_data_sec(t, i + 1, st) {
                    Err(e) => Err(e),
                    Ok((st2, n)) => {
                        if i < n <= t.len() {
                            parse_toks(t, n, st2)
                        } else {
                            Err(end_err(t))
                        }
                    },
                }
            },
            TokenValueView::SectionDirective(SectionDirective::Text) => {
                match parse_text_sec(t, i + 1, st) {
                    Err(e) => Err(e),
                    Ok((st2, n)) => {
                        if i < n <= t.len() {
                            parse_toks(t, n, st2)
                        } else {
                            Err(end_err(t))
                        }
                    },
                }
            },
            _ => parse_toks(t, i + 1, st),
        }
    }
}

/// Overwrites the 8 bytes at `at` with the given bytes.
pub open spec fn splice8(pool: Seq<u8>, at: int, bytes: Seq<u8>) -> Seq<u8> {
    pool.take(at) + bytes + pool.skip(at + 8)
}

/// Pass 2, from instruction `i` on: every still-unresolved operand is
/// replaced by the PC-relative offset of its target; a label load also
/// writes the target's absolute address into its reserved constant-pool
/// slot.  An unknown name is fatal and reported by name.
pub open spec fn resolve_from(st: AsmState, i: int) -> Result<AsmState, Seq<u8>>
    decreases st.instrs.len() - i,
{
    if i >= st.instrs.len() {
        Ok(st)
    } else {
        match st.instrs[i] {
            InstructionView::Ld(d, RegImmAddrView::Unresolved(l, pc, slot)) => {
                match sym_lookup(st.symbols, l) {
                    Some(addr) => {
                        let st2 = AsmState {
                            pool: splice8(st.pool, slot, crate::nums::le64(addr as u64)),
                            instrs: st.instrs.update(
                                i,
                                InstructionView::Ld(
                                    d,
                                    RegImmAddrView::Address(crate::nums::trunc_i16(slot - pc)),
                                ),
                            ),
                            ..st
                        };
                        if st2.instrs.len() == st.instrs.len() {
                            resolve_from(st2, i + 1)
                        } else {
                            Err(l)
                        }
                    },
                    None => Err(l),
                }
            },
            InstructionView::B(RegImmAddrView::Unresolved(l, pc, _)) => {
                match sym_lookup(st.symbols, l) {
                    Some(addr) => {
                        let st2 = AsmState {
                            instrs: st.instrs.update(
                                i,
                                InstructionView::B(
                                    RegImmAddrView::Address(crate::nums::trunc_i16(addr - pc)),
                                ),
                            ),
                            ..st
                        };
                        if st2.instrs.len() == st.instrs.len() {
                            resolve_from(st2, i + 1)
                        } else {
                            Err(l)
                        }
                    },
                    None => Err(l),
                }
            },
            InstructionView::CBZ(r, RegImmAddrView::Unresolved(l, pc, _)) => {
                match sym_lookup(st.symbols, l) {
                    Some(addr) => {
                        let st2 = AsmState {
                            instrs: st.instrs.update(
                                i,
                                InstructionView::CBZ(
                                    r,
                                    RegImmAddrView::Address(crate::nums::trunc_i16(addr - pc)),
                                ),
                            ),
                            ..st
                        };
                        if st2.instrs.len() == st.instrs.len() {
                            resolve_from(st2, i + 1)
                        } else {
                            Err(l)
                        }
                    },
                    None => Err(l),
                }
            },
            InstructionView::CBNZ(r, RegImmAddrView::Unresolved(l, pc, _)) => {
                match sym_lookup(st.symbols, l) {
                    Some(addr) => {
                        let st2 = AsmState {
                            instrs: st.instrs.update(
                                i,
                                InstructionView::CBNZ(
                                    r,
                                    RegImmAddrView::Address(crate::nums::trunc_i16(addr - pc)),
                                ),
                            ),
                            ..st
                        };
                        if st2.instrs.len() == st.instrs.len() {
                            resolve_from(st2, i + 1)
                        } else {
                            Err(l)
                        }
                    },
                    None => Err(l),
                }
            },
            _ => resolve_from(st, i + 1),
        }
    }
}

/// The whole parse: pass 1 from an empty state, then label resolution.
pub open spec fn parse_spec(t: Seq<TokenView>) -> Result<AsmState, AsmErrorView> {
    match parse_toks(t, 0, init_state()) {
        Err(e) => Err(AsmErrorView::Parse(e)),
        Ok(st) => match resolve_from(st, 0) {
            Ok(st2) => Ok(st2),
            Err(name) => Err(AsmErrorView::UndefinedLabel(name)),
        },
    }
}


// ---------------------------------------------------------------------------
// Size accounting
// ---------------------------------------------------------------------------

/// The length of a token's byte payload (zero for payload-free tokens).
pub open spec fn payload_len(v: TokenValueView) -> int {
    match v {
        TokenValueView::String(s) => s.len() as int,
        TokenValueView::Label(s) => s.len() as int,
        TokenValueView::LabelDef(s) => s.len() as int,
        _ => 0,
    }
}

/// A size budget over the first `i` tokens: nine bytes per token plus its
/// payload.  Every buffer the parser fills grows within this budget, which
/// keeps all address arithmetic in bounds.
pub open spec fn budget(t: Seq<TokenView>, i: int) -> int
    decreases i,
{
    if i <= 0 {
        0
    } else {
        budget(t, i - 1) + payload_len(t[i - 1].value) + 9
    }
}

/// The combined size of the buffers the parser fills; the instruction list
/// counts four bytes per instruction.
pub open spec fn st_size(st: AsmState) -> int {
    4 * st.instrs.len() + st.pool.len() + st.data.len() as int
}

/// The budget grows by at least nine per token, and monotonically.
pub proof fn lemma_budget_diff(t: Seq<TokenView>, i: int, j: int)
    requires
        0 <= i <= j,
    ensures
        budget(t, j) - budget(t, i) >= 9 * (j - i),
    decreases j - i,
{
    if i < j {
        lemma_budget_diff(t, i, j - 1);
    }
}

/// `finish_stmt` moves strictly forward and stays in bounds.
pub proof fn lemma_finish_stmt(t: Seq<TokenView>, j: int)
    requires
        0 <= j <= t.len(),
    ensures
        finish_stmt(t, j) matches Ok(n) ==> j + 1 <= n <= t.len(),
{
    lemma_skip_ws(t, j);
}

/// `parse_mem_spec` moves strictly forward and stays in bounds.
pub proof fn lemma_mem_bounds(t: Seq<TokenView>, i: int)
    requires
        0 <= i < t.len(),
    ensures
        parse_mem_spec(t, i) matches Ok((o, n)) ==> i + 2 <= n <= t.len(),
{
    lemma_skip_ws(t, i + 1);
    let j1 = skip_ws(t, i + 1);
    if j1 < t.len() {
        lemma_skip_ws(t, j1 + 1);
        let j2 = skip_ws(t, j1 + 1);
        if j2 < t.len() && t[j2].value is Comma {
            lemma_skip_ws(t, j2 + 1);
            let j3 = skip_ws(t, j2 + 1);
            if j3 < t.len() {
                lemma_skip_ws(t, j3 + 1);
            }
        } else {
            lemma_skip_ws(t, j2);
        }
    }
}

/// Every successful statement consumes at least two tokens, stays in
/// bounds, grows the buffers by at most twelve bytes, appends at most one
/// instruction and at most eight pool bytes, leaves the data section and
/// the symbol table alone, and keeps the reserved-slot discipline.
pub proof fn lemma_stmt_bounds(t: Seq<TokenView>, i: int, st: AsmState)
    requires
        0 <= i < t.len(),
    ensures
        parse_stmt_spec(t, i, st) matches Ok((st2, n)) ==> {
            &&& i + 2 <= n <= t.len()
            &&& st_size(st2) <= st_size(st) + 12
            &&& st.instrs.len() <= st2.instrs.len() <= st.instrs.len() + 1
            &&& st.pool.len() <= st2.pool.len() <= st.pool.len() + 8
            &&& st2.data == st.data
            &&& st2.symbols == st.symbols
            &&& (ld_slots_ok(st.instrs, st.pool.len() as int) ==> ld_slots_ok(
                st2.instrs,
                st2.pool.len() as int,
            ))
        },
{
    lemma_skip_ws(t, i + 1);
    let j1 = skip_ws(t, i + 1);
    if parse_stmt_spec(t, i, st) is Ok {
        let (st2, n) = parse_stmt_spec(t, i, st).unwrap();
        match t[i].value {
            TokenValueView::Halt => {
                lemma_finish_stmt(t, i + 1);
                if ld_slots_ok(st.instrs, st.pool.len() as int) {
                    lemma_slots_push_any(st, InstructionView::Halt);
                }
            },
            TokenValueView::B => {
                if j1 < t.len() {
                    lemma_finish_stmt(t, j1 + 1);
                    if ld_slots_ok(st.instrs, st.pool.len() as int) {
                        match t[j1].value {
                            TokenValueView::Label(l) => lemma_slots_push_any(
                                st,
                                InstructionView::B(
                                    RegImmAddrView::Unresolved(l, ts_off(st), cp_off(st)),
                                ),
                            ),
                            _ => {},
                        }
                    }
                }
            },
            TokenValueView::CBZ | TokenValueView::CBNZ => {
                if j1 < t.len() {
                    lemma_skip_ws(t, j1 + 1);
                    let j2 = skip_ws(t, j1 + 1);
                    if j2 < t.len() {
                        lemma_skip_ws(t, j2 + 1);
                        let j3 = skip_ws(t, j2 + 1);
                        if j3 < t.len() {
                            lemma_finish_stmt(t, j3 + 1);
                        }
                        assert(st2.instrs.len() == st.instrs.len() + 1);
                        assert(ld_slots_ok(st.instrs, st.pool.len() as int) ==> ld_slots_ok(
                            st2.instrs,
                            st2.pool.len() as int,
                        )) by {
                            if ld_slots_ok(st.instrs, st.pool.len() as int) {
                                lemma_slots_push_any(st, st2.instrs.last());
                            }
                        }
                    }
                }
            },
            TokenValueView::Neg | TokenValueView::Swap | TokenValueView::Add
                | TokenValueView::Sub | TokenValueView::Mul | TokenValueView::Div
                | TokenValueView::Mod | TokenValueView::Asr | TokenValueView::Lsl
                | TokenValueView::And | TokenValueView::Orr => {
                if j1 < t.len() {
                    lemma_skip_ws(t, j1 + 1);
                    let j2 = skip_ws(t, j1 + 1);
                    if j2 < t.len() {
                        lemma_skip_ws(t, j2 + 1);
                        let j3 = skip_ws(t, j2 + 1);
                        if j3 < t.len() {
                            lemma_finish_stmt(t, j3 + 1);
                            lemma_skip_ws(t, j3 + 1);
                            let j4 = skip_ws(t, j3 + 1);
                            if j4 < t.len() {
                                lemma_skip_ws(t, j4 + 1);
                                let j5 = skip_ws(t, j4 + 1);
                                if j5 < t.len() {
                                    lemma_finish_stmt(t, j5 + 1);
                                }
                            }
                        }
                        assert(ld_slots_ok(st.instrs, st.pool.len() as int) ==> ld_slots_ok(
                            st2.instrs,
                            st2.pool.len() as int,
                        )) by {
                            if ld_slots_ok(st.instrs, st.pool.len() as int) {
                                lemma_slots_push_any(st, st2.instrs.last());
                            }
                        }
                    }
                }
            },
            TokenValueView::Ld(w, se) => {
                if j1 < t.len() {
                    lemma_skip_ws(t, j1 + 1);
                    let j2 = skip_ws(t, j1 + 1);
                    if j2 < t.len() {
                        lemma_skip_ws(t, j2 + 1);
                        let j3 = skip_ws(t, j2 + 1);
                        if j3 < t.len() {
                            lemma_finish_stmt(t, j3 + 1);
                            lemma_mem_bounds(t, j3);
                            if parse_mem_spec(t, j3) is Ok {
                                let n1 = parse_mem_spec(t, j3).unwrap().1;
                                lemma_finish_stmt(t, n1);
                            }
                        }
                        assert(ld_slots_ok(st.instrs, st.pool.len() as int) ==> ld_slots_ok(
                            st2.instrs,
                            st2.pool.len() as int,
                        )) by {
                            if ld_slots_ok(st.instrs, st.pool.len() as int)
                                && st2.instrs.len() == st.instrs.len() + 1 {
                                lemma_slots_push_grow(
                                    st.instrs,
                                    st.pool.len() as int,
                                    st2.instrs.last(),
                                    st2.pool.len() as int,
                                );
                            }
                        }
                    }
                }
            },
            TokenValueView::St(w) => {
                if j1 < t.len() {
                    lemma_skip_ws(t, j1 + 1);
                    let j2 = skip_ws(t, j1 + 1);
                    if j2 < t.len() {
                        lemma_skip_ws(t, j2 + 1);
                        let j3 = skip_ws(t, j2 + 1);
                        if j3 < t.len() {
                            lemma_mem_bounds(t, j3);
                            if parse_mem_spec(t, j3) is Ok {
                                let n1 = parse_mem_spec(t, j3).unwrap().1;
                                lemma_finish_stmt(t, n1);
                            }
                        }
                        assert(ld_slots_ok(st.instrs, st.pool.len() as int) ==> ld_slots_ok(
                            st2.instrs,
                            st2.pool.len() as int,
                        )) by {
                            if ld_slots_ok(st.instrs, st.pool.len() as int)
                                && st2.instrs.len() == st.instrs.len() + 1 {
                                lemma_slots_push_any(st, st2.instrs.last());
                            }
                        }
                    }
                }
            },
            _ => {},
        }
    }
}

/// The reserved pc and slot of an unresolved label load, if the
/// instruction is one.
pub open spec fn ld_unres_slot(iv: InstructionView) -> Option<(int, int)> {
    match iv {
        InstructionView::Ld(_, RegImmAddrView::Unresolved(_, pc, slot)) => Some((pc, slot)),
        _ => None,
    }
}

/// The reserved constant-pool slots of unresolved label loads: each is an
/// 8-byte range inside the pool, and they appear in strictly increasing,
/// disjoint order.
pub open spec fn ld_slots_ok(instrs: Seq<InstructionView>, plen: int) -> bool {
    &&& forall|i: int|
        0 <= i < instrs.len() && (#[trigger] ld_unres_slot(instrs[i])) is Some ==> {
            let slot = ld_unres_slot(instrs[i]).unwrap().1;
            0 <= slot && slot + 8 <= plen
        }
    &&& forall|i: int, j: int|
        0 <= i < j < instrs.len() && (#[trigger] ld_unres_slot(instrs[i])) is Some
            && (#[trigger] ld_unres_slot(instrs[j])) is Some ==> ld_unres_slot(
            instrs[i],
        ).unwrap().1 + 8 <= ld_unres_slot(instrs[j]).unwrap().1
}

/// Pushing an instruction that reserves no slot, with the pool unchanged or
/// grown, keeps the slot discipline.
pub proof fn lemma_slots_push_any(st: AsmState, iv: InstructionView)
    requires
        ld_slots_ok(st.instrs, st.pool.len() as int),
        ld_unres_slot(iv) is None,
    ensures
        forall|p: int|
            p >= st.pool.len() ==> ld_slots_ok(st.instrs.push(iv), p),
{
    assert forall|p: int| p >= st.pool.len() implies ld_slots_ok(st.instrs.push(iv), p) by {
        let s2 = st.instrs.push(iv);
        assert forall|i: int|
            0 <= i < s2.len() && (#[trigger] ld_unres_slot(s2[i])) is Some implies {
            let slot = ld_unres_slot(s2[i]).unwrap().1;
            0 <= slot && slot + 8 <= p
        } by {
            if i < st.instrs.len() {
                assert(s2[i] == st.instrs[i]);
            }
        }
        assert forall|i: int, j: int|
            0 <= i < j < s2.len() && (#[trigger] ld_unres_slot(s2[i])) is Some
                && (#[trigger] ld_unres_slot(s2[j])) is Some implies ld_unres_slot(
            s2[i],
        ).unwrap().1 + 8 <= ld_unres_slot(s2[j]).unwrap().1 by {
            if j < st.instrs.len() {
                assert(s2[i] == st.instrs[i] && s2[j] == st.instrs[j]);
            } else {
                assert(s2[j] == iv);
            }
        }
    }
}

/// Pushing an unresolved label load whose slot is the current end of the
/// pool, while the pool grows by eight bytes, keeps the slot discipline.
pub proof fn lemma_slots_push_grow(
    instrs: Seq<InstructionView>,
    plen: int,
    iv: InstructionView,
    plen2: int,
)
    requires
        0 <= plen,
        ld_slots_ok(instrs, plen),
        match ld_unres_slot(iv) {
            Some((pc, slot)) => slot == plen && plen2 >= plen + 8,
            None => plen2 >= plen,
        },
    ensures
        ld_slots_ok(instrs.push(iv), plen2),
{
    let s2 = instrs.push(iv);
    assert forall|i: int|
        0 <= i < s2.len() && (#[trigger] ld_unres_slot(s2[i])) is Some implies {
        let slot = ld_unres_slot(s2[i]).unwrap().1;
        0 <= slot && slot + 8 <= plen2
    } by {
        if i < instrs.len() {
            assert(s2[i] == instrs[i]);
        } else {
            assert(s2[i] == iv);
        }
    }
    assert forall|i: int, j: int|
        0 <= i < j < s2.len() && (#[trigger] ld_unres_slot(s2[i])) is Some
            && (#[trigger] ld_unres_slot(s2[j])) is Some implies ld_unres_slot(
        s2[i],
    ).unwrap().1 + 8 <= ld_unres_slot(s2[j]).unwrap().1 by {
        if j < instrs.len() {
            assert(s2[i] == instrs[i] && s2[j] == instrs[j]);
        } else {
            assert(s2[j] == iv);
            assert(s2[i] == instrs[i]);
        }
    }
}

/// A parsed item list stays in bounds and its bytes fit the budget of the
/// tokens it consumed.
pub proof fn lemma_items_bounds(t: Seq<TokenView>, i: int, dt: DataTypeDirective)
    requires
        0 <= i <= t.len(),
    ensures
        parse_data_items(t, i, dt) matches Ok((items, n)) ==> {
            &&& i <= n <= t.len()
            &&& data_items_bytes(items).len() <= budget(t, n) - budget(t, i)
        },
    decreases t.len() - i, 1int,
{
    if i < t.len() {
        match t[i].value {
            TokenValueView::Whitespace => {
                lemma_items_bounds(t, i + 1, dt);
                lemma_budget_diff(t, i, i + 1);
            },
            TokenValueView::Imm(n) => {
                if (dt is Byte1 || dt is Byte2 || dt is Byte4 || dt is Byte8)
                    && !(dt is Byte1 && n > 0xFF) && !(dt is Byte2 && n > 0xFFFF) && !(dt
                    is Byte4 && n > 0xFFFFFFFF) {
                    let item = if dt is Byte1 {
                        DataView::Byte1(n as u8)
                    } else if dt is Byte2 {
                        DataView::Byte2(n as u16)
                    } else if dt is Byte4 {
                        DataView::Byte4(n as u32)
                    } else {
                        DataView::Byte8(n)
                    };
                    assert(parse_data_items(t, i, dt) == items_after(t, i, item, dt));
                    lemma_items_after_bounds(t, i, item, dt);
                }
            },
            TokenValueView::Char(c) => {
                if dt is Char {
                    lemma_items_after_bounds(t, i, DataView::Char(c), dt);
                }
            },
            TokenValueView::String(s) => {
                if dt is String {
                    lemma_items_after_bounds(t, i, DataView::String(s), dt);
                }
            },
            _ => {},
        }
    }
}

/// The continuation after one item stays in bounds and within budget.
pub proof fn lemma_items_after_bounds(t: Seq<TokenView>, i: int, item: DataView, dt: DataTypeDirective)
    requires
        0 <= i < t.len(),
        data_item_bytes(item).len() <= payload_len(t[i].value) + 9,
    ensures
        items_after(t, i, item, dt) matches Ok((items, n)) ==> {
            &&& i <= n <= t.len()
            &&& data_items_bytes(items).len() <= budget(t, n) - budget(t, i)
        },
    decreases t.len() - i, 0int,
{
    lemma_sep_scan(t, i + 1);
    assert(budget(t, i + 1) == budget(t, i) + payload_len(t[i].value) + 9);
    match sep_scan(t, i + 1) {
        Ok(SepScan::Stop(k)) => {
            assert(seq![item].drop_last() =~= Seq::<DataView>::empty());
            assert(seq![item].last() == item);
            assert(data_items_bytes(Seq::<DataView>::empty()) =~= Seq::<u8>::empty());
            assert(Seq::<u8>::empty() + data_item_bytes(item) =~= data_item_bytes(item));
            assert(data_items_bytes(seq![item]) =~= data_item_bytes(item));
            lemma_budget_diff(t, i + 1, k);
        },
        Ok(SepScan::More(k)) => {
            if i < k <= t.len() {
                lemma_items_bounds(t, k, dt);
                if parse_data_items(t, k, dt) is Ok {
                    let (rest, n2) = parse_data_items(t, k, dt).unwrap();
                    lemma_items_bytes_cons(item, rest);
                    lemma_budget_diff(t, i + 1, k);
                }
            }
        },
        _ => {},
    }
}

/// Byte layout of a non-empty item list: first item's bytes, then the rest.
pub proof fn lemma_items_bytes_cons(d: DataView, rest: Seq<DataView>)
    ensures
        data_items_bytes(seq![d] + rest) == data_item_bytes(d) + data_items_bytes(rest),
    decreases rest.len(),
{
    let whole = seq![d] + rest;
    if rest.len() == 0 {
        assert(whole.len() == 1);
        assert(whole.drop_last() =~= Seq::<DataView>::empty());
        assert(whole.last() == d);
        assert(data_items_bytes(Seq::<DataView>::empty()) =~= Seq::<u8>::empty());
        assert(Seq::<u8>::empty() + data_item_bytes(d) =~= data_item_bytes(d));
        assert(data_item_bytes(d) + data_items_bytes(rest) =~= data_item_bytes(d));
    } else {
        assert(whole.drop_last() =~= seq![d] + rest.drop_last());
        lemma_items_bytes_cons(d, rest.drop_last());
        assert(whole.last() == rest.last());
        assert((data_item_bytes(d) + data_items_bytes(rest.drop_last())) + data_item_bytes(
            rest.last(),
        ) =~= data_item_bytes(d) + (data_items_bytes(rest.drop_last()) + data_item_bytes(
            rest.last(),
        )));
    }
}


// ---------------------------------------------------------------------------
// The concrete parser
// ---------------------------------------------------------------------------

/// Appends the bytes of `src` to `dst`.
pub fn append_bytes(dst: &mut Vec<u8>, src: &Vec<u8>)
    ensures
        final(dst)@ == old(dst)@ + src@,
{
    let n = src.len();
    let mut k: usize = 0;
    while k < n
        invariant
            n == src@.len(),
            k <= n,
            dst@ == old(dst)@ + src@.subrange(0, k as int),
        decreases n - k,
    {
        dst.push(src[k]);
        proof {
            assert(old(dst)@ + src@.subrange(0, k + 1) =~= (old(dst)@ + src@.subrange(
                0,
                k as int,
            )).push(src@[k as int]));
        }
        k = k + 1;
    }
    proof {
        assert(src@.subrange(0, n as int) =~= src@);
    }
}

/// A fresh copy of a byte vector.
pub fn copy_bytes(src: &Vec<u8>) -> (r: Vec<u8>)
    ensures
        r@ == src@,
{
    let n = src.len();
    let r = crate::lexer::copy_range(src, 0, n);
    proof {
        assert(src@.subrange(0, n as int) =~= src@);
    }
    r
}

/// The two-pass parser.  `tokens` is consumed left to right once; the
/// buffers and the symbol table grow through pass 1, and pass 2 rewrites
/// unresolved operands in place.
#[derive(Debug)]
pub struct Parser {
    pub tokens: Vec<Token>,
    pub token_idx: usize,
    pub mapping: SymbolTable,
    pub constant_pool_offset: usize,
    pub data_section_offset: usize,
    pub text_section_offset: usize,
    pub instructions: Vec<Instruction>,
    pub data_section: Vec<u8>,
    pub constant_pool: Vec<u8>,
}

impl Parser {
    /// The token stream as token models.
    pub open spec fn toks(&self) -> Seq<TokenView> {
        crate::seq_view(self.tokens@)
    }

    /// The parser's abstract state.
    pub open spec fn pstate(&self) -> AsmState {
        AsmState {
            symbols: self.mapping@,
            pool: self.constant_pool@,
            data: self.data_section@,
            instrs: crate::seq_view(self.instructions@),
        }
    }

    /// The parser's invariant: the cursor is in bounds, the three offsets
    /// are the derived values, the reserved-slot discipline holds, and all
    /// buffers stay within the token stream's size budget, which keeps the
    /// address arithmetic in bounds.
    pub open spec fn wf(&self) -> bool {
        &&& self.token_idx <= self.tokens@.len()
        &&& budget(self.toks(), self.toks().len() as int) <= 0x2000_0000
        &&& self.constant_pool_offset == self.constant_pool@.len()
        &&& self.data_section_offset == 0x40 + self.data_section@.len()
        &&& self.text_section_offset == 0x80 + 4 * self.instructions@.len()
        &&& st_size(self.pstate()) <= budget(self.toks(), self.token_idx as int)
        &&& ld_slots_ok(crate::seq_view(self.instructions@), self.constant_pool@.len() as int)
    }

    /// Builds a parser over a token stream whose combined payload size fits
    /// the budget (a machine limit on the source size, far above anything a
    /// 256-byte image can use).
    pub fn new(tokens: Vec<Token>) -> (p: Parser)
        requires
            budget(crate::seq_view(tokens@), tokens@.len() as int) <= 0x2000_0000,
        ensures
            p.wf(),
            p.tokens == tokens,
            p.token_idx == 0,
            p.pstate() == init_state(),
    {
        let p = Parser {
            tokens,
            token_idx: 0,
            mapping: SymbolTable::new(),
            constant_pool_offset: CONSTANT_POOL_OFFSET,
            data_section_offset: DATA_OFFSET,
            text_section_offset: TEXT_OFFSET,
            instructions: Vec::new(),
            data_section: Vec::new(),
            constant_pool: Vec::new(),
        };
        proof {
            assert(p.pstate().symbols =~= init_state().symbols);
            assert(p.pstate().pool =~= init_state().pool);
            assert(p.pstate().data =~= init_state().data);
            assert(p.pstate().instrs =~= crate::seq_view(Seq::<Instruction>::empty()));
            assert(crate::seq_view(Seq::<Instruction>::empty()) =~= init_state().instrs);
        }
        p
    }

    /// Whether the cursor has passed the last token.
    pub fn is_at_end(&self) -> (r: bool)
        ensures
            r == (self.token_idx >= self.tokens@.len()),
    {
        self.token_idx >= self.tokens.len()
    }

    /// Moves the cursor forward.
    fn increment_position(&mut self, n: usize)
        requires
            old(self).token_idx + n <= old(self).tokens@.len(),
        ensures
            old(self).wf() ==> final(self).wf(),
            final(self).token_idx == old(self).token_idx + n,
            final(self).tokens == old(self).tokens,
            final(self).mapping == old(self).mapping,
            final(self).constant_pool == old(self).constant_pool,
            final(self).data_section == old(self).data_section,
            final(self).instructions == old(self).instructions,
            final(self).constant_pool_offset == old(self).constant_pool_offset,
            final(self).data_section_offset == old(self).data_section_offset,
            final(self).text_section_offset == old(self).text_section_offset,
            final(self).pstate() == old(self).pstate(),
    {
        let _total = self.tokens.len();
        proof {
            lemma_budget_diff(
                self.toks(),
                self.token_idx as int,
                self.token_idx + n,
            );
        }
        self.token_idx = self.token_idx + n;
    }

    /// Skips whitespace tokens.
    fn skip_whitespace(&mut self)
        requires
            old(self).token_idx <= old(self).tokens@.len(),
        ensures
            old(self).wf() ==> final(self).wf(),
            final(self).token_idx == skip_ws(old(self).toks(), old(self).token_idx as int),
            final(self).tokens == old(self).tokens,
            final(self).mapping == old(self).mapping,
            final(self).constant_pool == old(self).constant_pool,
            final(self).data_section == old(self).data_section,
            final(self).instructions == old(self).instructions,
            final(self).constant_pool_offset == old(self).constant_pool_offset,
            final(self).data_section_offset == old(self).data_section_offset,
            final(self).text_section_offset == old(self).text_section_offset,
            final(self).pstate() == old(self).pstate(),
            old(self).token_idx <= final(self).token_idx <= old(self).tokens@.len(),
    {
        let ghost t = self.toks();
        let ghost i0 = self.token_idx as int;
        proof {
            lemma_skip_ws(t, i0);
        }
        while self.token_idx < self.tokens.len() && self.at_whitespace()
            invariant
                self.token_idx <= self.tokens@.len(),
                self.tokens == old(self).tokens,
                self.mapping == old(self).mapping,
                self.constant_pool == old(self).constant_pool,
                self.data_section == old(self).data_section,
                self.instructions == old(self).instructions,
                self.constant_pool_offset == old(self).constant_pool_offset,
                self.data_section_offset == old(self).data_section_offset,
                self.text_section_offset == old(self).text_section_offset,
                i0 <= self.token_idx <= self.tokens@.len(),
                t == self.toks(),
                skip_ws(t, i0) == skip_ws(t, self.token_idx as int),
            decreases self.tokens@.len() - self.token_idx,
        {
            proof {
                assert(skip_ws(t, self.token_idx as int) == skip_ws(t, self.token_idx + 1));
            }
            self.token_idx = self.token_idx + 1;
        }
        proof {
            if old(self).wf() {
                lemma_budget_diff(t, i0, self.token_idx as int);
            }
        }
    }

    /// Whether the token at the cursor is whitespace.
    fn at_whitespace(&self) -> (r: bool)
        requires
            self.token_idx < self.tokens@.len(),
        ensures
            r == (self.toks()[self.token_idx as int].value is Whitespace),
    {
        match self.tokens[self.token_idx].value {
            TokenValue::Whitespace => true,
            _ => false,
        }
    }

    /// The location of the token at the cursor.
    fn loc_here(&self) -> (l: Loc)
        requires
            self.token_idx < self.tokens@.len(),
        ensures
            l == self.toks()[self.token_idx as int].loc,
    {
        self.tokens[self.token_idx].loc
    }

    /// The error for a stream that ends inside a statement.
    fn end_error(&self) -> (e: ParseError)
        ensures
            e == end_err(self.toks()),
    {
        if self.tokens.len() > 0 {
            ParseError {
                kind: ParseErrorKind::UnexpectedEnd,
                loc: self.tokens[self.tokens.len() - 1].loc,
            }
        } else {
            ParseError { kind: ParseErrorKind::UnexpectedEnd, loc: Loc { line: 1, col: 1 } }
        }
    }

    /// Skips whitespace and takes a register operand.
    fn take_register(&mut self) -> (r: Result<u8, ParseError>)
        requires
            old(self).token_idx <= old(self).tokens@.len(),
        ensures
            old(self).wf() ==> final(self).wf(),
            final(self).token_idx <= final(self).tokens@.len(),
            final(self).tokens == old(self).tokens,
            final(self).mapping == old(self).mapping,
            final(self).pstate() == old(self).pstate(),
            final(self).constant_pool_offset == old(self).constant_pool_offset,
            final(self).data_section_offset == old(self).data_section_offset,
            final(self).text_section_offset == old(self).text_section_offset,
            match r {
                Ok(reg) => register_at(
                    old(self).toks(),
                    skip_ws(old(self).toks(), old(self).token_idx as int),
                ) == Ok::<u8, ParseError>(reg) && final(self).token_idx == skip_ws(
                    old(self).toks(),
                    old(self).token_idx as int,
                ) + 1,
                Err(e) => register_at(
                    old(self).toks(),
                    skip_ws(old(self).toks(), old(self).token_idx as int),
                ) == Err::<u8, ParseError>(e),
            },
    {
        self.skip_whitespace();
        if self.is_at_end() {
            return Err(self.end_error());
        }
        let l = self.loc_here();
        match self.tokens[self.token_idx].value {
            TokenValue::Register(reg) => {
                self.increment_position(1);
                Ok(reg)
            },
            _ => Err(ParseError { kind: ParseErrorKind::ExpectedRegister, loc: l }),
        }
    }

    /// Skips whitespace and takes the mandatory comma.
    fn take_comma(&mut self) -> (r: Result<(), ParseError>)
        requires
            old(self).token_idx <= old(self).tokens@.len(),
        ensures
            old(self).wf() ==> final(self).wf(),
            final(self).token_idx <= final(self).tokens@.len(),
            final(self).tokens == old(self).tokens,
            final(self).mapping == old(self).mapping,
            final(self).pstate() == old(self).pstate(),
            final(self).constant_pool_offset == old(self).constant_pool_offset,
            final(self).data_section_offset == old(self).data_section_offset,
            final(self).text_section_offset == old(self).text_section_offset,
            match r {
                Ok(()) => comma_at(
                    old(self).toks(),
                    skip_ws(old(self).toks(), old(self).token_idx as int),
                ) == Ok::<(), ParseError>(()) && final(self).token_idx == skip_ws(
                    old(self).toks(),
                    old(self).token_idx as int,
                ) + 1,
                Err(e) => comma_at(
                    old(self).toks(),
                    skip_ws(old(self).toks(), old(self).token_idx as int),
                ) == Err::<(), ParseError>(e),
            },
    {
        self.skip_whitespace();
        if self.is_at_end() {
            return Err(self.end_error());
        }
        let l = self.loc_here();
        match self.tokens[self.token_idx].value {
            TokenValue::Comma => {
                self.increment_position(1);
                Ok(())
            },
            _ => Err(ParseError { kind: ParseErrorKind::ExpectedComma, loc: l }),
        }
    }

    /// Skips whitespace and takes a register/immediate/character operand.
    fn take_operand(&mut self, too_big: ParseErrorKind) -> (r: Result<RegImmAddr, ParseError>)
        requires
            old(self).token_idx <= old(self).tokens@.len(),
        ensures
            old(self).wf() ==> final(self).wf(),
            final(self).token_idx <= final(self).tokens@.len(),
            final(self).tokens == old(self).tokens,
            final(self).mapping == old(self).mapping,
            final(self).pstate() == old(self).pstate(),
            final(self).constant_pool_offset == old(self).constant_pool_offset,
            final(self).data_section_offset == old(self).data_section_offset,
            final(self).text_section_offset == old(self).text_section_offset,
            match r {
                Ok(op) => operand_at(
                    old(self).toks(),
                    skip_ws(old(self).toks(), old(self).token_idx as int),
                    too_big,
                ) == Ok::<RegImmAddrView, ParseError>(op@) && final(self).token_idx == skip_ws(
                    old(self).toks(),
                    old(self).token_idx as int,
                ) + 1 && !(op@ is Unresolved),
                Err(e) => operand_at(
                    old(self).toks(),
                    skip_ws(old(self).toks(), old(self).token_idx as int),
                    too_big,
                ) == Err::<RegImmAddrView, ParseError>(e),
            },
    {
        self.skip_whitespace();
        if self.is_at_end() {
            return Err(self.end_error());
        }
        let l = self.loc_here();
        match self.tokens[self.token_idx].value {
            TokenValue::Register(reg) => {
                self.increment_position(1);
                Ok(RegImmAddr::Register(reg))
            },
            TokenValue::Imm(v) => {
                if v > 0xFFFF {
                    Err(ParseError { kind: too_big, loc: l })
                } else {
                    self.increment_position(1);
                    Ok(RegImmAddr::Imm(crate::nums::bits_to_i16(v as u16)))
                }
            },
            TokenValue::Char(c) => {
                self.increment_position(1);
                Ok(RegImmAddr::Imm(c as i16))
            },
            _ => Err(
                ParseError { kind: ParseErrorKind::ExpectedRegisterOrImmediate, loc: l },
            ),
        }
    }

    /// Skips whitespace and takes the newline that ends a statement.
    fn finish_statement(&mut self) -> (r: Result<(), ParseError>)
        requires
            old(self).token_idx <= old(self).tokens@.len(),
        ensures
            old(self).wf() ==> final(self).wf(),
            final(self).token_idx <= final(self).tokens@.len(),
            final(self).tokens == old(self).tokens,
            final(self).mapping == old(self).mapping,
            final(self).pstate() == old(self).pstate(),
            final(self).constant_pool_offset == old(self).constant_pool_offset,
            final(self).data_section_offset == old(self).data_section_offset,
            final(self).text_section_offset == old(self).text_section_offset,
            match r {
                Ok(()) => finish_stmt(old(self).toks(), old(self).token_idx as int)
                    == Ok::<int, ParseError>(final(self).token_idx as int),
                Err(e) => finish_stmt(old(self).toks(), old(self).token_idx as int)
                    == Err::<int, ParseError>(e),
            },
    {
        self.skip_whitespace();
        if self.is_at_end() {
            return Err(self.end_error());
        }
        let l = self.loc_here();
        match self.tokens[self.token_idx].value {
            TokenValue::Newline => {
                self.increment_position(1);
                Ok(())
            },
            _ => Err(ParseError { kind: ParseErrorKind::UnexpectedToken, loc: l }),
        }
    }
}


impl Parser {
    /// Whether the token at the cursor is a comma.
    fn at_comma(&self) -> (r: bool)
        requires
            self.token_idx < self.tokens@.len(),
        ensures
            r == (self.toks()[self.token_idx as int].value is Comma),
    {
        match self.tokens[self.token_idx].value {
            TokenValue::Comma => true,
            _ => false,
        }
    }

    /// Appends one instruction and advances the text cursor by four.
    fn emit_instr(&mut self, instr: Instruction)
        requires
            old(self).text_section_offset + 4 <= usize::MAX,
        ensures
            final(self).tokens == old(self).tokens,
            final(self).token_idx == old(self).token_idx,
            final(self).mapping == old(self).mapping,
            final(self).constant_pool == old(self).constant_pool,
            final(self).data_section == old(self).data_section,
            final(self).constant_pool_offset == old(self).constant_pool_offset,
            final(self).data_section_offset == old(self).data_section_offset,
            final(self).text_section_offset == old(self).text_section_offset + 4,
            final(self).instructions@ == old(self).instructions@.push(instr),
            final(self).pstate() == with_instr(old(self).pstate(), instr@),
    {
        let ghost ig = instr;
        self.instructions.push(instr);
        self.text_section_offset = self.text_section_offset + 4;
        proof {
            crate::lemma_seq_view_push(old(self).instructions@, ig);
            assert(crate::seq_view(old(self).instructions@) + seq![ig@] =~= crate::seq_view(
                old(self).instructions@,
            ).push(ig@));
        }
    }

    /// The text cursor has room to advance (from the size budget).
    proof fn lemma_room(&self)
        requires
            self.wf(),
        ensures
            self.text_section_offset + 4 <= usize::MAX,
            self.constant_pool_offset + 8 <= usize::MAX,
            self.data_section_offset <= 0x2000_0040,
    {
        lemma_budget_diff(self.toks(), self.token_idx as int, self.toks().len() as int);
        lemma_budget_diff(self.toks(), 0, self.token_idx as int);
    }

    /// Restores the invariant after one successful statement.
    proof fn lemma_stmt_wf(pre: Parser, post: Parser, n: int)
        requires
            pre.wf(),
            0 <= pre.token_idx < pre.toks().len(),
            post.tokens == pre.tokens,
            post.token_idx == n,
            post.constant_pool_offset == post.constant_pool@.len(),
            post.data_section_offset == 0x40 + post.data_section@.len(),
            post.text_section_offset == 0x80 + 4 * post.instructions@.len(),
            parse_stmt_spec(pre.toks(), pre.token_idx as int, pre.pstate()) == Ok::<
                (AsmState, int),
                ParseError,
            >((post.pstate(), n)),
        ensures
            post.wf(),
    {
        lemma_stmt_bounds(pre.toks(), pre.token_idx as int, pre.pstate());
        lemma_budget_diff(pre.toks(), pre.token_idx as int, n);
    }

    /// `halt` takes no operands.
    pub fn parse_halt_instruction(&mut self) -> (r: Result<(), ParseError>)
        requires
            old(self).wf(),
            old(self).token_idx < old(self).tokens@.len(),
            old(self).toks()[old(self).token_idx as int].value is Halt,
        ensures
            final(self).tokens == old(self).tokens,
            match r {
                Ok(()) => final(self).wf() && parse_halt_spec(
                    old(self).toks(),
                    old(self).token_idx as int,
                    old(self).pstate(),
                ) == Ok::<(AsmState, int), ParseError>(
                    (final(self).pstate(), final(self).token_idx as int),
                ),
                Err(e) => parse_halt_spec(
                    old(self).toks(),
                    old(self).token_idx as int,
                    old(self).pstate(),
                ) == Err::<(AsmState, int), ParseError>(e),
            },
    {
        let ghost t = self.toks();
        let ghost i0 = self.token_idx as int;
        let ghost st0 = self.pstate();
        proof {
            self.lemma_room();
        }
        self.emit_instr(Instruction::Halt);
        self.increment_position(1);
        match self.finish_statement() {
            Err(e) => Err(e),
            Ok(()) => {
                proof {
                    Self::lemma_stmt_wf(*old(self), *self, self.token_idx as int);
                }
                Ok(())
            },
        }
    }

    /// `b label`: an unconditional branch with an unresolved target.
    pub fn parse_branch_instruction(&mut self) -> (r: Result<(), ParseError>)
        requires
            old(self).wf(),
            old(self).token_idx < old(self).tokens@.len(),
            old(self).toks()[old(self).token_idx as int].value is B,
        ensures
            final(self).tokens == old(self).tokens,
            match r {
                Ok(()) => final(self).wf() && parse_branch_spec(
                    old(self).toks(),
                    old(self).token_idx as int,
                    old(self).pstate(),
                ) == Ok::<(AsmState, int), ParseError>(
                    (final(self).pstate(), final(self).token_idx as int),
                ),
                Err(e) => parse_branch_spec(
                    old(self).toks(),
                    old(self).token_idx as int,
                    old(self).pstate(),
                ) == Err::<(AsmState, int), ParseError>(e),
            },
    {
        let ghost t = self.toks();
        let ghost i0 = self.token_idx as int;
        let ghost st0 = self.pstate();
        proof {
            self.lemma_room();
        }
        self.increment_position(1);
        self.skip_whitespace();
        if self.is_at_end() {
            return Err(self.end_error());
        }
        let l0 = self.loc_here();
        let mut name: Vec<u8> = Vec::new();
        let mut is_label = false;
        match &self.tokens[self.token_idx].value {
            TokenValue::Label(l) => {
                name = copy_bytes(l);
                is_label = true;
            },
            _ => {},
        }
        if !is_label {
            return Err(ParseError { kind: ParseErrorKind::ExpectedLabel, loc: l0 });
        }
        let pc = self.text_section_offset;
        let slot = self.constant_pool_offset;
        self.emit_instr(Instruction::B(RegImmAddr::Unresolved(name, pc, slot)));
        self.increment_position(1);
        match self.finish_statement() {
            Err(e) => Err(e),
            Ok(()) => {
                proof {
                    Self::lemma_stmt_wf(*old(self), *self, self.token_idx as int);
                }
                Ok(())
            },
        }
    }

    /// `cbz r, label` / `cbnz r, label`.
    pub fn parse_cbz_cbnz_instruction(&mut self, cb_instruction: TokenValue) -> (r: Result<
        (),
        ParseError,
    >)
        requires
            old(self).wf(),
            old(self).token_idx < old(self).tokens@.len(),
            cb_instruction@ == old(self).toks()[old(self).token_idx as int].value,
            cb_instruction@ is CBZ || cb_instruction@ is CBNZ,
        ensures
            final(self).tokens == old(self).tokens,
            match r {
                Ok(()) => final(self).wf() && parse_cb_spec(
                    old(self).toks(),
                    old(self).token_idx as int,
                    old(self).pstate(),
                    old(self).toks()[old(self).token_idx as int].value is CBZ,
                ) == Ok::<(AsmState, int), ParseError>(
                    (final(self).pstate(), final(self).token_idx as int),
                ),
                Err(e) => parse_cb_spec(
                    old(self).toks(),
                    old(self).token_idx as int,
                    old(self).pstate(),
                    old(self).toks()[old(self).token_idx as int].value is CBZ,
                ) == Err::<(AsmState, int), ParseError>(e),
            },
    {
        let ghost t = self.toks();
        let ghost i0 = self.token_idx as int;
        let ghost st0 = self.pstate();
        proof {
            self.lemma_room();
        }
        let is_cbz = match cb_instruction {
            TokenValue::CBZ => true,
            _ => false,
        };
        self.increment_position(1);
        let reg = match self.take_register() {
            Ok(r) => r,
            Err(e) => {
                return Err(e);
            },
        };
        match self.take_comma() {
            Ok(()) => (),
            Err(e) => {
                return Err(e);
            },
        }
        self.skip_whitespace();
        if self.is_at_end() {
            return Err(self.end_error());
        }
        let l0 = self.loc_here();
        let mut name: Vec<u8> = Vec::new();
        let mut is_label = false;
        match &self.tokens[self.token_idx].value {
            TokenValue::Label(l) => {
                name = copy_bytes(l);
                is_label = true;
            },
            _ => {},
        }
        if !is_label {
            return Err(ParseError { kind: ParseErrorKind::ExpectedLabel, loc: l0 });
        }
        let pc = self.text_section_offset;
        let slot = self.constant_pool_offset;
        if is_cbz {
            self.emit_instr(Instruction::CBZ(reg, RegImmAddr::Unresolved(name, pc, slot)));
        } else {
            self.emit_instr(Instruction::CBNZ(reg, RegImmAddr::Unresolved(name, pc, slot)));
        }
        self.increment_position(1);
        match self.finish_statement() {
            Err(e) => Err(e),
            Ok(()) => {
                proof {
                    Self::lemma_stmt_wf(*old(self), *self, self.token_idx as int);
                }
                Ok(())
            },
        }
    }

    /// `neg rd, (rn | imm | char)`.
    pub fn parse_neg_instruction(&mut self) -> (r: Result<(), ParseError>)
        requires
            old(self).wf(),
            old(self).token_idx < old(self).tokens@.len(),
            old(self).toks()[old(self).token_idx as int].value is Neg,
        ensures
            final(self).tokens == old(self).tokens,
            match r {
                Ok(()) => final(self).wf() && parse_neg_spec(
                    old(self).toks(),
                    old(self).token_idx as int,
                    old(self).pstate(),
                ) == Ok::<(AsmState, int), ParseError>(
                    (final(self).pstate(), final(self).token_idx as int),
                ),
                Err(e) => parse_neg_spec(
                    old(self).toks(),
                    old(self).token_idx as int,
                    old(self).pstate(),
                ) == Err::<(AsmState, int), ParseError>(e),
            },
    {
        let ghost t = self.toks();
        let ghost i0 = self.token_idx as int;
        let ghost st0 = self.pstate();
        proof {
            self.lemma_room();
        }
        self.increment_position(1);
        let dst = match self.take_register() {
            Ok(r) => r,
            Err(e) => {
                return Err(e);
            },
        };
        match self.take_comma() {
            Ok(()) => (),
            Err(e) => {
                return Err(e);
            },
        }
        let src = match self.take_operand(ParseErrorKind::ImmediateTooBig) {
            Ok(o) => o,
            Err(e) => {
                return Err(e);
            },
        };
        self.emit_instr(Instruction::Neg(dst, src));
        match self.finish_statement() {
            Err(e) => Err(e),
            Ok(()) => {
                proof {
                    Self::lemma_stmt_wf(*old(self), *self, self.token_idx as int);
                }
                Ok(())
            },
        }
    }

    /// `swap r, r`.
    pub fn parse_swap_instruction(&mut self) -> (r: Result<(), ParseError>)
        requires
            old(self).wf(),
            old(self).token_idx < old(self).tokens@.len(),
            old(self).toks()[old(self).token_idx as int].value is Swap,
        ensures
            final(self).tokens == old(self).tokens,
            match r {
                Ok(()) => final(self).wf() && parse_swap_spec(
                    old(self).toks(),
                    old(self).token_idx as int,
                    old(self).pstate(),
                ) == Ok::<(AsmState, int), ParseError>(
                    (final(self).pstate(), final(self).token_idx as int),
                ),
                Err(e) => parse_swap_spec(
                    old(self).toks(),
                    old(self).token_idx as int,
                    old(self).pstate(),
                ) == Err::<(AsmState, int), ParseError>(e),
            },
    {
        let ghost t = self.toks();
        let ghost i0 = self.token_idx as int;
        let ghost st0 = self.pstate();
        proof {
            self.lemma_room();
        }
        self.increment_position(1);
        let reg1 = match self.take_register() {
            Ok(r) => r,
            Err(e) => {
                return Err(e);
            },
        };
        match self.take_comma() {
            Ok(()) => (),
            Err(e) => {
                return Err(e);
            },
        }
        let reg2 = match self.take_register() {
            Ok(r) => r,
            Err(e) => {
                return Err(e);
            },
        };
        self.emit_instr(Instruction::Swap(reg1, reg2));
        match self.finish_statement() {
            Err(e) => Err(e),
            Ok(()) => {
                proof {
                    Self::lemma_stmt_wf(*old(self), *self, self.token_idx as int);
                }
                Ok(())
            },
        }
    }

    /// The three-operand arithmetic/logical family:
    /// `<mnemonic> rd, rn, (rm | imm | char)`.
    pub fn parse_reg_reg_immreg_instruction(&mut self, instruction_op: TokenValue) -> (r: Result<
        (),
        ParseError,
    >)
        requires
            old(self).wf(),
            old(self).token_idx < old(self).tokens@.len(),
            instruction_op@ == old(self).toks()[old(self).token_idx as int].value,
            arith_mk(instruction_op@, 0, 0, RegImmAddrView::Register(0)) is Some,
        ensures
            final(self).tokens == old(self).tokens,
            match r {
                Ok(()) => final(self).wf() && parse_rrr_spec(
                    old(self).toks(),
                    old(self).token_idx as int,
                    old(self).pstate(),
                    old(self).toks()[old(self).token_idx as int].value,
                ) == Ok::<(AsmState, int), ParseError>(
                    (final(self).pstate(), final(self).token_idx as int),
                ),
                Err(e) => parse_rrr_spec(
                    old(self).toks(),
                    old(self).token_idx as int,
                    old(self).pstate(),
                    old(self).toks()[old(self).token_idx as int].value,
                ) == Err::<(AsmState, int), ParseError>(e),
            },
    {
        let ghost t = self.toks();
        let ghost i0 = self.token_idx as int;
        let ghost st0 = self.pstate();
        proof {
            self.lemma_room();
        }
        self.increment_position(1);
        let dst = match self.take_register() {
            Ok(r) => r,
            Err(e) => {
                return Err(e);
            },
        };
        match self.take_comma() {
            Ok(()) => (),
            Err(e) => {
                return Err(e);
            },
        }
        let src1 = match self.take_register() {
            Ok(r) => r,
            Err(e) => {
                return Err(e);
            },
        };
        match self.take_comma() {
            Ok(()) => (),
            Err(e) => {
                return Err(e);
            },
        }
        let src2 = match self.take_operand(ParseErrorKind::ImmediateTooBig) {
            Ok(o) => o,
            Err(e) => {
                return Err(e);
            },
        };
        let instr = match instruction_op {
            TokenValue::Add => Instruction::Add(dst, src1, src2),
            TokenValue::Sub => Instruction::Sub(dst, src1, src2),
            TokenValue::Mul => Instruction::Mul(dst, src1, src2),
            TokenValue::Div => Instruction::Div(dst, src1, src2),
            TokenValue::Mod => Instruction::Mod(dst, src1, src2),
            TokenValue::Asr => Instruction::Asr(dst, src1, src2),
            TokenValue::Lsl => Instruction::Lsl(dst, src1, src2),
            TokenValue::And => Instruction::And(dst, src1, src2),
            _ => Instruction::Orr(dst, src1, src2),
        };
        self.emit_instr(instr);
        match self.finish_statement() {
            Err(e) => Err(e),
            Ok(()) => {
                proof {
                    Self::lemma_stmt_wf(*old(self), *self, self.token_idx as int);
                }
                Ok(())
            },
        }
    }
}


impl Parser {
    /// The memory-access form `[ rn (, rm|imm|char)? ]`.
    pub fn parse_memory_access(&mut self) -> (r: Result<(u8, RegImmAddr), ParseError>)
        requires
            old(self).token_idx < old(self).tokens@.len(),
        ensures
            old(self).wf() ==> final(self).wf(),
            final(self).tokens == old(self).tokens,
            final(self).mapping == old(self).mapping,
            final(self).pstate() == old(self).pstate(),
            final(self).constant_pool_offset == old(self).constant_pool_offset,
            final(self).data_section_offset == old(self).data_section_offset,
            final(self).text_section_offset == old(self).text_section_offset,
            final(self).token_idx <= final(self).tokens@.len(),
            match r {
                Ok((rn, off)) => parse_mem_spec(old(self).toks(), old(self).token_idx as int)
                    == Ok::<((u8, RegImmAddrView), int), ParseError>(
                    ((rn, off@), final(self).token_idx as int),
                ) && !(off@ is Unresolved) && !(off@ is Address),
                Err(e) => parse_mem_spec(old(self).toks(), old(self).token_idx as int)
                    == Err::<((u8, RegImmAddrView), int), ParseError>(e),
            },
    {
        let ghost t = self.toks();
        let ghost i0 = self.token_idx as int;
        self.increment_position(1);
        let addr_reg = match self.take_register() {
            Ok(r) => r,
            Err(e) => {
                return Err(e);
            },
        };
        self.skip_whitespace();
        let mut offset: Option<RegImmAddr> = None;
        let mut has_comma = false;
        if !self.is_at_end() {
            if self.at_comma() {
                has_comma = true;
            }
        }
        if has_comma {
            self.increment_position(1);
            match self.take_operand(ParseErrorKind::OffsetTooBig) {
                Ok(o) => {
                    offset = Some(o);
                },
                Err(e) => {
                    return Err(e);
                },
            }
        }
        self.skip_whitespace();
        if self.is_at_end() {
            return Err(self.end_error());
        }
        let l0 = self.loc_here();
        let at_rbracket = match self.tokens[self.token_idx].value {
            TokenValue::RBracket => true,
            _ => false,
        };
        if !at_rbracket {
            return Err(ParseError { kind: ParseErrorKind::ExpectedRBracket, loc: l0 });
        }
        self.increment_position(1);
        match offset {
            Some(o) => Ok((addr_reg, o)),
            None => Ok((addr_reg, RegImmAddr::Imm(0))),
        }
    }

    /// `ld`-family statements: register move, label load or literal load
    /// through the constant pool, or memory access.
    pub fn parse_ld_instruction(&mut self, num_bytes: u8, sign_extension: bool) -> (r: Result<
        (),
        ParseError,
    >)
        requires
            old(self).wf(),
            old(self).token_idx < old(self).tokens@.len(),
            old(self).toks()[old(self).token_idx as int].value == TokenValueView::Ld(
                num_bytes,
                sign_extension,
            ),
        ensures
            final(self).tokens == old(self).tokens,
            match r {
                Ok(()) => final(self).wf() && parse_ld_spec(
                    old(self).toks(),
                    old(self).token_idx as int,
                    old(self).pstate(),
                    num_bytes,
                    sign_extension,
                ) == Ok::<(AsmState, int), ParseError>(
                    (final(self).pstate(), final(self).token_idx as int),
                ),
                Err(e) => parse_ld_spec(
                    old(self).toks(),
                    old(self).token_idx as int,
                    old(self).pstate(),
                    num_bytes,
                    sign_extension,
                ) == Err::<(AsmState, int), ParseError>(e),
            },
    {
        let ghost t = self.toks();
        let ghost i0 = self.token_idx as int;
        let ghost st0 = self.pstate();
        proof {
            self.lemma_room();
        }
        self.increment_position(1);
        let dst = match self.take_register() {
            Ok(r) => r,
            Err(e) => {
                return Err(e);
            },
        };
        match self.take_comma() {
            Ok(()) => (),
            Err(e) => {
                return Err(e);
            },
        }
        self.skip_whitespace();
        if self.is_at_end() {
            return Err(self.end_error());
        }
        let l0 = self.loc_here();
        let mut kind: u8 = 0;
        let mut reg: u8 = 0;
        let mut name: Vec<u8> = Vec::new();
        let mut imm: u64 = 0;
        match &self.tokens[self.token_idx].value {
            TokenValue::Register(r) => {
                kind = 1;
                reg = *r;
            },
            TokenValue::Label(l) => {
                kind = 2;
                name = copy_bytes(l);
            },
            TokenValue::Imm(v) => {
                kind = 3;
                imm = *v;
            },
            TokenValue::Char(c) => {
                kind = 4;
                imm = *c as u64;
            },
            TokenValue::LBracket => {
                kind = 5;
            },
            _ => {
                kind = 0;
            },
        }
        if kind == 1 && num_bytes == 8 {
            self.emit_instr(Instruction::Ld(dst, RegImmAddr::Register(reg)));
            self.increment_position(1);
        } else if kind == 2 && num_bytes == 8 {
            let pc = self.text_section_offset;
            let slot = self.constant_pool_offset;
            self.emit_instr(Instruction::Ld(dst, RegImmAddr::Unresolved(name, pc, slot)));
            crate::nums::push_le64(&mut self.constant_pool, 0);
            self.constant_pool_offset = self.constant_pool_offset + 8;
            self.increment_position(1);
        } else if (kind == 3 || kind == 4) && num_bytes == 8 {
            let off = crate::nums::pc_relative(
                self.constant_pool_offset,
                self.text_section_offset,
            );
            self.emit_instr(Instruction::Ld(dst, RegImmAddr::Address(off)));
            crate::nums::push_le64(&mut self.constant_pool, imm);
            self.constant_pool_offset = self.constant_pool_offset + 8;
            self.increment_position(1);
        } else if kind == 5 {
            let (addr_reg, off) = match self.parse_memory_access() {
                Ok(p) => p,
                Err(e) => {
                    return Err(e);
                },
            };
            self.emit_instr(
                Instruction::LdMem(num_bytes, sign_extension, dst, addr_reg, off),
            );
        } else {
            return Err(ParseError { kind: ParseErrorKind::InvalidLd, loc: l0 });
        }
        match self.finish_statement() {
            Err(e) => Err(e),
            Ok(()) => {
                proof {
                    Self::lemma_stmt_wf(*old(self), *self, self.token_idx as int);
                }
                Ok(())
            },
        }
    }

    /// `st`-family statements: `st rd, [rn (, offset)?]`.
    pub fn parse_st_instruction(&mut self, num_bytes: u8) -> (r: Result<(), ParseError>)
        requires
            old(self).wf(),
            old(self).token_idx < old(self).tokens@.len(),
            old(self).toks()[old(self).token_idx as int].value == TokenValueView::St(num_bytes),
        ensures
            final(self).tokens == old(self).tokens,
            match r {
                Ok(()) => final(self).wf() && parse_st_spec(
                    old(self).toks(),
                    old(self).token_idx as int,
                    old(self).pstate(),
                    num_bytes,
                ) == Ok::<(AsmState, int), ParseError>(
                    (final(self).pstate(), final(self).token_idx as int),
                ),
                Err(e) => parse_st_spec(
                    old(self).toks(),
                    old(self).token_idx as int,
                    old(self).pstate(),
                    num_bytes,
                ) == Err::<(AsmState, int), ParseError>(e),
            },
    {
        let ghost t = self.toks();
        let ghost i0 = self.token_idx as int;
        let ghost st0 = self.pstate();
        proof {
            self.lemma_room();
        }
        self.increment_position(1);
        let src = match self.take_register() {
            Ok(r) => r,
            Err(e) => {
                return Err(e);
            },
        };
        match self.take_comma() {
            Ok(()) => (),
            Err(e) => {
                return Err(e);
            },
        }
        self.skip_whitespace();
        if self.is_at_end() {
            return Err(self.end_error());
        }
        let l0 = self.loc_here();
        let at_lbracket = match self.tokens[self.token_idx].value {
            TokenValue::LBracket => true,
            _ => false,
        };
        if !at_lbracket {
            return Err(ParseError { kind: ParseErrorKind::InvalidSt, loc: l0 });
        }
        let (addr_reg, off) = match self.parse_memory_access() {
            Ok(p) => p,
            Err(e) => {
                return Err(e);
            },
        };
        self.emit_instr(Instruction::St(num_bytes, src, addr_reg, off));
        match self.finish_statement() {
            Err(e) => Err(e),
            Ok(()) => {
                proof {
                    Self::lemma_stmt_wf(*old(self), *self, self.token_idx as int);
                }
                Ok(())
            },
        }
    }
}


/// Prepends already-collected items to an item-list outcome.
pub open spec fn items_cont(
    pre: Seq<DataView>,
    r: Result<(Seq<DataView>, int), ParseError>,
) -> Result<(Seq<DataView>, int), ParseError> {
    match r {
        Ok((rest, n)) => Ok((pre + rest, n)),
        Err(e) => Err(e),
    }
}

/// Prepending twice is prepending the concatenation.
proof fn lemma_items_cont_assoc(
    a: Seq<DataView>,
    b: Seq<DataView>,
    r: Result<(Seq<DataView>, int), ParseError>,
)
    ensures
        items_cont(a, items_cont(b, r)) == items_cont(a + b, r),
{
    match r {
        Ok((rest, n)) => {
            assert(a + (b + rest) =~= (a + b) + rest);
        },
        _ => {},
    }
}

/// A prefix of an item list lays down at most as many bytes as the whole.
proof fn lemma_items_bytes_prefix(items: Seq<DataView>, k: int)
    requires
        0 <= k <= items.len(),
    ensures
        data_items_bytes(items.take(k)).len() <= data_items_bytes(items).len(),
    decreases items.len() - k,
{
    if k < items.len() {
        lemma_items_bytes_prefix(items, k + 1);
        assert(items.take(k + 1).drop_last() =~= items.take(k));
        assert(items.take(k + 1).last() == items[k]);
    } else {
        assert(items.take(k) =~= items);
    }
}

impl Parser {
    /// A data-type directive and its comma-separated item list, emitted
    /// little-endian into the data section (strings with a null
    /// terminator).
    pub fn parse_datatype_directive(&mut self, datatype: DataTypeDirective) -> (r: Result<
        (),
        ParseError,
    >)
        requires
            old(self).wf(),
            old(self).token_idx < old(self).tokens@.len(),
        ensures
            final(self).tokens == old(self).tokens,
            match r {
                Ok(()) => final(self).wf() && parse_datatype_spec(
                    old(self).toks(),
                    old(self).token_idx as int,
                    old(self).pstate(),
                    datatype,
                ) == Ok::<(AsmState, int), ParseError>(
                    (final(self).pstate(), final(self).token_idx as int),
                ) && old(self).token_idx < final(self).token_idx <= final(self).tokens@.len(),
                Err(e) => parse_datatype_spec(
                    old(self).toks(),
                    old(self).token_idx as int,
                    old(self).pstate(),
                    datatype,
                ) == Err::<(AsmState, int), ParseError>(e),
            },
    {
        let ghost t = self.toks();
        let ghost i0 = self.token_idx as int;
        let ghost st0 = self.pstate();
        self.increment_position(1);
        let mut data: Vec<Data> = Vec::new();
        let mut is_done = false;
        proof {
            assert(crate::seq_view(data@) =~= Seq::<DataView>::empty());
            assert(items_cont(
                Seq::<DataView>::empty(),
                parse_data_items(t, i0 + 1, datatype),
            ) == parse_data_items(t, i0 + 1, datatype)) by {
                match parse_data_items(t, i0 + 1, datatype) {
                    Ok((rest, n)) => {
                        assert(Seq::<DataView>::empty() + rest =~= rest);
                    },
                    _ => {},
                }
            }
        }
        loop
            invariant_except_break
                !is_done,
                parse_data_items(t, i0 + 1, datatype) == items_cont(
                    crate::seq_view(data@),
                    parse_data_items(t, self.token_idx as int, datatype),
                ),
            invariant
                self.wf(),
                self.tokens == old(self).tokens,
                self.mapping == old(self).mapping,
                self.constant_pool == old(self).constant_pool,
                self.data_section == old(self).data_section,
                self.instructions == old(self).instructions,
                self.constant_pool_offset == old(self).constant_pool_offset,
                self.data_section_offset == old(self).data_section_offset,
                self.text_section_offset == old(self).text_section_offset,
                t == self.toks(),
                st0 == self.pstate(),
                i0 == old(self).token_idx,
                i0 + 1 <= self.token_idx <= self.tokens@.len(),
            ensures
                self.wf(),
                self.tokens == old(self).tokens,
                self.mapping == old(self).mapping,
                self.constant_pool == old(self).constant_pool,
                self.data_section == old(self).data_section,
                self.instructions == old(self).instructions,
                self.constant_pool_offset == old(self).constant_pool_offset,
                self.data_section_offset == old(self).data_section_offset,
                self.text_section_offset == old(self).text_section_offset,
                t == self.toks(),
                st0 == self.pstate(),
                i0 == old(self).token_idx,
                i0 + 1 <= self.token_idx <= self.tokens@.len(),
                parse_data_items(t, i0 + 1, datatype) == Ok::<(Seq<DataView>, int), ParseError>(
                    (crate::seq_view(data@), self.token_idx as int),
                ),
            decreases self.tokens@.len() - self.token_idx + 1,
        {
            let ghost c = self.token_idx as int;
            if self.is_at_end() {
                proof {
                    assert(parse_data_items(t, c, datatype) == Ok::<
                        (Seq<DataView>, int),
                        ParseError,
                    >((Seq::<DataView>::empty(), c)));
                    assert(crate::seq_view(data@) + Seq::<DataView>::empty() =~= crate::seq_view(
                        data@,
                    ));
                }
                break;
            }
            let l0 = self.loc_here();
            let mut tkind: u8 = 0;
            let mut imm: u64 = 0;
            let mut ch: u8 = 0;
            let mut sv: Vec<u8> = Vec::new();
            match &self.tokens[self.token_idx].value {
                TokenValue::Whitespace => {
                    tkind = 1;
                },
                TokenValue::DataTypeDirective(_) => {
                    tkind = 2;
                },
                TokenValue::Imm(v) => {
                    tkind = 3;
                    imm = *v;
                },
                TokenValue::Char(cc) => {
                    tkind = 4;
                    ch = *cc;
                },
                TokenValue::String(s) => {
                    tkind = 5;
                    sv = copy_bytes(s);
                },
                _ => {
                    tkind = 0;
                },
            }
            if tkind == 1 {
                self.increment_position(1);
                continue;
            }
            if tkind == 2 {
                proof {
                    assert(parse_data_items(t, c, datatype) == Ok::<
                        (Seq<DataView>, int),
                        ParseError,
                    >((Seq::<DataView>::empty(), c)));
                    assert(crate::seq_view(data@) + Seq::<DataView>::empty() =~= crate::seq_view(
                        data@,
                    ));
                }
                break;
            }
            let item: Data = if tkind == 3 {
                let is_b1 = match datatype {
                    DataTypeDirective::Byte1 => true,
                    _ => false,
                };
                let is_b2 = match datatype {
                    DataTypeDirective::Byte2 => true,
                    _ => false,
                };
                let is_b4 = match datatype {
                    DataTypeDirective::Byte4 => true,
                    _ => false,
                };
                let is_b8 = match datatype {
                    DataTypeDirective::Byte8 => true,
                    _ => false,
                };
                if !(is_b1 || is_b2 || is_b4 || is_b8) {
                    return Err(
                        ParseError { kind: ParseErrorKind::UnexpectedToken, loc: l0 },
                    );
                }
                if is_b1 && imm > 0xFF {
                    return Err(ParseError { kind: ParseErrorKind::DataTooBig, loc: l0 });
                }
                if is_b2 && imm > 0xFFFF {
                    return Err(ParseError { kind: ParseErrorKind::DataTooBig, loc: l0 });
                }
                if is_b4 && imm > 0xFFFFFFFF {
                    return Err(ParseError { kind: ParseErrorKind::DataTooBig, loc: l0 });
                }
                if is_b1 {
                    Data::Byte1(imm as u8)
                } else if is_b2 {
                    Data::Byte2(imm as u16)
                } else if is_b4 {
                    Data::Byte4(imm as u32)
                } else {
                    Data::Byte8(imm)
                }
            } else if tkind == 4 {
                let is_char = match datatype {
                    DataTypeDirective::Char => true,
                    _ => false,
                };
                if !is_char {
                    return Err(
                        ParseError { kind: ParseErrorKind::UnexpectedToken, loc: l0 },
                    );
                }
                Data::Char(ch)
            } else if tkind == 5 {
                let is_str = match datatype {
                    DataTypeDirective::String => true,
                    _ => false,
                };
                if !is_str {
                    return Err(
                        ParseError { kind: ParseErrorKind::UnexpectedToken, loc: l0 },
                    );
                }
                Data::String(sv)
            } else {
                return Err(ParseError { kind: ParseErrorKind::UnexpectedToken, loc: l0 });
            };
            let ghost itemv = item@;
            let ghost pre = crate::seq_view(data@);
            proof {
                assert(parse_data_items(t, c, datatype) == items_after(t, c, itemv, datatype));
            }
            data.push(item);
            proof {
                crate::lemma_seq_view_push(data@.drop_last(), data@.last());
                assert(data@.drop_last().push(data@.last()) =~= data@);
                assert(crate::seq_view(data@) =~= pre + seq![itemv]);
            }
            self.increment_position(1);
            loop
                invariant_except_break
                    !is_done,
                    sep_scan(t, c + 1) == sep_scan(t, self.token_idx as int),
                invariant
                    self.wf(),
                    self.tokens == old(self).tokens,
                    self.mapping == old(self).mapping,
                    self.constant_pool == old(self).constant_pool,
                    self.data_section == old(self).data_section,
                    self.instructions == old(self).instructions,
                    self.constant_pool_offset == old(self).constant_pool_offset,
                    self.data_section_offset == old(self).data_section_offset,
                    self.text_section_offset == old(self).text_section_offset,
                    t == self.toks(),
                    st0 == self.pstate(),
                    i0 == old(self).token_idx,
                    c + 1 <= self.token_idx <= self.tokens@.len(),
                    parse_data_items(t, i0 + 1, datatype) == items_cont(
                        pre,
                        items_after(t, c, itemv, datatype),
                    ),
                    parse_data_items(t, c, datatype) == items_after(t, c, itemv, datatype),
                    pre + seq![itemv] =~= crate::seq_view(data@),
                ensures
                    self.wf(),
                    self.tokens == old(self).tokens,
                    self.mapping == old(self).mapping,
                    self.constant_pool == old(self).constant_pool,
                    self.data_section == old(self).data_section,
                    self.instructions == old(self).instructions,
                    self.constant_pool_offset == old(self).constant_pool_offset,
                    self.data_section_offset == old(self).data_section_offset,
                    self.text_section_offset == old(self).text_section_offset,
                    t == self.toks(),
                    st0 == self.pstate(),
                    i0 == old(self).token_idx,
                    c + 1 <= self.token_idx <= self.tokens@.len(),
                    parse_data_items(t, i0 + 1, datatype) == items_cont(
                        pre,
                        items_after(t, c, itemv, datatype),
                    ),
                    parse_data_items(t, c, datatype) == items_after(t, c, itemv, datatype),
                    pre + seq![itemv] =~= crate::seq_view(data@),
                    if is_done {
                        sep_scan(t, c + 1) == Ok::<SepScan, ParseError>(
                            SepScan::Stop(self.token_idx as int),
                        )
                    } else {
                        sep_scan(t, c + 1) == Ok::<SepScan, ParseError>(
                            SepScan::More(self.token_idx as int),
                        )
                    },
                decreases self.tokens@.len() - self.token_idx,
            {
                let ghost k = self.token_idx as int;
                if self.is_at_end() {
                    is_done = true;
                    proof {
                        assert(sep_scan(t, k) == Ok::<SepScan, ParseError>(SepScan::Stop(k)));
                    }
                    break;
                }
                let ls = self.loc_here();
                let mut skind: u8 = 0;
                match &self.tokens[self.token_idx].value {
                    TokenValue::Comma => {
                        skind = 1;
                    },
                    TokenValue::Whitespace => {
                        skind = 2;
                    },
                    TokenValue::Newline => {
                        skind = 3;
                    },
                    _ => {
                        skind = 0;
                    },
                }
                if skind == 1 {
                    self.increment_position(1);
                    proof {
                        assert(sep_scan(t, k) == Ok::<SepScan, ParseError>(
                            SepScan::More(k + 1),
                        ));
                    }
                    break;
                } else if skind == 2 {
                    proof {
                        assert(sep_scan(t, k) == sep_scan(t, k + 1));
                    }
                    self.increment_position(1);
                } else if skind == 3 {
                    is_done = true;
                    proof {
                        assert(sep_scan(t, k) == Ok::<SepScan, ParseError>(SepScan::Stop(k)));
                    }
                    break;
                } else {
                    proof {
                        assert(sep_scan(t, k) matches Err(ee) && ee == (ParseError {
                            kind: ParseErrorKind::UnexpectedToken,
                            loc: ls,
                        }));
                    }
                    return Err(
                        ParseError { kind: ParseErrorKind::UnexpectedToken, loc: ls },
                    );
                }
            }
            proof {
                lemma_items_cont_assoc(
                    pre,
                    seq![itemv],
                    parse_data_items(t, self.token_idx as int, datatype),
                );
                if is_done {
                    assert(items_after(t, c, itemv, datatype) == Ok::<
                        (Seq<DataView>, int),
                        ParseError,
                    >((seq![itemv], self.token_idx as int)));
                    assert(pre + seq![itemv] =~= crate::seq_view(data@));
                } else {
                    assert(items_after(t, c, itemv, datatype) == items_cont(
                        seq![itemv],
                        parse_data_items(t, self.token_idx as int, datatype),
                    ));
                }
            }
            if is_done {
                break;
            }
        }
        // Emit the collected items into the data section.
        let ghost items = crate::seq_view(data@);
        let ghost n_spec = self.token_idx as int;
        let ghost ds0 = self.data_section@;
        proof {
            lemma_items_bounds(t, i0 + 1, datatype);
            lemma_budget_diff(t, i0, i0 + 1);
            lemma_budget_diff(t, n_spec, t.len() as int);
            lemma_budget_diff(t, 0, i0);
            assert(ds0.len() + data_items_bytes(items).len() <= 0x2000_0000);
        }
        let n_items = data.len();
        let mut k: usize = 0;
        while k < n_items
            invariant
                n_items == data@.len(),
                k <= n_items,
                items == crate::seq_view(data@),
                self.tokens == old(self).tokens,
                self.mapping == old(self).mapping,
                self.constant_pool == old(self).constant_pool,
                self.instructions == old(self).instructions,
                self.constant_pool_offset == old(self).constant_pool_offset,
                self.text_section_offset == old(self).text_section_offset,
                self.token_idx == n_spec,
                t == self.toks(),
                i0 == old(self).token_idx,
                st0 == (AsmState {
                    symbols: self.mapping@,
                    pool: self.constant_pool@,
                    data: ds0,
                    instrs: crate::seq_view(self.instructions@),
                }),
                parse_data_items(t, i0 + 1, datatype) == Ok::<(Seq<DataView>, int), ParseError>(
                    (items, n_spec),
                ),
                budget(t, t.len() as int) <= 0x2000_0000,
                st_size(st0) <= budget(t, i0 as int),
                ld_slots_ok(crate::seq_view(self.instructions@), self.constant_pool@.len() as int),
                ds0.len() + data_items_bytes(items).len() <= 0x2000_0000,
                self.data_section@ == ds0 + data_items_bytes(items.take(k as int)),
                self.data_section_offset == 0x40 + self.data_section@.len(),
                self.tokens@.len() >= self.token_idx,
            decreases n_items - k,
        {
            proof {
                assert(items.take(k + 1).drop_last() =~= items.take(k as int));
                assert(items.take(k + 1).last() == items[k as int]);
                assert(items[k as int] == data@[k as int]@);
                lemma_items_bytes_prefix(items, k + 1);
            }
            match &data[k] {
                Data::String(s) => {
                    append_bytes(&mut self.data_section, s);
                    self.data_section.push(0);
                    proof {
                        assert(self.data_section@ =~= ds0 + data_items_bytes(
                            items.take(k + 1),
                        ));
                    }
                },
                Data::Char(c) => {
                    self.data_section.push(*c);
                    proof {
                        assert(self.data_section@ =~= ds0 + data_items_bytes(
                            items.take(k + 1),
                        ));
                    }
                },
                Data::Byte1(b) => {
                    self.data_section.push(*b);
                    proof {
                        assert(self.data_section@ =~= ds0 + data_items_bytes(
                            items.take(k + 1),
                        ));
                    }
                },
                Data::Byte2(b) => {
                    let v = *b;
                    crate::nums::push_le16(&mut self.data_section, v);
                    proof {
                        assert(self.data_section@ =~= ds0 + data_items_bytes(
                            items.take(k + 1),
                        ));
                    }
                },
                Data::Byte4(b) => {
                    let v = *b;
                    crate::nums::push_le32(&mut self.data_section, v);
                    proof {
                        assert(self.data_section@ =~= ds0 + data_items_bytes(
                            items.take(k + 1),
                        ));
                    }
                },
                Data::Byte8(b) => {
                    let v = *b;
                    crate::nums::push_le64(&mut self.data_section, v);
                    proof {
                        assert(self.data_section@ =~= ds0 + data_items_bytes(
                            items.take(k + 1),
                        ));
                    }
                },
            }
            let dn = self.data_section.len();
            self.data_section_offset = DATA_OFFSET + dn;
            k = k + 1;
        }
        proof {
            assert(items.take(n_items as int) =~= items);
            lemma_budget_diff(t, i0 + 1, n_spec);
            lemma_budget_diff(t, i0, n_spec);
        }
        Ok(())
    }
}


impl Parser {
    /// The data section, entered at its `.data` directive: label
    /// definitions at the data cursor and data-type directives, until a
    /// section directive, `Eof`, or the end of the stream.
    pub fn parse_data_section(&mut self) -> (r: Result<(), ParseError>)
        requires
            old(self).wf(),
            old(self).token_idx < old(self).tokens@.len(),
        ensures
            final(self).tokens == old(self).tokens,
            match r {
                Ok(()) => final(self).wf() && parse_data_sec(
                    old(self).toks(),
                    old(self).token_idx + 1,
                    old(self).pstate(),
                ) == Ok::<(AsmState, int), ParseError>(
                    (final(self).pstate(), final(self).token_idx as int),
                ) && old(self).token_idx < final(self).token_idx <= final(self).tokens@.len(),
                Err(e) => parse_data_sec(
                    old(self).toks(),
                    old(self).token_idx + 1,
                    old(self).pstate(),
                ) == Err::<(AsmState, int), ParseError>(e),
            },
    {
        let ghost t = self.toks();
        let ghost i0 = self.token_idx as int;
        let ghost st0 = self.pstate();
        self.increment_position(1);
        loop
            invariant
                self.wf(),
                self.tokens == old(self).tokens,
                t == self.toks(),
                i0 == old(self).token_idx,
                st0 == old(self).pstate(),
                i0 + 1 <= self.token_idx <= self.tokens@.len(),
                parse_data_sec(t, i0 + 1, st0) == parse_data_sec(
                    t,
                    self.token_idx as int,
                    self.pstate(),
                ),
            ensures
                self.wf(),
                self.tokens == old(self).tokens,
                t == self.toks(),
                i0 == old(self).token_idx,
                i0 + 1 <= self.token_idx <= self.tokens@.len(),
                parse_data_sec(t, i0 + 1, st0) == Ok::<(AsmState, int), ParseError>(
                    (self.pstate(), self.token_idx as int),
                ),
            decreases self.tokens@.len() - self.token_idx,
        {
            let ghost c = self.token_idx as int;
            if self.is_at_end() {
                break;
            }
            let l0 = self.loc_here();
            let mut kind: u8 = 0;
            let mut name: Vec<u8> = Vec::new();
            let mut dt: DataTypeDirective = DataTypeDirective::Byte1;
            match &self.tokens[self.token_idx].value {
                TokenValue::SectionDirective(_) => {
                    kind = 1;
                },
                TokenValue::Eof => {
                    kind = 1;
                },
                TokenValue::Whitespace => {
                    kind = 2;
                },
                TokenValue::Newline => {
                    kind = 2;
                },
                TokenValue::LabelDef(l) => {
                    kind = 3;
                    name = copy_bytes(l);
                },
                TokenValue::DataTypeDirective(d) => {
                    kind = 4;
                    dt = *d;
                },
                _ => {
                    kind = 0;
                },
            }
            if kind == 1 {
                break;
            } else if kind == 2 {
                self.increment_position(1);
            } else if kind == 3 {
                if self.mapping.contains(&name) {
                    return Err(ParseError { kind: ParseErrorKind::DuplicateLabel, loc: l0 });
                }
                let addr = self.data_section_offset;
                self.mapping.insert(name, addr);
                self.increment_position(1);
            } else if kind == 4 {
                match self.parse_datatype_directive(dt) {
                    Err(e) => {
                        return Err(e);
                    },
                    Ok(()) => (),
                }
            } else {
                return Err(ParseError { kind: ParseErrorKind::UnexpectedToken, loc: l0 });
            }
        }
        Ok(())
    }

    /// The text section, entered at its `.text` directive: label
    /// definitions at the text cursor and instruction statements, until a
    /// section directive, `Eof`, or the end of the stream.
    pub fn parse_text_section(&mut self) -> (r: Result<(), ParseError>)
        requires
            old(self).wf(),
            old(self).token_idx < old(self).tokens@.len(),
        ensures
            final(self).tokens == old(self).tokens,
            match r {
                Ok(()) => final(self).wf() && parse_text_sec(
                    old(self).toks(),
                    old(self).token_idx + 1,
                    old(self).pstate(),
                ) == Ok::<(AsmState, int), ParseError>(
                    (final(self).pstate(), final(self).token_idx as int),
                ) && old(self).token_idx < final(self).token_idx <= final(self).tokens@.len(),
                Err(e) => parse_text_sec(
                    old(self).toks(),
                    old(self).token_idx + 1,
                    old(self).pstate(),
                ) == Err::<(AsmState, int), ParseError>(e),
            },
    {
        let ghost t = self.toks();
        let ghost i0 = self.token_idx as int;
        let ghost st0 = self.pstate();
        self.increment_position(1);
        loop
            invariant
                self.wf(),
                self.tokens == old(self).tokens,
                t == self.toks(),
                i0 == old(self).token_idx,
                st0 == old(self).pstate(),
                i0 + 1 <= self.token_idx <= self.tokens@.len(),
                parse_text_sec(t, i0 + 1, st0) == parse_text_sec(
                    t,
                    self.token_idx as int,
                    self.pstate(),
                ),
            ensures
                self.wf(),
                self.tokens == old(self).tokens,
                t == self.toks(),
                i0 == old(self).token_idx,
                i0 + 1 <= self.token_idx <= self.tokens@.len(),
                parse_text_sec(t, i0 + 1, st0) == Ok::<(AsmState, int), ParseError>(
                    (self.pstate(), self.token_idx as int),
                ),
            decreases self.tokens@.len() - self.token_idx,
        {
            let ghost c = self.token_idx as int;
            let ghost pre_state = self.pstate();
            if self.is_at_end() {
                break;
            }
            let l0 = self.loc_here();
            let mut kind: u8 = 0;
            let mut name: Vec<u8> = Vec::new();
            let mut op: TokenValue = TokenValue::Halt;
            let mut ld_w: u8 = 0;
            let mut ld_se: bool = false;
            match &self.tokens[self.token_idx].value {
                TokenValue::SectionDirective(_) => {
                    kind = 1;
                },
                TokenValue::Eof => {
                    kind = 1;
                },
                TokenValue::Whitespace => {
                    kind = 2;
                },
                TokenValue::Newline => {
                    kind = 2;
                },
                TokenValue::LabelDef(l) => {
                    kind = 3;
                    name = copy_bytes(l);
                },
                TokenValue::Add => {
                    kind = 4;
                    op = TokenValue::Add;
                },
                TokenValue::Sub => {
                    kind = 4;
                    op = TokenValue::Sub;
                },
                TokenValue::Mul => {
                    kind = 4;
                    op = TokenValue::Mul;
                },
                TokenValue::Div => {
                    kind = 4;
                    op = TokenValue::Div;
                },
                TokenValue::Mod => {
                    kind = 4;
                    op = TokenValue::Mod;
                },
                TokenValue::Asr => {
                    kind = 4;
                    op = TokenValue::Asr;
                },
                TokenValue::Lsl => {
                    kind = 4;
                    op = TokenValue::Lsl;
                },
                TokenValue::And => {
                    kind = 4;
                    op = TokenValue::And;
                },
                TokenValue::Orr => {
                    kind = 4;
                    op = TokenValue::Orr;
                },
                TokenValue::Neg => {
                    kind = 5;
                },
                TokenValue::Swap => {
                    kind = 6;
                },
                TokenValue::Ld(w, se) => {
                    kind = 7;
                    ld_w = *w;
                    ld_se = *se;
                },
                TokenValue::St(w) => {
                    kind = 8;
                    ld_w = *w;
                },
                TokenValue::Halt => {
                    kind = 9;
                },
                TokenValue::B => {
                    kind = 10;
                },
                TokenValue::CBZ => {
                    kind = 11;
                    op = TokenValue::CBZ;
                },
                TokenValue::CBNZ => {
                    kind = 11;
                    op = TokenValue::CBNZ;
                },
                _ => {
                    kind = 0;
                },
            }
            if kind == 1 {
                break;
            } else if kind == 2 {
                self.increment_position(1);
            } else if kind == 3 {
                if self.mapping.contains(&name) {
                    return Err(ParseError { kind: ParseErrorKind::DuplicateLabel, loc: l0 });
                }
                let addr = self.text_section_offset;
                self.mapping.insert(name, addr);
                self.increment_position(1);
            } else {
                let rs: Result<(), ParseError> = if kind == 4 {
                    self.parse_reg_reg_immreg_instruction(op)
                } else if kind == 5 {
                    self.parse_neg_instruction()
                } else if kind == 6 {
                    self.parse_swap_instruction()
                } else if kind == 7 {
                    self.parse_ld_instruction(ld_w, ld_se)
                } else if kind == 8 {
                    self.parse_st_instruction(ld_w)
                } else if kind == 9 {
                    self.parse_halt_instruction()
                } else if kind == 10 {
                    self.parse_branch_instruction()
                } else if kind == 11 {
                    self.parse_cbz_cbnz_instruction(op)
                } else {
                    return Err(ParseError { kind: ParseErrorKind::UnexpectedToken, loc: l0 });
                };
                match rs {
                    Err(e) => {
                        proof {
                            assert(parse_text_sec(t, c, pre_state) == Err::<
                                (AsmState, int),
                                ParseError,
                            >(e));
                        }
                        return Err(e);
                    },
                    Ok(()) => {
                        proof {
                            lemma_stmt_bounds(t, c, pre_state);
                            assert(parse_text_sec(t, c, pre_state) == parse_text_sec(
                                t,
                                self.token_idx as int,
                                self.pstate(),
                            ));
                        }
                    },
                }
            }
        }
        Ok(())
    }
}


impl Parser {
    /// Pass 1 over the whole stream, then pass 2: label resolution.  On
    /// success the parser's state is exactly the one [`parse_spec`] gives
    /// for its tokens; the first fatal error is returned otherwise.
    #[verifier::rlimit(100)]
    pub fn parse(&mut self) -> (r: Result<(), AsmError>)
        requires
            old(self).wf(),
            old(self).token_idx == 0,
            old(self).pstate() == init_state(),
        ensures
            final(self).tokens == old(self).tokens,
            match r {
                Ok(()) => {
                    &&& final(self).wf()
                    &&& parse_spec(old(self).toks()) == Ok::<AsmState, AsmErrorView>(
                        final(self).pstate(),
                    )
                    &&& final(self).text_section_offset == 0x80 + 4 * final(self).instructions@.len()
                    &&& final(self).constant_pool_offset == final(self).constant_pool@.len()
                    &&& final(self).data_section_offset == 0x40 + final(self).data_section@.len()
                },
                Err(e) => parse_spec(old(self).toks()) == Err::<AsmState, AsmErrorView>(e@),
            },
    {
        let ghost t = self.toks();
        let ghost st0 = self.pstate();
        loop
            invariant
                self.wf(),
                self.tokens == old(self).tokens,
                t == self.toks(),
                st0 == old(self).pstate(),
                st0 == init_state(),
                self.token_idx <= self.tokens@.len(),
                parse_toks(t, 0, st0) == parse_toks(t, self.token_idx as int, self.pstate()),
            ensures
                self.wf(),
                self.tokens == old(self).tokens,
                t == self.toks(),
                parse_toks(t, 0, st0) == Ok::<AsmState, ParseError>(self.pstate()),
            decreases self.tokens@.len() - self.token_idx,
        {
            let ghost c = self.token_idx as int;
            let ghost pre_state = self.pstate();
            if self.is_at_end() {
                break;
            }
            let mut kind: u8 = 0;
            match &self.tokens[self.token_idx].value {
                TokenValue::SectionDirective(SectionDirective::Data) => {
                    kind = 1;
                },
                TokenValue::SectionDirective(SectionDirective::Text) => {
                    kind = 2;
                },
                _ => {
                    kind = 0;
                },
            }
            if kind == 1 {
                match self.parse_data_section() {
                    Err(e) => {
                        proof {
                            assert(parse_toks(t, c, pre_state) == Err::<AsmState, ParseError>(
                                e,
                            ));
                        }
                        return Err(AsmError::Parse(e));
                    },
                    Ok(()) => {
                        proof {
                            assert(parse_toks(t, c, pre_state) == parse_toks(
                                t,
                                self.token_idx as int,
                                self.pstate(),
                            ));
                        }
                    },
                }
            } else if kind == 2 {
                match self.parse_text_section() {
                    Err(e) => {
                        proof {
                            assert(parse_toks(t, c, pre_state) == Err::<AsmState, ParseError>(
                                e,
                            ));
                        }
                        return Err(AsmError::Parse(e));
                    },
                    Ok(()) => {
                        proof {
                            assert(parse_toks(t, c, pre_state) == parse_toks(
                                t,
                                self.token_idx as int,
                                self.pstate(),
                            ));
                        }
                    },
                }
            } else {
                self.increment_position(1);
            }
        }
        self.resolve_labels()
    }

    /// Pass 2: rewrites every unresolved operand into the PC-relative
    /// offset of its target, writing the absolute address of a label load's
    /// target into the reserved constant-pool slot.  Succeeds exactly when
    /// every referenced label is defined; an unknown name is reported.
    pub fn resolve_labels(&mut self) -> (r: Result<(), AsmError>)
        requires
            old(self).wf(),
        ensures
            final(self).tokens == old(self).tokens,
            match r {
                Ok(()) => {
                    &&& final(self).wf()
                    &&& resolve_from(old(self).pstate(), 0) == Ok::<AsmState, Seq<u8>>(
                        final(self).pstate(),
                    )
                },
                Err(e) => e@ matches AsmErrorView::UndefinedLabel(nm) && resolve_from(
                    old(self).pstate(),
                    0,
                ) == Err::<AsmState, Seq<u8>>(nm),
            },
    {
        let ghost st0 = self.pstate();
        let n = self.instructions.len();
        let mut i: usize = 0;
        while i < n
            invariant
                self.wf(),
                self.tokens == old(self).tokens,
                st0 == old(self).pstate(),
                n == self.instructions@.len(),
                i <= n,
                resolve_from(st0, 0) == resolve_from(self.pstate(), i as int),
            decreases n - i,
        {
            let ghost c = i as int;
            let ghost pre_state = self.pstate();
            let mut kind: u8 = 0;
            let mut name: Vec<u8> = Vec::new();
            let mut dst: u8 = 0;
            let mut pc: usize = 0;
            let mut slot: usize = 0;
            match &self.instructions[i] {
                Instruction::Ld(d, RegImmAddr::Unresolved(l, p, s)) => {
                    kind = 1;
                    dst = *d;
                    name = copy_bytes(l);
                    pc = *p;
                    slot = *s;
                },
                Instruction::B(RegImmAddr::Unresolved(l, p, s)) => {
                    kind = 2;
                    name = copy_bytes(l);
                    pc = *p;
                },
                Instruction::CBZ(d, RegImmAddr::Unresolved(l, p, s)) => {
                    kind = 3;
                    dst = *d;
                    name = copy_bytes(l);
                    pc = *p;
                },
                Instruction::CBNZ(d, RegImmAddr::Unresolved(l, p, s)) => {
                    kind = 4;
                    dst = *d;
                    name = copy_bytes(l);
                    pc = *p;
                },
                _ => {
                    kind = 0;
                },
            }
            if kind == 0 {
                i = i + 1;
                continue;
            }
            let addr = match self.mapping.get(&name) {
                Some(a) => a,
                None => {
                    return Err(AsmError::UndefinedLabel(name));
                },
            };
            if kind == 1 {
                proof {
                    assert(ld_unres_slot(crate::seq_view(self.instructions@)[c]) == Some(
                        (pc as int, slot as int),
                    ));
                }
                crate::nums::write8(&mut self.constant_pool, slot, addr as u64);
                let off = crate::nums::pc_relative(slot, pc);
                self.instructions.set(i, Instruction::Ld(dst, RegImmAddr::Address(off)));
            } else if kind == 2 {
                let off = crate::nums::pc_relative(addr, pc);
                self.instructions.set(i, Instruction::B(RegImmAddr::Address(off)));
            } else if kind == 3 {
                let off = crate::nums::pc_relative(addr, pc);
                self.instructions.set(i, Instruction::CBZ(dst, RegImmAddr::Address(off)));
            } else {
                let off = crate::nums::pc_relative(addr, pc);
                self.instructions.set(i, Instruction::CBNZ(dst, RegImmAddr::Address(off)));
            }
            proof {
                assert(crate::seq_view(self.instructions@) =~= pre_state.instrs.update(
                    c,
                    self.instructions@[c]@,
                ));
                if kind == 1 {
                    assert(self.constant_pool@ =~= splice8(
                        pre_state.pool,
                        slot as int,
                        crate::nums::le64(addr as u64),
                    ));
                }
                assert forall|a: int|
                    0 <= a < crate::seq_view(self.instructions@).len() && (#[trigger] ld_unres_slot(
                        crate::seq_view(self.instructions@)[a],
                    )) is Some implies {
                    let sl = ld_unres_slot(crate::seq_view(self.instructions@)[a]).unwrap().1;
                    0 <= sl && sl + 8 <= self.constant_pool@.len()
                } by {
                    assert(crate::seq_view(self.instructions@)[a] == if a == c {
                        self.instructions@[c]@
                    } else {
                        pre_state.instrs[a]
                    });
                }
                assert forall|a: int, b: int|
                    0 <= a < b < crate::seq_view(self.instructions@).len() && (
                    #[trigger] ld_unres_slot(crate::seq_view(self.instructions@)[a])) is Some && (
                    #[trigger] ld_unres_slot(crate::seq_view(self.instructions@)[b])) is Some
                    implies ld_unres_slot(crate::seq_view(self.instructions@)[a]).unwrap().1 + 8
                    <= ld_unres_slot(crate::seq_view(self.instructions@)[b]).unwrap().1 by {
                    assert(crate::seq_view(self.instructions@)[a] == if a == c {
                        self.instructions@[c]@
                    } else {
                        pre_state.instrs[a]
                    });
                    assert(crate::seq_view(self.instructions@)[b] == if b == c {
                        self.instructions@[c]@
                    } else {
                        pre_state.instrs[b]
                    });
                }
            }
            i = i + 1;
        }
        proof {
            assert(resolve_from(self.pstate(), n as int) == Ok::<AsmState, Seq<u8>>(
                self.pstate(),
            ));
        }
        Ok(())
    }
}


// ---------------------------------------------------------------------------
// Laws of label resolution
// ---------------------------------------------------------------------------

/// The one `RegImmAddr` operand of an instruction, if it has one.
pub open spec fn instr_operand(iv: InstructionView) -> Option<RegImmAddrView> {
    match iv {
        InstructionView::Halt => None,
        InstructionView::Swap(_, _) => None,
        InstructionView::Add(_, _, s) => Some(s),
        InstructionView::Sub(_, _, s) => Some(s),
        InstructionView::Mul(_, _, s) => Some(s),
        InstructionView::Div(_, _, s) => Some(s),
        InstructionView::Mod(_, _, s) => Some(s),
        InstructionView::Asr(_, _, s) => Some(s),
        InstructionView::Lsl(_, _, s) => Some(s),
        InstructionView::And(_, _, s) => Some(s),
        InstructionView::Orr(_, _, s) => Some(s),
        InstructionView::Neg(_, s) => Some(s),
        InstructionView::Ld(_, s) => Some(s),
        InstructionView::LdMem(_, _, _, _, o) => Some(o),
        InstructionView::St(_, _, _, o) => Some(o),
        InstructionView::B(t) => Some(t),
        InstructionView::CBZ(_, t) => Some(t),
        InstructionView::CBNZ(_, t) => Some(t),
    }
}

/// No operand of the instruction is unresolved.
pub open spec fn is_resolved_instr(iv: InstructionView) -> bool {
    match instr_operand(iv) {
        Some(o) => !(o is Unresolved),
        None => true,
    }
}

/// The instruction is an unresolved label reference that pass 2 rewrites:
/// a label load or a branch.
pub open spec fn refers_label(iv: InstructionView) -> bool {
    match iv {
        InstructionView::Ld(_, RegImmAddrView::Unresolved(_, _, _)) => true,
        InstructionView::B(RegImmAddrView::Unresolved(_, _, _)) => true,
        InstructionView::CBZ(_, RegImmAddrView::Unresolved(_, _, _)) => true,
        InstructionView::CBNZ(_, RegImmAddrView::Unresolved(_, _, _)) => true,
        _ => false,
    }
}

/// The name an unresolved label reference uses.
pub open spec fn referred_name(iv: InstructionView) -> Seq<u8> {
    match iv {
        InstructionView::Ld(_, RegImmAddrView::Unresolved(l, _, _)) => l,
        InstructionView::B(RegImmAddrView::Unresolved(l, _, _)) => l,
        InstructionView::CBZ(_, RegImmAddrView::Unresolved(l, _, _)) => l,
        InstructionView::CBNZ(_, RegImmAddrView::Unresolved(l, _, _)) => l,
        _ => Seq::empty(),
    }
}

/// An unresolved operand appears only in a label-reference instruction.
pub open spec fn unresolved_only_in_refs(iv: InstructionView) -> bool {
    !is_resolved_instr(iv) ==> refers_label(iv)
}

/// What one instruction becomes in pass 2, given the symbol table: branches
/// get the PC-relative offset of their target, a label load gets the
/// PC-relative offset of its reserved pool slot; everything else is kept.
pub open spec fn resolved_instr(syms: Seq<(Seq<u8>, int)>, iv: InstructionView) -> InstructionView {
    match iv {
        InstructionView::Ld(d, RegImmAddrView::Unresolved(l, pc, slot)) => InstructionView::Ld(
            d,
            RegImmAddrView::Address(crate::nums::trunc_i16(slot - pc)),
        ),
        InstructionView::B(RegImmAddrView::Unresolved(l, pc, _)) => InstructionView::B(
            RegImmAddrView::Address(
                crate::nums::trunc_i16(sym_lookup(syms, l).unwrap() - pc),
            ),
        ),
        InstructionView::CBZ(r, RegImmAddrView::Unresolved(l, pc, _)) => InstructionView::CBZ(
            r,
            RegImmAddrView::Address(
                crate::nums::trunc_i16(sym_lookup(syms, l).unwrap() - pc),
            ),
        ),
        InstructionView::CBNZ(r, RegImmAddrView::Unresolved(l, pc, _)) => InstructionView::CBNZ(
            r,
            RegImmAddrView::Address(
                crate::nums::trunc_i16(sym_lookup(syms, l).unwrap() - pc),
            ),
        ),
        _ => iv,
    }
}

/// Pass 2 is exact.  On success: the symbol table and the data section are
/// untouched; every instruction before `i` is untouched; every label
/// reference from `i` on has a defined target and becomes its PC-relative
/// offset (`target - pc`, truncated to 16 bits); the reserved pool slot of
/// every label load from `i` on holds the little-endian 8-byte absolute
/// address of its target; every other pool byte is untouched; and every
/// other instruction is kept verbatim.  Resolution succeeds if and only if
/// every label referenced from `i` on is defined.
pub proof fn lemma_resolve_correct(st: AsmState, i: int)
    requires
        0 <= i <= st.instrs.len(),
        ld_slots_ok(st.instrs, st.pool.len() as int),
    ensures
        resolve_from(st, i) matches Ok(st2) ==> {
            &&& st2.instrs.len() == st.instrs.len()
            &&& st2.symbols == st.symbols
            &&& st2.data == st.data
            &&& st2.pool.len() == st.pool.len()
            &&& forall|k: int| 0 <= k < i ==> st2.instrs[k] == st.instrs[k]
            &&& forall|k: int|
                i <= k < st.instrs.len() ==> #[trigger] st2.instrs[k] == resolved_instr(
                    st.symbols,
                    st.instrs[k],
                )
            &&& forall|k: int|
                i <= k < st.instrs.len() && #[trigger] refers_label(st.instrs[k])
                    ==> sym_contains(st.symbols, referred_name(st.instrs[k]))
            &&& forall|k: int|
                i <= k < st.instrs.len() && (#[trigger] ld_unres_slot(st.instrs[k])) is Some
                    ==> st2.pool.subrange(
                    ld_unres_slot(st.instrs[k]).unwrap().1,
                    ld_unres_slot(st.instrs[k]).unwrap().1 + 8,
                ) == crate::nums::le64(
                    sym_lookup(st.symbols, referred_name(st.instrs[k])).unwrap() as u64,
                )
            &&& forall|p: int|
                0 <= p < st.pool.len() && (forall|k: int|
                    i <= k < st.instrs.len() && (#[trigger] ld_unres_slot(st.instrs[k])) is Some
                        ==> !(ld_unres_slot(st.instrs[k]).unwrap().1 <= p < ld_unres_slot(
                        st.instrs[k],
                    ).unwrap().1 + 8)) ==> #[trigger] st2.pool[p] == st.pool[p]
        },
        resolve_from(st, i) matches Err(nm) ==> exists|k: int|
            i <= k < st.instrs.len() && #[trigger] refers_label(st.instrs[k]) && referred_name(
                st.instrs[k],
            ) == nm && !sym_contains(st.symbols, nm),
    decreases st.instrs.len() - i,
{
    if i < st.instrs.len() {
        let iv = st.instrs[i];
        if refers_label(iv) {
            let l = referred_name(iv);
            match sym_lookup(st.symbols, l) {
                None => {
                    assert(refers_label(st.instrs[i]));
                },
                Some(addr) => {
                    let st2 = match iv {
                        InstructionView::Ld(d, RegImmAddrView::Unresolved(l2, pc, slot)) => {
                            AsmState {
                                pool: splice8(
                                    st.pool,
                                    slot,
                                    crate::nums::le64(addr as u64),
                                ),
                                instrs: st.instrs.update(i, resolved_instr(st.symbols, iv)),
                                ..st
                            }
                        },
                        _ => AsmState {
                            instrs: st.instrs.update(i, resolved_instr(st.symbols, iv)),
                            ..st
                        },
                    };
                    assert(resolve_from(st, i) == resolve_from(st2, i + 1));
                    let slot_i: int = match ld_unres_slot(iv) {
                        Some((pc, s)) => s,
                        None => -1,
                    };
                    if ld_unres_slot(iv) is Some {
                        assert(0 <= slot_i && slot_i + 8 <= st.pool.len());
                        assert(st2.pool.len() == st.pool.len()) by {
                            assert(st2.pool =~= st.pool.take(slot_i) + crate::nums::le64(
                                addr as u64,
                            ) + st.pool.skip(slot_i + 8));
                        }
                        assert(st2.pool.subrange(slot_i, slot_i + 8) =~= crate::nums::le64(
                            addr as u64,
                        ));
                        assert(forall|p: int|
                            0 <= p < st.pool.len() && !(slot_i <= p < slot_i + 8)
                                ==> #[trigger] st2.pool[p] == st.pool[p]);
                    }
                    assert(ld_slots_ok(st2.instrs, st2.pool.len() as int)) by {
                        assert forall|a: int|
                            0 <= a < st2.instrs.len() && (#[trigger] ld_unres_slot(
                                st2.instrs[a],
                            )) is Some implies {
                            let sl = ld_unres_slot(st2.instrs[a]).unwrap().1;
                            0 <= sl && sl + 8 <= st2.pool.len()
                        } by {
                            if a != i {
                                assert(st2.instrs[a] == st.instrs[a]);
                            }
                        }
                        assert forall|a: int, b: int|
                            0 <= a < b < st2.instrs.len() && (#[trigger] ld_unres_slot(
                                st2.instrs[a],
                            )) is Some && (#[trigger] ld_unres_slot(st2.instrs[b])) is Some
                            implies ld_unres_slot(st2.instrs[a]).unwrap().1 + 8 <= ld_unres_slot(
                            st2.instrs[b],
                        ).unwrap().1 by {
                            assert(a != i && b != i);
                            assert(st2.instrs[a] == st.instrs[a]);
                            assert(st2.instrs[b] == st.instrs[b]);
                        }
                    }
                    lemma_resolve_correct(st2, i + 1);
                    if resolve_from(st2, i + 1) is Ok {
                        let st3 = resolve_from(st2, i + 1)->Ok_0;
                        assert forall|k: int|
                            i <= k < st.instrs.len() implies #[trigger] st3.instrs[k]
                            == resolved_instr(st.symbols, st.instrs[k]) by {
                            if k == i {
                                assert(st3.instrs[i] == st2.instrs[i]);
                                assert(st2.instrs[i] == resolved_instr(st.symbols, iv));
                            } else {
                                assert(st2.instrs[k] == st.instrs[k]);
                            }
                        }
                        assert forall|k: int|
                            i <= k < st.instrs.len() && (#[trigger] ld_unres_slot(
                                st.instrs[k],
                            )) is Some implies st3.pool.subrange(
                            ld_unres_slot(st.instrs[k]).unwrap().1,
                            ld_unres_slot(st.instrs[k]).unwrap().1 + 8,
                        ) == crate::nums::le64(
                            sym_lookup(st.symbols, referred_name(st.instrs[k])).unwrap() as u64,
                        ) by {
                            let sl = ld_unres_slot(st.instrs[k]).unwrap().1;
                            if k == i {
                                assert(sl == slot_i);
                                assert forall|p: int|
                                    #![trigger st3.pool[p]]
                                    slot_i <= p < slot_i + 8 implies st3.pool[p] == st2.pool[p] by {
                                    assert forall|m: int|
                                        i + 1 <= m < st2.instrs.len() && (
                                        #[trigger] ld_unres_slot(st2.instrs[m])) is Some
                                        implies !(ld_unres_slot(st2.instrs[m]).unwrap().1 <= p
                                        < ld_unres_slot(st2.instrs[m]).unwrap().1 + 8) by {
                                        assert(st2.instrs[m] == st.instrs[m]);
                                    }
                                }
                                assert(st3.pool.subrange(slot_i, slot_i + 8) =~= st2.pool.subrange(
                                    slot_i,
                                    slot_i + 8,
                                ));
                            } else {
                                assert(st2.instrs[k] == st.instrs[k]);
                                assert(st2.pool.subrange(sl, sl + 8) =~= st.pool.subrange(
                                    sl,
                                    sl + 8,
                                )) by {
                                    if ld_unres_slot(iv) is Some {
                                        assert(slot_i + 8 <= sl);
                                    }
                                }
                            }
                        }
                        assert forall|k: int|
                            i <= k < st.instrs.len() && #[trigger] refers_label(st.instrs[k])
                            implies sym_contains(st.symbols, referred_name(st.instrs[k])) by {
                            if k > i {
                                assert(st2.instrs[k] == st.instrs[k]);
                            }
                        }
                        assert forall|p: int|
                            0 <= p < st.pool.len() && (forall|k: int|
                                i <= k < st.instrs.len() && (#[trigger] ld_unres_slot(
                                    st.instrs[k],
                                )) is Some ==> !(ld_unres_slot(st.instrs[k]).unwrap().1 <= p
                                    < ld_unres_slot(st.instrs[k]).unwrap().1 + 8))
                            implies #[trigger] st3.pool[p] == st.pool[p] by {
                            assert forall|m: int|
                                i + 1 <= m < st2.instrs.len() && (#[trigger] ld_unres_slot(
                                    st2.instrs[m],
                                )) is Some implies !(ld_unres_slot(st2.instrs[m]).unwrap().1 <= p
                                < ld_unres_slot(st2.instrs[m]).unwrap().1 + 8) by {
                                assert(st2.instrs[m] == st.instrs[m]);
                            }
                            assert(st3.pool[p] == st2.pool[p]);
                            if ld_unres_slot(iv) is Some {
                                assert(ld_unres_slot(st.instrs[i]) is Some);
                                assert(!(slot_i <= p < slot_i + 8));
                                assert(st2.pool[p] == st.pool[p]);
                            }
                        }
                    }
                },
            }
        } else {
            assert(resolve_from(st, i) == resolve_from(st, i + 1));
            lemma_resolve_correct(st, i + 1);
            if resolve_from(st, i + 1) is Ok {
                let st3 = resolve_from(st, i + 1)->Ok_0;
                assert forall|k: int|
                    i <= k < st.instrs.len() implies #[trigger] st3.instrs[k] == resolved_instr(
                    st.symbols,
                    st.instrs[k],
                ) by {
                    if k == i {
                        assert(resolved_instr(st.symbols, iv) == iv);
                    }
                }
                assert(ld_unres_slot(st.instrs[i]) is None);
                assert forall|p: int|
                    0 <= p < st.pool.len() && (forall|k: int|
                        i <= k < st.instrs.len() && (#[trigger] ld_unres_slot(
                            st.instrs[k],
                        )) is Some ==> !(ld_unres_slot(st.instrs[k]).unwrap().1 <= p
                            < ld_unres_slot(st.instrs[k]).unwrap().1 + 8)) implies #[trigger] st3
                    .pool[p] == st.pool[p] by {
                    assert forall|m: int|
                        i + 1 <= m < st.instrs.len() && (#[trigger] ld_unres_slot(
                            st.instrs[m],
                        )) is Some implies !(ld_unres_slot(st.instrs[m]).unwrap().1 <= p
                        < ld_unres_slot(st.instrs[m]).unwrap().1 + 8) by {
                    }
                }
            }
        }
    }
}

/// After pass 2 no instruction holds an unresolved operand, provided every
/// unresolved operand sat in a label-reference instruction (the only kind
/// pass 1 produces them in).
pub proof fn lemma_resolve_no_unresolved(st: AsmState, i: int)
    requires
        0 <= i <= st.instrs.len(),
        forall|k: int| 0 <= k < i ==> is_resolved_instr(#[trigger] st.instrs[k]),
        forall|k: int| 0 <= k < st.instrs.len() ==> unresolved_only_in_refs(#[trigger] st.instrs[k]),
    ensures
        resolve_from(st, i) matches Ok(st2) ==> forall|k: int|
            0 <= k < st2.instrs.len() ==> is_resolved_instr(#[trigger] st2.instrs[k]),
    decreases st.instrs.len() - i,
{
    if i < st.instrs.len() {
        let iv = st.instrs[i];
        match resolve_from(st, i) {
            Err(_) => {},
            Ok(st2) => {
                if refers_label(iv) {
                    match sym_lookup(st.symbols, referred_name(iv)) {
                        None => {},
                        Some(addr) => {
                            let stn = match iv {
                                InstructionView::Ld(
                                    d,
                                    RegImmAddrView::Unresolved(l2, pc, slot),
                                ) => AsmState {
                                    pool: splice8(
                                        st.pool,
                                        slot,
                                        crate::nums::le64(addr as u64),
                                    ),
                                    instrs: st.instrs.update(
                                        i,
                                        resolved_instr(st.symbols, iv),
                                    ),
                                    ..st
                                },
                                _ => AsmState {
                                    instrs: st.instrs.update(
                                        i,
                                        resolved_instr(st.symbols, iv),
                                    ),
                                    ..st
                                },
                            };
                            assert(resolve_from(st, i) == resolve_from(stn, i + 1));
                            assert forall|k: int|
                                0 <= k < stn.instrs.len() implies unresolved_only_in_refs(
                                #[trigger] stn.instrs[k],
                            ) by {
                                if k != i {
                                    assert(stn.instrs[k] == st.instrs[k]);
                                }
                            }
                            assert forall|k: int| 0 <= k < i + 1 implies is_resolved_instr(
                                #[trigger] stn.instrs[k],
                            ) by {
                                if k < i {
                                    assert(stn.instrs[k] == st.instrs[k]);
                                }
                            }
                            lemma_resolve_no_unresolved(stn, i + 1);
                        },
                    }
                } else {
                    assert(resolve_from(st, i) == resolve_from(st, i + 1));
                    assert(is_resolved_instr(iv));
                    lemma_resolve_no_unresolved(st, i + 1);
                }
            },
        }
    }
}


/// A memory-access offset is never unresolved.
proof fn lemma_mem_operand(t: Seq<TokenView>, i: int)
    ensures
        parse_mem_spec(t, i) matches Ok(((rn, off), n)) ==> !(off is Unresolved),
{
}

/// Statements only produce unresolved operands inside label references.
proof fn lemma_stmt_refs(t: Seq<TokenView>, i: int, st: AsmState)
    requires
        0 <= i < t.len(),
        forall|k: int|
            0 <= k < st.instrs.len() ==> unresolved_only_in_refs(#[trigger] st.instrs[k]),
    ensures
        parse_stmt_spec(t, i, st) matches Ok((st2, n)) ==> forall|k: int|
            0 <= k < st2.instrs.len() ==> unresolved_only_in_refs(#[trigger] st2.instrs[k]),
{
    if parse_stmt_spec(t, i, st) is Ok {
        let (st2, n) = parse_stmt_spec(t, i, st)->Ok_0;
        let j1 = skip_ws(t, i + 1);
        match t[i].value {
            TokenValueView::Ld(w, se) => {
                if j1 < t.len() {
                    let j2 = skip_ws(t, j1 + 1);
                    if j2 < t.len() {
                        let j3 = skip_ws(t, j2 + 1);
                        if j3 < t.len() {
                            lemma_mem_operand(t, j3);
                        }
                    }
                }
            },
            TokenValueView::St(w) => {
                if j1 < t.len() {
                    let j2 = skip_ws(t, j1 + 1);
                    if j2 < t.len() {
                        let j3 = skip_ws(t, j2 + 1);
                        if j3 < t.len() {
                            lemma_mem_operand(t, j3);
                        }
                    }
                }
            },
            _ => {},
        }
        assert forall|k: int|
            0 <= k < st2.instrs.len() implies unresolved_only_in_refs(
            #[trigger] st2.instrs[k],
        ) by {
            if k < st.instrs.len() {
                assert(st2.instrs[k] == st.instrs[k]);
            }
        }
    }
}

/// The data section does not touch the instruction list.
proof fn lemma_data_sec_instrs(t: Seq<TokenView>, i: int, st: AsmState)
    requires
        0 <= i,
    ensures
        parse_data_sec(t, i, st) matches Ok((st2, n)) ==> st2.instrs == st.instrs,
    decreases t.len() - i,
{
    if i < t.len() {
        match t[i].value {
            TokenValueView::Whitespace => lemma_data_sec_instrs(t, i + 1, st),
            TokenValueView::Newline => lemma_data_sec_instrs(t, i + 1, st),
            TokenValueView::LabelDef(l) => {
                if !sym_contains(st.symbols, l) {
                    lemma_data_sec_instrs(
                        t,
                        i + 1,
                        AsmState { symbols: st.symbols.push((l, ds_off(st))), ..st },
                    );
                }
            },
            TokenValueView::DataTypeDirective(dt) => {
                match parse_datatype_spec(t, i, st, dt) {
                    Err(_) => {},
                    Ok((stx, n)) => {
                        if i < n <= t.len() {
                            lemma_data_sec_instrs(t, n, stx);
                        }
                    },
                }
            },
            _ => {},
        }
    }
}

/// The text section only produces unresolved operands inside label
/// references.
proof fn lemma_text_sec_refs(t: Seq<TokenView>, i: int, st: AsmState)
    requires
        0 <= i,
        forall|k: int|
            0 <= k < st.instrs.len() ==> unresolved_only_in_refs(#[trigger] st.instrs[k]),
    ensures
        parse_text_sec(t, i, st) matches Ok((st2, n)) ==> forall|k: int|
            0 <= k < st2.instrs.len() ==> unresolved_only_in_refs(#[trigger] st2.instrs[k]),
    decreases t.len() - i,
{
    if i < t.len() {
        match t[i].value {
            TokenValueView::SectionDirective(_) => {},
            TokenValueView::Eof => {},
            TokenValueView::Whitespace => lemma_text_sec_refs(t, i + 1, st),
            TokenValueView::Newline => lemma_text_sec_refs(t, i + 1, st),
            TokenValueView::LabelDef(l) => {
                if !sym_contains(st.symbols, l) {
                    lemma_text_sec_refs(
                        t,
                        i + 1,
                        AsmState { symbols: st.symbols.push((l, ts_off(st))), ..st },
                    );
                }
            },
            _ => {
                match parse_stmt_spec(t, i, st) {
                    Err(_) => {},
                    Ok((stx, n)) => {
                        lemma_stmt_refs(t, i, st);
                        if i < n <= t.len() {
                            lemma_text_sec_refs(t, n, stx);
                        }
                    },
                }
            },
        }
    }
}

/// Pass 1 only produces unresolved operands inside label references.
proof fn lemma_parse_toks_refs(t: Seq<TokenView>, i: int, st: AsmState)
    requires
        0 <= i,
        forall|k: int|
            0 <= k < st.instrs.len() ==> unresolved_only_in_refs(#[trigger] st.instrs[k]),
    ensures
        parse_toks(t, i, st) matches Ok(st2) ==> forall|k: int|
            0 <= k < st2.instrs.len() ==> unresolved_only_in_refs(#[trigger] st2.instrs[k]),
    decreases t.len() - i,
{
    if i < t.len() {
        match t[i].value {
            TokenValueView::SectionDirective(SectionDirective::Data) => {
                match parse_data_sec(t, i + 1, st) {
                    Err(_) => {},
                    Ok((stx, n)) => {
                        lemma_data_sec_instrs(t, i + 1, st);
                        if i < n <= t.len() {
                            lemma_parse_toks_refs(t, n, stx);
                        }
                    },
                }
            },
            TokenValueView::SectionDirective(SectionDirective::Text) => {
                match parse_text_sec(t, i + 1, st) {
                    Err(_) => {},
                    Ok((stx, n)) => {
                        lemma_text_sec_refs(t, i + 1, st);
                        if i < n <= t.len() {
                            lemma_parse_toks_refs(t, n, stx);
                        }
                    },
                }
            },
            _ => lemma_parse_toks_refs(t, i + 1, st),
        }
    }
}

/// After pass 2, no instruction contains an unresolved operand.
pub proof fn lemma_parse_spec_resolved(t: Seq<TokenView>)
    ensures
        parse_spec(t) matches Ok(st) ==> forall|k: int|
            0 <= k < st.instrs.len() ==> is_resolved_instr(#[trigger] st.instrs[k]),
{
    match parse_toks(t, 0, init_state()) {
        Err(_) => {},
        Ok(st1) => {
            lemma_parse_toks_refs(t, 0, init_state());
            lemma_resolve_no_unresolved(st1, 0);
        },
    }
}


/// The budget over a prefix only reads that prefix.
pub proof fn lemma_budget_prefix_eq(t1: Seq<TokenView>, t2: Seq<TokenView>, m: int)
    requires
        0 <= m <= t1.len(),
        m <= t2.len(),
        forall|k: int| 0 <= k < m ==> t1[k] == t2[k],
    ensures
        budget(t1, m) == budget(t2, m),
    decreases m,
{
    if m > 0 {
        lemma_budget_prefix_eq(t1, t2, m - 1);
    }
}

/// The budget of a concatenation is the sum of the budgets.
pub proof fn lemma_budget_concat(a: Seq<TokenView>, b: Seq<TokenView>)
    ensures
        budget(a + b, a.len() + b.len() as int) == budget(a, a.len() as int) + budget(
            b,
            b.len() as int,
        ),
    decreases b.len(),
{
    if b.len() == 0 {
        assert(a + b =~= a);
        lemma_budget_prefix_eq(a + b, a, a.len() as int);
    } else {
        lemma_budget_concat(a, b.drop_last());
        assert((a + b.drop_last()) =~= (a + b).take(a.len() + b.len() - 1));
        lemma_budget_prefix_eq(
            a + b.drop_last(),
            a + b,
            a.len() + b.len() - 1,
        );
        assert((a + b)[a.len() + b.len() - 1] == b.last());
        assert(budget(a + b, a.len() + b.len() as int) == budget(a + b, a.len() + b.len() - 1)
            + payload_len((a + b)[a.len() + b.len() - 1].value) + 9);
        assert(budget(b, b.len() as int) == budget(b, b.len() - 1) + payload_len(
            b[b.len() - 1].value,
        ) + 9);
        assert(b.drop_last().len() as int == b.len() - 1);
        lemma_budget_prefix_eq(b.drop_last(), b, b.len() - 1);
    }
}

} // verus!
