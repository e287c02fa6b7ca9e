//! The lexer: source bytes -> ordered token sequence terminated by `Eof`.
//!
//! Whitespace and newlines are emitted as tokens; comments are consumed and
//! emit nothing.  The whole scan is specified by the recursive function
//! [`lex_from`], and the executable scanner is proved to return exactly its
//! value, so tokenization is a function of the source bytes alone.
//!
//! Identifiers are folded to ASCII lower case for keyword matching only; a
//! label keeps its original spelling.

use vstd::prelude::*;
use crate::error::{LexError, LexErrorKind, NumBase};
use crate::token::{
    CommentType, DataTypeDirective, Loc, SectionDirective, Token, TokenValue, TokenValueView, TokenView,
};

verus! {

// ---------------------------------------------------------------------------
// Byte classes
// ---------------------------------------------------------------------------

/// The bytes the scanner treats as whitespace: the bytes whose Latin-1
/// character satisfies `char::is_whitespace`.
pub open spec fn is_space_byte(b: u8) -> bool {
    b == 0x09 || b == 0x0A || b == 0x0B || b == 0x0C || b == 0x0D || b == 0x20 || b == 0x85
        || b == 0xA0
}

/// ASCII letters and `_` begin an identifier.
pub open spec fn is_word_start(b: u8) -> bool {
    (0x41 <= b && b <= 0x5A) || (0x61 <= b && b <= 0x7A) || b == 0x5F
}

/// Identifiers continue with letters, digits, `_` and `.`.
pub open spec fn is_word_byte(b: u8) -> bool {
    (0x41 <= b && b <= 0x5A) || (0x61 <= b && b <= 0x7A) || (0x30 <= b && b <= 0x39) || b == 0x5F
        || b == 0x2E
}

/// Decimal digits.
pub open spec fn is_dec_digit(b: u8) -> bool {
    0x30 <= b && b <= 0x39
}

/// Hexadecimal digits, either case.
pub open spec fn is_hex_digit(b: u8) -> bool {
    (0x30 <= b && b <= 0x39) || (0x61 <= b && b <= 0x66) || (0x41 <= b && b <= 0x46)
}

/// Binary digits.
pub open spec fn is_bin_digit(b: u8) -> bool {
    b == 0x30 || b == 0x31
}

/// The ASCII lower-case fold of one byte.
pub open spec fn to_lower_byte(b: u8) -> u8 {
    if 0x41 <= b && b <= 0x5A {
        (b + 0x20) as u8
    } else {
        b
    }
}

/// The ASCII lower-case fold of a byte sequence.
pub open spec fn lower(s: Seq<u8>) -> Seq<u8> {
    s.map_values(|b: u8| to_lower_byte(b))
}

/// A byte class the scanner runs over.
#[derive(Debug, Clone, Copy, PartialEq, Eq, Structural)]
pub enum ByteClass {
    /// Identifier bytes.
    Word,
    /// Whitespace other than newline.
    SpaceNotNewline,
    /// Any byte other than newline.
    NotNewline,
    /// Decimal digits.
    Dec,
    /// Hexadecimal digits.
    Hex,
    /// Binary digits.
    Bin,
}

/// Membership of a byte in a class.
pub open spec fn in_class(c: ByteClass, b: u8) -> bool {
    match c {
        ByteClass::Word => is_word_byte(b),
        ByteClass::SpaceNotNewline => is_space_byte(b) && b != 0x0A,
        ByteClass::NotNewline => b != 0x0A,
        ByteClass::Dec => is_dec_digit(b),
        ByteClass::Hex => is_hex_digit(b),
        ByteClass::Bin => is_bin_digit(b),
    }
}

/// The first index at or after `i` whose byte is outside the class (or the
/// end of the input).
pub open spec fn class_end(s: Seq<u8>, i: int, c: ByteClass) -> int
    decreases s.len() - i,
{
    if i < s.len() && in_class(c, s[i]) {
        class_end(s, i + 1, c)
    } else {
        i
    }
}

/// `class_end` stays within bounds, every byte of the run is in the class,
/// and the run stops only at the end of input or at a byte outside the class.
pub proof fn lemma_class_end(s: Seq<u8>, i: int, c: ByteClass)
    requires
        0 <= i <= s.len(),
    ensures
        i <= class_end(s, i, c) <= s.len(),
        forall|k: int| i <= k < class_end(s, i, c) ==> in_class(c, s[k]),
        class_end(s, i, c) < s.len() ==> !in_class(c, s[class_end(s, i, c)]),
    decreases s.len() - i,
{
    if i < s.len() && in_class(c, s[i]) {
        lemma_class_end(s, i + 1, c);
    }
}

// ---------------------------------------------------------------------------
// Source locations
// ---------------------------------------------------------------------------

/// The location after consuming one byte: a newline advances the line and
/// resets the column; any other byte advances the column.
pub open spec fn step_loc(loc: Loc, b: u8) -> Loc {
    if b == 0x0A {
        Loc { line: (loc.line + 1) as u32, col: 1u32 }
    } else {
        Loc { line: loc.line, col: (loc.col + 1) as u32 }
    }
}

/// The location after consuming the bytes `s[i..j]`.
pub open spec fn advance_loc(loc: Loc, s: Seq<u8>, i: int, j: int) -> Loc
    decreases j - i,
{
    if i >= j {
        loc
    } else {
        advance_loc(step_loc(loc, s[i]), s, i + 1, j)
    }
}

/// Consuming one more byte is one more `step_loc`.
pub proof fn lemma_advance_loc_snoc(loc: Loc, s: Seq<u8>, i: int, j: int)
    requires
        i <= j,
    ensures
        advance_loc(loc, s, i, j + 1) == step_loc(advance_loc(loc, s, i, j), s[j]),
    decreases j - i,
{
    if i < j {
        lemma_advance_loc_snoc(step_loc(loc, s[i]), s, i + 1, j);
    } else {
        assert(advance_loc(step_loc(loc, s[j]), s, j + 1, j + 1) == step_loc(loc, s[j]));
    }
}

/// Line and column grow by at most one per byte consumed.
pub proof fn lemma_advance_loc_bounds(loc: Loc, s: Seq<u8>, i: int, j: int)
    requires
        i <= j,
        loc.line + (j - i) <= u32::MAX,
        loc.col + (j - i) <= u32::MAX,
    ensures
        advance_loc(loc, s, i, j).line <= loc.line + (j - i),
        advance_loc(loc, s, i, j).col <= loc.col + (j - i),
    decreases j - i,
{
    if i < j {
        lemma_advance_loc_bounds(step_loc(loc, s[i]), s, i + 1, j);
    }
}

// ---------------------------------------------------------------------------
// Keywords
// ---------------------------------------------------------------------------

/// A one-byte word.
pub open spec fn is1(w: Seq<u8>, a: u8) -> bool {
    w.len() == 1 && w[0] == a
}

/// A two-byte word.
pub open spec fn is2(w: Seq<u8>, a: u8, b: u8) -> bool {
    w.len() == 2 && w[0] == a && w[1] == b
}

/// A three-byte word.
pub open spec fn is3(w: Seq<u8>, a: u8, b: u8, c: u8) -> bool {
    w.len() == 3 && w[0] == a && w[1] == b && w[2] == c
}

/// A four-byte word.
pub open spec fn is4(w: Seq<u8>, a: u8, b: u8, c: u8, d: u8) -> bool {
    w.len() == 4 && w[0] == a && w[1] == b && w[2] == c && w[3] == d
}

/// The keyword table, applied to the lower-case fold of an identifier.
/// `None` means the identifier is no keyword and stays a label.
pub open spec fn keyword_value(w: Seq<u8>) -> Option<TokenValueView> {
    if is3(w, 0x61, 0x64, 0x64) {  // add
        Some(TokenValueView::Add)
    } else if is3(w, 0x73, 0x75, 0x62) {  // sub
        Some(TokenValueView::Sub)
    } else if is3(w, 0x6D, 0x75, 0x6C) {  // mul
        Some(TokenValueView::Mul)
    } else if is3(w, 0x64, 0x69, 0x76) {  // div
        Some(TokenValueView::Div)
    } else if is3(w, 0x6D, 0x6F, 0x64) {  // mod
        Some(TokenValueView::Mod)
    } else if is3(w, 0x61, 0x73, 0x72) {  // asr
        Some(TokenValueView::Asr)
    } else if is3(w, 0x6C, 0x73, 0x6C) {  // lsl
        Some(TokenValueView::Lsl)
    } else if is3(w, 0x61, 0x6E, 0x64) {  // and
        Some(TokenValueView::And)
    } else if is3(w, 0x6F, 0x72, 0x72) {  // orr
        Some(TokenValueView::Orr)
    } else if is3(w, 0x6E, 0x65, 0x67) {  // neg
        Some(TokenValueView::Neg)
    } else if is4(w, 0x73, 0x77, 0x61, 0x70) {  // swap
        Some(TokenValueView::Swap)
    } else if is4(w, 0x68, 0x61, 0x6C, 0x74) {  // halt
        Some(TokenValueView::Halt)
    } else if is3(w, 0x6C, 0x64, 0x31) || is4(w, 0x6C, 0x64, 0x31, 0x73) {  // ld1, ld1s
        Some(TokenValueView::Ld(1, w.len() == 4))
    } else if is3(w, 0x6C, 0x64, 0x32) || is4(w, 0x6C, 0x64, 0x32, 0x73) {  // ld2, ld2s
        Some(TokenValueView::Ld(2, w.len() == 4))
    } else if is3(w, 0x6C, 0x64, 0x34) || is4(w, 0x6C, 0x64, 0x34, 0x73) {  // ld4, ld4s
        Some(TokenValueView::Ld(4, w.len() == 4))
    } else if is2(w, 0x6C, 0x64) || is3(w, 0x6C, 0x64, 0x73) {  // ld, lds
        Some(TokenValueView::Ld(8, w.len() == 3))
    } else if is3(w, 0x73, 0x74, 0x31) {  // st1
        Some(TokenValueView::St(1))
    } else if is3(w, 0x73, 0x74, 0x32) {  // st2
        Some(TokenValueView::St(2))
    } else if is3(w, 0x73, 0x74, 0x34) {  // st4
        Some(TokenValueView::St(4))
    } else if is2(w, 0x73, 0x74) {  // st
        Some(TokenValueView::St(8))
    } else if is1(w, 0x62) {  // b
        Some(TokenValueView::B)
    } else if is3(w, 0x63, 0x62, 0x7A) {  // cbz
        Some(TokenValueView::CBZ)
    } else if is4(w, 0x63, 0x62, 0x6E, 0x7A) {  // cbnz
        Some(TokenValueView::CBNZ)
    } else if is3(w, 0x72, 0x7A, 0x72) {  // rzr: alias of the zero register
        Some(TokenValueView::Register(7))
    } else if w.len() == 2 && w[0] == 0x72 && 0x30 <= w[1] && w[1] <= 0x37 {  // r0 .. r7
        Some(TokenValueView::Register((w[1] - 0x30) as u8))
    } else {
        None
    }
}

// ---------------------------------------------------------------------------
// Numeric literals
// ---------------------------------------------------------------------------

/// The value of one digit byte.
pub open spec fn digit_val(b: u8) -> int {
    if 0x30 <= b && b <= 0x39 {
        b - 0x30
    } else if 0x61 <= b && b <= 0x66 {
        b - 0x61 + 10
    } else if 0x41 <= b && b <= 0x46 {
        b - 0x41 + 10
    } else {
        0
    }
}

/// The value of a digit run in the given radix, most significant first.
pub open spec fn digits_val(ds: Seq<u8>, radix: int) -> int
    decreases ds.len(),
{
    if ds.len() == 0 {
        0
    } else {
        digits_val(ds.drop_last(), radix) * radix + digit_val(ds.last())
    }
}

/// Digit-run values are non-negative.
pub proof fn lemma_digits_val_nonneg(ds: Seq<u8>, radix: int)
    requires
        radix >= 1,
    ensures
        digits_val(ds, radix) >= 0,
    decreases ds.len(),
{
    if ds.len() > 0 {
        lemma_digits_val_nonneg(ds.drop_last(), radix);
        vstd::arithmetic::mul::lemma_mul_nonnegative(digits_val(ds.drop_last(), radix), radix);
    }
}

/// A prefix of a digit run never has a larger value than the whole run.
pub proof fn lemma_digits_val_prefix_le(ds: Seq<u8>, k: int, radix: int)
    requires
        radix >= 1,
        0 <= k <= ds.len(),
    ensures
        digits_val(ds.take(k), radix) <= digits_val(ds, radix),
    decreases ds.len() - k,
{
    if k < ds.len() {
        lemma_digits_val_prefix_le(ds, k + 1, radix);
        let p = ds.take(k);
        let q = ds.take(k + 1);
        assert(q.drop_last() =~= p);
        assert(q.last() == ds[k]);
        lemma_digits_val_nonneg(p, radix);
        let dv = digits_val(p, radix);
        assert(dv * radix >= dv) by (nonlinear_arith)
            requires
                dv >= 0,
                radix >= 1,
        ;
        assert(digit_val(ds[k]) >= 0);
    } else {
        assert(ds.take(k) =~= ds);
    }
}

// ---------------------------------------------------------------------------
// The token-level scan
// ---------------------------------------------------------------------------

/// Shorthand for a token model.
pub open spec fn tv(loc: Loc, value: TokenValueView) -> TokenView {
    TokenView { loc, value }
}

/// What scanning one token yields on success: the emitted tokens (one, or
/// none for a comment), the next cursor, and the next location.
pub type LexStep = (Seq<TokenView>, int, Loc);

/// Scans an identifier starting at `i` and classifies it.  A keyword becomes
/// its mnemonic token; otherwise a following colon makes a label definition
/// (the colon is consumed) and anything else leaves a label use.
pub open spec fn word_token(s: Seq<u8>, i: int, loc: Loc) -> LexStep {
    let j = class_end(s, i, ByteClass::Word);
    let w = s.subrange(i, j);
    match keyword_value(lower(w)) {
        Some(v) => (seq![tv(loc, v)], j, advance_loc(loc, s, i, j)),
        None => {
            if j < s.len() && s[j] == 0x3A {  // ':'
                (
                    seq![tv(loc, TokenValueView::LabelDef(w))],
                    j + 1,
                    advance_loc(loc, s, i, j + 1),
                )
            } else {
                (seq![tv(loc, TokenValueView::Label(w))], j, advance_loc(loc, s, i, j))
            }
        },
    }
}

/// Scans a numeric literal: `0x` hexadecimal, `0b` binary, else decimal.
/// A base prefix without digits and a value beyond 64 bits are fatal.
pub open spec fn imm_token(s: Seq<u8>, i: int, loc: Loc) -> Result<LexStep, LexError> {
    if i + 2 <= s.len() && s[i] == 0x30 && s[i + 1] == 0x78 {  // 0x
        let j = class_end(s, i + 2, ByteClass::Hex);
        if j == i + 2 {
            Err(
                LexError {
                    kind: LexErrorKind::IncompleteLiteral(NumBase::Hex),
                    loc: advance_loc(loc, s, i, i + 2),
                },
            )
        } else if digits_val(s.subrange(i + 2, j), 16) > u64::MAX {
            Err(LexError { kind: LexErrorKind::LiteralOverflow(NumBase::Hex), loc })
        } else {
            Ok(
                (
                    seq![tv(loc, TokenValueView::Imm(digits_val(s.subrange(i + 2, j), 16) as u64))],
                    j,
                    advance_loc(loc, s, i, j),
                ),
            )
        }
    } else if i + 2 <= s.len() && s[i] == 0x30 && s[i + 1] == 0x62 {  // 0b
        let j = class_end(s, i + 2, ByteClass::Bin);
        if j == i + 2 {
            Err(
                LexError {
                    kind: LexErrorKind::IncompleteLiteral(NumBase::Bin),
                    loc: advance_loc(loc, s, i, i + 2),
                },
            )
        } else if digits_val(s.subrange(i + 2, j), 2) > u64::MAX {
            Err(LexError { kind: LexErrorKind::LiteralOverflow(NumBase::Bin), loc })
        } else {
            Ok(
                (
                    seq![tv(loc, TokenValueView::Imm(digits_val(s.subrange(i + 2, j), 2) as u64))],
                    j,
                    advance_loc(loc, s, i, j),
                ),
            )
        }
    } else {
        let j = class_end(s, i, ByteClass::Dec);
        if j == i {
            Err(
                LexError {
                    kind: LexErrorKind::IncompleteLiteral(NumBase::Dec),
                    loc: advance_loc(loc, s, i, i),
                },
            )
        } else if digits_val(s.subrange(i, j), 10) > u64::MAX {
            Err(LexError { kind: LexErrorKind::LiteralOverflow(NumBase::Dec), loc })
        } else {
            Ok(
                (
                    seq![tv(loc, TokenValueView::Imm(digits_val(s.subrange(i, j), 10) as u64))],
                    j,
                    advance_loc(loc, s, i, j),
                ),
            )
        }
    }
}

/// Whether `s[i..]` starts with the two given bytes.
pub open spec fn has2(s: Seq<u8>, i: int, a: u8, b: u8) -> bool {
    i + 2 <= s.len() && s[i] == a && s[i + 1] == b
}

/// Whether `s[i..]` starts with the four given bytes.
pub open spec fn has4(s: Seq<u8>, i: int, a: u8, b: u8, c: u8, d: u8) -> bool {
    i + 4 <= s.len() && s[i] == a && s[i + 1] == b && s[i + 2] == c && s[i + 3] == d
}

/// Whether `s[i..]` starts with the six given bytes.
pub open spec fn has6(s: Seq<u8>, i: int, a: u8, b: u8, c: u8, d: u8, e: u8, f: u8) -> bool {
    i + 6 <= s.len() && s[i] == a && s[i + 1] == b && s[i + 2] == c && s[i + 3] == d && s[i + 4]
        == e && s[i + 5] == f
}

/// Scans a directive at the `.` at `i`: `.text`, `.data`, `.char`,
/// `.string`, `.1b`, `.2b`, `.4b`, `.8b`.  Anything else is fatal.
pub open spec fn directive_token(s: Seq<u8>, i: int, loc: Loc) -> Result<LexStep, LexError> {
    if i + 1 >= s.len() {
        Err(LexError { kind: LexErrorKind::UnexpectedEof, loc: advance_loc(loc, s, i, i + 1) })
    } else if has4(s, i + 1, 0x74, 0x65, 0x78, 0x74) {  // text
        Ok(
            (
                seq![tv(loc, TokenValueView::SectionDirective(SectionDirective::Text))],
                i + 5,
                advance_loc(loc, s, i, i + 5),
            ),
        )
    } else if has4(s, i + 1, 0x64, 0x61, 0x74, 0x61) {  // data
        Ok(
            (
                seq![tv(loc, TokenValueView::SectionDirective(SectionDirective::Data))],
                i + 5,
                advance_loc(loc, s, i, i + 5),
            ),
        )
    } else if has4(s, i + 1, 0x63, 0x68, 0x61, 0x72) {  // char
        Ok(
            (
                seq![tv(loc, TokenValueView::DataTypeDirective(DataTypeDirective::Char))],
                i + 5,
                advance_loc(loc, s, i, i + 5),
            ),
        )
    } else if has6(s, i + 1, 0x73, 0x74, 0x72, 0x69, 0x6E, 0x67) {  // string
        Ok(
            (
                seq![tv(loc, TokenValueView::DataTypeDirective(DataTypeDirective::String))],
                i + 7,
                advance_loc(loc, s, i, i + 7),
            ),
        )
    } else if has2(s, i + 1, 0x31, 0x62) {  // 1b
        Ok(
            (
                seq![tv(loc, TokenValueView::DataTypeDirective(DataTypeDirective::Byte1))],
                i + 3,
                advance_loc(loc, s, i, i + 3),
            ),
        )
    } else if has2(s, i + 1, 0x32, 0x62) {  // 2b
        Ok(
            (
                seq![tv(loc, TokenValueView::DataTypeDirective(DataTypeDirective::Byte2))],
                i + 3,
                advance_loc(loc, s, i, i + 3),
            ),
        )
    } else if has2(s, i + 1, 0x34, 0x62) {  // 4b
        Ok(
            (
                seq![tv(loc, TokenValueView::DataTypeDirective(DataTypeDirective::Byte4))],
                i + 3,
                advance_loc(loc, s, i, i + 3),
            ),
        )
    } else if has2(s, i + 1, 0x38, 0x62) {  // 8b
        Ok(
            (
                seq![tv(loc, TokenValueView::DataTypeDirective(DataTypeDirective::Byte8))],
                i + 3,
                advance_loc(loc, s, i, i + 3),
            ),
        )
    } else {
        Err(LexError { kind: LexErrorKind::UnknownDirective, loc })
    }
}

/// The byte value of a character-literal escape, if recognized.
pub open spec fn char_escape_value(b: u8) -> Option<u8> {
    if b == 0x6E {  // n
        Some(0x0Au8)
    } else if b == 0x72 {  // r
        Some(0x0Du8)
    } else if b == 0x74 {  // t
        Some(0x09u8)
    } else if b == 0x30 {  // 0
        Some(0x00u8)
    } else if b == 0x27 {  // '
        Some(0x27u8)
    } else {
        None
    }
}

/// Scans a character literal at the opening quote at `i`: one non-control
/// byte or one escape, then the closing quote.
pub open spec fn char_token(s: Seq<u8>, i: int, loc: Loc) -> Result<LexStep, LexError> {
    if i + 1 >= s.len() {
        Err(LexError { kind: LexErrorKind::UnexpectedEof, loc: advance_loc(loc, s, i, i + 1) })
    } else {
        let c = s[i + 1];
        if c == 0x0A || c == 0x0D || c == 0x09 || c == 0x00 || c == 0x27 {
            Err(
                LexError {
                    kind: LexErrorKind::InvalidCharLiteral,
                    loc: advance_loc(loc, s, i, i + 1),
                },
            )
        } else if c == 0x5C {  // backslash
            if i + 2 >= s.len() {
                Err(
                    LexError {
                        kind: LexErrorKind::UnexpectedEof,
                        loc: advance_loc(loc, s, i, i + 2),
                    },
                )
            } else {
                match char_escape_value(s[i + 2]) {
                    None => Err(
                        LexError {
                            kind: LexErrorKind::InvalidEscape,
                            loc: advance_loc(loc, s, i, i + 2),
                        },
                    ),
                    Some(v) => {
                        if i + 3 >= s.len() {
                            Err(
                                LexError {
                                    kind: LexErrorKind::UnexpectedEof,
                                    loc: advance_loc(loc, s, i, i + 3),
                                },
                            )
                        } else if s[i + 3] != 0x27 {
                            Err(
                                LexError {
                                    kind: LexErrorKind::UnterminatedChar,
                                    loc: advance_loc(loc, s, i, i + 3),
                                },
                            )
                        } else {
                            Ok(
                                (
                                    seq![tv(loc, TokenValueView::Char(v))],
                                    i + 4,
                                    advance_loc(loc, s, i, i + 4),
                                ),
                            )
                        }
                    },
                }
            }
        } else {
            if i + 2 >= s.len() {
                Err(
                    LexError {
                        kind: LexErrorKind::UnexpectedEof,
                        loc: advance_loc(loc, s, i, i + 2),
                    },
                )
            } else if s[i + 2] != 0x27 {
                Err(
                    LexError {
                        kind: LexErrorKind::UnterminatedChar,
                        loc: advance_loc(loc, s, i, i + 2),
                    },
                )
            } else {
                Ok((seq![tv(loc, TokenValueView::Char(c))], i + 3, advance_loc(loc, s, i, i + 3)))
            }
        }
    }
}

/// The byte value of a string-literal escape, if recognized.
pub open spec fn string_escape_value(b: u8) -> Option<u8> {
    if b == 0x30 {  // 0
        Some(0x00u8)
    } else if b == 0x6E {  // n
        Some(0x0Au8)
    } else if b == 0x72 {  // r
        Some(0x0Du8)
    } else if b == 0x74 {  // t
        Some(0x09u8)
    } else if b == 0x5C {  // backslash
        Some(0x5Cu8)
    } else if b == 0x22 {  // "
        Some(0x22u8)
    } else {
        None
    }
}

/// The outcome of scanning a string-literal body.
pub enum StrScan {
    /// Content bytes after escape processing, and the index after the
    /// closing quote.
    Done(Seq<u8>, int),
    /// An unrecognized escape at this index.
    BadEscape(int),
    /// The input ended before the closing quote.
    Unterminated,
}

/// Scans a string-literal body from `i` (just after the opening quote) to
/// the closing quote, processing escapes.
pub open spec fn scan_string(s: Seq<u8>, i: int) -> StrScan
    decreases s.len() - i,
{
    if i >= s.len() {
        StrScan::Unterminated
    } else if s[i] == 0x22 {  // "
        StrScan::Done(Seq::empty(), i + 1)
    } else if s[i] == 0x5C {  // backslash
        if i + 1 < s.len() && string_escape_value(s[i + 1]) is Some {
            match scan_string(s, i + 2) {
                StrScan::Done(rest, j) => StrScan::Done(
                    seq![string_escape_value(s[i + 1]).unwrap()] + rest,
                    j,
                ),
                other => other,
            }
        } else {
            StrScan::BadEscape(i)
        }
    } else {
        match scan_string(s, i + 1) {
            StrScan::Done(rest, j) => StrScan::Done(seq![s[i]] + rest, j),
            other => other,
        }
    }
}

/// Scans a string literal at the opening quote at `i`.
pub open spec fn string_token(s: Seq<u8>, i: int, loc: Loc) -> Result<LexStep, LexError> {
    match scan_string(s, i + 1) {
        StrScan::Done(content, j) => Ok(
            (seq![tv(loc, TokenValueView::String(content))], j, advance_loc(loc, s, i, j)),
        ),
        StrScan::BadEscape(k) => Err(
            LexError { kind: LexErrorKind::InvalidEscape, loc: advance_loc(loc, s, i, k) },
        ),
        StrScan::Unterminated => Err(
            LexError {
                kind: LexErrorKind::UnterminatedString,
                loc: advance_loc(loc, s, i, s.len() as int),
            },
        ),
    }
}

/// The index of the `*` of the first `*/` at or after `i`, if any.
pub open spec fn block_comment_close(s: Seq<u8>, i: int) -> Option<int>
    decreases s.len() - i,
{
    if i >= s.len() {
        None
    } else if i + 1 < s.len() && s[i] == 0x2A && s[i + 1] == 0x2F {
        Some(i)
    } else {
        block_comment_close(s, i + 1)
    }
}

/// A found close sits within bounds and is a real `*/`.
pub proof fn lemma_block_comment_close(s: Seq<u8>, i: int)
    ensures
        block_comment_close(s, i) matches Some(j) ==> i <= j && j + 1 < s.len() && s[j] == 0x2A
            && s[j + 1] == 0x2F,
    decreases s.len() - i,
{
    if i < s.len() && !(i + 1 < s.len() && s[i] == 0x2A && s[i + 1] == 0x2F) {
        lemma_block_comment_close(s, i + 1);
    }
}

/// Scans a comment at the `/` at `i`.  A line comment runs to (and not
/// through) the newline; a block comment runs through the closing `*/`.
/// Comments emit no token.
pub open spec fn comment_token(s: Seq<u8>, i: int, loc: Loc) -> Result<LexStep, LexError> {
    if i + 1 >= s.len() {
        Err(LexError { kind: LexErrorKind::UnexpectedEof, loc: advance_loc(loc, s, i, i + 1) })
    } else if s[i + 1] == 0x2F {  // second /
        let j = class_end(s, i + 2, ByteClass::NotNewline);
        Ok((Seq::empty(), j, advance_loc(loc, s, i, j)))
    } else if s[i + 1] == 0x2A {  // *
        match block_comment_close(s, i + 2) {
            Some(j) => Ok((Seq::empty(), j + 2, advance_loc(loc, s, i, j + 2))),
            None => Err(
                LexError {
                    kind: LexErrorKind::UnexpectedEof,
                    loc: advance_loc(loc, s, i, s.len() as int),
                },
            ),
        }
    } else {
        Err(LexError { kind: LexErrorKind::UnknownComment, loc: advance_loc(loc, s, i, i + 1) })
    }
}

/// Scans one token at `i`, dispatching on the first byte.
pub open spec fn lex_token(s: Seq<u8>, i: int, loc: Loc) -> Result<LexStep, LexError>
    recommends
        0 <= i < s.len(),
{
    let b = s[i];
    if b == 0x3A {  // ':'
        Ok((seq![tv(loc, TokenValueView::Colon)], i + 1, advance_loc(loc, s, i, i + 1)))
    } else if b == 0x2C {  // ','
        Ok((seq![tv(loc, TokenValueView::Comma)], i + 1, advance_loc(loc, s, i, i + 1)))
    } else if b == 0x5B {  // '['
        Ok((seq![tv(loc, TokenValueView::LBracket)], i + 1, advance_loc(loc, s, i, i + 1)))
    } else if b == 0x5D {  // ']'
        Ok((seq![tv(loc, TokenValueView::RBracket)], i + 1, advance_loc(loc, s, i, i + 1)))
    } else if is_space_byte(b) && b != 0x0A {
        let j = class_end(s, i, ByteClass::SpaceNotNewline);
        Ok((seq![tv(loc, TokenValueView::Whitespace)], j, advance_loc(loc, s, i, j)))
    } else if b == 0x0A {
        Ok((seq![tv(loc, TokenValueView::Newline)], i + 1, advance_loc(loc, s, i, i + 1)))
    } else if b == 0x2F {  // '/'
        comment_token(s, i, loc)
    } else if is_word_start(b) {
        Ok(word_token(s, i, loc))
    } else if is_dec_digit(b) {
        imm_token(s, i, loc)
    } else if b == 0x2E {  // '.'
        directive_token(s, i, loc)
    } else if b == 0x27 {  // '\''
        char_token(s, i, loc)
    } else if b == 0x22 {  // '"'
        string_token(s, i, loc)
    } else {
        Err(LexError { kind: LexErrorKind::UnknownToken, loc })
    }
}

/// The token sequence of `s[i..]`, ending in `Eof`, or the first fatal
/// error.  Scanning one token always moves the cursor forward (each arm of
/// [`lex_token`] consumes at least one byte), so the inner guard never
/// fails; it keeps the recursion well-founded.
pub open spec fn lex_from(s: Seq<u8>, i: int, loc: Loc) -> Result<Seq<TokenView>, LexError>
    decreases s.len() - i,
{
    if i >= s.len() {
        Ok(seq![tv(loc, TokenValueView::Eof)])
    } else {
        match lex_token(s, i, loc) {
            Err(e) => Err(e),
            Ok((toks, j, loc2)) => {
                if i < j <= s.len() {
                    match lex_from(s, j, loc2) {
                        Ok(rest) => Ok(toks + rest),
                        Err(e) => Err(e),
                    }
                } else {
                    Err(LexError { kind: LexErrorKind::UnknownToken, loc })
                }
            },
        }
    }
}

/// The token sequence of a whole source, starting at line 1, column 1.
pub open spec fn lex_spec(s: Seq<u8>) -> Result<Seq<TokenView>, LexError> {
    lex_from(s, 0, Loc { line: 1u32, col: 1u32 })
}


// ---------------------------------------------------------------------------
// Further location lemmas
// ---------------------------------------------------------------------------

/// Advancing over `s[i..j]` is advancing over `s[i..k]` then `s[k..j]`.
pub proof fn lemma_advance_loc_trans(loc: Loc, s: Seq<u8>, i: int, k: int, j: int)
    requires
        i <= k <= j,
    ensures
        advance_loc(loc, s, i, j) == advance_loc(advance_loc(loc, s, i, k), s, k, j),
    decreases k - i,
{
    if i < k {
        lemma_advance_loc_trans(step_loc(loc, s[i]), s, i + 1, k, j);
    }
}

// ---------------------------------------------------------------------------
// Executable byte helpers
// ---------------------------------------------------------------------------

/// Executable test of byte-class membership.
pub fn in_class_byte(c: ByteClass, b: u8) -> (r: bool)
    ensures
        r == in_class(c, b),
{
    match c {
        ByteClass::Word => (0x41 <= b && b <= 0x5A) || (0x61 <= b && b <= 0x7A) || (0x30 <= b
            && b <= 0x39) || b == 0x5F || b == 0x2E,
        ByteClass::SpaceNotNewline => b == 0x09 || b == 0x0B || b == 0x0C || b == 0x0D || b == 0x20
            || b == 0x85 || b == 0xA0,
        ByteClass::NotNewline => b != 0x0A,
        ByteClass::Dec => 0x30 <= b && b <= 0x39,
        ByteClass::Hex => (0x30 <= b && b <= 0x39) || (0x61 <= b && b <= 0x66) || (0x41 <= b && b
            <= 0x46),
        ByteClass::Bin => b == 0x30 || b == 0x31,
    }
}

/// A fresh vector holding `src[from..to]`.
pub fn copy_range(src: &Vec<u8>, from: usize, to: usize) -> (r: Vec<u8>)
    requires
        from <= to <= src@.len(),
    ensures
        r@ == src@.subrange(from as int, to as int),
{
    let mut r: Vec<u8> = Vec::new();
    let mut k = from;
    while k < to
        invariant
            from <= k <= to <= src@.len(),
            r@.len() == k - from,
            forall|m: int| 0 <= m < r@.len() ==> r@[m] == src@[from + m],
        decreases to - k,
    {
        r.push(src[k]);
        k = k + 1;
    }
    proof {
        assert(r@ =~= src@.subrange(from as int, to as int));
    }
    r
}

/// The ASCII lower-case fold of a byte vector.
pub fn lower_bytes(w: &Vec<u8>) -> (r: Vec<u8>)
    ensures
        r@ == lower(w@),
{
    let mut r: Vec<u8> = Vec::new();
    let mut k: usize = 0;
    while k < w.len()
        invariant
            k <= w@.len(),
            r@.len() == k,
            forall|m: int| 0 <= m < k ==> r@[m] == to_lower_byte(w@[m]),
        decreases w@.len() - k,
    {
        let b = w[k];
        if 0x41 <= b && b <= 0x5A {
            r.push(b + 0x20);
        } else {
            r.push(b);
        }
        k = k + 1;
    }
    proof {
        assert(r@ =~= lower(w@));
    }
    r
}

/// Classifies a lower-cased identifier against the keyword table.
pub fn classify_word(w: &Vec<u8>) -> (r: Option<TokenValue>)
    ensures
        match r {
            Some(v) => keyword_value(w@) == Some(v@),
            None => keyword_value(w@) == None::<TokenValueView>,
        },
{
    let n = w.len();
    if n == 3 && w[0] == 0x61 && w[1] == 0x64 && w[2] == 0x64 {
        Some(TokenValue::Add)
    } else if n == 3 && w[0] == 0x73 && w[1] == 0x75 && w[2] == 0x62 {
        Some(TokenValue::Sub)
    } else if n == 3 && w[0] == 0x6D && w[1] == 0x75 && w[2] == 0x6C {
        Some(TokenValue::Mul)
    } else if n == 3 && w[0] == 0x64 && w[1] == 0x69 && w[2] == 0x76 {
        Some(TokenValue::Div)
    } else if n == 3 && w[0] == 0x6D && w[1] == 0x6F && w[2] == 0x64 {
        Some(TokenValue::Mod)
    } else if n == 3 && w[0] == 0x61 && w[1] == 0x73 && w[2] == 0x72 {
        Some(TokenValue::Asr)
    } else if n == 3 && w[0] == 0x6C && w[1] == 0x73 && w[2] == 0x6C {
        Some(TokenValue::Lsl)
    } else if n == 3 && w[0] == 0x61 && w[1] == 0x6E && w[2] == 0x64 {
        Some(TokenValue::And)
    } else if n == 3 && w[0] == 0x6F && w[1] == 0x72 && w[2] == 0x72 {
        Some(TokenValue::Orr)
    } else if n == 3 && w[0] == 0x6E && w[1] == 0x65 && w[2] == 0x67 {
        Some(TokenValue::Neg)
    } else if n == 4 && w[0] == 0x73 && w[1] == 0x77 && w[2] == 0x61 && w[3] == 0x70 {
        Some(TokenValue::Swap)
    } else if n == 4 && w[0] == 0x68 && w[1] == 0x61 && w[2] == 0x6C && w[3] == 0x74 {
        Some(TokenValue::Halt)
    } else if (n == 3 && w[0] == 0x6C && w[1] == 0x64 && w[2] == 0x31) || (n == 4 && w[0] == 0x6C
        && w[1] == 0x64 && w[2] == 0x31 && w[3] == 0x73) {
        Some(TokenValue::Ld(1, n == 4))
    } else if (n == 3 && w[0] == 0x6C && w[1] == 0x64 && w[2] == 0x32) || (n == 4 && w[0] == 0x6C
        && w[1] == 0x64 && w[2] == 0x32 && w[3] == 0x73) {
        Some(TokenValue::Ld(2, n == 4))
    } else if (n == 3 && w[0] == 0x6C && w[1] == 0x64 && w[2] == 0x34) || (n == 4 && w[0] == 0x6C
        && w[1] == 0x64 && w[2] == 0x34 && w[3] == 0x73) {
        Some(TokenValue::Ld(4, n == 4))
    } else if (n == 2 && w[0] == 0x6C && w[1] == 0x64) || (n == 3 && w[0] == 0x6C && w[1] == 0x64
        && w[2] == 0x73) {
        Some(TokenValue::Ld(8, n == 3))
    } else if n == 3 && w[0] == 0x73 && w[1] == 0x74 && w[2] == 0x31 {
        Some(TokenValue::St(1))
    } else if n == 3 && w[0] == 0x73 && w[1] == 0x74 && w[2] == 0x32 {
        Some(TokenValue::St(2))
    } else if n == 3 && w[0] == 0x73 && w[1] == 0x74 && w[2] == 0x34 {
        Some(TokenValue::St(4))
    } else if n == 2 && w[0] == 0x73 && w[1] == 0x74 {
        Some(TokenValue::St(8))
    } else if n == 1 && w[0] == 0x62 {
        Some(TokenValue::B)
    } else if n == 3 && w[0] == 0x63 && w[1] == 0x62 && w[2] == 0x7A {
        Some(TokenValue::CBZ)
    } else if n == 4 && w[0] == 0x63 && w[1] == 0x62 && w[2] == 0x6E && w[3] == 0x7A {
        Some(TokenValue::CBNZ)
    } else if n == 3 && w[0] == 0x72 && w[1] == 0x7A && w[2] == 0x72 {
        Some(TokenValue::Register(7))
    } else if n == 2 && w[0] == 0x72 && 0x30 <= w[1] && w[1] <= 0x37 {
        Some(TokenValue::Register(w[1] - 0x30))
    } else {
        None
    }
}

/// The value of one digit byte (0 for a non-digit).
pub fn digit_value(b: u8) -> (r: u8)
    ensures
        r as int == digit_val(b),
{
    if 0x30 <= b && b <= 0x39 {
        b - 0x30
    } else if 0x61 <= b && b <= 0x66 {
        b - 0x61 + 10
    } else if 0x41 <= b && b <= 0x46 {
        b - 0x41 + 10
    } else {
        0
    }
}

/// The overflow test used while accumulating digits is exact.
proof fn lemma_accum_bound(acc: u64, radix: u64, d: u64)
    requires
        2 <= radix,
        d < radix,
    ensures
        (acc > ((u64::MAX - d) as int) / (radix as int)) <==> (acc * radix + d > u64::MAX),
{
    let m = (u64::MAX - d) as int;
    let r = radix as int;
    let q = m / r;
    let rem = m % r;
    vstd::arithmetic::div_mod::lemma_fundamental_div_mod(m, r);
    vstd::arithmetic::div_mod::lemma_mod_bound(m, r);
    assert(m == r * q + rem);
    assert(0 <= rem < r);
    if acc <= q {
        vstd::arithmetic::mul::lemma_mul_inequality(acc as int, q, r);
        assert(q * r == r * q) by (nonlinear_arith);
        assert(acc * radix + d <= u64::MAX);
    } else {
        vstd::arithmetic::mul::lemma_mul_inequality(q + 1, acc as int, r);
        assert((q + 1) * r == r * q + r) by (nonlinear_arith);
        assert(acc * radix + d > u64::MAX);
    }
}

/// Reads the digit run `src[from..to]` as a number in the given radix, or
/// `None` when the value does not fit in 64 bits.
pub fn parse_digits(src: &Vec<u8>, from: usize, to: usize, radix: u64) -> (r: Option<u64>)
    requires
        from <= to <= src@.len(),
        2 <= radix <= 16,
        forall|k: int| from <= k < to ==> digit_val(src@[k]) < radix,
    ensures
        match r {
            Some(v) => v as int == digits_val(src@.subrange(from as int, to as int), radix as int),
            None => digits_val(src@.subrange(from as int, to as int), radix as int) > u64::MAX,
        },
{
    let ghost whole = src@.subrange(from as int, to as int);
    let mut acc: u64 = 0;
    let mut k = from;
    while k < to
        invariant
            from <= k <= to <= src@.len(),
            2 <= radix <= 16,
            forall|m: int| from <= m < to ==> digit_val(src@[m]) < radix,
            whole == src@.subrange(from as int, to as int),
            acc as int == digits_val(src@.subrange(from as int, k as int), radix as int),
        decreases to - k,
    {
        let ghost pre = src@.subrange(from as int, k as int);
        let d = digit_value(src[k]);
        proof {
            lemma_accum_bound(acc, radix, d as u64);
            assert(src@.subrange(from as int, k + 1 as int).drop_last() =~= pre);
            assert(src@.subrange(from as int, k + 1 as int).last() == src@[k as int]);
        }
        if acc > (u64::MAX - d as u64) / radix {
            proof {
                lemma_digits_val_prefix_le(whole, k + 1 - from, radix as int);
                assert(whole.take(k + 1 - from) =~= src@.subrange(from as int, k + 1 as int));
            }
            return None;
        }
        acc = acc * radix + d as u64;
        k = k + 1;
    }
    Some(acc)
}


// ---------------------------------------------------------------------------
// The lexer state
// ---------------------------------------------------------------------------

/// The scanner: a source buffer, the tokens produced so far, and two
/// cursors: the start of the token being scanned and the current position.
#[derive(Debug, Clone)]
pub struct Lexer {
    pub source: Vec<u8>,
    pub tokens: Vec<Token>,
    pub start_idx: usize,
    pub start_loc: Loc,
    pub curr_idx: usize,
    pub curr_loc: Loc,
}

impl Lexer {
    /// The scanner's invariant.  The source length is bounded so that
    /// 32-bit line and column counters cannot overflow: each grows by at
    /// most one per byte consumed.
    pub open spec fn wf(&self) -> bool {
        &&& self.curr_idx <= self.source@.len()
        &&& self.source@.len() < u32::MAX
        &&& self.curr_loc.line <= 1 + self.curr_idx
        &&& self.curr_loc.col <= 1 + self.curr_idx
    }

    /// Whether the cursor has reached the end of the source.
    pub fn is_at_end(&self) -> (r: bool)
        ensures
            r == (self.curr_idx >= self.source@.len()),
    {
        self.curr_idx >= self.source.len()
    }

    /// The byte at the cursor.
    pub fn peek(&self) -> (c: u8)
        requires
            self.curr_idx < self.source@.len(),
        ensures
            c == self.source@[self.curr_idx as int],
    {
        self.source[self.curr_idx]
    }

    /// Appends one token.
    fn add_token(&mut self, token: Token)
        ensures
            final(self).tokens@ == old(self).tokens@.push(token),
            final(self).source == old(self).source,
            final(self).start_idx == old(self).start_idx,
            final(self).start_loc == old(self).start_loc,
            final(self).curr_idx == old(self).curr_idx,
            final(self).curr_loc == old(self).curr_loc,
    {
        self.tokens.push(token)
    }

    /// Moves the cursor forward over `n` bytes, tracking line and column.
    fn increment_position(&mut self, n: usize)
        requires
            old(self).wf(),
            old(self).curr_idx + n <= old(self).source@.len(),
        ensures
            final(self).wf(),
            final(self).source == old(self).source,
            final(self).tokens == old(self).tokens,
            final(self).start_idx == old(self).start_idx,
            final(self).start_loc == old(self).start_loc,
            final(self).curr_idx == old(self).curr_idx + n,
            final(self).curr_loc == advance_loc(
                old(self).curr_loc,
                old(self).source@,
                old(self).curr_idx as int,
                old(self).curr_idx + n,
            ),
    {
        let ghost s = self.source@;
        let ghost i0 = self.curr_idx as int;
        let ghost loc0 = self.curr_loc;
        let mut k: usize = 0;
        while k < n
            invariant
                self.wf(),
                self.source == old(self).source,
                self.source@ == s,
                self.tokens == old(self).tokens,
                self.start_idx == old(self).start_idx,
                self.start_loc == old(self).start_loc,
                k <= n,
                i0 + n <= s.len(),
                i0 == old(self).curr_idx,
                loc0 == old(self).curr_loc,
                self.curr_idx == i0 + k,
                self.curr_loc == advance_loc(loc0, s, i0, i0 + k),
            decreases n - k,
        {
            proof {
                lemma_advance_loc_snoc(loc0, s, i0, i0 + k);
            }
            let b = self.source[self.curr_idx];
            if b == 0x0A {
                self.curr_loc = Loc { line: self.curr_loc.line + 1, col: 1 };
            } else {
                self.curr_loc = Loc { line: self.curr_loc.line, col: self.curr_loc.col + 1 };
            }
            self.curr_idx = self.curr_idx + 1;
            k = k + 1;
        }
    }

    /// The end of the run of class bytes starting at the cursor.
    fn class_run_end(&self, cls: ByteClass) -> (e: usize)
        requires
            self.curr_idx <= self.source@.len(),
        ensures
            e == class_end(self.source@, self.curr_idx as int, cls),
            self.curr_idx <= e <= self.source@.len(),
    {
        proof {
            lemma_class_end(self.source@, self.curr_idx as int, cls);
        }
        let mut j = self.curr_idx;
        while j < self.source.len() && in_class_byte(cls, self.source[j])
            invariant
                self.curr_idx <= j <= self.source@.len(),
                class_end(self.source@, self.curr_idx as int, cls) == class_end(
                    self.source@,
                    j as int,
                    cls,
                ),
            decreases self.source@.len() - j,
        {
            j = j + 1;
        }
        j
    }

    /// Consumes the two given bytes if they are next, else changes nothing.
    fn try_match2(&mut self, a: u8, b: u8) -> (r: bool)
        requires
            old(self).wf(),
        ensures
            final(self).wf(),
            final(self).source == old(self).source,
            final(self).tokens == old(self).tokens,
            final(self).start_idx == old(self).start_idx,
            final(self).start_loc == old(self).start_loc,
            r == has2(old(self).source@, old(self).curr_idx as int, a, b),
            r ==> final(self).curr_idx == old(self).curr_idx + 2 && final(self).curr_loc
                == advance_loc(
                old(self).curr_loc,
                old(self).source@,
                old(self).curr_idx as int,
                old(self).curr_idx + 2,
            ),
            !r ==> *final(self) == *old(self),
    {
        if self.source.len() >= 2 && self.curr_idx <= self.source.len() - 2 {
            if self.source[self.curr_idx] == a && self.source[self.curr_idx + 1] == b {
                self.increment_position(2);
                return true;
            }
        }
        false
    }

    /// Consumes the four given bytes if they are next, else changes nothing.
    fn try_match4(&mut self, a: u8, b: u8, c: u8, d: u8) -> (r: bool)
        requires
            old(self).wf(),
        ensures
            final(self).wf(),
            final(self).source == old(self).source,
            final(self).tokens == old(self).tokens,
            final(self).start_idx == old(self).start_idx,
            final(self).start_loc == old(self).start_loc,
            r == has4(old(self).source@, old(self).curr_idx as int, a, b, c, d),
            r ==> final(self).curr_idx == old(self).curr_idx + 4 && final(self).curr_loc
                == advance_loc(
                old(self).curr_loc,
                old(self).source@,
                old(self).curr_idx as int,
                old(self).curr_idx + 4,
            ),
            !r ==> *final(self) == *old(self),
    {
        if self.source.len() >= 4 && self.curr_idx <= self.source.len() - 4 {
            if self.source[self.curr_idx] == a && self.source[self.curr_idx + 1] == b
                && self.source[self.curr_idx + 2] == c && self.source[self.curr_idx + 3] == d {
                self.increment_position(4);
                return true;
            }
        }
        false
    }

    /// Consumes the six given bytes if they are next, else changes nothing.
    fn try_match6(&mut self, a: u8, b: u8, c: u8, d: u8, e: u8, f: u8) -> (r: bool)
        requires
            old(self).wf(),
        ensures
            final(self).wf(),
            final(self).source == old(self).source,
            final(self).tokens == old(self).tokens,
            final(self).start_idx == old(self).start_idx,
            final(self).start_loc == old(self).start_loc,
            r == has6(old(self).source@, old(self).curr_idx as int, a, b, c, d, e, f),
            r ==> final(self).curr_idx == old(self).curr_idx + 6 && final(self).curr_loc
                == advance_loc(
                old(self).curr_loc,
                old(self).source@,
                old(self).curr_idx as int,
                old(self).curr_idx + 6,
            ),
            !r ==> *final(self) == *old(self),
    {
        if self.source.len() >= 6 && self.curr_idx <= self.source.len() - 6 {
            if self.source[self.curr_idx] == a && self.source[self.curr_idx + 1] == b
                && self.source[self.curr_idx + 2] == c && self.source[self.curr_idx + 3] == d
                && self.source[self.curr_idx + 4] == e && self.source[self.curr_idx + 5] == f {
                self.increment_position(6);
                return true;
            }
        }
        false
    }
}


// ---------------------------------------------------------------------------
// One-token state transitions
// ---------------------------------------------------------------------------

/// The scanner moved from `pre` to `post` by scanning exactly the token
/// that [`lex_token`] gives at `pre`'s cursor.
pub open spec fn lex_stepped(pre: Lexer, post: Lexer) -> bool {
    &&& post.wf()
    &&& post.source == pre.source
    &&& post.curr_idx > pre.curr_idx
    &&& lex_token(pre.source@, pre.curr_idx as int, pre.curr_loc) matches Ok(step)
        && crate::seq_view(post.tokens@) == crate::seq_view(pre.tokens@) + step.0
        && post.curr_idx == step.1 && post.curr_loc == step.2
}

/// The scanner stopped at `pre`'s cursor with exactly the fatal error that
/// [`lex_token`] gives there.
pub open spec fn lex_failed(pre: Lexer, post: Lexer, e: LexError) -> bool {
    &&& post.wf()
    &&& post.source == pre.source
    &&& lex_token(pre.source@, pre.curr_idx as int, pre.curr_loc) == Err::<LexStep, LexError>(e)
}

impl Lexer {
    /// Scans a run of non-newline whitespace into one `Whitespace` token.
    fn parse_whitespace(&mut self)
        requires
            old(self).wf(),
            old(self).curr_idx < old(self).source@.len(),
            in_class(ByteClass::SpaceNotNewline, old(self).source@[old(self).curr_idx as int]),
            old(self).start_loc == old(self).curr_loc,
        ensures
            lex_stepped(*old(self), *final(self)),
    {
        let ghost s = self.source@;
        let ghost i0 = self.curr_idx as int;
        let ghost loc0 = self.curr_loc;
        proof {
            lemma_class_end(s, i0, ByteClass::SpaceNotNewline);
            assert(class_end(s, i0, ByteClass::SpaceNotNewline) == class_end(
                s,
                i0 + 1,
                ByteClass::SpaceNotNewline,
            ));
            lemma_class_end(s, i0 + 1, ByteClass::SpaceNotNewline);
        }
        let e = self.class_run_end(ByteClass::SpaceNotNewline);
        let n = e - self.curr_idx;
        self.increment_position(n);
        let loc = self.start_loc;
        let t = Token::new(loc, TokenValue::Whitespace);
        let ghost tg = t;
        self.add_token(t);
        proof {
            crate::lemma_seq_view_push(old(self).tokens@, tg);
        }
    }

    /// Scans an identifier and classifies it: keyword, label definition
    /// (with its colon), or label use.
    fn parse_word(&mut self)
        requires
            old(self).wf(),
            old(self).curr_idx < old(self).source@.len(),
            is_word_start(old(self).source@[old(self).curr_idx as int]),
            old(self).start_loc == old(self).curr_loc,
        ensures
            lex_stepped(*old(self), *final(self)),
    {
        let ghost s = self.source@;
        let ghost i0 = self.curr_idx as int;
        let ghost loc0 = self.curr_loc;
        proof {
            lemma_class_end(s, i0, ByteClass::Word);
            assert(class_end(s, i0, ByteClass::Word) == class_end(s, i0 + 1, ByteClass::Word));
            lemma_class_end(s, i0 + 1, ByteClass::Word);
        }
        let e = self.class_run_end(ByteClass::Word);
        let w = copy_range(&self.source, self.curr_idx, e);
        let lw = lower_bytes(&w);
        let n = e - self.curr_idx;
        self.increment_position(n);
        match classify_word(&lw) {
            Some(v) => {
                let loc = self.start_loc;
                let t = Token::new(loc, v);
                let ghost tg = t;
                self.add_token(t);
                proof {
                    crate::lemma_seq_view_push(old(self).tokens@, tg);
                }
            },
            None => {
                let mut is_def = false;
                if !self.is_at_end() {
                    if self.peek() == 0x3A {
                        is_def = true;
                    }
                }
                if is_def {
                    self.increment_position(1);
                    let loc = self.start_loc;
                    let t = Token::new(loc, TokenValue::LabelDef(w));
                    let ghost tg = t;
                    self.add_token(t);
                    proof {
                        crate::lemma_seq_view_push(old(self).tokens@, tg);
                        lemma_advance_loc_trans(loc0, s, i0, e as int, e + 1);
                    }
                } else {
                    let loc = self.start_loc;
                    let t = Token::new(loc, TokenValue::Label(w));
                    let ghost tg = t;
                    self.add_token(t);
                    proof {
                        crate::lemma_seq_view_push(old(self).tokens@, tg);
                    }
                }
            },
        }
    }

    /// Scans a numeric literal: `0x` hexadecimal, `0b` binary, else decimal.
    fn parse_immediate(&mut self) -> (r: Result<(), LexError>)
        requires
            old(self).wf(),
            old(self).curr_idx < old(self).source@.len(),
            is_dec_digit(old(self).source@[old(self).curr_idx as int]),
            old(self).start_loc == old(self).curr_loc,
        ensures
            match r {
                Ok(()) => lex_stepped(*old(self), *final(self)),
                Err(e) => lex_failed(*old(self), *final(self), e),
            },
    {
        let ghost s = self.source@;
        let ghost i0 = self.curr_idx as int;
        let ghost loc0 = self.curr_loc;
        if self.try_match2(0x30, 0x78) {
            let e = self.class_run_end(ByteClass::Hex);
            proof {
                lemma_class_end(s, i0 + 2, ByteClass::Hex);
            }
            if e == self.curr_idx {
                return Err(
                    LexError {
                        kind: LexErrorKind::IncompleteLiteral(NumBase::Hex),
                        loc: self.curr_loc,
                    },
                );
            }
            proof {
                assert forall|k: int| i0 + 2 <= k < e ==> digit_val(s[k]) < 16 by {
                    lemma_class_end(s, i0 + 2, ByteClass::Hex);
                }
            }
            let r = parse_digits(&self.source, self.curr_idx, e, 16);
            match r {
                None => Err(
                    LexError {
                        kind: LexErrorKind::LiteralOverflow(NumBase::Hex),
                        loc: self.start_loc,
                    },
                ),
                Some(v) => {
                    let n = e - self.curr_idx;
                    self.increment_position(n);
                    let loc = self.start_loc;
                    let t = Token::new(loc, TokenValue::Imm(v));
                    let ghost tg = t;
                    self.add_token(t);
                    proof {
                        crate::lemma_seq_view_push(old(self).tokens@, tg);
                        lemma_advance_loc_trans(loc0, s, i0, i0 + 2, e as int);
                    }
                    Ok(())
                },
            }
        } else if self.try_match2(0x30, 0x62) {
            let e = self.class_run_end(ByteClass::Bin);
            proof {
                lemma_class_end(s, i0 + 2, ByteClass::Bin);
            }
            if e == self.curr_idx {
                return Err(
                    LexError {
                        kind: LexErrorKind::IncompleteLiteral(NumBase::Bin),
                        loc: self.curr_loc,
                    },
                );
            }
            proof {
                assert forall|k: int| i0 + 2 <= k < e ==> digit_val(s[k]) < 2 by {
                    lemma_class_end(s, i0 + 2, ByteClass::Bin);
                }
            }
            let r = parse_digits(&self.source, self.curr_idx, e, 2);
            match r {
                None => Err(
                    LexError {
                        kind: LexErrorKind::LiteralOverflow(NumBase::Bin),
                        loc: self.start_loc,
                    },
                ),
                Some(v) => {
                    let n = e - self.curr_idx;
                    self.increment_position(n);
                    let loc = self.start_loc;
                    let t = Token::new(loc, TokenValue::Imm(v));
                    let ghost tg = t;
                    self.add_token(t);
                    proof {
                        crate::lemma_seq_view_push(old(self).tokens@, tg);
                        lemma_advance_loc_trans(loc0, s, i0, i0 + 2, e as int);
                    }
                    Ok(())
                },
            }
        } else {
            proof {
                lemma_class_end(s, i0, ByteClass::Dec);
                assert(class_end(s, i0, ByteClass::Dec) == class_end(s, i0 + 1, ByteClass::Dec));
                lemma_class_end(s, i0 + 1, ByteClass::Dec);
            }
            let e = self.class_run_end(ByteClass::Dec);
            if e == self.curr_idx {
                return Err(
                    LexError {
                        kind: LexErrorKind::IncompleteLiteral(NumBase::Dec),
                        loc: self.curr_loc,
                    },
                );
            }
            proof {
                assert forall|k: int| i0 <= k < e ==> digit_val(s[k]) < 10 by {
                    lemma_class_end(s, i0, ByteClass::Dec);
                }
            }
            let r = parse_digits(&self.source, self.curr_idx, e, 10);
            match r {
                None => Err(
                    LexError {
                        kind: LexErrorKind::LiteralOverflow(NumBase::Dec),
                        loc: self.start_loc,
                    },
                ),
                Some(v) => {
                    let n = e - self.curr_idx;
                    self.increment_position(n);
                    let loc = self.start_loc;
                    let t = Token::new(loc, TokenValue::Imm(v));
                    let ghost tg = t;
                    self.add_token(t);
                    proof {
                        crate::lemma_seq_view_push(old(self).tokens@, tg);
                    }
                    Ok(())
                },
            }
        }
    }
}


impl Lexer {
    /// Scans a directive at a `.`: a section directive or a data-type
    /// directive.  An unknown name is fatal.
    fn parse_directive(&mut self) -> (r: Result<(), LexError>)
        requires
            old(self).wf(),
            old(self).curr_idx < old(self).source@.len(),
            old(self).source@[old(self).curr_idx as int] == 0x2E,
            old(self).start_loc == old(self).curr_loc,
        ensures
            match r {
                Ok(()) => lex_stepped(*old(self), *final(self)),
                Err(e) => lex_failed(*old(self), *final(self), e),
            },
    {
        let ghost s = self.source@;
        let ghost i0 = self.curr_idx as int;
        let ghost loc0 = self.curr_loc;
        self.increment_position(1);
        if self.is_at_end() {
            return Err(LexError { kind: LexErrorKind::UnexpectedEof, loc: self.curr_loc });
        }
        let start_loc = self.start_loc;
        if self.try_match4(0x74, 0x65, 0x78, 0x74) {
            let t = Token::new(start_loc, TokenValue::SectionDirective(SectionDirective::Text));
            let ghost tg = t;
            self.add_token(t);
            proof {
                crate::lemma_seq_view_push(old(self).tokens@, tg);
                lemma_advance_loc_trans(loc0, s, i0, i0 + 1, i0 + 5);
            }
            Ok(())
        } else if self.try_match4(0x64, 0x61, 0x74, 0x61) {
            let t = Token::new(start_loc, TokenValue::SectionDirective(SectionDirective::Data));
            let ghost tg = t;
            self.add_token(t);
            proof {
                crate::lemma_seq_view_push(old(self).tokens@, tg);
                lemma_advance_loc_trans(loc0, s, i0, i0 + 1, i0 + 5);
            }
            Ok(())
        } else if self.try_match4(0x63, 0x68, 0x61, 0x72) {
            let t = Token::new(start_loc, TokenValue::DataTypeDirective(DataTypeDirective::Char));
            let ghost tg = t;
            self.add_token(t);
            proof {
                crate::lemma_seq_view_push(old(self).tokens@, tg);
                lemma_advance_loc_trans(loc0, s, i0, i0 + 1, i0 + 5);
            }
            Ok(())
        } else if self.try_match6(0x73, 0x74, 0x72, 0x69, 0x6E, 0x67) {
            let t = Token::new(start_loc, TokenValue::DataTypeDirective(DataTypeDirective::String));
            let ghost tg = t;
            self.add_token(t);
            proof {
                crate::lemma_seq_view_push(old(self).tokens@, tg);
                lemma_advance_loc_trans(loc0, s, i0, i0 + 1, i0 + 7);
            }
            Ok(())
        } else if self.try_match2(0x31, 0x62) {
            let t = Token::new(start_loc, TokenValue::DataTypeDirective(DataTypeDirective::Byte1));
            let ghost tg = t;
            self.add_token(t);
            proof {
                crate::lemma_seq_view_push(old(self).tokens@, tg);
                lemma_advance_loc_trans(loc0, s, i0, i0 + 1, i0 + 3);
            }
            Ok(())
        } else if self.try_match2(0x32, 0x62) {
            let t = Token::new(start_loc, TokenValue::DataTypeDirective(DataTypeDirective::Byte2));
            let ghost tg = t;
            self.add_token(t);
            proof {
                crate::lemma_seq_view_push(old(self).tokens@, tg);
                lemma_advance_loc_trans(loc0, s, i0, i0 + 1, i0 + 3);
            }
            Ok(())
        } else if self.try_match2(0x34, 0x62) {
            let t = Token::new(start_loc, TokenValue::DataTypeDirective(DataTypeDirective::Byte4));
            let ghost tg = t;
            self.add_token(t);
            proof {
                crate::lemma_seq_view_push(old(self).tokens@, tg);
                lemma_advance_loc_trans(loc0, s, i0, i0 + 1, i0 + 3);
            }
            Ok(())
        } else if self.try_match2(0x38, 0x62) {
            let t = Token::new(start_loc, TokenValue::DataTypeDirective(DataTypeDirective::Byte8));
            let ghost tg = t;
            self.add_token(t);
            proof {
                crate::lemma_seq_view_push(old(self).tokens@, tg);
                lemma_advance_loc_trans(loc0, s, i0, i0 + 1, i0 + 3);
            }
            Ok(())
        } else {
            Err(LexError { kind: LexErrorKind::UnknownDirective, loc: start_loc })
        }
    }

    /// Scans a character literal: one non-control byte or one escape
    /// between single quotes.
    fn parse_char(&mut self) -> (r: Result<(), LexError>)
        requires
            old(self).wf(),
            old(self).curr_idx < old(self).source@.len(),
            old(self).source@[old(self).curr_idx as int] == 0x27,
            old(self).start_loc == old(self).curr_loc,
        ensures
            match r {
                Ok(()) => lex_stepped(*old(self), *final(self)),
                Err(e) => lex_failed(*old(self), *final(self), e),
            },
    {
        let ghost s = self.source@;
        let ghost i0 = self.curr_idx as int;
        let ghost loc0 = self.curr_loc;
        self.increment_position(1);
        if self.is_at_end() {
            return Err(LexError { kind: LexErrorKind::UnexpectedEof, loc: self.curr_loc });
        }
        let c = self.peek();
        if c == 0x0A || c == 0x0D || c == 0x09 || c == 0x00 || c == 0x27 {
            return Err(LexError { kind: LexErrorKind::InvalidCharLiteral, loc: self.curr_loc });
        }
        if c == 0x5C {
            self.increment_position(1);
            proof {
                lemma_advance_loc_trans(loc0, s, i0, i0 + 1, i0 + 2);
            }
            if self.is_at_end() {
                return Err(LexError { kind: LexErrorKind::UnexpectedEof, loc: self.curr_loc });
            }
            let e = self.peek();
            let v: u8 = if e == 0x6E {
                0x0A
            } else if e == 0x72 {
                0x0D
            } else if e == 0x74 {
                0x09
            } else if e == 0x30 {
                0x00
            } else if e == 0x27 {
                0x27
            } else {
                return Err(LexError { kind: LexErrorKind::InvalidEscape, loc: self.curr_loc });
            };
            self.increment_position(1);
            proof {
                lemma_advance_loc_trans(loc0, s, i0, i0 + 2, i0 + 3);
            }
            if self.is_at_end() {
                return Err(LexError { kind: LexErrorKind::UnexpectedEof, loc: self.curr_loc });
            }
            if self.peek() != 0x27 {
                return Err(LexError { kind: LexErrorKind::UnterminatedChar, loc: self.curr_loc });
            }
            self.increment_position(1);
            proof {
                lemma_advance_loc_trans(loc0, s, i0, i0 + 3, i0 + 4);
            }
            let loc = self.start_loc;
            let t = Token::new(loc, TokenValue::Char(v));
            let ghost tg = t;
            self.add_token(t);
            proof {
                crate::lemma_seq_view_push(old(self).tokens@, tg);
            }
            Ok(())
        } else {
            self.increment_position(1);
            proof {
                lemma_advance_loc_trans(loc0, s, i0, i0 + 1, i0 + 2);
            }
            if self.is_at_end() {
                return Err(LexError { kind: LexErrorKind::UnexpectedEof, loc: self.curr_loc });
            }
            if self.peek() != 0x27 {
                return Err(LexError { kind: LexErrorKind::UnterminatedChar, loc: self.curr_loc });
            }
            self.increment_position(1);
            proof {
                lemma_advance_loc_trans(loc0, s, i0, i0 + 2, i0 + 3);
            }
            let loc = self.start_loc;
            let t = Token::new(loc, TokenValue::Char(c));
            let ghost tg = t;
            self.add_token(t);
            proof {
                crate::lemma_seq_view_push(old(self).tokens@, tg);
            }
            Ok(())
        }
    }

    /// Consumes a comment.  Entered with the cursor on the second byte of
    /// the opener (the second `/`, or the `*`).
    fn parse_comment(&mut self, comment_type: CommentType) -> (r: Result<(), LexError>)
        requires
            old(self).wf(),
            old(self).curr_idx < old(self).source@.len(),
        ensures
            final(self).wf(),
            final(self).source == old(self).source,
            final(self).tokens == old(self).tokens,
            final(self).start_idx == old(self).start_idx,
            final(self).start_loc == old(self).start_loc,
            match comment_type {
                CommentType::Line => r is Ok && final(self).curr_idx == class_end(
                    old(self).source@,
                    old(self).curr_idx + 1,
                    ByteClass::NotNewline,
                ) && final(self).curr_loc == advance_loc(
                    old(self).curr_loc,
                    old(self).source@,
                    old(self).curr_idx as int,
                    final(self).curr_idx as int,
                ),
                CommentType::MultiLine => match block_comment_close(
                    old(self).source@,
                    old(self).curr_idx + 1,
                ) {
                    Some(j) => r is Ok && final(self).curr_idx == j + 2 && final(self).curr_loc
                        == advance_loc(
                        old(self).curr_loc,
                        old(self).source@,
                        old(self).curr_idx as int,
                        j + 2,
                    ),
                    None => r matches Err(e) && e == (LexError {
                        kind: LexErrorKind::UnexpectedEof,
                        loc: advance_loc(
                            old(self).curr_loc,
                            old(self).source@,
                            old(self).curr_idx as int,
                            old(self).source@.len() as int,
                        ),
                    }),
                },
            },
    {
        let ghost s = self.source@;
        let ghost i0 = self.curr_idx as int;
        let ghost loc0 = self.curr_loc;
        match comment_type {
            CommentType::Line => {
                self.increment_position(1);
                proof {
                    lemma_class_end(s, i0 + 1, ByteClass::NotNewline);
                }
                let e = self.class_run_end(ByteClass::NotNewline);
                let n = e - self.curr_idx;
                self.increment_position(n);
                proof {
                    lemma_advance_loc_trans(loc0, s, i0, i0 + 1, e as int);
                }
                Ok(())
            },
            CommentType::MultiLine => {
                self.increment_position(1);
                loop
                    invariant
                        comment_type is MultiLine,
                        self.wf(),
                        self.source == old(self).source,
                        self.source@ == s,
                        self.tokens == old(self).tokens,
                        self.start_idx == old(self).start_idx,
                        self.start_loc == old(self).start_loc,
                        i0 == old(self).curr_idx,
                        loc0 == old(self).curr_loc,
                        i0 + 1 <= self.curr_idx <= s.len(),
                        block_comment_close(s, i0 + 1) == block_comment_close(
                            s,
                            self.curr_idx as int,
                        ),
                        self.curr_loc == advance_loc(loc0, s, i0, self.curr_idx as int),
                    ensures
                        block_comment_close(s, i0 + 1) == Some(self.curr_idx as int),
                        self.curr_idx + 1 < s.len(),
                        self.curr_loc == advance_loc(loc0, s, i0, self.curr_idx as int),
                        self.source == old(self).source,
                        self.source@ == s,
                        self.tokens == old(self).tokens,
                        self.start_idx == old(self).start_idx,
                        self.start_loc == old(self).start_loc,
                        i0 == old(self).curr_idx,
                        loc0 == old(self).curr_loc,
                        self.wf(),
                    decreases s.len() - self.curr_idx,
                {
                    let ghost c = self.curr_idx as int;
                    if self.is_at_end() {
                        proof {
                            assert(block_comment_close(s, c) == None::<int>);
                        }
                        return Err(
                            LexError { kind: LexErrorKind::UnexpectedEof, loc: self.curr_loc },
                        );
                    }
                    if self.curr_idx + 1 < self.source.len() {
                        if self.peek() == 0x2A && self.source[self.curr_idx + 1] == 0x2F {
                            proof {
                                assert(block_comment_close(s, c) == Some(c));
                            }
                            break;
                        }
                    }
                    proof {
                        assert(block_comment_close(s, c) == block_comment_close(s, c + 1));
                        lemma_advance_loc_snoc(loc0, s, i0, c);
                        assert(advance_loc(self.curr_loc, s, c, c + 1) == advance_loc(
                            step_loc(self.curr_loc, s[c]),
                            s,
                            c + 1,
                            c + 1,
                        ));
                    }
                    self.increment_position(1);
                }
                let ghost j = self.curr_idx as int;
                self.increment_position(2);
                proof {
                    lemma_advance_loc_snoc(loc0, s, i0, j);
                    lemma_advance_loc_snoc(loc0, s, i0, j + 1);
                    lemma_advance_loc_trans(loc0, s, i0, j, j + 2);
                }
                Ok(())
            },
        }
    }
}


/// Prepends already-scanned content bytes to a string-scan outcome.
pub open spec fn str_cont(pre: Seq<u8>, r: StrScan) -> StrScan {
    match r {
        StrScan::Done(rest, j) => StrScan::Done(pre + rest, j),
        other => other,
    }
}

/// Prepending twice is prepending the concatenation.
proof fn lemma_str_cont_assoc(a: Seq<u8>, b: Seq<u8>, r: StrScan)
    ensures
        str_cont(a, str_cont(b, r)) == str_cont(a + b, r),
{
    match r {
        StrScan::Done(rest, j) => {
            assert(a + (b + rest) =~= (a + b) + rest);
        },
        _ => {},
    }
}

impl Lexer {
    /// Scans a string literal, processing escapes, through the closing
    /// quote.  An unterminated string or an unknown escape is fatal.
    fn parse_string(&mut self) -> (r: Result<(), LexError>)
        requires
            old(self).wf(),
            old(self).curr_idx < old(self).source@.len(),
            old(self).source@[old(self).curr_idx as int] == 0x22,
            old(self).start_loc == old(self).curr_loc,
        ensures
            match r {
                Ok(()) => lex_stepped(*old(self), *final(self)),
                Err(e) => lex_failed(*old(self), *final(self), e),
            },
    {
        let ghost s = self.source@;
        let ghost i0 = self.curr_idx as int;
        let ghost loc0 = self.curr_loc;
        self.increment_position(1);
        let mut acc: Vec<u8> = Vec::new();
        loop
            invariant
                self.wf(),
                self.source == old(self).source,
                self.source@ == s,
                self.tokens == old(self).tokens,
                self.start_idx == old(self).start_idx,
                self.start_loc == old(self).start_loc,
                i0 == old(self).curr_idx,
                loc0 == old(self).curr_loc,
                0 <= i0 < s.len(),
                s[i0] == 0x22,
                loc0 == old(self).start_loc,
                i0 + 1 <= self.curr_idx <= s.len(),
                self.curr_loc == advance_loc(loc0, s, i0, self.curr_idx as int),
                scan_string(s, i0 + 1) == str_cont(acc@, scan_string(s, self.curr_idx as int)),
            ensures
                self.wf(),
                self.source == old(self).source,
                self.source@ == s,
                self.tokens == old(self).tokens,
                self.start_idx == old(self).start_idx,
                self.start_loc == old(self).start_loc,
                i0 == old(self).curr_idx,
                loc0 == old(self).curr_loc,
                i0 + 1 <= self.curr_idx < s.len(),
                s[self.curr_idx as int] == 0x22,
                self.curr_loc == advance_loc(loc0, s, i0, self.curr_idx as int),
                scan_string(s, i0 + 1) == StrScan::Done(acc@, self.curr_idx + 1),
            decreases s.len() - self.curr_idx,
        {
            let ghost c = self.curr_idx as int;
            if self.is_at_end() {
                proof {
                    assert(scan_string(s, c) == StrScan::Unterminated);
                }
                return Err(
                    LexError { kind: LexErrorKind::UnterminatedString, loc: self.curr_loc },
                );
            }
            let b = self.peek();
            if b == 0x22 {
                proof {
                    assert(scan_string(s, c) == StrScan::Done(Seq::empty(), c + 1));
                    assert(acc@ + Seq::<u8>::empty() =~= acc@);
                }
                break;
            }
            if b == 0x5C {
                let ghost acc0 = acc@;
                let mut esc: u8 = 0;
                let mut matched = true;
                if self.try_match2(0x5C, 0x30) {
                    esc = 0x00;
                } else if self.try_match2(0x5C, 0x6E) {
                    esc = 0x0A;
                } else if self.try_match2(0x5C, 0x72) {
                    esc = 0x0D;
                } else if self.try_match2(0x5C, 0x74) {
                    esc = 0x09;
                } else if self.try_match2(0x5C, 0x5C) {
                    esc = 0x5C;
                } else if self.try_match2(0x5C, 0x22) {
                    esc = 0x22;
                } else {
                    matched = false;
                }
                if !matched {
                    proof {
                        assert(scan_string(s, c) == StrScan::BadEscape(c));
                    }
                    return Err(
                        LexError { kind: LexErrorKind::InvalidEscape, loc: self.curr_loc },
                    );
                }
                acc.push(esc);
                proof {
                    assert(string_escape_value(s[c + 1]) == Some(esc));
                    assert(scan_string(s, c) == str_cont(
                        seq![esc],
                        scan_string(s, c + 2),
                    ));
                    lemma_str_cont_assoc(acc0, seq![esc], scan_string(s, c + 2));
                    assert(acc0 + seq![esc] =~= acc@);
                    lemma_advance_loc_trans(loc0, s, i0, c, c + 2);
                }
            } else {
                let ghost acc0 = acc@;
                acc.push(b);
                proof {
                    assert(scan_string(s, c) == str_cont(seq![b], scan_string(s, c + 1)));
                    lemma_str_cont_assoc(acc0, seq![b], scan_string(s, c + 1));
                    assert(acc0 + seq![b] =~= acc@);
                    lemma_advance_loc_snoc(loc0, s, i0, c);
                    assert(advance_loc(self.curr_loc, s, c, c + 1) == advance_loc(
                        step_loc(self.curr_loc, s[c]),
                        s,
                        c + 1,
                        c + 1,
                    ));
                }
                self.increment_position(1);
            }
        }
        let ghost j = self.curr_idx as int;
        self.increment_position(1);
        let loc = self.start_loc;
        let t = Token::new(loc, TokenValue::String(acc));
        let ghost tg = t;
        self.add_token(t);
        proof {
            crate::lemma_seq_view_push(old(self).tokens@, tg);
            lemma_advance_loc_trans(loc0, s, i0, j, j + 1);
        }
        Ok(())
    }
}


impl Lexer {
    /// Scans one token at the cursor, dispatching on its first byte.
    fn parse_token(&mut self) -> (r: Result<(), LexError>)
        requires
            old(self).wf(),
            old(self).curr_idx < old(self).source@.len(),
            old(self).start_idx == old(self).curr_idx,
            old(self).start_loc == old(self).curr_loc,
        ensures
            match r {
                Ok(()) => lex_stepped(*old(self), *final(self)),
                Err(e) => lex_failed(*old(self), *final(self), e),
            },
    {
        let ghost s = self.source@;
        let ghost i0 = self.curr_idx as int;
        let ghost loc0 = self.curr_loc;
        let c = self.peek();
        if c == 0x3A {
            self.increment_position(1);
            let loc = self.start_loc;
            let t = Token::new(loc, TokenValue::Colon);
            let ghost tg = t;
            self.add_token(t);
            proof {
                crate::lemma_seq_view_push(old(self).tokens@, tg);
            }
            Ok(())
        } else if c == 0x2C {
            self.increment_position(1);
            let loc = self.start_loc;
            let t = Token::new(loc, TokenValue::Comma);
            let ghost tg = t;
            self.add_token(t);
            proof {
                crate::lemma_seq_view_push(old(self).tokens@, tg);
            }
            Ok(())
        } else if c == 0x5B {
            self.increment_position(1);
            let loc = self.start_loc;
            let t = Token::new(loc, TokenValue::LBracket);
            let ghost tg = t;
            self.add_token(t);
            proof {
                crate::lemma_seq_view_push(old(self).tokens@, tg);
            }
            Ok(())
        } else if c == 0x5D {
            self.increment_position(1);
            let loc = self.start_loc;
            let t = Token::new(loc, TokenValue::RBracket);
            let ghost tg = t;
            self.add_token(t);
            proof {
                crate::lemma_seq_view_push(old(self).tokens@, tg);
            }
            Ok(())
        } else if c == 0x09 || c == 0x0B || c == 0x0C || c == 0x0D || c == 0x20 || c == 0x85
            || c == 0xA0 {
            self.parse_whitespace();
            Ok(())
        } else if c == 0x0A {
            self.increment_position(1);
            let loc = self.start_loc;
            let t = Token::new(loc, TokenValue::Newline);
            let ghost tg = t;
            self.add_token(t);
            proof {
                crate::lemma_seq_view_push(old(self).tokens@, tg);
            }
            Ok(())
        } else if c == 0x2F {
            self.increment_position(1);
            if self.is_at_end() {
                return Err(LexError { kind: LexErrorKind::UnexpectedEof, loc: self.curr_loc });
            }
            let c2 = self.peek();
            if c2 == 0x2F {
                let rc = self.parse_comment(CommentType::Line);
                proof {
                    lemma_class_end(s, i0 + 2, ByteClass::NotNewline);
                    lemma_advance_loc_trans(loc0, s, i0, i0 + 1, self.curr_idx as int);
                    assert(crate::seq_view(self.tokens@) + Seq::<TokenView>::empty()
                        =~= crate::seq_view(self.tokens@));
                }
                match rc {
                    Ok(()) => Ok(()),
                    Err(e) => Err(e),
                }
            } else if c2 == 0x2A {
                proof {
                    lemma_block_comment_close(s, i0 + 2);
                }
                let rc = self.parse_comment(CommentType::MultiLine);
                match rc {
                    Ok(()) => {
                        proof {
                            lemma_advance_loc_trans(loc0, s, i0, i0 + 1, self.curr_idx as int);
                            assert(crate::seq_view(self.tokens@) + Seq::<TokenView>::empty()
                                =~= crate::seq_view(self.tokens@));
                        }
                        Ok(())
                    },
                    Err(e) => {
                        proof {
                            lemma_advance_loc_trans(loc0, s, i0, i0 + 1, s.len() as int);
                        }
                        Err(e)
                    },
                }
            } else {
                Err(LexError { kind: LexErrorKind::UnknownComment, loc: self.curr_loc })
            }
        } else if (0x41 <= c && c <= 0x5A) || (0x61 <= c && c <= 0x7A) || c == 0x5F {
            self.parse_word();
            Ok(())
        } else if 0x30 <= c && c <= 0x39 {
            self.parse_immediate()
        } else if c == 0x2E {
            self.parse_directive()
        } else if c == 0x27 {
            self.parse_char()
        } else if c == 0x22 {
            self.parse_string()
        } else {
            Err(LexError { kind: LexErrorKind::UnknownToken, loc: self.curr_loc })
        }
    }

    /// Scans the whole source into tokens, ending with `Eof`.
    fn scan_tokens(&mut self) -> (r: Result<(), LexError>)
        requires
            old(self).wf(),
            old(self).curr_idx == 0,
            old(self).curr_loc == (Loc { line: 1u32, col: 1u32 }),
            old(self).tokens@.len() == 0,
        ensures
            final(self).source == old(self).source,
            final(self).wf(),
            match r {
                Ok(()) => lex_spec(old(self).source@) == Ok::<Seq<TokenView>, LexError>(crate::seq_view(final(self).tokens@)),
                Err(e) => lex_spec(old(self).source@) == Err::<Seq<TokenView>, LexError>(e),
            },
    {
        let ghost s = self.source@;
        let ghost init = Loc { line: 1u32, col: 1u32 };
        proof {
            assert(crate::seq_view(self.tokens@) =~= Seq::<TokenView>::empty());
        }
        loop
            invariant
                self.wf(),
                self.source == old(self).source,
                self.source@ == s,
                init == (Loc { line: 1u32, col: 1u32 }),
                lex_from(s, 0, init) == (match lex_from(s, self.curr_idx as int, self.curr_loc) {
                    Ok(rest) => Ok(crate::seq_view(self.tokens@) + rest),
                    Err(e) => Err(e),
                }),
            ensures
                self.wf(),
                self.source == old(self).source,
                self.source@ == s,
                self.curr_idx >= s.len(),
                lex_from(s, 0, init) == (match lex_from(s, self.curr_idx as int, self.curr_loc) {
                    Ok(rest) => Ok(crate::seq_view(self.tokens@) + rest),
                    Err(e) => Err(e),
                }),
            decreases s.len() - self.curr_idx,
        {
            if self.is_at_end() {
                break;
            }
            self.start_idx = self.curr_idx;
            self.start_loc = self.curr_loc;
            let ghost pre = *self;
            let rc = self.parse_token();
            match rc {
                Ok(()) => {
                    proof {
                        let step = lex_token(s, pre.curr_idx as int, pre.curr_loc).unwrap();
                        if lex_from(s, self.curr_idx as int, self.curr_loc) is Ok {
                            let rest = lex_from(s, self.curr_idx as int, self.curr_loc).unwrap();
                            assert((crate::seq_view(pre.tokens@) + step.0) + rest
                                =~= crate::seq_view(pre.tokens@) + (step.0 + rest));
                        }
                    }
                },
                Err(e) => {
                    return Err(e);
                },
            }
        }
        self.start_idx = self.curr_idx;
        self.start_loc = self.curr_loc;
        let loc = self.curr_loc;
        let t = Token::new(loc, TokenValue::Eof);
        let ghost tg = t;
        let ghost pre = *self;
        self.add_token(t);
        proof {
            crate::lemma_seq_view_push(pre.tokens@, tg);
            assert(lex_from(s, pre.curr_idx as int, pre.curr_loc) == Ok::<Seq<TokenView>, LexError>(
                seq![tv(pre.curr_loc, TokenValueView::Eof)],
            ));
            assert(crate::seq_view(pre.tokens@) + seq![tv(pre.curr_loc, TokenValueView::Eof)]
                =~= crate::seq_view(self.tokens@));
        }
        Ok(())
    }

    /// Builds a lexer over the given source bytes and scans it whole.  The
    /// source must be shorter than `u32::MAX` bytes so that line and column
    /// counters cannot overflow.  On success the token sequence is exactly
    /// the one [`lex_spec`] gives; tokenization is deterministic.
    pub fn new(source: Vec<u8>) -> (r: Result<Lexer, LexError>)
        requires
            source@.len() < u32::MAX,
        ensures
            match r {
                Ok(l) => {
                    &&& l.source@ == source@
                    &&& l.wf()
                    &&& lex_spec(source@) == Ok::<Seq<TokenView>, LexError>(crate::seq_view(l.tokens@))
                },
                Err(e) => lex_spec(source@) == Err::<Seq<TokenView>, LexError>(e),
            },
    {
        let mut l = Lexer {
            source,
            tokens: Vec::new(),
            start_idx: 0,
            start_loc: Loc { line: 1, col: 1 },
            curr_idx: 0,
            curr_loc: Loc { line: 1, col: 1 },
        };
        match l.scan_tokens() {
            Ok(()) => Ok(l),
            Err(e) => Err(e),
        }
    }
}


// ---------------------------------------------------------------------------
// Laws of the lexer
// ---------------------------------------------------------------------------

/// `(line, col)` order on source positions.
pub open spec fn loc_le(a: Loc, b: Loc) -> bool {
    a.line < b.line || (a.line == b.line && a.col <= b.col)
}

/// Tokenization is deterministic: two scans of the same source yield the
/// same token sequence.  `Lexer::new` guarantees the token sequence equals
/// `lex_spec` of the source, so equal sources give equal tokens.
pub proof fn lemma_lexer_deterministic(l1: Lexer, l2: Lexer)
    requires
        l1.source@ == l2.source@,
        lex_spec(l1.source@) == Ok::<Seq<TokenView>, LexError>(crate::seq_view(l1.tokens@)),
        lex_spec(l2.source@) == Ok::<Seq<TokenView>, LexError>(crate::seq_view(l2.tokens@)),
    ensures
        crate::seq_view(l1.tokens@) == crate::seq_view(l2.tokens@),
{
}

/// An identifier whose lower-case fold matches a mnemonic keyword becomes
/// that mnemonic token, never a `Label` or `LabelDef`.
pub proof fn lemma_keyword_never_label(s: Seq<u8>, i: int, loc: Loc)
    requires
        0 <= i < s.len(),
        is_word_start(s[i]),
        keyword_value(lower(s.subrange(i, class_end(s, i, ByteClass::Word)))) is Some,
    ensures
        word_token(s, i, loc).0 == seq![
            tv(
                loc,
                keyword_value(
                    lower(s.subrange(i, class_end(s, i, ByteClass::Word))),
                ).unwrap(),
            ),
        ],
        forall|k: int|
            0 <= k < word_token(s, i, loc).0.len() ==> !(word_token(s, i, loc).0[k].value
                is Label) && !(word_token(s, i, loc).0[k].value is LabelDef),
{
}

/// Advancing over bytes never moves a location backwards, and its line and
/// column stay within the stated bounds.
pub proof fn lemma_advance_loc_monotone(loc: Loc, s: Seq<u8>, i: int, j: int)
    requires
        i <= j,
        loc.line + (j - i) <= u32::MAX,
        loc.col + (j - i) <= u32::MAX,
    ensures
        loc_le(loc, advance_loc(loc, s, i, j)),
    decreases j - i,
{
    if i < j {
        lemma_advance_loc_monotone(step_loc(loc, s[i]), s, i + 1, j);
    }
}

/// Every token a single scan step emits carries the step's start location,
/// the cursor moves strictly forward, the next location is the start
/// location advanced over the consumed bytes, at most one token is
/// emitted, and its payload is no longer than the bytes consumed.
pub proof fn lemma_lex_token_shape(s: Seq<u8>, i: int, loc: Loc)
    requires
        0 <= i < s.len(),
    ensures
        lex_token(s, i, loc) matches Ok(step) ==> {
            &&& i < step.1 <= s.len()
            &&& step.2 == advance_loc(loc, s, i, step.1)
            &&& forall|k: int| 0 <= k < step.0.len() ==> (#[trigger] step.0[k]).loc == loc
            &&& step.0.len() <= 1
            &&& forall|k: int|
                0 <= k < step.0.len() ==> crate::parser::payload_len(
                    (#[trigger] step.0[k]).value,
                ) <= step.1 - i
        },
{
    let b = s[i];
    if b == 0x3A || b == 0x2C || b == 0x5B || b == 0x5D {
    } else if is_space_byte(b) && b != 0x0A {
        lemma_class_end(s, i, ByteClass::SpaceNotNewline);
        assert(class_end(s, i, ByteClass::SpaceNotNewline) == class_end(
            s,
            i + 1,
            ByteClass::SpaceNotNewline,
        ));
        lemma_class_end(s, i + 1, ByteClass::SpaceNotNewline);
    } else if b == 0x0A {
    } else if b == 0x2F {
        if i + 1 < s.len() && s[i + 1] == 0x2F {
            lemma_class_end(s, i + 2, ByteClass::NotNewline);
        } else if i + 1 < s.len() && s[i + 1] == 0x2A {
            lemma_block_comment_close(s, i + 2);
        }
    } else if is_word_start(b) {
        lemma_class_end(s, i, ByteClass::Word);
        assert(class_end(s, i, ByteClass::Word) == class_end(s, i + 1, ByteClass::Word));
        lemma_class_end(s, i + 1, ByteClass::Word);
    } else if is_dec_digit(b) {
        if i + 2 <= s.len() && s[i] == 0x30 && s[i + 1] == 0x78 {
            lemma_class_end(s, i + 2, ByteClass::Hex);
        } else if i + 2 <= s.len() && s[i] == 0x30 && s[i + 1] == 0x62 {
            lemma_class_end(s, i + 2, ByteClass::Bin);
        } else {
            lemma_class_end(s, i, ByteClass::Dec);
            assert(class_end(s, i, ByteClass::Dec) == class_end(s, i + 1, ByteClass::Dec));
            lemma_class_end(s, i + 1, ByteClass::Dec);
        }
    } else if b == 0x2E {
    } else if b == 0x27 {
    } else if b == 0x22 {
        lemma_scan_string_bounds(s, i + 1);
    } else {
    }
}

/// A completed string scan ends after its starting point and within
/// bounds, and its content is shorter than the bytes consumed.
pub proof fn lemma_scan_string_bounds(s: Seq<u8>, i: int)
    ensures
        scan_string(s, i) matches StrScan::Done(content, j) ==> i < j <= s.len() && content.len()
            <= j - i - 1,
    decreases s.len() - i,
{
    if i < s.len() && s[i] != 0x22 {
        if s[i] == 0x5C {
            if i + 1 < s.len() && string_escape_value(s[i + 1]) is Some {
                lemma_scan_string_bounds(s, i + 2);
            }
        } else {
            lemma_scan_string_bounds(s, i + 1);
        }
    }
}

/// Token positions are monotonically non-decreasing in `(line, col)` order,
/// and no token sits before the scan's starting location.
pub proof fn lemma_lex_from_monotone(s: Seq<u8>, i: int, loc: Loc)
    requires
        0 <= i <= s.len(),
        loc.line + (s.len() - i) <= u32::MAX,
        loc.col + (s.len() - i) <= u32::MAX,
    ensures
        lex_from(s, i, loc) matches Ok(toks) ==> {
            &&& forall|a: int, b: int|
                0 <= a <= b < toks.len() ==> loc_le(
                    (#[trigger] toks[a]).loc,
                    (#[trigger] toks[b]).loc,
                )
            &&& forall|k: int| 0 <= k < toks.len() ==> loc_le(loc, (#[trigger] toks[k]).loc)
        },
    decreases s.len() - i,
{
    if i >= s.len() {
    } else {
        lemma_lex_token_shape(s, i, loc);
        match lex_token(s, i, loc) {
            Err(_) => {},
            Ok((toks0, j, loc2)) => {
                if i < j <= s.len() {
                    lemma_advance_loc_monotone(loc, s, i, j);
                    lemma_advance_loc_bounds(loc, s, i, j);
                    lemma_lex_from_monotone(s, j, loc2);
                    match lex_from(s, j, loc2) {
                        Err(_) => {},
                        Ok(rest) => {
                            let toks = toks0 + rest;
                            assert forall|k: int| 0 <= k < toks.len() implies loc_le(
                                loc,
                                (#[trigger] toks[k]).loc,
                            ) by {
                                if k < toks0.len() {
                                    assert(toks[k] == toks0[k]);
                                } else {
                                    assert(toks[k] == rest[k - toks0.len()]);
                                    assert(loc_le(loc2, toks[k].loc));
                                }
                            }
                            assert forall|a: int, b: int|
                                0 <= a <= b < toks.len() implies loc_le(
                                (#[trigger] toks[a]).loc,
                                (#[trigger] toks[b]).loc,
                            ) by {
                                if a < toks0.len() && b < toks0.len() {
                                    assert(toks[a].loc == loc && toks[b].loc == loc);
                                } else if a < toks0.len() {
                                    assert(toks[a].loc == loc);
                                    assert(toks[b] == rest[b - toks0.len()]);
                                    assert(loc_le(loc2, toks[b].loc));
                                } else {
                                    assert(toks[a] == rest[a - toks0.len()]);
                                    assert(toks[b] == rest[b - toks0.len()]);
                                }
                            }
                        },
                    }
                }
            },
        }
    }
}

} // verus!
