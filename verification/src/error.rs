//! The error taxonomy.  Every error is fatal: the pipeline reports the first
//! one and stops.  Lexical and parse errors carry the `line:col` of the
//! offending input; an undefined label is reported by name.

use vstd::prelude::*;
use crate::token::Loc;

verus! {

/// The base of a numeric literal, kept so that an error can name it.
#[derive(Hash, PartialEq, Eq, Debug, Clone, Copy, Structural)]
pub enum NumBase {
    Dec,
    Hex,
    Bin,
}

/// What went wrong while tokenizing.
#[derive(Hash, PartialEq, Eq, Debug, Clone, Copy, Structural)]
pub enum LexErrorKind {
    /// A byte that begins no token.
    UnknownToken,
    /// `/` followed by neither `/` nor `*`.
    UnknownComment,
    /// `.` followed by no recognized directive name.
    UnknownDirective,
    /// End of file inside a multi-byte token.
    UnexpectedEof,
    /// A numeric literal with a base prefix but no digits.
    IncompleteLiteral(NumBase),
    /// A numeric literal that does not fit in 64 bits.
    LiteralOverflow(NumBase),
    /// A character literal opening on a control byte or a quote.
    InvalidCharLiteral,
    /// A backslash followed by no recognized escape.
    InvalidEscape,
    /// A character literal without its closing quote.
    UnterminatedChar,
    /// A string literal without its closing quote.
    UnterminatedString,
}

/// A fatal lexical error at a source position.
#[derive(Hash, PartialEq, Eq, Debug, Clone, Copy, Structural)]
pub struct LexError {
    pub kind: LexErrorKind,
    pub loc: Loc,
}

/// What went wrong while parsing the token stream.
#[derive(Hash, PartialEq, Eq, Debug, Clone, Copy, Structural)]
pub enum ParseErrorKind {
    /// A token that no rule of the current section accepts.
    UnexpectedToken,
    /// A mandatory comma is missing.
    ExpectedComma,
    /// An operand slot that only a register can fill.
    ExpectedRegister,
    /// An operand slot for a register, immediate or character literal.
    ExpectedRegisterOrImmediate,
    /// A branch needs a label target.
    ExpectedLabel,
    /// An immediate beyond the 16-bit range of the instruction word.
    ImmediateTooBig,
    /// A memory-access offset beyond the 16-bit range.
    OffsetTooBig,
    /// An immediate beyond the range of the data directive.
    DataTooBig,
    /// A load whose operand shape matches no `ld` form.
    InvalidLd,
    /// A store whose operand shape matches no `st` form.
    InvalidSt,
    /// A memory access without its closing bracket.
    ExpectedRBracket,
    /// A label defined a second time.
    DuplicateLabel,
    /// The token stream ended inside a statement.
    UnexpectedEnd,
}

/// A fatal parse error at the position of the offending token.
#[derive(Hash, PartialEq, Eq, Debug, Clone, Copy, Structural)]
pub struct ParseError {
    pub kind: ParseErrorKind,
    pub loc: Loc,
}

/// Any fatal error of the in-memory pipeline.
#[derive(Hash, PartialEq, Eq, Debug, Clone)]
pub enum AsmError {
    Lex(LexError),
    Parse(ParseError),
    /// A label used but never defined; carries the label's spelling.
    UndefinedLabel(Vec<u8>),
}

/// Mathematical model of an `AsmError`.
pub enum AsmErrorView {
    Lex(LexError),
    Parse(ParseError),
    UndefinedLabel(Seq<u8>),
}

impl View for AsmError {
    type V = AsmErrorView;

    open spec fn view(&self) -> AsmErrorView {
        match self {
            AsmError::Lex(e) => AsmErrorView::Lex(*e),
            AsmError::Parse(e) => AsmErrorView::Parse(*e),
            AsmError::UndefinedLabel(name) => AsmErrorView::UndefinedLabel(name@),
        }
    }
}

impl DeepView for AsmError {
    type V = AsmErrorView;

    open spec fn deep_view(&self) -> AsmErrorView {
        self@
    }
}

} // verus!
