//! Source locations and the token alphabet of the assembly dialect.
//!
//! A token is a `(location, value)` pair.  Whitespace and newlines are kept
//! as tokens of their own because the parser treats a newline as a statement
//! terminator and whitespace as the separator between a mnemonic and its
//! operands.

use vstd::prelude::*;

verus! {

/// A 1-based `(line, col)` source position, carried on every token.
#[derive(Hash, Debug, Clone, Copy, PartialEq, Eq, Structural)]
pub struct Loc {
    pub line: u32,
    pub col: u32,
}

/// `.text` or `.data`.
#[derive(Hash, PartialEq, Eq, Debug, Clone, Copy, Structural)]
pub enum SectionDirective {
    Data,
    Text,
}

/// The data-item directives of the data section.
#[derive(Hash, PartialEq, Eq, Debug, Clone, Copy, Structural)]
pub enum DataTypeDirective {
    String,
    Char,
    Byte1,
    Byte2,
    Byte4,
    Byte8,
}

/// `//` runs to the end of the line; `/*` runs to the matching `*/`.
#[derive(Debug, Clone, Copy)]
pub enum CommentType {
    Line,
    MultiLine,
}

/// The tagged token alphabet.  `Ld(width, sign_extend)` and `St(width)`
/// carry the access width in bytes.  Character and string literals hold the
/// bytes after escape processing; labels hold their original spelling.
#[derive(Hash, PartialEq, Eq, Debug, Clone)]
pub enum TokenValue {
    Add,
    Sub,
    Mul,
    Div,
    Mod,
    Asr,
    Lsl,
    And,
    Orr,
    Neg,
    Swap,
    Ld(u8, bool),
    St(u8),
    Halt,
    B,
    CBZ,
    CBNZ,
    Register(u8),
    Imm(u64),
    Char(u8),
    String(Vec<u8>),
    Label(Vec<u8>),
    LabelDef(Vec<u8>),
    SectionDirective(SectionDirective),
    DataTypeDirective(DataTypeDirective),
    Comma,
    Colon,
    LBracket,
    RBracket,
    Whitespace,
    Newline,
    Eof,
}

/// Mathematical model of a `TokenValue`: byte-vector payloads become `Seq<u8>`.
pub enum TokenValueView {
    Add,
    Sub,
    Mul,
    Div,
    Mod,
    Asr,
    Lsl,
    And,
    Orr,
    Neg,
    Swap,
    Ld(u8, bool),
    St(u8),
    Halt,
    B,
    CBZ,
    CBNZ,
    Register(u8),
    Imm(u64),
    Char(u8),
    String(Seq<u8>),
    Label(Seq<u8>),
    LabelDef(Seq<u8>),
    SectionDirective(SectionDirective),
    DataTypeDirective(DataTypeDirective),
    Comma,
    Colon,
    LBracket,
    RBracket,
    Whitespace,
    Newline,
    Eof,
}

impl View for TokenValue {
    type V = TokenValueView;

    open spec fn view(&self) -> TokenValueView {
        match self {
            TokenValue::Add => TokenValueView::Add,
            TokenValue::Sub => TokenValueView::Sub,
            TokenValue::Mul => TokenValueView::Mul,
            TokenValue::Div => TokenValueView::Div,
            TokenValue::Mod => TokenValueView::Mod,
            TokenValue::Asr => TokenValueView::Asr,
            TokenValue::Lsl => TokenValueView::Lsl,
            TokenValue::And => TokenValueView::And,
            TokenValue::Orr => TokenValueView::Orr,
            TokenValue::Neg => TokenValueView::Neg,
            TokenValue::Swap => TokenValueView::Swap,
            TokenValue::Ld(w, s) => TokenValueView::Ld(*w, *s),
            TokenValue::St(w) => TokenValueView::St(*w),
            TokenValue::Halt => TokenValueView::Halt,
            TokenValue::B => TokenValueView::B,
            TokenValue::CBZ => TokenValueView::CBZ,
            TokenValue::CBNZ => TokenValueView::CBNZ,
            TokenValue::Register(r) => TokenValueView::Register(*r),
            TokenValue::Imm(n) => TokenValueView::Imm(*n),
            TokenValue::Char(c) => TokenValueView::Char(*c),
            TokenValue::String(s) => TokenValueView::String(s@),
            TokenValue::Label(s) => TokenValueView::Label(s@),
            TokenValue::LabelDef(s) => TokenValueView::LabelDef(s@),
            TokenValue::SectionDirective(s) => TokenValueView::SectionDirective(*s),
            TokenValue::DataTypeDirective(d) => TokenValueView::DataTypeDirective(*d),
            TokenValue::Comma => TokenValueView::Comma,
            TokenValue::Colon => TokenValueView::Colon,
            TokenValue::LBracket => TokenValueView::LBracket,
            TokenValue::RBracket => TokenValueView::RBracket,
            TokenValue::Whitespace => TokenValueView::Whitespace,
            TokenValue::Newline => TokenValueView::Newline,
            TokenValue::Eof => TokenValueView::Eof,
        }
    }
}

impl DeepView for TokenValue {
    type V = TokenValueView;

    open spec fn deep_view(&self) -> TokenValueView {
        self@
    }
}

/// A token: a source location and a tagged value.
#[derive(Hash, PartialEq, Eq, Debug, Clone)]
pub struct Token {
    pub loc: Loc,
    pub value: TokenValue,
}

/// Mathematical model of a `Token`.
pub struct TokenView {
    pub loc: Loc,
    pub value: TokenValueView,
}

impl View for Token {
    type V = TokenView;

    open spec fn view(&self) -> TokenView {
        TokenView { loc: self.loc, value: self.value@ }
    }
}

impl DeepView for Token {
    type V = TokenView;

    open spec fn deep_view(&self) -> TokenView {
        self@
    }
}

impl Token {
    pub fn new(loc: Loc, value: TokenValue) -> (t: Self)
        ensures
            t.loc == loc,
            t.value == value,
    {
        Self { loc, value }
    }
}

} // verus!
