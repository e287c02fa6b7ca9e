//! End-to-end and unit tests of the assembler pipeline: lexing, two-pass
//! parsing, label resolution, instruction encoding, and image rendering.

use cs382asm::assemble;
use cs382asm::encoder::{encode_instructions, encode_one};
use cs382asm::error::{AsmError, LexErrorKind, ParseErrorKind};
use cs382asm::lexer::Lexer;
use cs382asm::parser::{Instruction, Parser, RegImmAddr};
use cs382asm::token::TokenValue;
use cs382asm::txtfilegen::{render_data_image, render_text_image};

fn lex(src: &str) -> Vec<cs382asm::token::Token> {
    Lexer::new(src.as_bytes().to_vec()).expect("lexing failed").tokens
}

fn parse_ok(src: &str) -> Parser {
    let mut p = Parser::new(lex(src));
    p.parse().expect("parsing failed");
    p
}

fn image_string(bytes: &[u8]) -> String {
    let mut s = String::from("v3.0 hex words addressed\n");
    for k in 0..128 {
        if k % 16 == 0 {
            s += &format!("{:04x}: ", k);
        }
        s += &format!("{:02x}", bytes[k]);
        s.push(if k % 16 == 15 { '\n' } else { ' ' });
    }
    s
}

#[test]
fn halt_only_program() {
    let p = parse_ok(".text\nhalt\n");
    assert_eq!(p.instructions, vec![Instruction::Halt]);
    assert_eq!(p.text_section_offset, 0x84);
    let code = encode_instructions(&p.instructions);
    assert_eq!(code, vec![0u8, 0, 0, 0]);
    let text = render_text_image(&code);
    assert_eq!(String::from_utf8(text).unwrap(), image_string(&[0u8; 128]));
}

#[test]
fn immediate_add_encoding() {
    // opcode 1000010 (base | immediate-select), imm 5, rn 2, rd 1:
    // (0b1000010 << 25) | (5 << 9) | (2 << 3) | 1.
    let w = encode_one(&Instruction::Add(1, 2, RegImmAddr::Imm(5)));
    assert_eq!(w, 0x84000A11);
    let p = parse_ok(".text\nadd r1, r2, 5\n");
    assert_eq!(p.instructions, vec![Instruction::Add(1, 2, RegImmAddr::Imm(5))]);
    let code = encode_instructions(&p.instructions);
    assert_eq!(&code[0..4], &[0x11, 0x0A, 0x00, 0x84]);
}

#[test]
fn forward_branch_resolution() {
    let p = parse_ok(".text\nb end\nhalt\nend:\n");
    assert_eq!(p.mapping.get(&b"end".to_vec()), Some(0x88));
    assert_eq!(p.instructions[0], Instruction::B(RegImmAddr::Address(8)));
    let w = encode_one(&p.instructions[0]);
    assert_eq!(w, 0xE0001000);
    let code = encode_instructions(&p.instructions);
    assert_eq!(&code[0..4], &[0x00, 0x10, 0x00, 0xE0]);
}

#[test]
fn label_load_through_constant_pool() {
    let p = parse_ok(".data\nx: .8b 0xDEADBEEF\n.text\nld r3, x\nhalt\n");
    assert_eq!(p.mapping.get(&b"x".to_vec()), Some(0x40));
    // The data section holds the little-endian constant.
    assert_eq!(&p.data_section[0..8], &[0xEF, 0xBE, 0xAD, 0xDE, 0, 0, 0, 0]);
    // The reserved pool slot holds the label's absolute address.
    assert_eq!(&p.constant_pool[0..8], &[0x40, 0, 0, 0, 0, 0, 0, 0]);
    // The operand is the PC-relative offset of the slot: 0 - 0x80 = -128.
    assert_eq!(p.instructions[0], Instruction::Ld(3, RegImmAddr::Address(-128)));
    let w = encode_one(&p.instructions[0]);
    assert_eq!(w >> 25, 0b1101010);
    assert_eq!((w >> 9) & 0xFFFF, 0xFF80);
    assert_eq!(w & 0b111, 3);
}

#[test]
fn string_data() {
    let p = parse_ok(".data\nhello: .string \"hi\"\n");
    assert_eq!(p.data_section, vec![0x68, 0x69, 0x00]);
    assert_eq!(p.mapping.get(&b"hello".to_vec()), Some(0x40));
    let data_file = render_data_image(&p.constant_pool, &p.data_section);
    let mut expected = [0u8; 128];
    expected[0x40] = 0x68;
    expected[0x41] = 0x69;
    assert_eq!(String::from_utf8(data_file).unwrap(), image_string(&expected));
}

#[test]
fn store_with_register_offset() {
    let p = parse_ok(".text\nst r1, [r2, r3]\n");
    assert_eq!(p.instructions, vec![Instruction::St(8, 1, 2, RegImmAddr::Register(3))]);
    let w = encode_one(&p.instructions[0]);
    assert_eq!(w, 0x580000D1);
}

#[test]
fn lexer_is_deterministic() {
    let src = ".text\nadd r1, r2, 0x1F // comment\nhalt\n";
    let t1 = lex(src);
    let t2 = lex(src);
    assert_eq!(t1, t2);
}

#[test]
fn token_positions_non_decreasing() {
    let toks = lex(".data\nx: .string \"a b\"\n.text\nhalt\n");
    for w in toks.windows(2) {
        let a = (w[0].loc.line, w[0].loc.col);
        let b = (w[1].loc.line, w[1].loc.col);
        assert!(a <= b);
    }
}

#[test]
fn keywords_fold_case_and_never_become_labels() {
    let toks = lex("ADD Sub hAlT CBNZ ");
    let values: Vec<&TokenValue> = toks
        .iter()
        .map(|t| &t.value)
        .filter(|v| !matches!(v, TokenValue::Whitespace | TokenValue::Eof))
        .collect();
    assert_eq!(values.len(), 4);
    assert!(matches!(values[0], TokenValue::Add));
    assert!(matches!(values[1], TokenValue::Sub));
    assert!(matches!(values[2], TokenValue::Halt));
    assert!(matches!(values[3], TokenValue::CBNZ));
}

#[test]
fn load_store_width_tokens() {
    let toks = lex("ld ld1 ld1s ld2s ld4 lds st st1 st2 st4 ");
    let values: Vec<&TokenValue> = toks
        .iter()
        .map(|t| &t.value)
        .filter(|v| !matches!(v, TokenValue::Whitespace | TokenValue::Eof))
        .collect();
    assert_eq!(values[0], &TokenValue::Ld(8, false));
    assert_eq!(values[1], &TokenValue::Ld(1, false));
    assert_eq!(values[2], &TokenValue::Ld(1, true));
    assert_eq!(values[3], &TokenValue::Ld(2, true));
    assert_eq!(values[4], &TokenValue::Ld(4, false));
    assert_eq!(values[5], &TokenValue::Ld(8, true));
    assert_eq!(values[6], &TokenValue::St(8));
    assert_eq!(values[7], &TokenValue::St(1));
    assert_eq!(values[8], &TokenValue::St(2));
    assert_eq!(values[9], &TokenValue::St(4));
}

#[test]
fn zero_register_alias() {
    let toks = lex("rzr r0 r7 ");
    assert_eq!(toks[0].value, TokenValue::Register(7));
    assert_eq!(toks[2].value, TokenValue::Register(0));
    assert_eq!(toks[4].value, TokenValue::Register(7));
}

#[test]
fn numeric_literal_bases() {
    let toks = lex("10 0x1f 0b101 ");
    assert_eq!(toks[0].value, TokenValue::Imm(10));
    assert_eq!(toks[2].value, TokenValue::Imm(0x1F));
    assert_eq!(toks[4].value, TokenValue::Imm(5));
}

#[test]
fn char_and_string_escapes() {
    let toks = lex("'a' '\\n' \"a\\tb\\\\\" ");
    assert_eq!(toks[0].value, TokenValue::Char(b'a'));
    assert_eq!(toks[2].value, TokenValue::Char(b'\n'));
    assert_eq!(toks[4].value, TokenValue::String(vec![b'a', b'\t', b'b', b'\\']));
}

#[test]
fn comments_emit_no_tokens() {
    let toks = lex("add // to the end\nsub /* and\nhere */ orr ");
    let values: Vec<&TokenValue> = toks
        .iter()
        .map(|t| &t.value)
        .filter(|v| {
            !matches!(v, TokenValue::Whitespace | TokenValue::Newline | TokenValue::Eof)
        })
        .collect();
    assert_eq!(values.len(), 3);
    assert!(matches!(values[0], TokenValue::Add));
    assert!(matches!(values[1], TokenValue::Sub));
    assert!(matches!(values[2], TokenValue::Orr));
}

#[test]
fn unknown_byte_is_fatal() {
    let e = Lexer::new(b"@".to_vec()).unwrap_err();
    assert_eq!(e.kind, LexErrorKind::UnknownToken);
    assert_eq!((e.loc.line, e.loc.col), (1, 1));
}

#[test]
fn unterminated_string_is_fatal() {
    let e = Lexer::new(b"\"abc".to_vec()).unwrap_err();
    assert_eq!(e.kind, LexErrorKind::UnterminatedString);
}

#[test]
fn unknown_escape_is_fatal() {
    let e = Lexer::new(b"\"a\\q\"".to_vec()).unwrap_err();
    assert_eq!(e.kind, LexErrorKind::InvalidEscape);
}

#[test]
fn oversized_literal_is_fatal() {
    let e = Lexer::new(b"0x10000000000000000".to_vec()).unwrap_err();
    assert!(matches!(e.kind, LexErrorKind::LiteralOverflow(_)));
}

#[test]
fn incomplete_hex_literal_is_fatal() {
    let e = Lexer::new(b"0xg".to_vec()).unwrap_err();
    assert!(matches!(e.kind, LexErrorKind::IncompleteLiteral(_)));
}

#[test]
fn unknown_directive_is_fatal() {
    let e = Lexer::new(b".bogus".to_vec()).unwrap_err();
    assert_eq!(e.kind, LexErrorKind::UnknownDirective);
}

#[test]
fn unknown_comment_opener_is_fatal() {
    let e = Lexer::new(b"/x".to_vec()).unwrap_err();
    assert_eq!(e.kind, LexErrorKind::UnknownComment);
}

#[test]
fn unterminated_char_is_fatal() {
    let e = Lexer::new(b"'ab".to_vec()).unwrap_err();
    assert_eq!(e.kind, LexErrorKind::UnterminatedChar);
}

#[test]
fn immediate_too_big_for_instruction() {
    let mut p = Parser::new(lex(".text\nadd r1, r2, 65536\n"));
    let e = p.parse().unwrap_err();
    match e {
        AsmError::Parse(pe) => assert_eq!(pe.kind, ParseErrorKind::ImmediateTooBig),
        _ => panic!("expected a parse error"),
    }
}

#[test]
fn missing_comma_is_fatal() {
    let mut p = Parser::new(lex(".text\nadd r1 r2, 5\n"));
    let e = p.parse().unwrap_err();
    match e {
        AsmError::Parse(pe) => assert_eq!(pe.kind, ParseErrorKind::ExpectedComma),
        _ => panic!("expected a parse error"),
    }
}

#[test]
fn undefined_label_is_fatal() {
    let mut p = Parser::new(lex(".text\nb nowhere\n"));
    let e = p.parse().unwrap_err();
    match e {
        AsmError::UndefinedLabel(name) => assert_eq!(name, b"nowhere".to_vec()),
        _ => panic!("expected an undefined label"),
    }
}

#[test]
fn duplicate_label_is_fatal() {
    let mut p = Parser::new(lex(".text\nx:\nhalt\nx:\n"));
    let e = p.parse().unwrap_err();
    match e {
        AsmError::Parse(pe) => assert_eq!(pe.kind, ParseErrorKind::DuplicateLabel),
        _ => panic!("expected a parse error"),
    }
}

#[test]
fn data_value_out_of_range() {
    let mut p = Parser::new(lex(".data\n.1b 256\n"));
    let e = p.parse().unwrap_err();
    match e {
        AsmError::Parse(pe) => assert_eq!(pe.kind, ParseErrorKind::DataTooBig),
        _ => panic!("expected a parse error"),
    }
}

#[test]
fn narrow_load_needs_memory_form() {
    let mut p = Parser::new(lex(".text\nld1 r1, r2\n"));
    let e = p.parse().unwrap_err();
    match e {
        AsmError::Parse(pe) => assert_eq!(pe.kind, ParseErrorKind::InvalidLd),
        _ => panic!("expected a parse error"),
    }
}

#[test]
fn data_items_and_widths() {
    let p = parse_ok(".data\nv: .2b 0x1234, 7\n.4b 1\nc: .char 'x', 'y'\n");
    assert_eq!(
        p.data_section,
        vec![0x34, 0x12, 0x07, 0x00, 0x01, 0x00, 0x00, 0x00, b'x', b'y'],
    );
    assert_eq!(p.mapping.get(&b"v".to_vec()), Some(0x40));
    assert_eq!(p.mapping.get(&b"c".to_vec()), Some(0x48));
}

#[test]
fn literal_load_reserves_pool_slot() {
    let p = parse_ok(".text\nld r1, 0x11\nld r2, 0x22\n");
    assert_eq!(&p.constant_pool[0..8], &[0x11, 0, 0, 0, 0, 0, 0, 0]);
    assert_eq!(&p.constant_pool[8..16], &[0x22, 0, 0, 0, 0, 0, 0, 0]);
    // First load: slot 0x00, pc 0x80; second: slot 0x08, pc 0x84.
    assert_eq!(p.instructions[0], Instruction::Ld(1, RegImmAddr::Address(-0x80)));
    assert_eq!(p.instructions[1], Instruction::Ld(2, RegImmAddr::Address(-0x7C)));
}

#[test]
fn memory_access_forms() {
    let p = parse_ok(".text\nld2s r3, [r4]\nld4 r5, [r6, 12]\nst1 r0, [r1, 'A']\n");
    assert_eq!(p.instructions[0], Instruction::LdMem(2, true, 3, 4, RegImmAddr::Imm(0)));
    assert_eq!(p.instructions[1], Instruction::LdMem(4, false, 5, 6, RegImmAddr::Imm(12)));
    assert_eq!(p.instructions[2], Instruction::St(1, 0, 1, RegImmAddr::Imm(65)));
}

#[test]
fn cbz_cbnz_and_neg_and_swap() {
    let p = parse_ok(".text\nloop:\nneg r1, r2\nswap r3, r4\ncbz r1, loop\ncbnz r2, loop\n");
    assert_eq!(p.instructions[0], Instruction::Neg(1, RegImmAddr::Register(2)));
    assert_eq!(p.instructions[1], Instruction::Swap(3, 4));
    // loop = 0x80; cbz at pc 0x88: offset -8; cbnz at 0x8C: offset -12.
    assert_eq!(p.instructions[2], Instruction::CBZ(1, RegImmAddr::Address(-8)));
    assert_eq!(p.instructions[3], Instruction::CBNZ(2, RegImmAddr::Address(-12)));
}

#[test]
fn every_instruction_encodes_to_four_bytes() {
    let p = parse_ok(".text\nhalt\nadd r1, r2, r3\nneg r0, 5\nswap r1, r2\n");
    let code = encode_instructions(&p.instructions);
    assert_eq!(code.len(), 4 * p.instructions.len());
    assert_eq!(p.text_section_offset, 0x80 + 4 * p.instructions.len());
}

#[test]
fn image_files_have_exact_shape() {
    let src = b".data\nx: .1b 1\n.text\nhalt\n".to_vec();
    let (data_file, text_file) = assemble(src).expect("assembly failed");
    let data_text = String::from_utf8(data_file).unwrap();
    let text_text = String::from_utf8(text_file).unwrap();
    for s in [&data_text, &text_text] {
        assert!(s.starts_with("v3.0 hex words addressed\n"));
        let lines: Vec<&str> = s.lines().collect();
        assert_eq!(lines.len(), 9);
        for line in &lines[1..] {
            assert_eq!(line.len(), 4 + 2 + 16 * 3 - 1);
            assert_eq!(&line[4..6], ": ");
        }
    }
    // 128 bytes are covered per file: 8 lines of 16 bytes each.
    assert_eq!(data_text.lines().count() - 1, 8);
    let mut expected = [0u8; 128];
    expected[0x40] = 1;
    assert_eq!(data_text, image_string(&expected));
}

#[test]
fn assemble_full_program() {
    let src = b".data\nmsg: .string \"ok\"\n.text\nld r1, msg\nloop:\nsub r1, r1, 1\ncbnz r1, loop\nhalt\n"
        .to_vec();
    let (data_file, text_file) = assemble(src).expect("assembly failed");
    let data_text = String::from_utf8(data_file).unwrap();
    // Pool slot 0 holds the absolute address of msg (0x40).
    assert!(data_text.lines().nth(1).unwrap().starts_with("0000: 40 00 00 00"));
    // Data section holds "ok\0" at 0x40.
    assert!(data_text.lines().nth(5).unwrap().starts_with("0040: 6f 6b 00"));
    let text_text = String::from_utf8(text_file).unwrap();
    assert!(text_text.starts_with("v3.0 hex words addressed\n"));
}

#[test]
fn assemble_reports_first_error() {
    let e = assemble(b".text\nadd r1, r2,\n".to_vec()).unwrap_err();
    assert!(matches!(e, AsmError::Parse(_)));
    let e2 = assemble(b"\"open".to_vec()).unwrap_err();
    assert!(matches!(e2, AsmError::Lex(_)));
}

#[test]
fn sections_may_repeat_and_interleave() {
    let p = parse_ok(".text\nhalt\n.data\na: .1b 1\n.text\nhalt\n.data\nq: .1b 2\n");
    assert_eq!(p.instructions.len(), 2);
    assert_eq!(p.data_section, vec![1, 2]);
    assert_eq!(p.mapping.get(&b"a".to_vec()), Some(0x40));
    assert_eq!(p.mapping.get(&b"q".to_vec()), Some(0x41));
}
