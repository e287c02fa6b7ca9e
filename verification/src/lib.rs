//! A two-pass assembler for the CS382 teaching ISA.
//!
//! The pipeline is a straight-line transformation over owned data:
//! source bytes -> tokens -> (symbol table, constant pool, data section,
//! instruction list with label references) -> the same with every label
//! resolved -> encoded 32-bit words -> two padded memory-image text files in
//! the Logisim `v3.0 hex words addressed` format.

pub mod encoder;
pub mod error;
pub mod lexer;
pub mod nums;
pub mod parser;
pub mod symbols;
pub mod token;
pub mod txtfilegen;

use vstd::prelude::*;

verus! {

/// The element-wise mathematical view of a sequence of values.
pub open spec fn seq_view<T: View>(s: Seq<T>) -> Seq<T::V> {
    s.map_values(|x: T| x@)
}

/// Pushing a value appends its view.
pub proof fn lemma_seq_view_push<T: View>(s: Seq<T>, t: T)
    ensures
        seq_view(s.push(t)) == seq_view(s) + seq![t@],
{
    assert(seq_view(s.push(t)) =~= seq_view(s) + seq![t@]);
}


/// The tokens of a whole scan fit the parser's size budget: at most ten
/// budget bytes per source byte, plus the trailing `Eof` token.
pub proof fn lemma_lex_budget(s: Seq<u8>, i: int, loc: token::Loc)
    requires
        0 <= i <= s.len(),
    ensures
        lexer::lex_from(s, i, loc) matches Ok(toks) ==> parser::budget(toks, toks.len() as int)
            <= 10 * (s.len() - i) + 9,
    decreases s.len() - i,
{
    if i >= s.len() {
        match lexer::lex_from(s, i, loc) {
            Ok(toks) => {
                assert(parser::budget(toks, 1) == parser::budget(toks, 0)
                    + parser::payload_len(toks[0].value) + 9);
            },
            Err(_) => {},
        }
    } else {
        lexer::lemma_lex_token_shape(s, i, loc);
        match lexer::lex_token(s, i, loc) {
            Err(_) => {},
            Ok((toks0, j, loc2)) => {
                if i < j <= s.len() {
                    lemma_lex_budget(s, j, loc2);
                    match lexer::lex_from(s, j, loc2) {
                        Err(_) => {},
                        Ok(rest) => {
                            parser::lemma_budget_concat(toks0, rest);
                            if toks0.len() == 1 {
                                assert(parser::budget(toks0, 1) == parser::budget(toks0, 0)
                                    + parser::payload_len(toks0[0].value) + 9);
                            }
                        },
                    }
                }
            },
        }
    }
}

/// The whole pipeline on a source: tokens, two-pass assembly, encoding,
/// and the two image-file texts (data image, then text image).
pub open spec fn assemble_spec(src: Seq<u8>) -> Result<(Seq<u8>, Seq<u8>), error::AsmErrorView> {
    match lexer::lex_spec(src) {
        Err(le) => Err(error::AsmErrorView::Lex(le)),
        Ok(toks) => match parser::parse_spec(toks) {
            Err(e) => Err(e),
            Ok(st) => Ok(
                (
                    txtfilegen::data_image(st.pool, st.data),
                    txtfilegen::text_image(encoder::encode_all(st.instrs)),
                ),
            ),
        },
    }
}

/// Assembles one source file into its two memory-image file texts: the
/// data image (constant pool and data section) and the text image (encoded
/// instructions).  The source must stay under 48 MiB, a machine limit that
/// keeps every address counter within bounds; the images themselves cover
/// 256 bytes.  The first fatal error of the pipeline is returned instead.
pub fn assemble(source: Vec<u8>) -> (r: Result<(Vec<u8>, Vec<u8>), error::AsmError>)
    requires
        source@.len() <= 0x0300_0000,
    ensures
        match r {
            Ok(files) => assemble_spec(source@) == Ok::<(Seq<u8>, Seq<u8>), error::AsmErrorView>(
                (files.0@, files.1@),
            ),
            Err(e) => assemble_spec(source@) == Err::<(Seq<u8>, Seq<u8>), error::AsmErrorView>(
                e@,
            ),
        },
{
    let ghost srcv = source@;
    let lx = match lexer::Lexer::new(source) {
        Ok(l) => l,
        Err(e) => {
            return Err(error::AsmError::Lex(e));
        },
    };
    proof {
        lemma_lex_budget(srcv, 0, token::Loc { line: 1u32, col: 1u32 });
    }
    let toks = lx.tokens;
    let mut p = parser::Parser::new(toks);
    match p.parse() {
        Err(e) => {
            return Err(e);
        },
        Ok(()) => (),
    }
    let code = encoder::encode_instructions(&p.instructions);
    proof {
        assert(p.instructions.deep_view() =~= seq_view(p.instructions@));
    }
    let data_file = txtfilegen::render_data_image(&p.constant_pool, &p.data_section);
    let text_file = txtfilegen::render_text_image(&code);
    Ok((data_file, text_file))
}

} // verus!
