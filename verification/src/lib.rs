//! A compiler for a small, keyword-driven markup language: lexical analysis,
//! recursive-descent parsing, scope-aware validation, and HTML generation.
//! Every stage is specified by a mathematical function of the source text
//! and proved equal to it, so the whole pipeline below is deterministic by
//! contract: `compile` returns exactly `compile_spec` of its input.

pub mod laws;
pub mod lexer;
pub mod parser;
pub mod semantic;
pub mod text;
pub mod token;

use vstd::prelude::*;

use crate::lexer::{LexError, LexErrorView, lex_all};
use crate::parser::{LolcodeParser, ParseError, ParseErrorView, p_program};
use crate::semantic::{LolcodeSemanticAnalyzer, e_node, initial_state, v_node};

verus! {

/// A fatal outcome of any stage: one lexical or syntax error, or the full
/// list of semantic errors.
#[derive(Debug)]
pub enum CompileError {
    Lex(LexError),
    Parse(ParseError),
    Semantic(Vec<String>),
}

pub enum CompileErrorView {
    Lex(LexErrorView),
    Parse(ParseErrorView),
    Semantic(Seq<Seq<char>>),
}

impl View for CompileError {
    type V = CompileErrorView;

    open spec fn view(&self) -> CompileErrorView {
        match self {
            CompileError::Lex(e) => CompileErrorView::Lex(e@),
            CompileError::Parse(e) => CompileErrorView::Parse(e@),
            CompileError::Semantic(errs) => CompileErrorView::Semantic(
                errs@.map_values(|e: String| e@),
            ),
        }
    }
}

/// What compiling a source text yields, stated as a function of the text
/// alone: the tokens of `lex_all`, parsed by `p_program`, validated by
/// `v_node`, and rendered by `e_node`. Running the pipeline twice on one
/// input therefore gives byte-identical output.
pub open spec fn compile_spec(src: Seq<char>) -> Result<Seq<char>, CompileErrorView> {
    match lex_all(src, 0) {
        Err(e) => Err(CompileErrorView::Lex(e)),
        Ok(toks) => match p_program(toks, 0) {
            Err(e) => Err(CompileErrorView::Parse(e)),
            Ok((tree, _)) => {
                let checked = v_node(tree, initial_state());
                if checked.errors.len() == 0 {
                    Ok(e_node(tree, initial_state()).0)
                } else {
                    Err(CompileErrorView::Semantic(checked.errors))
                }
            },
        },
    }
}

/// Runs the whole pipeline on one source text and returns its HTML, or the
/// first fatal lexical or syntax error, or every semantic error at once.
/// The result is exactly `compile_spec` of the text.
pub fn compile(source: &str) -> (r: Result<String, CompileError>)
    requires
        source@.len() < usize::MAX,
    ensures
        (match r {
            Ok(html) => compile_spec(source@) == Ok::<Seq<char>, CompileErrorView>(html@),
            Err(e) => compile_spec(source@) == Err::<Seq<char>, CompileErrorView>(e@),
        }),
{
    let mut parser = match LolcodeParser::new(source) {
        Ok(p) => p,
        Err(e) => {
            return Err(CompileError::Lex(e));
        },
    };
    let tree = match parser.parse() {
        Ok(t) => t,
        Err(e) => {
            return Err(CompileError::Parse(e));
        },
    };
    let mut analyzer = LolcodeSemanticAnalyzer::new();
    match analyzer.analyze_tree(&tree) {
        Ok(html) => Ok(html),
        Err(errs) => Err(CompileError::Semantic(errs)),
    }
}

} // verus!
