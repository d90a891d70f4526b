//! A tiny source-to-source compiler: S-expression calls over integer literals,
//! such as `(add 2 (subtract 4 2))`, become C-like calls, `add(2, subtract(4, 2))`.
//! The pipeline is lexer, parser, a visitor-driven rewrite of the tree, and code
//! generation; each stage's contract states its result over a spec function.
pub mod ast;
pub mod codegen;
pub mod error;
pub mod parser;
pub mod token;
pub mod transform;

pub use codegen::codegen;
pub use parser::parser;
pub use token::tokenizer;
pub use transform::transformer;

use vstd::prelude::*;

use crate::ast::c_ast::TargetTree;
use crate::ast::lisp_ast::SourceTree;
use crate::codegen::render;
use crate::error::CompileError;
use crate::parser::{
    exprs_tokens, is_writable, lemma_parse_body_expressions, lemma_parse_tokens_round_trip,
    lemma_spaced_text, parse_program, spaced_text,
};
use crate::token::{at_token_boundary, lemma_lex_space_between_tokens, lex, token_views};
use crate::transform::{statements_of, transform_program};

verus! {

/// The text that a source text compiles to, or the first fault on the way.
pub open spec fn compiled(s: Seq<char>) -> Result<Seq<char>, CompileError> {
    match lex(s) {
        Err(e) => Err(e),
        Ok(tokens) => match parse_program(tokens) {
            Err(e) => Err(e),
            Ok(program) => match transform_program(program) {
                None => Err(CompileError::MalformedTargetShape),
                Some(target) => Ok(render(target)),
            },
        },
    }
}

/// What `compile` promises of its result `r` on source text `s`.
pub open spec fn compile_result_is(s: Seq<char>, r: Result<String, CompileError>) -> bool {
    match compiled(s) {
        Ok(text) => r matches Ok(out) && out@ == text,
        Err(e) => r == Err::<String, CompileError>(e),
    }
}

/// Compilation is a function of the source text: two results that `compile`
/// may return on one text are the same text, or the same error.
pub proof fn lemma_compile_deterministic(
    s: Seq<char>,
    r1: Result<String, CompileError>,
    r2: Result<String, CompileError>,
)
    requires
        compile_result_is(s, r1),
        compile_result_is(s, r2),
    ensures
        r1 is Ok <==> r2 is Ok,
        r1 is Ok ==> r1->Ok_0@ == r2->Ok_0@,
        r1 is Err ==> r1 == r2,
{
}

/// Extra spaces between tokens never change what a text compiles to, nor
/// the error it fails with.
pub proof fn lemma_compile_space_between_tokens(s: Seq<char>, k: int)
    requires
        at_token_boundary(s, k),
    ensures
        compiled(s.insert(k, ' ')) == compiled(s),
{
    lemma_lex_space_between_tokens(s, k);
}

/// Calls over numbers, nested to any depth and written out as source text,
/// come back from the lexer and parser as the same tree, and compile to the
/// rendering of the same calls: each top-level call one statement, names and
/// argument order unchanged, number texts verbatim.
pub proof fn lemma_compile_round_trip(body: Seq<SourceTree>)
    requires
        forall|i: int| 0 <= i < body.len() ==> #[trigger] body[i] is Call && is_writable(body[i]),
    ensures
        lex(spaced_text(body)) == Ok::<_, CompileError>(exprs_tokens(body)),
        parse_program(exprs_tokens(body)) == Ok::<_, CompileError>(SourceTree::Program(body)),
        compiled(spaced_text(body)) == Ok::<_, CompileError>(
            render(TargetTree::Program(statements_of(body))),
        ),
{
    lemma_spaced_text(body);
    lemma_parse_tokens_round_trip(body);
}

/// Compiles S-expression source text to C-like call text, stopping at the
/// first stage that fails.
pub fn compile(lisp_string: &str) -> (r: Result<String, CompileError>)
    ensures
        compile_result_is(lisp_string@, r),
{
    let tokens = match tokenizer(lisp_string) {
        Ok(tokens) => tokens,
        Err(e) => return Err(e),
    };
    let ast = match parser(&tokens) {
        Ok(ast) => ast,
        Err(e) => return Err(e),
    };
    proof {
        lemma_parse_body_expressions(token_views(tokens@), 0);
    }
    let new_ast = match transformer(&ast) {
        Ok(new_ast) => new_ast,
        Err(e) => return Err(e),
    };
    Ok(codegen(&new_ast))
}

} // verus!
