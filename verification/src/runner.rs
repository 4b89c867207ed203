//! The whole pipeline, from source text through tokens and syntax tree to a
//! value, keeping the result of every stage that completed.
use vstd::prelude::*;
use crate::ast::{Exp, Value};
use crate::error::{Error, ErrorView, reports};
use crate::eval::{eval, eval_spec};
use crate::lexer::{Token, TokenView, lex, lex_spec, lemma_blank_text_has_no_tokens, tokens_view, white_space};
use crate::parser::{parse, parse_spec};

verus! {

/// What each stage produced: the tokens when lexing succeeded, the syntax
/// tree when parsing succeeded too, the value when evaluation succeeded too,
/// and otherwise the error of the first stage that failed.
pub struct Stages {
    pub tokens: Option<Vec<Token>>,
    pub ast: Option<Exp>,
    pub value: Option<Value>,
    pub error: Option<Error>,
}

/// Runs the lexer, then the parser on its tokens, then the evaluator on the
/// tree, stopping at the first error and keeping what the completed stages gave.
pub fn run_stages(source: &str) -> (out: Stages)
    ensures
        match lex_spec(source@) {
            Err(e) => out.tokens is None && out.ast is None && out.value is None
                && reports(out.error, e),
            Ok(ts) => out.tokens matches Some(v) && tokens_view(v@) == ts && match parse_spec(
                ts,
            ) {
                Err(e) => out.ast is None && out.value is None && reports(out.error, e),
                Ok(tree) => out.ast == Some(tree) && match eval_spec(tree) {
                    Err(e) => out.value is None && reports(out.error, e),
                    Ok(v) => out.value == Some(v) && out.error is None,
                },
            },
        },
{
    let tokens = match lex(source) {
        Ok(ts) => ts,
        Err(e) => return Stages { tokens: None, ast: None, value: None, error: Some(e) },
    };
    let tree = match parse(tokens.as_slice()) {
        Ok(t) => t,
        Err(e) => return Stages { tokens: Some(tokens), ast: None, value: None, error: Some(e) },
    };
    match eval(&tree) {
        Ok(v) => Stages { tokens: Some(tokens), ast: Some(tree), value: Some(v), error: None },
        Err(e) => Stages { tokens: Some(tokens), ast: Some(tree), value: None, error: Some(e) },
    }
}


/// Blank input, the empty input included, lexes to no tokens and is then a
/// syntax error: a program is exactly one expression.
pub proof fn lemma_blank_input_is_syntax_error(s: Seq<char>)
    requires
        forall|k: int| 0 <= k < s.len() ==> white_space(#[trigger] s[k]),
    ensures
        lex_spec(s) == Ok::<Seq<TokenView>, ErrorView>(seq![]),
        parse_spec(seq![]) == Err::<Exp, ErrorView>(ErrorView::Parse("Empty input"@)),
{
    lemma_blank_text_has_no_tokens(s);
}

} // verus!
