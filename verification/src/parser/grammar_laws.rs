//! What holds of everything that the grammar gives.

use crate::parser::ast::{all_functions};
use crate::parser::grammar::{
    in_range, lemma_skip_to_top_bounds, moves, parse_define, parse_forms, parse_spec, parse_top,
    resume_at, Input, Outcome,
};
use vstd::prelude::*;

verus! {

/// What parses as a definition is a definition, from the source that was
/// read.
pub proof fn lemma_define_gives_function(i: Input, pos: int)
    ensures
        parse_define(i, pos) matches Ok((n, _)) ==> n.x is Function && n.source == i.source,
{
}

/// A form at the top level parses to a definition or not at all.
pub proof fn lemma_top_gives_function(i: Input, pos: int)
    ensures
        parse_top(i, pos) matches Ok((n, _)) ==> n.x is Function && n.source == i.source,
{
    lemma_define_gives_function(i, pos);
}

/// Parsing adds definitions only, and never drops a diagnostic.
pub proof fn lemma_forms_are_functions(i: Input, pos: int, acc: Outcome)
    requires
        all_functions(acc.functions),
    ensures
        all_functions(parse_forms(i, pos, acc).functions),
        acc.errors.len() <= parse_forms(i, pos, acc).errors.len(),
        acc.functions.len() <= parse_forms(i, pos, acc).functions.len(),
    decreases i.tokens.len() - pos,
{
    if in_range(i, pos) {
        lemma_top_gives_function(i, pos);
        match parse_top(i, pos) {
            Ok((f, next)) => {
                if moves(i, pos, next) {
                    let more = Outcome {
                        functions: acc.functions.push(f),
                        errors: acc.errors,
                    };
                    assert forall|k: int| 0 <= k < more.functions.len() implies (
                    #[trigger] more.functions[k]).x is Function by {
                        if k < acc.functions.len() {
                            assert(acc.functions[k].x is Function);
                        }
                    }
                    lemma_forms_are_functions(i, next, more);
                }
            },
            Err(e) => {
                lemma_skip_to_top_bounds(i.tokens, pos + 1, 0);
                lemma_skip_to_top_bounds(i.tokens, pos + 1, 1);
                lemma_forms_are_functions(
                    i,
                    resume_at(i.tokens, pos),
                    Outcome { functions: acc.functions, errors: acc.errors.push(e) },
                );
            },
        }
    }
}

/// What parsing gives is a module: every form in it is a definition.
pub proof fn lemma_parsed_is_module(source: Seq<char>, text: Seq<char>)
    ensures
        all_functions(parse_spec(source, text).functions),
{
    match crate::parser::lexer::lex_spec(text) {
        Err(_) => {},
        Ok(tokens) => {
            lemma_forms_are_functions(
                Input { tokens, eoi: crate::parser::grammar::eoi_span(text.len()), source },
                0,
                Outcome { functions: Seq::empty(), errors: Seq::empty() },
            );
        },
    }
}

} // verus!
