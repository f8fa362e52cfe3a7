//! The round trip of a source text: a module that is written as text
//! and parsed again is the same module, but for the places of its trees.

use crate::parser::ast::Node;
use crate::parser::grammar::{
    eoi_span, in_range, lemma_skip_to_top_bounds, moves, opens_definition, parse_forms,
    parse_spec, parse_top, resume_at, Input, Outcome,
};

use crate::parser::lexer::{lex_spec, TokenView};
use crate::parser::printer::no_tokens;
use crate::parser::round_trip::{
    erase_all, lemma_module_round_trip, nothing, operator_of, reads, unparse, unparse_forms,
};
use crate::parser::spelling::{
    bare, is_name, lemma_lex_spelled, lemma_lexed_lexable, lexable, spell, tail,
};
use crate::parser::written::{lemma_all_snoc, lemma_define_written, plain_names, slice};
use vstd::prelude::*;

verus! {

/// Whether each of the tokens is one that the lexer can give.
pub open spec fn all_lexable(ts: Seq<TokenView>) -> bool {
    forall|k: int| 0 <= k < ts.len() ==> lexable(#[trigger] ts[k])
}

/// A name does not read as an operator.
pub proof fn lemma_name_is_no_operator(t: Seq<char>)
    requires
        is_name(t),
    ensures
        operator_of(t) is None,
{
    reveal_strlit("-");
    reveal_strlit("+");
    reveal_strlit("*");
    reveal_strlit("/");
    reveal_strlit("<");
    reveal_strlit("<=");
    reveal_strlit(">");
    reveal_strlit(">=");
    reveal_strlit("==");
    let first = t[0];
}

/// Among lexable tokens no identifier reads as an operator.
pub proof fn lemma_lexable_plain(i: Input)
    requires
        all_lexable(bare(i.tokens)),
    ensures
        plain_names(i),
{
    assert forall|k: int| 0 <= k < i.tokens.len() implies ((#[trigger] i.tokens[k]).0 matches TokenView::Ident(
        t,
    ) ==> operator_of(t) is None) by {
        assert(lexable(bare(i.tokens)[k]));
        match i.tokens[k].0 {
            TokenView::Ident(t) => {
                lemma_name_is_no_operator(t);
            },
            _ => {},
        }
    }
}

/// The definitions that parse from lexable tokens are written as
/// lexable tokens.
proof fn lemma_forms_written(i: Input, pos: int, acc: Outcome)
    requires
        all_lexable(bare(i.tokens)),
        all_lexable(unparse_forms(acc.functions)),
    ensures
        all_lexable(unparse_forms(parse_forms(i, pos, acc).functions)),
    decreases i.tokens.len() - pos,
{
    lemma_lexable_plain(i);
    if in_range(i, pos) {
        match parse_top(i, pos) {
            Ok((f, next)) => {
                if moves(i, pos, next) {
                    assert(opens_definition(i, pos));
                    lemma_define_written(i, pos);
                    lemma_all_snoc(acc.functions, 0, f);
                    let more = Outcome { functions: acc.functions.push(f), errors: acc.errors };
                    let before = unparse_forms(acc.functions);
                    let now = unparse_forms(more.functions);
                    assert(now == before + unparse(f));
                    assert forall|k: int| 0 <= k < now.len() implies lexable(#[trigger] now[k]) by {
                        if k < before.len() {
                            assert(now[k] == before[k]);
                        } else {
                            let j = k - before.len();
                            assert(now[k] == slice(i, pos, next)[j]);
                            assert(slice(i, pos, next)[j] == bare(i.tokens)[pos + j]);
                        }
                    }
                    lemma_forms_written(i, next, more);
                }
            },
            Err(e) => {
                lemma_skip_to_top_bounds(i.tokens, pos + 1, 0);
                lemma_skip_to_top_bounds(i.tokens, pos + 1, 1);
                lemma_forms_written(
                    i,
                    resume_at(i.tokens, pos),
                    Outcome { functions: acc.functions, errors: acc.errors.push(e) },
                );
            },
        }
    }
}

/// The text that a module is written as: its tokens, a space after each.
pub open spec fn module_text(fns: Seq<Node>) -> Seq<char> {
    spell(unparse_forms(fns), 0)
}

/// The round trip: the definitions that parsed from a text, written as
/// text and parsed again, under whatever name, are the same definitions
/// but for their places, and the second parse gives no diagnostic.
pub proof fn lemma_source_round_trip(source: Seq<char>, text: Seq<char>, again: Seq<char>)
    ensures
        parse_spec(again, module_text(parse_spec(source, text).functions)).errors.len() == 0,
        erase_all(parse_spec(again, module_text(parse_spec(source, text).functions)).functions)
            == erase_all(parse_spec(source, text).functions),
{
    let first = parse_spec(source, text);
    let fns = first.functions;
    let tokens = unparse_forms(fns);
    let written = module_text(fns);
    match lex_spec(text) {
        Err(_) => {
            assert(tokens =~= no_tokens());
        },
        Ok(lexed) => {
            let i = Input { tokens: lexed, eoi: eoi_span(text.len()), source };
            lemma_lexed_lexable(text, 0);
            assert(all_lexable(bare(lexed))) by {
                assert forall|k: int| 0 <= k < bare(lexed).len() implies lexable(
                    #[trigger] bare(lexed)[k],
                ) by {
                    assert(lexable(lexed[k].0));
                }
            }
            assert(unparse_forms(nothing().functions) =~= no_tokens());
            lemma_forms_written(i, 0, nothing());
        },
    }
    assert(all_lexable(tokens));
    assert(tail(written, 0) =~= written);
    lemma_lex_spelled(written, 0, tokens, 0);
    let relexed = lex_spec(written)->Ok_0;
    assert(tokens.subrange(0, tokens.len() as int) =~= tokens);
    let j = Input { tokens: relexed, eoi: eoi_span(written.len()), source: again };
    assert(reads(j, 0, tokens)) by {
        assert forall|k: int| 0 <= k < tokens.len() implies j.tokens[0 + k].0 == #[trigger] tokens[k] by {
            assert(bare(relexed)[k] == tokens[k]);
        }
    }
    match lex_spec(text) {
        Err(_) => {
            assert(relexed.len() == 0);
        },
        Ok(lexed) => {
            let i = Input { tokens: lexed, eoi: eoi_span(text.len()), source };
            lemma_module_round_trip(i, j);
        },
    }
}

} // verus!
