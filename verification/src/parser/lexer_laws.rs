//! What holds of every token sequence that the lexer gives: each token
//! is written in the text at its span, and nothing but white space lies
//! between the tokens.

use crate::parser::lexer::{
    define_text, in_class, is_digit, is_ident_start, is_space, lemma_run_end_bounds,
    lemma_token_at_bounds, lex_from, lex_spec, run_end, span_of, token_at, token_text, CharClass,
    Tokens,
};
use vstd::prelude::*;

verus! {

/// Whether the text holds white space only from `from` up to `to`.
pub open spec fn blank(s: Seq<char>, from: int, to: int) -> bool {
    forall|j: int| from <= j < to ==> is_space(#[trigger] s[j])
}

/// Every character of a run is of the run's class.
pub proof fn lemma_run_in_class(s: Seq<char>, pos: int, k: CharClass, j: int)
    requires
        0 <= pos <= j < run_end(s, pos, k),
    ensures
        j < s.len(),
        in_class(k, s[j]),
    decreases s.len() - pos,
{
    if pos < s.len() && in_class(k, s[pos]) {
        if j > pos {
            lemma_run_in_class(s, pos + 1, k, j);
        }
    }
}

/// A run ends at the end of the text or before a character that is not of
/// its class: it is the longest there is.
pub proof fn lemma_run_is_longest(s: Seq<char>, pos: int, k: CharClass)
    requires
        0 <= pos <= s.len(),
    ensures
        run_end(s, pos, k) == s.len() || !in_class(k, s[run_end(s, pos, k)]),
    decreases s.len() - pos,
{
    if pos < s.len() && in_class(k, s[pos]) {
        lemma_run_is_longest(s, pos + 1, k);
    }
}

/// A token is written in the text where it was read.
pub proof fn lemma_token_text(s: Seq<char>, pos: int)
    requires
        0 <= pos < s.len(),
    ensures
        token_at(s, pos) matches Ok((t, end)) ==> pos < end <= s.len() && token_text(t)
            == s.subrange(pos, end),
{
    lemma_token_at_bounds(s, pos);
    reveal_strlit("-");
    reveal_strlit("+");
    reveal_strlit("*");
    reveal_strlit("/");
    reveal_strlit("(");
    reveal_strlit(")");
    reveal_strlit("<");
    reveal_strlit("<=");
    reveal_strlit(">");
    reveal_strlit(">=");
    reveal_strlit("==");
    reveal_strlit("#t");
    reveal_strlit("#f");
    reveal_strlit("\"");
    reveal_strlit("define");
    match token_at(s, pos) {
        Ok((t, end)) => {
            let c = s[pos];
            if is_digit(c) {
            } else if c == '"' {
                let close = run_end(s, pos + 1, CharClass::StringBody);
                lemma_run_end_bounds(s, pos + 1, CharClass::StringBody);
                lemma_run_is_longest(s, pos + 1, CharClass::StringBody);
                assert(s[close] == '"');
                assert(token_text(t) =~= s.subrange(pos, end));
            } else if is_ident_start(c) {
                let stop = run_end(s, pos + 1, CharClass::IdentContinue);
                if s.subrange(pos, stop) == define_text() {
                    assert("define"@ =~= define_text());
                }
            } else {
                assert(token_text(t) =~= s.subrange(pos, end));
            }
        },
        Err(_) => {},
    }
}

/// Whether the tokens are written in the text, in order, from `from` on:
/// each at its span, with nothing but white space before the first,
/// between two of them and after the last.
pub open spec fn written(s: Seq<char>, tokens: Tokens, from: int) -> bool
    decreases tokens.len(),
{
    if tokens.len() == 0 {
        blank(s, from, s.len() as int)
    } else {
        let (t, span) = tokens[0];
        &&& from <= span.start < span.end <= s.len()
        &&& blank(s, from, span.start as int)
        &&& token_text(t) == s.subrange(span.start as int, span.end as int)
        &&& written(s, tokens.subrange(1, tokens.len() as int), span.end as int)
    }
}

/// The tokens that the lexer gives from `pos` on are written in the text
/// from `pos` on.
pub proof fn lemma_lexed_from(s: Seq<char>, pos: int)
    requires
        0 <= pos <= s.len() <= usize::MAX,
    ensures
        lex_from(s, pos) matches Ok(tokens) ==> written(s, tokens, pos),
    decreases s.len() - pos,
{
    let start = run_end(s, pos, CharClass::Space);
    lemma_run_end_bounds(s, pos, CharClass::Space);
    assert forall|j: int| pos <= j < start implies is_space(#[trigger] s[j]) by {
        lemma_run_in_class(s, pos, CharClass::Space, j);
    }
    if start < s.len() {
        lemma_token_text(s, start);
        match token_at(s, start) {
            Ok((t, end)) => {
                lemma_lexed_from(s, end);
                match lex_from(s, end) {
                    Ok(rest) => {
                        let tokens = seq![(t, span_of(start, end))] + rest;
                        assert(tokens.subrange(1, tokens.len() as int) =~= rest);
                        assert(tokens[0] == (t, span_of(start, end)));
                    },
                    Err(_) => {},
                }
            },
            Err(_) => {},
        }
    }
}

/// The tokens of a text are written in it: each token's text stands at
/// its span, the spans are in order and not empty, and the text holds
/// nothing but white space outside them.
pub proof fn lemma_lexed(s: Seq<char>)
    requires
        s.len() <= usize::MAX,
    ensures
        lex_spec(s) matches Ok(tokens) ==> written(s, tokens, 0),
{
    lemma_lexed_from(s, 0);
}

/// A lexical error points at a character of the text that is no white
/// space, and what stands before it was lexed.
pub proof fn lemma_lex_error_place(s: Seq<char>, pos: int)
    requires
        0 <= pos <= s.len() <= usize::MAX,
    ensures
        lex_from(s, pos) matches Err(e) ==> pos <= e.span.start < s.len() && e.span.end
            == e.span.start + 1 && !is_space(s[e.span.start as int]),
    decreases s.len() - pos,
{
    let start = run_end(s, pos, CharClass::Space);
    lemma_run_end_bounds(s, pos, CharClass::Space);
    lemma_run_is_longest(s, pos, CharClass::Space);
    if start < s.len() {
        lemma_token_at_bounds(s, start);
        match token_at(s, start) {
            Ok((t, end)) => {
                lemma_lex_error_place(s, end);
            },
            Err(_) => {},
        }
    }
}

} // verus!
