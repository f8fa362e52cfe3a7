//! Writing tokens as text, and lexing the text again: the tokens that
//! the lexer gives, written one after the other with a space after each,
//! lex to the same tokens.

use crate::parser::lexer::{
    define_text, has_char, in_class, is_digit, is_ident_start, is_space, lemma_run_end_bounds,
    lemma_token_at_bounds, lex_from, number_end, run_end, span_of, token_at, token_text,
    CharClass, LexErrorKind, TokenView, Tokens,
};
use crate::parser::lexer_laws::{lemma_run_in_class, lemma_run_is_longest};
use vstd::prelude::*;

verus! {

/// The tokens from `from` on as text: each as it is written, with a space
/// after it.
pub open spec fn spell(tokens: Seq<TokenView>, from: int) -> Seq<char>
    decreases tokens.len() - from,
{
    if 0 <= from < tokens.len() {
        token_text(tokens[from]) + seq![' '] + spell(tokens, from + 1)
    } else {
        Seq::empty()
    }
}

/// Whether every character from `from` on is of class `k`.
pub open spec fn all_in(s: Seq<char>, from: int, k: CharClass) -> bool {
    forall|j: int| from <= j < s.len() ==> in_class(k, #[trigger] s[j])
}

/// The end of the whole part of a numeral.
pub open spec fn whole_end(s: Seq<char>) -> int {
    if s[0] == '0' {
        1
    } else {
        run_end(s, 1, CharClass::Digit)
    }
}

/// Whether the text is a numeral: a whole part, then possibly a point and
/// digits.
pub open spec fn is_numeral(s: Seq<char>) -> bool {
    let w = whole_end(s);
    &&& s.len() > 0
    &&& is_digit(s[0])
    &&& (w == s.len() || (w + 1 < s.len() && s[w] == '.' && is_digit(s[w + 1]) && run_end(
        s,
        w + 2,
        CharClass::Digit,
    ) == s.len()))
}

/// Whether the text is an identifier that is not the keyword.
pub open spec fn is_name(s: Seq<char>) -> bool {
    s.len() > 0 && is_ident_start(s[0]) && all_in(s, 1, CharClass::IdentContinue) && s
        != define_text()
}

/// Whether the token is one that the lexer can give: its text lexes to
/// it.
pub open spec fn lexable(t: TokenView) -> bool {
    match t {
        TokenView::Ident(s) => is_name(s),
        TokenView::Num(s) => is_numeral(s),
        TokenView::Str(s) => all_in(s, 0, CharClass::StringBody),
        _ => true,
    }
}

/// A run ends where the characters of its class end.
pub proof fn lemma_run_end_is(x: Seq<char>, pos: int, stop: int, k: CharClass)
    requires
        0 <= pos <= stop <= x.len(),
        forall|j: int| pos <= j < stop ==> in_class(k, #[trigger] x[j]),
        stop == x.len() || !in_class(k, x[stop]),
    ensures
        run_end(x, pos, k) == stop,
    decreases stop - pos,
{
    if pos < stop {
        assert(in_class(k, x[pos]));
        lemma_run_end_is(x, pos + 1, stop, k);
    }
}

/// A run in a window of the text ends where it ends in the text, if that
/// is inside the window.
pub proof fn lemma_run_end_window(s: Seq<char>, lo: int, hi: int, d: int, k: CharClass)
    requires
        0 <= lo,
        0 <= d,
        lo + d <= hi <= s.len(),
        run_end(s, lo + d, k) <= hi,
    ensures
        run_end(s.subrange(lo, hi), d, k) == run_end(s, lo + d, k) - lo,
{
    let sub = s.subrange(lo, hi);
    let r = run_end(s, lo + d, k);
    lemma_run_end_bounds(s, lo + d, k);
    lemma_run_is_longest(s, lo + d, k);
    assert forall|j: int| d <= j < r - lo implies in_class(k, #[trigger] sub[j]) by {
        lemma_run_in_class(s, lo + d, k, lo + j);
    }
    lemma_run_end_is(sub, d, r - lo, k);
}

/// A run in a text that goes on after a character that is not of the
/// run's class ends where it ends in the text before that character.
pub proof fn lemma_run_end_extended(s: Seq<char>, x: Seq<char>, d: int, k: CharClass)
    requires
        0 <= d <= s.len() < x.len(),
        forall|j: int| 0 <= j < s.len() ==> x[j] == #[trigger] s[j],
        !in_class(k, x[s.len() as int]),
    ensures
        run_end(x, d, k) == run_end(s, d, k),
{
    let r = run_end(s, d, k);
    lemma_run_end_bounds(s, d, k);
    lemma_run_is_longest(s, d, k);
    assert forall|j: int| d <= j < r implies in_class(k, #[trigger] x[j]) by {
        lemma_run_in_class(s, d, k, j);
        assert(x[j] == s[j]);
    }
    if r < s.len() {
        assert(x[r] == s[r]);
    }
    lemma_run_end_is(x, d, r, k);
}

proof fn lemma_spelled_number(s: Seq<char>, rest: Seq<char>)
    requires
        is_numeral(s),
    ensures
        token_at(s + seq![' '] + rest, 0) == Ok::<(TokenView, int), LexErrorKind>(
            (TokenView::Num(s), s.len() as int),
        ),
{
    let x = s + seq![' '] + rest;
    assert(x[s.len() as int] == ' ');
    assert forall|j: int| 0 <= j < s.len() implies x[j] == #[trigger] s[j] by {}
    assert(x[0] == s[0]);
    let w = whole_end(s);
    lemma_run_end_bounds(s, 1, CharClass::Digit);
    lemma_run_end_extended(s, x, 1, CharClass::Digit);
    assert(whole_end(x) == w);
    if w == s.len() {
        assert(number_end(x, 0) == s.len());
    } else {
        assert(x[w] == s[w]);
        assert(x[w + 1] == s[w + 1]);
        lemma_run_end_extended(s, x, w + 2, CharClass::Digit);
        assert(number_end(x, 0) == s.len());
    }
    assert(x.subrange(0, s.len() as int) =~= s);
}

proof fn lemma_spelled_name(s: Seq<char>, rest: Seq<char>)
    requires
        is_name(s),
    ensures
        token_at(s + seq![' '] + rest, 0) == Ok::<(TokenView, int), LexErrorKind>(
            (TokenView::Ident(s), s.len() as int),
        ),
{
    let x = s + seq![' '] + rest;
    assert(x[s.len() as int] == ' ');
    assert(x[0] == s[0]);
    assert forall|j: int| 1 <= j < s.len() implies in_class(
        CharClass::IdentContinue,
        #[trigger] x[j],
    ) by {
        assert(x[j] == s[j]);
    }
    lemma_run_end_is(x, 1, s.len() as int, CharClass::IdentContinue);
    assert(x.subrange(0, s.len() as int) =~= s);
}

proof fn lemma_spelled_string(s: Seq<char>, rest: Seq<char>)
    requires
        all_in(s, 0, CharClass::StringBody),
    ensures
        token_at(token_text(TokenView::Str(s)) + seq![' '] + rest, 0) == Ok::<
            (TokenView, int),
            LexErrorKind,
        >((TokenView::Str(s), s.len() as int + 2)),
        token_text(TokenView::Str(s)).len() == s.len() + 2,
        token_text(TokenView::Str(s))[0] == '"',
{
    reveal_strlit("\"");
    let n = s.len() as int;
    let text = token_text(TokenView::Str(s));
    let x = text + seq![' '] + rest;
    assert(text[0] == '"');
    assert(x[0] == '"');
    assert(x[n + 1] == '"');
    assert forall|j: int| 1 <= j < n + 1 implies in_class(
        CharClass::StringBody,
        #[trigger] x[j],
    ) by {
        assert(x[j] == s[j - 1]);
    }
    lemma_run_end_is(x, 1, n + 1, CharClass::StringBody);
    assert(x.subrange(1, n + 1) =~= s);
}

proof fn lemma_spelled_fixed(t: TokenView, rest: Seq<char>)
    requires
        !(t is Ident),
        !(t is Num),
        !(t is Str),
    ensures
        token_at(token_text(t) + seq![' '] + rest, 0) == Ok::<(TokenView, int), LexErrorKind>(
            (t, token_text(t).len() as int),
        ),
        token_text(t).len() > 0,
        !is_space(token_text(t)[0]),
{
    reveal_strlit("-");
    reveal_strlit("+");
    reveal_strlit("*");
    reveal_strlit("/");
    reveal_strlit("(");
    reveal_strlit(")");
    reveal_strlit("<");
    reveal_strlit("<=");
    reveal_strlit(">");
    reveal_strlit(">=");
    reveal_strlit("==");
    reveal_strlit("#t");
    reveal_strlit("#f");
    reveal_strlit("define");
    let text = token_text(t);
    let x = text + seq![' '] + rest;
    assert(x[0] == text[0]);
    assert(x[text.len() as int] == ' ');
    if text.len() > 1 {
        assert(x[1] == text[1]);
    }
    if t is Define {
        assert forall|j: int| 1 <= j < 6 implies in_class(
            CharClass::IdentContinue,
            #[trigger] x[j],
        ) by {
            assert(x[j] == text[j]);
        }
        lemma_run_end_is(x, 1, 6, CharClass::IdentContinue);
        assert(x.subrange(0, 6) =~= define_text());
    }
}

/// The text of a lexable token, with a space after it, lexes to the
/// token.
pub proof fn lemma_token_spelled(t: TokenView, rest: Seq<char>)
    requires
        lexable(t),
    ensures
        token_at(token_text(t) + seq![' '] + rest, 0) == Ok::<(TokenView, int), LexErrorKind>(
            (t, token_text(t).len() as int),
        ),
        token_text(t).len() > 0,
        !is_space(token_text(t)[0]),
{
    match t {
        TokenView::Ident(s) => {
            lemma_spelled_name(s, rest);
        },
        TokenView::Num(s) => {
            lemma_spelled_number(s, rest);
        },
        TokenView::Str(s) => {
            lemma_spelled_string(s, rest);
        },
        _ => {
            lemma_spelled_fixed(t, rest);
        },
    }
}

/// What the text holds from `pos` on.
pub open spec fn tail(s: Seq<char>, pos: int) -> Seq<char> {
    s.subrange(pos, s.len() as int)
}

/// The token at a place in a text is the token at the start of what the
/// text holds from there on.
pub proof fn lemma_token_at_tail(s: Seq<char>, pos: int)
    requires
        0 <= pos < s.len(),
    ensures
        token_at(s, pos) == match token_at(tail(s, pos), 0) {
            Ok((t, end)) => Ok::<(TokenView, int), LexErrorKind>((t, end + pos)),
            Err(k) => Err(k),
        },
{
    let x = tail(s, pos);
    let n = s.len() as int;
    assert(x[0] == s[pos]);
    assert(has_char(s, pos + 1, '=') == has_char(x, 1, '=')) by {
        if pos + 1 < n {
            assert(x[1] == s[pos + 1]);
        }
    }
    assert(has_char(s, pos + 1, 't') == has_char(x, 1, 't')) by {
        if pos + 1 < n {
            assert(x[1] == s[pos + 1]);
        }
    }
    assert(has_char(s, pos + 1, 'f') == has_char(x, 1, 'f')) by {
        if pos + 1 < n {
            assert(x[1] == s[pos + 1]);
        }
    }
    lemma_run_end_bounds(s, pos + 1, CharClass::Digit);
    lemma_run_end_bounds(s, pos + 1, CharClass::StringBody);
    lemma_run_end_bounds(s, pos + 1, CharClass::IdentContinue);
    lemma_run_end_window(s, pos, n, 1, CharClass::Digit);
    lemma_run_end_window(s, pos, n, 1, CharClass::StringBody);
    lemma_run_end_window(s, pos, n, 1, CharClass::IdentContinue);
    let c = s[pos];
    if is_digit(c) {
        let whole = if c == '0' {
            pos + 1
        } else {
            run_end(s, pos + 1, CharClass::Digit)
        };
        let w = whole - pos;
        if whole + 1 < n {
            assert(x[w] == s[whole]);
            assert(x[w + 1] == s[whole + 1]);
            lemma_run_end_bounds(s, whole + 2, CharClass::Digit);
            lemma_run_end_window(s, pos, n, w + 2, CharClass::Digit);
        }
        let end = number_end(s, pos);
        assert(number_end(x, 0) == end - pos);
        assert(s.subrange(pos, end) =~= x.subrange(0, end - pos));
    } else if c == '"' {
        let close = run_end(s, pos + 1, CharClass::StringBody);
        assert(s.subrange(pos + 1, close) =~= x.subrange(1, close - pos));
    } else if is_ident_start(c) {
        let end = run_end(s, pos + 1, CharClass::IdentContinue);
        assert(s.subrange(pos, end) =~= x.subrange(0, end - pos));
    }
}

/// Lexing passes over a space.
pub proof fn lemma_lex_over_space(s: Seq<char>, pos: int)
    requires
        0 <= pos < s.len(),
        is_space(s[pos]),
    ensures
        lex_from(s, pos) == lex_from(s, pos + 1),
{
    lemma_run_end_bounds(s, pos + 1, CharClass::Space);
}

/// The tokens in a token sequence, without their spans.
pub open spec fn bare(tokens: Tokens) -> Seq<TokenView> {
    tokens.map_values(|t: (TokenView, crate::common::Span)| t.0)
}

/// A text that spells lexable tokens lexes to them.
pub proof fn lemma_lex_spelled(s: Seq<char>, pos: int, tokens: Seq<TokenView>, from: int)
    requires
        0 <= from <= tokens.len(),
        0 <= pos <= s.len(),
        tail(s, pos) == spell(tokens, from),
        forall|k: int| 0 <= k < tokens.len() ==> lexable(#[trigger] tokens[k]),
    ensures
        lex_from(s, pos) matches Ok(out) && bare(out) == tokens.subrange(
            from,
            tokens.len() as int,
        ),
    decreases tokens.len() - from,
{
    if from < tokens.len() {
        let t = tokens[from];
        let text = token_text(t);
        let rest = spell(tokens, from + 1);
        let x = tail(s, pos);
        lemma_token_spelled(t, rest);
        assert(x.len() == text.len() + 1 + rest.len());
        assert(x[0] == text[0]);
        assert(s[pos] == x[0]);
        lemma_token_at_tail(s, pos);
        let end = pos + text.len();
        assert(x[text.len() as int] == ' ');
        assert(s[end] == x[text.len() as int]);
        lemma_lex_over_space(s, end);
        let after = tail(s, end + 1);
        assert(after.len() == rest.len());
        assert forall|j: int| 0 <= j < rest.len() implies after[j] == rest[j] by {
            assert(x[text.len() + 1 + j] == rest[j]);
            assert(s[end + 1 + j] == x[text.len() + 1 + j]);
        }
        assert(after =~= rest);
        lemma_lex_spelled(s, end + 1, tokens, from + 1);
        match lex_from(s, end + 1) {
            Ok(more) => {
                let out = seq![(t, span_of(pos, end))] + more;
                assert(lex_from(s, pos) == Ok::<Tokens, crate::parser::lexer::LexError>(out));
                let want = tokens.subrange(from, tokens.len() as int);
                assert(bare(more).len() == more.len());
                assert forall|k: int| 0 <= k < out.len() implies bare(out)[k] == want[k] by {
                    if k > 0 {
                        assert(out[k] == more[k - 1]);
                        assert(bare(more)[k - 1] == tokens.subrange(
                            from + 1,
                            tokens.len() as int,
                        )[k - 1]);
                    }
                }
                assert(bare(out) =~= want);
            },
            Err(_) => {},
        }
    } else {
        assert(tail(s, pos).len() == 0);
        assert(bare(Seq::empty()) =~= tokens.subrange(from, tokens.len() as int));
    }
}

/// A token that the lexer gives is lexable.
pub proof fn lemma_lexed_token_lexable(s: Seq<char>, pos: int)
    requires
        0 <= pos < s.len(),
    ensures
        token_at(s, pos) matches Ok((t, _)) ==> lexable(t),
{
    lemma_token_at_bounds(s, pos);
    let c = s[pos];
    match token_at(s, pos) {
        Ok((t, end)) => {
            if is_digit(c) {
                let sub = s.subrange(pos, end);
                lemma_run_end_bounds(s, pos + 1, CharClass::Digit);
                let whole = if c == '0' {
                    pos + 1
                } else {
                    run_end(s, pos + 1, CharClass::Digit)
                };
                let taken = whole + 1 < s.len() && s[whole] == '.' && is_digit(s[whole + 1]);
                if taken {
                    lemma_run_end_bounds(s, whole + 2, CharClass::Digit);
                }
                assert(whole <= end);
                assert(sub[0] == c);
                if c != '0' {
                    lemma_run_end_window(s, pos, end, 1, CharClass::Digit);
                }
                assert(whole_end(sub) == whole - pos);
                if taken {
                    lemma_run_end_window(s, pos, end, whole - pos + 2, CharClass::Digit);
                    assert(sub[whole - pos] == s[whole]);
                    assert(sub[whole - pos + 1] == s[whole + 1]);
                }
                assert(is_numeral(sub));
            } else if c == '"' {
                lemma_run_end_bounds(s, pos + 1, CharClass::StringBody);
                let close = run_end(s, pos + 1, CharClass::StringBody);
                let sub = s.subrange(pos + 1, close);
                assert forall|j: int| 0 <= j < sub.len() implies in_class(
                    CharClass::StringBody,
                    #[trigger] sub[j],
                ) by {
                    lemma_run_in_class(s, pos + 1, CharClass::StringBody, pos + 1 + j);
                }
            } else if is_ident_start(c) {
                lemma_run_end_bounds(s, pos + 1, CharClass::IdentContinue);
                let sub = s.subrange(pos, end);
                assert(sub[0] == c);
                assert forall|j: int| 1 <= j < sub.len() implies in_class(
                    CharClass::IdentContinue,
                    #[trigger] sub[j],
                ) by {
                    lemma_run_in_class(s, pos + 1, CharClass::IdentContinue, pos + j);
                }
            }
        },
        Err(_) => {},
    }
}

/// Every token that the lexer gives is lexable.
pub proof fn lemma_lexed_lexable(s: Seq<char>, pos: int)
    requires
        0 <= pos <= s.len(),
    ensures
        lex_from(s, pos) matches Ok(out) ==> forall|k: int|
            0 <= k < out.len() ==> lexable((#[trigger] out[k]).0),
    decreases s.len() - pos,
{
    let start = run_end(s, pos, CharClass::Space);
    lemma_run_end_bounds(s, pos, CharClass::Space);
    if start < s.len() {
        lemma_lexed_token_lexable(s, start);
        lemma_token_at_bounds(s, start);
        match token_at(s, start) {
            Ok((t, end)) => {
                lemma_lexed_lexable(s, end);
                match lex_from(s, end) {
                    Ok(more) => {
                        let out = seq![(t, span_of(start, end))] + more;
                        assert forall|k: int| 0 <= k < out.len() implies lexable(
                            (#[trigger] out[k]).0,
                        ) by {
                            if k > 0 {
                                assert(out[k] == more[k - 1]);
                            }
                        }
                    },
                    Err(_) => {},
                }
            },
            Err(_) => {},
        }
    }
}

} // verus!
