//! The grammar, as mathematical functions from a token sequence to trees
//! and diagnostics.

use crate::common::Span;
use crate::parser::ast::{Node, Sexp};
use crate::parser::lexer::{token_text, LexError, LexErrorKind, TokenView, Tokens};
use vstd::prelude::*;

verus! {

/// The kinds of token that a diagnostic can name as acceptable.
#[derive(Clone, Copy, Debug, PartialEq, Eq, Hash, Structural)]
pub enum TokenKind {
    LParen,
    RParen,
    Ident,
    Num,
    Str,
    Bool,
    Define,
    Operator,
}

/// The mathematical value of a parse diagnostic's kind.
pub enum ParseErrorKindView {
    Lexical(LexErrorKind),
    /// A `(` at `opening` that is still open at the end of input (`found`
    /// is `None`) or at a token that cannot continue its form.
    UnclosedDelimiter { opening: Span, found: Option<TokenView> },
    /// A token, or the end of input, where only the `expected` kinds fit.
    UnexpectedToken { found: Option<TokenView>, expected: Seq<TokenKind> },
    Custom(Seq<char>),
}

/// The mathematical value of a parse diagnostic.
pub struct ParseErrorView {
    pub kind: ParseErrorKindView,
    pub span: Span,
}

/// What the grammar reads: the tokens, the span that stands for the end of
/// input, and the name of the source text.
pub struct Input {
    pub tokens: Tokens,
    pub eoi: Span,
    pub source: Seq<char>,
}

pub open spec fn is_operator(t: TokenView) -> bool {
    t is Neg || t is Add || t is Mult || t is Div || t is Le || t is Leq || t is Ge || t is Geq
        || t is Eq
}

/// Whether an expression can start with this token.
pub open spec fn starts_expr(t: TokenView) -> bool {
    t is LParen || t is Ident || t is Num || t is Str || t is Bool
}

pub open spec fn expr_starts() -> Seq<TokenKind> {
    seq![TokenKind::LParen, TokenKind::Ident, TokenKind::Num, TokenKind::Str, TokenKind::Bool]
}

pub open spec fn requires_text() -> Seq<char> {
    "requires"@
}

pub open spec fn ensures_text() -> Seq<char> {
    "ensures"@
}

/// Whether this token opens a contract clause.
pub open spec fn is_contract_word(t: TokenView) -> bool {
    t matches TokenView::Ident(w) && (w == requires_text() || w == ensures_text())
}

pub open spec fn contract_position_message() -> Seq<char> {
    "a contract clause must come before the body"@
}

pub open spec fn in_range(i: Input, pos: int) -> bool {
    0 <= pos < i.tokens.len()
}

/// Whether going from `pos` to `next` consumes at least one token and none
/// past the end.
pub open spec fn moves(i: Input, pos: int, next: int) -> bool {
    pos < next <= i.tokens.len()
}

pub open spec fn found_at(i: Input, pos: int) -> Option<TokenView> {
    if in_range(i, pos) {
        Some(i.tokens[pos].0)
    } else {
        None
    }
}

pub open spec fn span_at(i: Input, pos: int) -> Span {
    if in_range(i, pos) {
        i.tokens[pos].1
    } else {
        i.eoi
    }
}

/// The diagnostic for the token at `pos` (or the end of input) where only
/// `expected` fits.
pub open spec fn err_unexpected(i: Input, pos: int, expected: Seq<TokenKind>) -> ParseErrorView {
    ParseErrorView {
        kind: ParseErrorKindView::UnexpectedToken { found: found_at(i, pos), expected },
        span: span_at(i, pos),
    }
}

/// The diagnostic for the `(` at `opening` that the token at `pos` (or the
/// end of input) leaves open.
pub open spec fn err_unclosed(i: Input, pos: int, opening: Span) -> ParseErrorView {
    ParseErrorView {
        kind: ParseErrorKindView::UnclosedDelimiter { opening, found: found_at(i, pos) },
        span: span_at(i, pos),
    }
}

pub open spec fn err_contract_position(i: Input, pos: int) -> ParseErrorView {
    ParseErrorView {
        kind: ParseErrorKindView::Custom(contract_position_message()),
        span: span_at(i, pos),
    }
}

pub open spec fn node(i: Input, x: Sexp, span: Span) -> Node {
    Node { source: i.source, x, span }
}

/// Whether the tokens at `pos` open a definition: `(` then `define`.
pub open spec fn opens_definition(i: Input, pos: int) -> bool {
    in_range(i, pos) && in_range(i, pos + 1) && i.tokens[pos].0 is LParen && i.tokens[pos + 1].0
        is Define
}

/// The operator that heads the list opened at `pos`, as the list's first
/// item, if there is one: an identifier that reads as the operator does.
pub open spec fn operator_head(i: Input, pos: int) -> Seq<Node> {
    if in_range(i, pos + 1) && is_operator(i.tokens[pos + 1].0) {
        seq![node(i, Sexp::Atom(token_text(i.tokens[pos + 1].0)), i.tokens[pos + 1].1)]
    } else {
        Seq::empty()
    }
}

/// The parameter names from `pos` up to the `)` that closes the header
/// opened at `header`, with the index of that `)`.
pub open spec fn parse_params(i: Input, pos: int, header: Span, acc: Seq<Seq<char>>) -> Result<
    (Seq<Seq<char>>, int),
    ParseErrorView,
>
    decreases i.tokens.len() - pos,
{
    if !in_range(i, pos) {
        Err(err_unclosed(i, pos, header))
    } else {
        match i.tokens[pos].0 {
            TokenView::RParen => Ok((acc, pos)),
            TokenView::Ident(name) => parse_params(i, pos + 1, header, acc.push(name)),
            _ => Err(err_unexpected(i, pos, seq![TokenKind::Ident, TokenKind::RParen])),
        }
    }
}

/// The expression that starts at `pos`, with the index just past it. The
/// alternatives, in order: a definition, a list headed by an operator, a
/// literal, a general list, an identifier.
pub open spec fn parse_expr(i: Input, pos: int) -> Result<(Node, int), ParseErrorView>
    decreases i.tokens.len() - pos, 2int,
{
    if !in_range(i, pos) {
        Err(err_unexpected(i, pos, expr_starts()))
    } else {
        let span = i.tokens[pos].1;
        match i.tokens[pos].0 {
            TokenView::LParen => {
                if opens_definition(i, pos) {
                    parse_define(i, pos)
                } else {
                    let head = operator_head(i, pos);
                    match parse_items(i, pos + 1 + head.len(), span, false, head) {
                        Err(e) => Err(e),
                        Ok((items, close)) => Ok(
                            (
                                node(i, Sexp::List(items), Span::cover(span, span_at(i, close))),
                                close + 1,
                            ),
                        ),
                    }
                }
            },
            TokenView::Num(t) => Ok((node(i, Sexp::Int(t), span), pos + 1)),
            TokenView::Str(t) => Ok((node(i, Sexp::Str(t), span), pos + 1)),
            TokenView::Bool(b) => Ok((node(i, Sexp::Bool(b), span), pos + 1)),
            TokenView::Ident(t) => Ok((node(i, Sexp::Atom(t), span), pos + 1)),
            _ => Err(err_unexpected(i, pos, expr_starts())),
        }
    }
}

/// The expressions from `pos` up to the `)` that closes the form opened at
/// `opening`, added to `acc`, with the index of that `)`. Directly inside a
/// definition (`in_body`) a contract word is out of place.
pub open spec fn parse_items(
    i: Input,
    pos: int,
    opening: Span,
    in_body: bool,
    acc: Seq<Node>,
) -> Result<(Seq<Node>, int), ParseErrorView>
    decreases i.tokens.len() - pos, 3int,
{
    if !in_range(i, pos) {
        Err(err_unclosed(i, pos, opening))
    } else if i.tokens[pos].0 is RParen {
        Ok((acc, pos))
    } else if in_body && is_contract_word(i.tokens[pos].0) {
        Err(err_contract_position(i, pos))
    } else if !starts_expr(i.tokens[pos].0) {
        Err(err_unclosed(i, pos, opening))
    } else {
        match parse_expr(i, pos) {
            Err(e) => Err(e),
            Ok((item, next)) => if moves(i, pos, next) {
                parse_items(i, next, opening, in_body, acc.push(item))
            } else {
                // An expression holds at least one token.
                Err(err_unclosed(i, pos, opening))
            },
        }
    }
}

/// The `requires` clauses from `pos` on, added to `acc`, with the index
/// just past them.
pub open spec fn parse_preconditions(i: Input, pos: int, opening: Span, acc: Seq<Node>) -> Result<
    (Seq<Node>, int),
    ParseErrorView,
>
    decreases i.tokens.len() - pos, 3int,
{
    if in_range(i, pos) && i.tokens[pos].0 == TokenView::Ident(requires_text()) {
        if !in_range(i, pos + 1) {
            Err(err_unclosed(i, pos + 1, opening))
        } else {
            match parse_expr(i, pos + 1) {
                Err(e) => Err(e),
                Ok((clause, next)) => if moves(i, pos, next) {
                    parse_preconditions(i, next, opening, acc.push(clause))
                } else {
                    Err(err_unclosed(i, pos, opening))
                },
            }
        }
    } else {
        Ok((acc, pos))
    }
}

/// The `ensures` clause at `pos`, if there is one, with the index just past
/// it.
pub open spec fn parse_postcondition(i: Input, pos: int, opening: Span) -> Result<
    (Option<Box<Node>>, int),
    ParseErrorView,
>
    decreases i.tokens.len() - pos, 3int,
{
    if in_range(i, pos) && i.tokens[pos].0 == TokenView::Ident(ensures_text()) {
        if !in_range(i, pos + 1) {
            Err(err_unclosed(i, pos + 1, opening))
        } else {
            match parse_expr(i, pos + 1) {
                Err(e) => Err(e),
                Ok((clause, next)) => Ok((Some(Box::new(clause)), next)),
            }
        }
    } else {
        Ok((None, pos))
    }
}

/// What follows the header of a definition: the contract clauses and the
/// body, up to the `)` that closes the definition.
pub open spec fn parse_define_rest(
    i: Input,
    pos: int,
    after_header: int,
    name: Seq<char>,
    params: Seq<Seq<char>>,
) -> Result<(Node, int), ParseErrorView>
    decreases i.tokens.len() - pos, 0int,
{
    let opening = span_at(i, pos);
    if moves(i, pos, after_header) {
        match parse_preconditions(i, after_header, opening, Seq::empty()) {
            Err(e) => Err(e),
            Ok((pre, pre_end)) => if moves(i, pos, pre_end) {
                match parse_postcondition(i, pre_end, opening) {
                    Err(e) => Err(e),
                    Ok((post, post_end)) => if moves(i, pos, post_end) {
                        match parse_items(i, post_end, opening, true, Seq::empty()) {
                            Err(e) => Err(e),
                            Ok((body, close)) => Ok(
                                (
                                    node(
                                        i,
                                        Sexp::Function {
                                            name,
                                            params,
                                            preconditions: if pre.len() == 0 {
                                                None
                                            } else {
                                                Some(pre)
                                            },
                                            postcondition: post,
                                            body,
                                        },
                                        Span::cover(opening, span_at(i, close)),
                                    ),
                                    close + 1,
                                ),
                            ),
                        }
                    } else {
                        Err(err_unclosed(i, pos, opening))
                    },
                }
            } else {
                Err(err_unclosed(i, pos, opening))
            },
        }
    } else {
        // The header holds at least one token.
        Err(err_unclosed(i, pos, opening))
    }
}

/// The definition whose `(` is at `pos`: `(define (name param...)`, then
/// the contract clauses, then the body, then `)`.
pub open spec fn parse_define(i: Input, pos: int) -> Result<(Node, int), ParseErrorView>
    decreases i.tokens.len() - pos, 1int,
{
    let opening = span_at(i, pos);
    if !in_range(i, pos + 2) {
        Err(err_unclosed(i, pos + 2, opening))
    } else if !(i.tokens[pos + 2].0 is LParen) {
        Err(err_unexpected(i, pos + 2, seq![TokenKind::LParen]))
    } else if !in_range(i, pos + 3) {
        Err(err_unclosed(i, pos + 3, span_at(i, pos + 2)))
    } else {
        match i.tokens[pos + 3].0 {
            TokenView::Ident(name) => match parse_params(
                i,
                pos + 4,
                span_at(i, pos + 2),
                Seq::empty(),
            ) {
                Err(e) => Err(e),
                Ok((params, close)) => parse_define_rest(i, pos, close + 1, name, params),
            },
            _ => Err(err_unexpected(i, pos + 3, seq![TokenKind::Ident])),
        }
    }
}

/// A form at the top of a module: it must be a definition.
pub open spec fn parse_top(i: Input, pos: int) -> Result<(Node, int), ParseErrorView> {
    if !in_range(i, pos) || !(i.tokens[pos].0 is LParen) {
        Err(err_unexpected(i, pos, seq![TokenKind::LParen]))
    } else if !in_range(i, pos + 1) {
        Err(err_unclosed(i, pos + 1, i.tokens[pos].1))
    } else if !(i.tokens[pos + 1].0 is Define) {
        Err(err_unexpected(i, pos + 1, seq![TokenKind::Define]))
    } else {
        parse_define(i, pos)
    }
}

/// The index of the first `(` at nesting depth 0 from `pos` on, or the
/// number of tokens if there is none. `depth` counts the parentheses that
/// are open at `pos`; a `)` with nothing open is passed over.
pub open spec fn skip_to_top(ts: Tokens, pos: int, depth: nat) -> int
    decreases ts.len() - pos,
{
    if !(0 <= pos < ts.len()) {
        pos
    } else if ts[pos].0 is LParen {
        if depth == 0 {
            pos
        } else {
            skip_to_top(ts, pos + 1, depth + 1)
        }
    } else if ts[pos].0 is RParen {
        skip_to_top(
            ts,
            pos + 1,
            if depth == 0 {
                0
            } else {
                (depth - 1) as nat
            },
        )
    } else {
        skip_to_top(ts, pos + 1, depth)
    }
}

/// Where parsing resumes after a diagnostic in the form that starts at
/// `pos`: at the next `(` at the top level.
pub open spec fn resume_at(ts: Tokens, pos: int) -> int {
    skip_to_top(
        ts,
        pos + 1,
        if ts[pos].0 is LParen {
            1
        } else {
            0
        },
    )
}

pub proof fn lemma_skip_to_top_bounds(ts: Tokens, pos: int, depth: nat)
    requires
        0 <= pos <= ts.len(),
    ensures
        pos <= skip_to_top(ts, pos, depth) <= ts.len(),
    decreases ts.len() - pos,
{
    if pos < ts.len() {
        if ts[pos].0 is LParen {
            if depth != 0 {
                lemma_skip_to_top_bounds(ts, pos + 1, depth + 1);
            }
        } else if ts[pos].0 is RParen {
            lemma_skip_to_top_bounds(
                ts,
                pos + 1,
                if depth == 0 {
                    0
                } else {
                    (depth - 1) as nat
                },
            );
        } else {
            lemma_skip_to_top_bounds(ts, pos + 1, depth);
        }
    }
}

/// What parsing gives: the definitions that parsed, in order, and every
/// diagnostic, in order.
pub struct Outcome {
    pub functions: Seq<Node>,
    pub errors: Seq<ParseErrorView>,
}

/// The definitions and diagnostics of the forms from `pos` on, added to
/// `acc`. After a diagnostic parsing resumes at the next top-level `(`.
pub open spec fn parse_forms(i: Input, pos: int, acc: Outcome) -> Outcome
    decreases i.tokens.len() - pos,
{
    if !in_range(i, pos) {
        acc
    } else {
        match parse_top(i, pos) {
            Ok((f, next)) => if moves(i, pos, next) {
                parse_forms(
                    i,
                    next,
                    Outcome { functions: acc.functions.push(f), errors: acc.errors },
                )
            } else {
                acc
            },
            Err(e) => {
                proof {
                    lemma_skip_to_top_bounds(i.tokens, pos + 1, 0);
                    lemma_skip_to_top_bounds(i.tokens, pos + 1, 1);
                }
                parse_forms(
                    i,
                    resume_at(i.tokens, pos),
                    Outcome { functions: acc.functions, errors: acc.errors.push(e) },
                )
            },
        }
    }
}

/// The span that stands for the end of a text of `len` characters: the
/// one offset past the text, as far as offsets go.
pub open spec fn eoi_span(len: nat) -> Span {
    Span {
        start: len as usize,
        end: if len < usize::MAX {
            (len + 1) as usize
        } else {
            len as usize
        },
    }
}

pub open spec fn lexical_error(e: LexError) -> ParseErrorView {
    ParseErrorView { kind: ParseErrorKindView::Lexical(e.kind), span: e.span }
}

/// What parsing the token sequence of a text of `len` characters gives.
pub open spec fn parse_tokens_spec(tokens: Tokens, len: nat, source: Seq<char>) -> Outcome {
    parse_forms(
        Input { tokens, eoi: eoi_span(len), source },
        0,
        Outcome { functions: Seq::empty(), errors: Seq::empty() },
    )
}

/// What parsing a text gives: a lexical error alone, or else what its
/// tokens parse to.
pub open spec fn parse_spec(source: Seq<char>, text: Seq<char>) -> Outcome {
    match crate::parser::lexer::lex_spec(text) {
        Err(e) => Outcome { functions: Seq::empty(), errors: seq![lexical_error(e)] },
        Ok(tokens) => parse_tokens_spec(tokens, text.len(), source),
    }
}

} // verus!
