//! What is parsed is written as the tokens that it was parsed from.

use crate::common::Span;
use crate::parser::ast::{Node, Sexp};
use crate::parser::grammar::{
    ensures_text, in_range, is_contract_word, moves, opens_definition, operator_head, parse_define,
    parse_define_rest, parse_expr, parse_items, parse_params, parse_postcondition,
    parse_preconditions, requires_text, span_at, starts_expr, Input,
};
use crate::parser::lexer::TokenView;
use crate::parser::printer::{
    contract_tokens, definition_tokens, header_tokens, lemma_all_onto, lemma_clauses_onto,
    lemma_definition_tokens, lemma_list_tokens, list_tokens, no_tokens,
};
use crate::parser::round_trip::{
    clauses_onto, head_operator, idents_onto, lemma_operator_of_text, operator_of, unparse,
    unparse_all_onto,
};
use crate::parser::spelling::bare;
use vstd::prelude::*;

verus! {

/// The tokens of the input from `a` up to `b`, without their spans.
pub open spec fn slice(i: Input, a: int, b: int) -> Seq<TokenView> {
    bare(i.tokens).subrange(a, b)
}

/// Whether no identifier of the input reads as an operator.
pub open spec fn plain_names(i: Input) -> bool {
    forall|k: int|
        0 <= k < i.tokens.len() ==> ((#[trigger] i.tokens[k]).0 matches TokenView::Ident(t)
            ==> operator_of(t) is None)
}

/// Whether the tree is no identifier that reads as an operator.
pub open spec fn plain_atom(n: Node) -> bool {
    n.x matches Sexp::Atom(t) ==> operator_of(t) is None
}

pub proof fn lemma_all_snoc(items: Seq<Node>, from: int, m: Node)
    requires
        0 <= from <= items.len(),
    ensures
        unparse_all_onto(items.push(m), from, no_tokens()) == unparse_all_onto(
            items,
            from,
            no_tokens(),
        ) + unparse(m),
    decreases items.len() - from,
{
    let more = items.push(m);
    let e = no_tokens();
    lemma_all_onto(more, from, e);
    if from < items.len() {
        lemma_all_onto(items, from, e);
        lemma_all_snoc(items, from + 1, m);
        assert(more[from] == items[from]);
        assert(unparse_all_onto(more, from, e) =~= unparse_all_onto(items, from, e) + unparse(m));
    } else {
        assert(more[from] == m);
        assert(unparse_all_onto(more, from + 1, e) =~= e);
        assert(unparse_all_onto(more, from, e) =~= unparse_all_onto(items, from, e) + unparse(m));
    }
}

proof fn lemma_clauses_snoc(clauses: Seq<Node>, from: int, m: Node)
    requires
        0 <= from <= clauses.len(),
    ensures
        clauses_onto(clauses.push(m), from, no_tokens()) == clauses_onto(
            clauses,
            from,
            no_tokens(),
        ) + seq![TokenView::Ident(requires_text())] + unparse(m),
    decreases clauses.len() - from,
{
    let more = clauses.push(m);
    let e = no_tokens();
    let word = seq![TokenView::Ident(requires_text())];
    lemma_clauses_onto(more, from, e);
    if from < clauses.len() {
        lemma_clauses_onto(clauses, from, e);
        lemma_clauses_snoc(clauses, from + 1, m);
        assert(more[from] == clauses[from]);
        assert(clauses_onto(more, from, e) =~= clauses_onto(clauses, from, e) + word + unparse(m));
    } else {
        assert(more[from] == m);
        assert(clauses_onto(more, from + 1, e) =~= e);
        assert(clauses_onto(more, from, e) =~= clauses_onto(clauses, from, e) + word + unparse(m));
    }
}

proof fn lemma_idents_snoc(names: Seq<Seq<char>>, from: int, n: Seq<char>)
    requires
        0 <= from <= names.len(),
    ensures
        idents_onto(names.push(n), from, no_tokens()) == idents_onto(names, from, no_tokens())
            + seq![TokenView::Ident(n)],
    decreases names.len() - from,
{
    let more = names.push(n);
    let e = no_tokens();
    if from < names.len() {
        lemma_idents_snoc(names, from + 1, n);
        assert(more[from] == names[from]);
        assert(idents_onto(more, from, e) =~= idents_onto(names, from, e) + seq![
            TokenView::Ident(n),
        ]);
    } else {
        assert(more[from] == n);
        assert(idents_onto(more, from + 1, e) =~= e);
        assert(idents_onto(more, from, e) =~= idents_onto(names, from, e) + seq![
            TokenView::Ident(n),
        ]);
    }
}

/// One more token at the end of a slice.
proof fn lemma_slice_step(i: Input, a: int, b: int)
    requires
        0 <= a <= b < i.tokens.len(),
    ensures
        slice(i, a, b + 1) == slice(i, a, b) + seq![i.tokens[b].0],
        slice(i, b, b + 1) == seq![i.tokens[b].0],
        slice(i, a, a) == no_tokens(),
{
    assert(slice(i, a, b + 1) =~= slice(i, a, b) + seq![i.tokens[b].0]);
    assert(slice(i, b, b + 1) =~= seq![i.tokens[b].0]);
    assert(slice(i, a, a) =~= no_tokens());
}

/// Two slices that meet are one.
proof fn lemma_slice_join(i: Input, a: int, b: int, c: int)
    requires
        0 <= a <= b <= c <= i.tokens.len(),
    ensures
        slice(i, a, b) + slice(i, b, c) == slice(i, a, c),
{
    assert(slice(i, a, b) + slice(i, b, c) =~= slice(i, a, c));
}

proof fn lemma_params_written(i: Input, pos: int, header: Span, acc: Seq<Seq<char>>, a: int)
    requires
        0 <= a <= pos <= i.tokens.len(),
        idents_onto(acc, 0, no_tokens()) == slice(i, a, pos),
    ensures
        parse_params(i, pos, header, acc) matches Ok((names, close)) ==> pos <= close
            < i.tokens.len() && i.tokens[close].0 is RParen && idents_onto(names, 0, no_tokens())
            == slice(i, a, close),
    decreases i.tokens.len() - pos,
{
    if in_range(i, pos) {
        match i.tokens[pos].0 {
            TokenView::Ident(name) => {
                lemma_idents_snoc(acc, 0, name);
                lemma_slice_step(i, a, pos);
                lemma_params_written(i, pos + 1, header, acc.push(name), a);
            },
            _ => {},
        }
    }
}

/// An expression that parsed is written as the tokens that it was parsed
/// from, if no identifier among the tokens reads as an operator.
pub proof fn lemma_expr_written(i: Input, pos: int)
    requires
        plain_names(i),
    ensures
        parse_expr(i, pos) matches Ok((n, next)) ==> 0 <= pos < next <= i.tokens.len() && unparse(n)
            == slice(i, pos, next) && plain_atom(n),
    decreases i.tokens.len() - pos, 2int,
{
    if in_range(i, pos) {
        lemma_slice_step(i, pos, pos);
        let e = no_tokens();
        match i.tokens[pos].0 {
            TokenView::LParen => {
                if opens_definition(i, pos) {
                    lemma_define_written(i, pos);
                } else {
                    let head = operator_head(i, pos);
                    let h = head.len() as int;
                    let start = pos + 1 + h;
                    if start <= i.tokens.len() {
                        assert(unparse_all_onto(head, h, e) =~= e);
                        assert(slice(i, start, start) =~= e);
                        lemma_items_written(i, start, i.tokens[pos].1, false, head, h, start);
                        match parse_items(i, start, i.tokens[pos].1, false, head) {
                            Ok((out, close)) => {
                                let n = parse_expr(i, pos)->Ok_0.0;
                                lemma_list_tokens(n);
                                lemma_slice_step(i, pos, close);
                                lemma_slice_join(i, pos, start, close);
                                if h == 1 {
                                    let op = i.tokens[pos + 1].0;
                                    lemma_operator_of_text(op);
                                    assert(out[0] == head[0]);
                                    assert(head_operator(out) == Some(op));
                                    lemma_slice_step(i, pos, pos + 1);
                                    assert(list_tokens(out) =~= slice(i, pos, close + 1));
                                } else {
                                    if out.len() > 0 {
                                        assert(plain_atom(out[0]));
                                    }
                                    assert(head_operator(out) is None);
                                    assert(list_tokens(out) =~= slice(i, pos, close + 1));
                                }
                            },
                            Err(_) => {},
                        }
                    }
                }
            },
            TokenView::Num(t) => {
                assert(unparse(parse_expr(i, pos)->Ok_0.0) =~= slice(i, pos, pos + 1));
            },
            TokenView::Str(t) => {
                assert(unparse(parse_expr(i, pos)->Ok_0.0) =~= slice(i, pos, pos + 1));
            },
            TokenView::Bool(b) => {
                assert(unparse(parse_expr(i, pos)->Ok_0.0) =~= slice(i, pos, pos + 1));
            },
            TokenView::Ident(t) => {
                assert(unparse(parse_expr(i, pos)->Ok_0.0) =~= slice(i, pos, pos + 1));
            },
            _ => {},
        }
    }
}

proof fn lemma_items_written(
    i: Input,
    pos: int,
    opening: Span,
    in_body: bool,
    acc: Seq<Node>,
    h: int,
    a: int,
)
    requires
        plain_names(i),
        0 <= h <= acc.len(),
        0 <= a <= pos <= i.tokens.len(),
        unparse_all_onto(acc, h, no_tokens()) == slice(i, a, pos),
    ensures
        parse_items(i, pos, opening, in_body, acc) matches Ok((out, close)) ==> {
            &&& pos <= close < i.tokens.len()
            &&& i.tokens[close].0 is RParen
            &&& unparse_all_onto(out, h, no_tokens()) == slice(i, a, close)
            &&& acc.len() <= out.len()
            &&& forall|k: int| 0 <= k < acc.len() ==> out[k] == acc[k]
            &&& forall|k: int| acc.len() <= k < out.len() ==> plain_atom(#[trigger] out[k])
        },
    decreases i.tokens.len() - pos, 3int,
{
    if in_range(i, pos) && !(i.tokens[pos].0 is RParen) && !(in_body && is_contract_word(
        i.tokens[pos].0,
    )) && starts_expr(i.tokens[pos].0) {
        lemma_expr_written(i, pos);
        match parse_expr(i, pos) {
            Ok((item, next)) => {
                if moves(i, pos, next) {
                    lemma_all_snoc(acc, h, item);
                    lemma_slice_join(i, a, pos, next);
                    lemma_items_written(i, next, opening, in_body, acc.push(item), h, a);
                    match parse_items(i, next, opening, in_body, acc.push(item)) {
                        Ok((out, close)) => {
                            assert(out[acc.len() as int] == acc.push(item)[acc.len() as int]);
                            assert forall|k: int| 0 <= k < acc.len() implies out[k] == acc[k] by {
                                assert(out[k] == acc.push(item)[k]);
                            }
                        },
                        Err(_) => {},
                    }
                }
            },
            Err(_) => {},
        }
    }
}

proof fn lemma_pre_written(i: Input, pos: int, opening: Span, acc: Seq<Node>, a: int)
    requires
        plain_names(i),
        0 <= a <= pos <= i.tokens.len(),
        clauses_onto(acc, 0, no_tokens()) == slice(i, a, pos),
    ensures
        parse_preconditions(i, pos, opening, acc) matches Ok((out, next)) ==> pos <= next
            <= i.tokens.len() && clauses_onto(out, 0, no_tokens()) == slice(i, a, next)
            && acc.len() <= out.len(),
    decreases i.tokens.len() - pos, 3int,
{
    if in_range(i, pos) && i.tokens[pos].0 == TokenView::Ident(requires_text()) && in_range(
        i,
        pos + 1,
    ) {
        lemma_expr_written(i, pos + 1);
        match parse_expr(i, pos + 1) {
            Ok((clause, next)) => {
                if moves(i, pos, next) {
                    lemma_clauses_snoc(acc, 0, clause);
                    lemma_slice_step(i, a, pos);
                    lemma_slice_join(i, a, pos + 1, next);
                    lemma_pre_written(i, next, opening, acc.push(clause), a);
                }
            },
            Err(_) => {},
        }
    }
}

/// The tokens of a postcondition, if there is one.
pub open spec fn post_tokens(post: Option<Box<Node>>) -> Seq<TokenView> {
    match post {
        Some(clause) => seq![TokenView::Ident(ensures_text())] + unparse(*clause),
        None => no_tokens(),
    }
}

proof fn lemma_post_written(i: Input, pos: int, opening: Span)
    requires
        plain_names(i),
        0 <= pos <= i.tokens.len(),
    ensures
        parse_postcondition(i, pos, opening) matches Ok((post, next)) ==> pos <= next
            <= i.tokens.len() && post_tokens(post) == slice(i, pos, next),
    decreases i.tokens.len() - pos, 3int,
{
    if in_range(i, pos) && i.tokens[pos].0 == TokenView::Ident(ensures_text()) && in_range(
        i,
        pos + 1,
    ) {
        lemma_expr_written(i, pos + 1);
        match parse_expr(i, pos + 1) {
            Ok((clause, next)) => {
                lemma_slice_step(i, pos, pos);
                lemma_slice_join(i, pos, pos + 1, next);
            },
            Err(_) => {},
        }
    } else {
        assert(slice(i, pos, pos) =~= no_tokens());
    }
}

/// A definition that parsed is written as the tokens that it was parsed
/// from.
pub proof fn lemma_define_written(i: Input, pos: int)
    requires
        plain_names(i),
        opens_definition(i, pos),
    ensures
        parse_define(i, pos) matches Ok((n, next)) ==> 0 <= pos < next <= i.tokens.len() && unparse(
            n,
        ) == slice(i, pos, next) && n.x is Function,
    decreases i.tokens.len() - pos, 1int,
{
    if in_range(i, pos + 2) && i.tokens[pos + 2].0 is LParen && in_range(i, pos + 3) {
        match i.tokens[pos + 3].0 {
            TokenView::Ident(name) => {
                let header = span_at(i, pos + 2);
                let none: Seq<Seq<char>> = Seq::empty();
                assert(idents_onto(none, 0, no_tokens()) =~= slice(i, pos + 4, pos + 4));
                lemma_params_written(i, pos + 4, header, none, pos + 4);
                match parse_params(i, pos + 4, header, none) {
                    Ok((params, close)) => {
                        assert(header_tokens(name, params) =~= slice(i, pos, close + 1)) by {
                            lemma_slice_step(i, pos, pos);
                            lemma_slice_step(i, pos, pos + 1);
                            lemma_slice_step(i, pos, pos + 2);
                            lemma_slice_step(i, pos, pos + 3);
                            lemma_slice_join(i, pos, pos + 4, close);
                            lemma_slice_step(i, pos, close);
                        }
                        lemma_define_rest_written(i, pos, close + 1, name, params);
                    },
                    Err(_) => {},
                }
            },
            _ => {},
        }
    }
}

proof fn lemma_define_rest_written(
    i: Input,
    pos: int,
    after_header: int,
    name: Seq<char>,
    params: Seq<Seq<char>>,
)
    requires
        plain_names(i),
        0 <= pos,
        moves(i, pos, after_header) ==> header_tokens(name, params) == slice(
            i,
            pos,
            after_header,
        ),
    ensures
        parse_define_rest(i, pos, after_header, name, params) matches Ok((n, next)) ==> pos < next
            <= i.tokens.len() && unparse(n) == slice(i, pos, next) && n.x is Function,
    decreases i.tokens.len() - pos, 0int,
{
    let opening = span_at(i, pos);
    let none: Seq<Node> = Seq::empty();
    let e = no_tokens();
    if moves(i, pos, after_header) {
        assert(clauses_onto(none, 0, e) =~= slice(i, after_header, after_header));
        lemma_pre_written(i, after_header, opening, none, after_header);
        match parse_preconditions(i, after_header, opening, none) {
            Ok((pre, pre_end)) => {
                if moves(i, pos, pre_end) {
                    lemma_post_written(i, pre_end, opening);
                    match parse_postcondition(i, pre_end, opening) {
                        Ok((post, post_end)) => {
                            if moves(i, pos, post_end) {
                                assert(unparse_all_onto(none, 0, e) =~= slice(
                                    i,
                                    post_end,
                                    post_end,
                                ));
                                lemma_items_written(i, post_end, opening, true, none, 0, post_end);
                                match parse_items(i, post_end, opening, true, none) {
                                    Ok((body, close)) => {
                                        let n = parse_define_rest(
                                            i,
                                            pos,
                                            after_header,
                                            name,
                                            params,
                                        )->Ok_0.0;
                                        lemma_definition_tokens(n);
                                        let kept = if pre.len() == 0 {
                                            None
                                        } else {
                                            Some(pre)
                                        };
                                        assert(contract_tokens(kept, post) =~= slice(
                                            i,
                                            after_header,
                                            post_end,
                                        )) by {
                                            lemma_slice_join(i, after_header, pre_end, post_end);
                                            if pre.len() == 0 {
                                                assert(clauses_onto(pre, 0, e) =~= e);
                                            }
                                        }
                                        lemma_slice_join(i, pos, after_header, post_end);
                                        lemma_slice_join(i, pos, post_end, close);
                                        lemma_slice_step(i, pos, close);
                                        assert(definition_tokens(n) =~= slice(i, pos, close + 1));
                                    },
                                    Err(_) => {},
                                }
                            }
                        },
                        Err(_) => {},
                    }
                }
            },
            Err(_) => {},
        }
    }
}

} // verus!
