//! Rendering a tree back to tokens, and parsing it again: what is parsed
//! from the tokens of a parsed tree is the same tree, but for its places
//! in the source.

use crate::common::Span;
use crate::parser::ast::{all_functions, Node, Sexp};
use crate::parser::grammar::{
    ensures_text, in_range, is_contract_word, is_operator, lemma_skip_to_top_bounds, moves,
    opens_definition, operator_head, parse_define, parse_define_rest, parse_expr, parse_forms,
    parse_items, parse_params, parse_postcondition, parse_preconditions, parse_top, requires_text,
    resume_at, span_at, starts_expr, Input, Outcome, ParseErrorView,
};
use crate::parser::grammar_laws::lemma_forms_are_functions;
use crate::parser::lexer::{token_text, TokenView};
use vstd::prelude::*;

verus! {

/// The operator that is written as `t`, if there is one.
pub open spec fn operator_of(t: Seq<char>) -> Option<TokenView> {
    if t == "-"@ {
        Some(TokenView::Neg)
    } else if t == "+"@ {
        Some(TokenView::Add)
    } else if t == "*"@ {
        Some(TokenView::Mult)
    } else if t == "/"@ {
        Some(TokenView::Div)
    } else if t == "<"@ {
        Some(TokenView::Le)
    } else if t == "<="@ {
        Some(TokenView::Leq)
    } else if t == ">"@ {
        Some(TokenView::Ge)
    } else if t == ">="@ {
        Some(TokenView::Geq)
    } else if t == "=="@ {
        Some(TokenView::Eq)
    } else {
        None
    }
}

/// An operator is the operator that is written as it is.
pub proof fn lemma_operator_of_text(op: TokenView)
    requires
        is_operator(op),
    ensures
        operator_of(token_text(op)) == Some(op),
{
    reveal_strlit("-");
    reveal_strlit("+");
    reveal_strlit("*");
    reveal_strlit("/");
    reveal_strlit("<");
    reveal_strlit("<=");
    reveal_strlit(">");
    reveal_strlit(">=");
    reveal_strlit("==");
    // The texts are told apart by their first two characters.
    let t = token_text(op);
    assert(t.len() > 0);
    let first = t[0];
    if t.len() > 1 {
        let second = t[1];
    }
}

/// What is an operator's text is written as that operator.
pub proof fn lemma_text_of_operator(t: Seq<char>)
    ensures
        operator_of(t) matches Some(op) ==> is_operator(op) && token_text(op) == t,
{
}

/// The operator at the head of a list, if its first item is written as
/// one.
pub open spec fn head_operator(items: Seq<Node>) -> Option<TokenView> {
    if items.len() > 0 {
        match items[0].x {
            Sexp::Atom(t) => operator_of(t),
            _ => None,
        }
    } else {
        None
    }
}

/// The names from `from` on as identifiers, then `rest`.
pub open spec fn idents_onto(names: Seq<Seq<char>>, from: int, rest: Seq<TokenView>) -> Seq<
    TokenView,
>
    decreases names.len() - from,
{
    if 0 <= from < names.len() {
        seq![TokenView::Ident(names[from])] + idents_onto(names, from + 1, rest)
    } else {
        rest
    }
}

/// The tokens that a tree is written as, then `rest`. A list is written
/// between parentheses, with an operator for a first item that reads as
/// one; a definition as `(define (name param...)`, a `requires` before
/// each precondition, an `ensures` before the postcondition, the body and
/// `)`.
pub open spec fn unparse_onto(n: Node, rest: Seq<TokenView>) -> Seq<TokenView>
    decreases n, 0int,
{
    match n.x {
        Sexp::Atom(t) => seq![TokenView::Ident(t)] + rest,
        Sexp::Int(t) => seq![TokenView::Num(t)] + rest,
        Sexp::Str(t) => seq![TokenView::Str(t)] + rest,
        Sexp::Bool(b) => seq![TokenView::Bool(b)] + rest,
        Sexp::List(items) => match head_operator(items) {
            Some(op) => seq![TokenView::LParen] + (seq![op] + unparse_all_onto(
                items,
                1,
                seq![TokenView::RParen] + rest,
            )),
            None => seq![TokenView::LParen] + unparse_all_onto(
                items,
                0,
                seq![TokenView::RParen] + rest,
            ),
        },
        Sexp::Function { name, params, preconditions, postcondition, body } => {
            let after_body = seq![TokenView::RParen] + rest;
            let after_post = unparse_all_onto(body, 0, after_body);
            let after_pre = match postcondition {
                Some(clause) => seq![TokenView::Ident(ensures_text())] + unparse_onto(
                    *clause,
                    after_post,
                ),
                None => after_post,
            };
            let after_header = match preconditions {
                Some(clauses) => clauses_onto(clauses, 0, after_pre),
                None => after_pre,
            };
            seq![TokenView::LParen] + (seq![TokenView::Define] + (seq![TokenView::LParen] + (
            seq![TokenView::Ident(name)] + idents_onto(
                params,
                0,
                seq![TokenView::RParen] + after_header,
            ))))
        },
        Sexp::FunctionCall { .. } => rest,
    }
}

/// The tokens of the trees from `from` on, then `rest`.
pub open spec fn unparse_all_onto(items: Seq<Node>, from: int, rest: Seq<TokenView>) -> Seq<
    TokenView,
>
    decreases items, items.len() - from,
{
    if 0 <= from < items.len() {
        unparse_onto(items[from], unparse_all_onto(items, from + 1, rest))
    } else {
        rest
    }
}

/// The tokens of the preconditions from `from` on, a `requires` before
/// each, then `rest`.
pub open spec fn clauses_onto(clauses: Seq<Node>, from: int, rest: Seq<TokenView>) -> Seq<
    TokenView,
>
    decreases clauses, clauses.len() - from,
{
    if 0 <= from < clauses.len() {
        seq![TokenView::Ident(requires_text())] + unparse_onto(
            clauses[from],
            clauses_onto(clauses, from + 1, rest),
        )
    } else {
        rest
    }
}

/// The tokens that a tree is written as.
pub open spec fn unparse(n: Node) -> Seq<TokenView> {
    unparse_onto(n, Seq::empty())
}

/// Whether the tree is an identifier that reads `requires` or `ensures`.
pub open spec fn is_contract_atom(n: Node) -> bool {
    n.x matches Sexp::Atom(t) && (t == requires_text() || t == ensures_text())
}

/// Whether the tree is one that the parser can give: it holds no call, a
/// definition's preconditions are absent or at least one, and no
/// expression of a definition's body is the bare word `requires` or
/// `ensures`.
pub open spec fn canonical(n: Node) -> bool
    decreases n, 0int,
{
    match n.x {
        Sexp::List(items) => canonical_all(items, 0, false),
        Sexp::Function { preconditions, postcondition, body, .. } => {
            &&& match preconditions {
                Some(clauses) => clauses.len() > 0 && canonical_all(clauses, 0, false),
                None => true,
            }
            &&& match postcondition {
                Some(clause) => canonical(*clause),
                None => true,
            }
            &&& canonical_all(body, 0, true)
        },
        Sexp::FunctionCall { .. } => false,
        _ => true,
    }
}

/// Whether each of the trees from `from` on is canonical, and none a
/// contract word where it stands directly in a body.
pub open spec fn canonical_all(items: Seq<Node>, from: int, in_body: bool) -> bool
    decreases items, items.len() - from,
{
    if 0 <= from < items.len() {
        canonical(items[from]) && !(in_body && is_contract_atom(items[from])) && canonical_all(
            items,
            from + 1,
            in_body,
        )
    } else {
        true
    }
}

/// The tree without its places: every span and source name forgotten.
pub open spec fn erase(n: Node) -> Node
    decreases n, 0int,
{
    Node {
        source: Seq::empty(),
        span: Span { start: 0, end: 0 },
        x: match n.x {
            Sexp::List(items) => Sexp::List(erase_all(items)),
            Sexp::Function { name, params, preconditions, postcondition, body } => Sexp::Function {
                name,
                params,
                preconditions: match preconditions {
                    Some(clauses) => Some(erase_all(clauses)),
                    None => None,
                },
                postcondition: match postcondition {
                    Some(clause) => Some(Box::new(erase(*clause))),
                    None => None,
                },
                body: erase_all(body),
            },
            Sexp::FunctionCall { name, args } => Sexp::FunctionCall { name, args: erase_all(args) },
            other => other,
        },
    }
}

/// The trees without their places.
pub open spec fn erase_all(items: Seq<Node>) -> Seq<Node>
    decreases items, 1int,
{
    Seq::new(
        items.len(),
        |k: int|
            if 0 <= k < items.len() {
                erase(items[k])
            } else {
                arbitrary()
            },
    )
}

/// Whether the input holds the tokens `ts` from `pos` on, whatever their
/// spans.
pub open spec fn reads(i: Input, pos: int, ts: Seq<TokenView>) -> bool {
    &&& 0 <= pos
    &&& pos + ts.len() <= i.tokens.len()
    &&& forall|k: int| 0 <= k < ts.len() ==> i.tokens[pos + k].0 == #[trigger] ts[k]
}

/// An input that holds a token and then more holds the token, and then
/// the more.
pub proof fn lemma_reads_first(i: Input, pos: int, t: TokenView, more: Seq<TokenView>)
    requires
        reads(i, pos, seq![t] + more),
    ensures
        in_range(i, pos),
        i.tokens[pos].0 == t,
        reads(i, pos + 1, more),
{
    let ts = seq![t] + more;
    assert(ts[0] == t);
    assert forall|k: int| 0 <= k < more.len() implies i.tokens[pos + 1 + k].0 == #[trigger] more[k] by {
        assert(ts[k + 1] == more[k]);
    }
}

/// The first token of a canonical tree starts an expression, and is a
/// contract word only if the tree is that word.
pub proof fn lemma_first_token(n: Node, rest: Seq<TokenView>)
    requires
        canonical(n),
    ensures
        unparse_onto(n, rest).len() > 0,
        starts_expr(unparse_onto(n, rest)[0]),
        is_contract_word(unparse_onto(n, rest)[0]) == is_contract_atom(n),
{
}

/// The token at the next expression's place in a sequence of canonical
/// trees is a `)` at the end and a token that starts an expression before
/// it.
proof fn lemma_first_of_all(items: Seq<Node>, from: int, rest: Seq<TokenView>, in_body: bool)
    requires
        0 <= from <= items.len(),
        canonical_all(items, from, in_body),
    ensures
        ({
            let ts = unparse_all_onto(items, from, seq![TokenView::RParen] + rest);
            &&& ts.len() > 0
            &&& if from < items.len() {
                starts_expr(ts[0]) && !(in_body && is_contract_word(ts[0]))
            } else {
                ts[0] == TokenView::RParen
            }
        }),
{
    if from < items.len() {
        lemma_first_token(
            items[from],
            unparse_all_onto(items, from + 1, seq![TokenView::RParen] + rest),
        );
    }
}

/// The parameters written as identifiers parse to the parameters.
proof fn lemma_params(
    i: Input,
    pos: int,
    names: Seq<Seq<char>>,
    from: int,
    rest: Seq<TokenView>,
    header: Span,
    acc: Seq<Seq<char>>,
)
    requires
        0 <= from <= names.len(),
        reads(i, pos, idents_onto(names, from, seq![TokenView::RParen] + rest)),
    ensures
        parse_params(i, pos, header, acc) == Ok::<(Seq<Seq<char>>, int), ParseErrorView>(
            (acc + names.subrange(from, names.len() as int), pos + names.len() - from),
        ),
        reads(i, pos + names.len() - from, seq![TokenView::RParen] + rest),
        idents_onto(names, from, seq![TokenView::RParen] + rest).len() == names.len() - from + 1
            + rest.len(),
    decreases names.len() - from,
{
    if from < names.len() {
        let more = idents_onto(names, from + 1, seq![TokenView::RParen] + rest);
        lemma_reads_first(i, pos, TokenView::Ident(names[from]), more);
        lemma_params(i, pos + 1, names, from + 1, rest, header, acc.push(names[from]));
        assert(acc.push(names[from]) + names.subrange(from + 1, names.len() as int) =~= acc
            + names.subrange(from, names.len() as int));
    } else {
        lemma_reads_first(i, pos, TokenView::RParen, rest);
        assert(acc + names.subrange(from, names.len() as int) =~= acc);
    }
}

/// What the round trip gives for a sequence: as many trees more, the same
/// but for their places.
pub open spec fn same_from(out: Seq<Node>, acc: Seq<Node>, items: Seq<Node>, from: int) -> bool {
    &&& out.len() == acc.len() + items.len() - from
    &&& forall|k: int| 0 <= k < acc.len() ==> out[k] == acc[k]
    &&& forall|k: int|
        from <= k < items.len() ==> erase(out[acc.len() + k - from]) == erase(#[trigger] items[k])
}

/// The tokens of a canonical tree parse to the tree, but for its places,
/// and parsing stops where what follows the tree begins.
pub proof fn lemma_round_trip(i: Input, pos: int, n: Node, rest: Seq<TokenView>)
    requires
        canonical(n),
        reads(i, pos, unparse_onto(n, rest)),
    ensures
        parse_expr(i, pos) matches Ok((m, next)) && erase(m) == erase(n) && pos < next && reads(
            i,
            next,
            rest,
        ) && next + rest.len() == pos + unparse_onto(n, rest).len(),
    decreases n, 1int,
{
    match n.x {
        Sexp::Atom(t) => {
            lemma_reads_first(i, pos, TokenView::Ident(t), rest);
        },
        Sexp::Int(t) => {
            lemma_reads_first(i, pos, TokenView::Num(t), rest);
        },
        Sexp::Str(t) => {
            lemma_reads_first(i, pos, TokenView::Str(t), rest);
        },
        Sexp::Bool(b) => {
            lemma_reads_first(i, pos, TokenView::Bool(b), rest);
        },
        Sexp::List(items) => {
            let after = seq![TokenView::RParen] + rest;
            let span = i.tokens[pos].1;
            match head_operator(items) {
                Some(op) => {
                    let inner = unparse_all_onto(items, 1, after);
                    lemma_reads_first(i, pos, TokenView::LParen, seq![op] + inner);
                    lemma_reads_first(i, pos + 1, op, inner);
                    lemma_text_of_operator(items[0].x->Atom_0);
                    let head = operator_head(i, pos);
                    assert(head.len() == 1);
                    assert(canonical_all(items, 0, false));
                    assert(canonical_all(items, 1, false));
                    lemma_items(i, pos + 2, items, 1, rest, span, false, head);
                    match parse_items(i, pos + 2, span, false, head) {
                        Ok((out, close)) => {
                            lemma_reads_first(i, close, TokenView::RParen, rest);
                            assert(out[0] == head[0]);
                            assert(erase(out[0]) == erase(items[0]));
                            assert(erase_all(out) =~= erase_all(items)) by {
                                assert forall|k: int| 0 <= k < items.len() implies erase(out[k])
                                    == erase(items[k]) by {
                                    if k >= 1 {
                                        assert(erase(out[1 + k - 1]) == erase(items[k]));
                                    }
                                }
                            }
                        },
                        Err(_) => {},
                    }
                },
                None => {
                    let inner = unparse_all_onto(items, 0, after);
                    lemma_reads_first(i, pos, TokenView::LParen, inner);
                    lemma_first_of_all(items, 0, rest, false);
                    assert(i.tokens[pos + 1].0 == inner[0]);
                    let head = operator_head(i, pos);
                    assert(head.len() == 0);
                    assert(!opens_definition(i, pos));
                    lemma_items(i, pos + 1, items, 0, rest, span, false, head);
                    match parse_items(i, pos + 1, span, false, head) {
                        Ok((out, close)) => {
                            lemma_reads_first(i, close, TokenView::RParen, rest);
                            assert(erase_all(out) =~= erase_all(items)) by {
                                assert forall|k: int| 0 <= k < items.len() implies erase(out[k])
                                    == erase(items[k]) by {
                                    assert(erase(out[0 + k - 0]) == erase(items[k]));
                                }
                            }
                        },
                        Err(_) => {},
                    }
                },
            }
        },
        Sexp::Function { name, params, preconditions, postcondition, body } => {
            lemma_define(i, pos, n, rest);
        },
        Sexp::FunctionCall { .. } => {},
    }
}

/// The tokens of a canonical definition parse to the definition.
proof fn lemma_define(i: Input, pos: int, n: Node, rest: Seq<TokenView>)
    requires
        n.x is Function,
        canonical(n),
        reads(i, pos, unparse_onto(n, rest)),
    ensures
        opens_definition(i, pos),
        parse_define(i, pos) matches Ok((m, next)) && erase(m) == erase(n) && pos < next && reads(
            i,
            next,
            rest,
        ) && next + rest.len() == pos + unparse_onto(n, rest).len(),
        parse_expr(i, pos) == parse_define(i, pos),
    decreases n, 0int,
{
    reveal_strlit("requires");
    reveal_strlit("ensures");
    assert(requires_text() != ensures_text()) by {
        assert(requires_text().len() == 8);
        assert(ensures_text().len() == 7);
    }
    match n.x {
        Sexp::Function { name, params, preconditions, postcondition, body } => {
            let after_body = seq![TokenView::RParen] + rest;
            let after_post = unparse_all_onto(body, 0, after_body);
            let after_pre = match postcondition {
                Some(clause) => seq![TokenView::Ident(ensures_text())] + unparse_onto(
                    *clause,
                    after_post,
                ),
                None => after_post,
            };
            let after_header = match preconditions {
                Some(clauses) => clauses_onto(clauses, 0, after_pre),
                None => after_pre,
            };
            let t4 = idents_onto(params, 0, seq![TokenView::RParen] + after_header);
            let t3 = seq![TokenView::Ident(name)] + t4;
            let t2 = seq![TokenView::LParen] + t3;
            let t1 = seq![TokenView::Define] + t2;
            lemma_reads_first(i, pos, TokenView::LParen, t1);
            lemma_reads_first(i, pos + 1, TokenView::Define, t2);
            lemma_reads_first(i, pos + 2, TokenView::LParen, t3);
            lemma_reads_first(i, pos + 3, TokenView::Ident(name), t4);
            let opening = span_at(i, pos);
            let header = span_at(i, pos + 2);
            lemma_params(i, pos + 4, params, 0, after_header, header, Seq::empty());
            assert(Seq::<Seq<char>>::empty() + params.subrange(0, params.len() as int) =~= params);
            let close = pos + 4 + params.len();
            lemma_reads_first(i, close, TokenView::RParen, after_header);
            let start = close + 1;
            // What follows the preconditions does not start with `requires`.
            lemma_first_of_all(body, 0, rest, true);
            assert(after_pre.len() > 0 && after_pre[0] != TokenView::Ident(requires_text()));
            let none: Seq<Node> = Seq::empty();
            match preconditions {
                Some(clauses) => {
                    lemma_clauses(i, start, clauses, 0, after_pre, opening, none);
                },
                None => {
                    assert(i.tokens[start + 0].0 == after_pre[0]);
                },
            }
            match parse_preconditions(i, start, opening, none) {
                Ok((pre, pre_end)) => {
                    assert(reads(i, pre_end, after_pre));
                    assert(i.tokens[pre_end + 0].0 == after_pre[0]);
                    match postcondition {
                        Some(clause) => {
                            lemma_reads_first(
                                i,
                                pre_end,
                                TokenView::Ident(ensures_text()),
                                unparse_onto(*clause, after_post),
                            );
                            lemma_first_token(*clause, after_post);
                            lemma_round_trip(i, pre_end + 1, *clause, after_post);
                        },
                        None => {
                            assert(i.tokens[pre_end].0 != TokenView::Ident(ensures_text()));
                        },
                    }
                    match parse_postcondition(i, pre_end, opening) {
                        Ok((post, post_end)) => {
                            assert(reads(i, post_end, after_post));
                            lemma_items(i, post_end, body, 0, rest, opening, true, none);
                            match parse_items(i, post_end, opening, true, none) {
                                Ok((out, end)) => {
                                    lemma_reads_first(i, end, TokenView::RParen, rest);
                                    assert(moves(i, pos, start));
                                    assert(moves(i, pos, pre_end));
                                    assert(moves(i, pos, post_end));
                                    assert(erase_all(out) =~= erase_all(body)) by {
                                        assert forall|k: int| 0 <= k < body.len() implies erase(
                                            out[k],
                                        ) == erase(body[k]) by {
                                            assert(erase(out[0 + k - 0]) == erase(body[k]));
                                        }
                                    }
                                    match preconditions {
                                        Some(clauses) => {
                                            assert(erase_all(pre) =~= erase_all(clauses)) by {
                                                assert forall|k: int|
                                                    0 <= k < clauses.len() implies erase(pre[k])
                                                    == erase(clauses[k]) by {
                                                    assert(erase(pre[0 + k - 0]) == erase(
                                                        clauses[k],
                                                    ));
                                                }
                                            }
                                        },
                                        None => {},
                                    }
                                    assert(parse_define_rest(i, pos, start, name, params) is Ok);
                                },
                                Err(_) => {},
                            }
                        },
                        Err(_) => {},
                    }
                },
                Err(_) => {},
            }
        },
        _ => {},
    }
}

/// The tokens of canonical trees, up to the `)` after them, parse to the
/// trees, but for their places.
proof fn lemma_items(
    i: Input,
    pos: int,
    items: Seq<Node>,
    from: int,
    rest: Seq<TokenView>,
    opening: Span,
    in_body: bool,
    acc: Seq<Node>,
)
    requires
        0 <= from <= items.len(),
        canonical_all(items, from, in_body),
        reads(i, pos, unparse_all_onto(items, from, seq![TokenView::RParen] + rest)),
    ensures
        parse_items(i, pos, opening, in_body, acc) matches Ok((out, close)) && same_from(
            out,
            acc,
            items,
            from,
        ) && pos <= close && reads(i, close, seq![TokenView::RParen] + rest) && close + 1
            + rest.len() == pos + unparse_all_onto(
            items,
            from,
            seq![TokenView::RParen] + rest,
        ).len(),
    decreases items, items.len() - from,
{
    let after = seq![TokenView::RParen] + rest;
    lemma_first_of_all(items, from, rest, in_body);
    let ts = unparse_all_onto(items, from, after);
    assert(i.tokens[pos + 0].0 == ts[0]);
    if from < items.len() {
        let more = unparse_all_onto(items, from + 1, after);
        lemma_round_trip(i, pos, items[from], more);
        match parse_expr(i, pos) {
            Ok((m, next)) => {
                lemma_items(i, next, items, from + 1, rest, opening, in_body, acc.push(m));
                match parse_items(i, next, opening, in_body, acc.push(m)) {
                    Ok((out, close)) => {
                        assert(moves(i, pos, next));
                        assert(out[acc.len() as int] == acc.push(m)[acc.len() as int]);
                        assert forall|k: int| 0 <= k < acc.len() implies out[k] == acc[k] by {
                            assert(out[k] == acc.push(m)[k]);
                        }
                        assert forall|k: int| from <= k < items.len() implies erase(
                            out[acc.len() + k - from],
                        ) == erase(#[trigger] items[k]) by {
                            if k > from {
                                assert(erase(out[acc.push(m).len() + k - (from + 1)]) == erase(
                                    items[k],
                                ));
                            }
                        }
                    },
                    Err(_) => {},
                }
            },
            Err(_) => {},
        }
    } else {
        lemma_reads_first(i, pos, TokenView::RParen, rest);
    }
}

/// The tokens of canonical preconditions, a `requires` before each, parse
/// to the preconditions, but for their places.
proof fn lemma_clauses(
    i: Input,
    pos: int,
    clauses: Seq<Node>,
    from: int,
    rest: Seq<TokenView>,
    opening: Span,
    acc: Seq<Node>,
)
    requires
        0 <= from <= clauses.len(),
        canonical_all(clauses, from, false),
        reads(i, pos, clauses_onto(clauses, from, rest)),
        rest.len() > 0,
        rest[0] != TokenView::Ident(requires_text()),
    ensures
        parse_preconditions(i, pos, opening, acc) matches Ok((out, next)) && same_from(
            out,
            acc,
            clauses,
            from,
        ) && pos <= next && reads(i, next, rest) && next + rest.len() == pos + clauses_onto(
            clauses,
            from,
            rest,
        ).len(),
    decreases clauses, clauses.len() - from,
{
    if from < clauses.len() {
        let more = clauses_onto(clauses, from + 1, rest);
        lemma_reads_first(
            i,
            pos,
            TokenView::Ident(requires_text()),
            unparse_onto(clauses[from], more),
        );
        lemma_first_token(clauses[from], more);
        lemma_round_trip(i, pos + 1, clauses[from], more);
        match parse_expr(i, pos + 1) {
            Ok((m, next)) => {
                lemma_clauses(i, next, clauses, from + 1, rest, opening, acc.push(m));
                match parse_preconditions(i, next, opening, acc.push(m)) {
                    Ok((out, end)) => {
                        assert(moves(i, pos, next));
                        assert(out[acc.len() as int] == acc.push(m)[acc.len() as int]);
                        assert forall|k: int| 0 <= k < acc.len() implies out[k] == acc[k] by {
                            assert(out[k] == acc.push(m)[k]);
                        }
                        assert forall|k: int| from <= k < clauses.len() implies erase(
                            out[acc.len() + k - from],
                        ) == erase(#[trigger] clauses[k]) by {
                            if k > from {
                                assert(erase(out[acc.push(m).len() + k - (from + 1)]) == erase(
                                    clauses[k],
                                ));
                            }
                        }
                    },
                    Err(_) => {},
                }
            },
            Err(_) => {},
        }
    } else {
        assert(i.tokens[pos + 0].0 == rest[0]);
    }
}

proof fn lemma_canonical_push(acc: Seq<Node>, from: int, n: Node, in_body: bool)
    requires
        0 <= from <= acc.len(),
        canonical_all(acc, from, in_body),
        canonical(n),
        !(in_body && is_contract_atom(n)),
    ensures
        canonical_all(acc.push(n), from, in_body),
    decreases acc.len() - from,
{
    let more = acc.push(n);
    if from < acc.len() {
        assert(more[from] == acc[from]);
        lemma_canonical_push(acc, from + 1, n, in_body);
    } else {
        assert(more[from] == n);
        assert(canonical_all(more, from + 1, in_body));
    }
}

/// What parses as an expression is canonical, and an identifier only
/// where the token is that identifier.
pub proof fn lemma_parsed_canonical(i: Input, pos: int)
    ensures
        parse_expr(i, pos) matches Ok((n, _)) ==> canonical(n) && (n.x matches Sexp::Atom(t)
            ==> in_range(i, pos) && i.tokens[pos].0 == TokenView::Ident(t)),
    decreases i.tokens.len() - pos, 2int,
{
    if in_range(i, pos) {
        match i.tokens[pos].0 {
            TokenView::LParen => {
                if opens_definition(i, pos) {
                    lemma_define_canonical(i, pos);
                } else {
                    let head = operator_head(i, pos);
                    assert(canonical_all(head, 0, false)) by {
                        if head.len() > 0 {
                            assert(canonical(head[0]));
                            assert(canonical_all(head, 1, false));
                        }
                    }
                    lemma_items_canonical(i, pos + 1 + head.len(), i.tokens[pos].1, false, head);
                }
            },
            _ => {},
        }
    }
}

proof fn lemma_items_canonical(i: Input, pos: int, opening: Span, in_body: bool, acc: Seq<Node>)
    requires
        canonical_all(acc, 0, in_body),
    ensures
        parse_items(i, pos, opening, in_body, acc) matches Ok((out, _)) ==> canonical_all(
            out,
            0,
            in_body,
        ),
    decreases i.tokens.len() - pos, 3int,
{
    if in_range(i, pos) && !(i.tokens[pos].0 is RParen) && !(in_body && is_contract_word(
        i.tokens[pos].0,
    )) && starts_expr(i.tokens[pos].0) {
        lemma_parsed_canonical(i, pos);
        match parse_expr(i, pos) {
            Ok((item, next)) => {
                if moves(i, pos, next) {
                    lemma_canonical_push(acc, 0, item, in_body);
                    lemma_items_canonical(i, next, opening, in_body, acc.push(item));
                }
            },
            Err(_) => {},
        }
    }
}

proof fn lemma_pre_canonical(i: Input, pos: int, opening: Span, acc: Seq<Node>)
    requires
        canonical_all(acc, 0, false),
    ensures
        parse_preconditions(i, pos, opening, acc) matches Ok((out, _)) ==> canonical_all(
            out,
            0,
            false,
        ),
    decreases i.tokens.len() - pos, 3int,
{
    if in_range(i, pos) && i.tokens[pos].0 == TokenView::Ident(requires_text()) && in_range(
        i,
        pos + 1,
    ) {
        lemma_parsed_canonical(i, pos + 1);
        match parse_expr(i, pos + 1) {
            Ok((clause, next)) => {
                if moves(i, pos, next) {
                    lemma_canonical_push(acc, 0, clause, false);
                    lemma_pre_canonical(i, next, opening, acc.push(clause));
                }
            },
            Err(_) => {},
        }
    }
}

proof fn lemma_define_canonical(i: Input, pos: int)
    ensures
        parse_define(i, pos) matches Ok((n, _)) ==> canonical(n) && n.x is Function,
    decreases i.tokens.len() - pos, 1int,
{
    if in_range(i, pos + 2) && i.tokens[pos + 2].0 is LParen && in_range(i, pos + 3) {
        match i.tokens[pos + 3].0 {
            TokenView::Ident(name) => {
                match parse_params(i, pos + 4, span_at(i, pos + 2), Seq::empty()) {
                    Ok((params, close)) => {
                        lemma_define_rest_canonical(i, pos, close + 1, name, params);
                    },
                    Err(_) => {},
                }
            },
            _ => {},
        }
    }
}

proof fn lemma_define_rest_canonical(
    i: Input,
    pos: int,
    after_header: int,
    name: Seq<char>,
    params: Seq<Seq<char>>,
)
    ensures
        parse_define_rest(i, pos, after_header, name, params) matches Ok((n, _)) ==> canonical(n)
            && n.x is Function,
    decreases i.tokens.len() - pos, 0int,
{
    let opening = span_at(i, pos);
    let none: Seq<Node> = Seq::empty();
    if moves(i, pos, after_header) {
        lemma_pre_canonical(i, after_header, opening, none);
        match parse_preconditions(i, after_header, opening, none) {
            Ok((pre, pre_end)) => {
                if moves(i, pos, pre_end) {
                    if in_range(i, pre_end) && i.tokens[pre_end].0 == TokenView::Ident(ensures_text())
                        && in_range(i, pre_end + 1) {
                        lemma_parsed_canonical(i, pre_end + 1);
                    }
                    match parse_postcondition(i, pre_end, opening) {
                        Ok((post, post_end)) => {
                            if moves(i, pos, post_end) {
                                lemma_items_canonical(i, post_end, opening, true, none);
                            }
                        },
                        Err(_) => {},
                    }
                }
            },
            Err(_) => {},
        }
    }
}

/// What parsed parses again: the tokens that a parsed tree is written as,
/// wherever they stand and whatever their spans, parse to the same tree
/// but for its places, and to nothing more.
pub proof fn lemma_reparse(i: Input, pos: int, j: Input, at: int)
    requires
        parse_expr(i, pos) is Ok,
        reads(j, at, unparse(parse_expr(i, pos)->Ok_0.0)),
    ensures
        parse_expr(j, at) matches Ok((m, next)) && erase(m) == erase(parse_expr(i, pos)->Ok_0.0)
            && next == at + unparse(parse_expr(i, pos)->Ok_0.0).len(),
{
    lemma_parsed_canonical(i, pos);
    lemma_round_trip(j, at, parse_expr(i, pos)->Ok_0.0, Seq::empty());
}

/// The tokens that the forms of a module are written as, one after the
/// other.
pub open spec fn unparse_forms(fns: Seq<Node>) -> Seq<TokenView> {
    unparse_all_onto(fns, 0, Seq::empty())
}

/// Parsing keeps the definitions canonical.
proof fn lemma_forms_canonical(i: Input, pos: int, acc: Outcome)
    requires
        canonical_all(acc.functions, 0, false),
        all_functions(acc.functions),
    ensures
        canonical_all(parse_forms(i, pos, acc).functions, 0, false),
        all_functions(parse_forms(i, pos, acc).functions),
    decreases i.tokens.len() - pos,
{
    lemma_forms_are_functions(i, pos, acc);
    if in_range(i, pos) {
        match parse_top(i, pos) {
            Ok((f, next)) => {
                if moves(i, pos, next) {
                    lemma_define_canonical(i, pos);
                    lemma_canonical_push(acc.functions, 0, f, false);
                    let more = Outcome { functions: acc.functions.push(f), errors: acc.errors };
                    assert forall|k: int| 0 <= k < more.functions.len() implies (
                    #[trigger] more.functions[k]).x is Function by {
                        if k < acc.functions.len() {
                            assert(acc.functions[k].x is Function);
                        }
                    }
                    lemma_forms_canonical(i, next, more);
                }
            },
            Err(e) => {
                lemma_skip_to_top_bounds(i.tokens, pos + 1, 0);
                lemma_skip_to_top_bounds(i.tokens, pos + 1, 1);
                lemma_forms_canonical(
                    i,
                    resume_at(i.tokens, pos),
                    Outcome { functions: acc.functions, errors: acc.errors.push(e) },
                );
            },
        }
    }
}

/// The tokens of canonical definitions, and nothing after them, parse to
/// the definitions, but for their places, without a diagnostic.
proof fn lemma_forms_round_trip(j: Input, pos: int, fns: Seq<Node>, from: int, acc: Outcome)
    requires
        0 <= from <= fns.len(),
        canonical_all(fns, from, false),
        all_functions(fns),
        reads(j, pos, unparse_all_onto(fns, from, Seq::empty())),
        pos + unparse_all_onto(fns, from, Seq::empty()).len() == j.tokens.len(),
    ensures
        parse_forms(j, pos, acc).errors == acc.errors,
        same_from(parse_forms(j, pos, acc).functions, acc.functions, fns, from),
    decreases fns.len() - from,
{
    if from < fns.len() {
        let rest = unparse_all_onto(fns, from + 1, Seq::empty());
        assert(fns[from].x is Function);
        lemma_define(j, pos, fns[from], rest);
        match parse_top(j, pos) {
            Ok((m, next)) => {
                assert(moves(j, pos, next));
                let more = Outcome { functions: acc.functions.push(m), errors: acc.errors };
                lemma_forms_round_trip(j, next, fns, from + 1, more);
                let out = parse_forms(j, next, more).functions;
                assert(out[acc.functions.len() as int] == more.functions[acc.functions.len() as int]);
                assert forall|k: int| 0 <= k < acc.functions.len() implies out[k]
                    == acc.functions[k] by {
                    assert(out[k] == more.functions[k]);
                }
                assert forall|k: int| from <= k < fns.len() implies erase(
                    out[acc.functions.len() + k - from],
                ) == erase(#[trigger] fns[k]) by {
                    if k > from {
                        assert(erase(out[more.functions.len() + k - (from + 1)]) == erase(fns[k]));
                    }
                }
            },
            Err(_) => {},
        }
    }
}

/// The round trip of a module: the definitions that parsed, written as
/// tokens with whatever spans and parsed again, are the same definitions
/// but for their places, and the second parse gives no diagnostic.
pub proof fn lemma_module_round_trip(i: Input, j: Input)
    requires
        reads(j, 0, unparse_forms(parse_forms(i, 0, nothing()).functions)),
        j.tokens.len() == unparse_forms(parse_forms(i, 0, nothing()).functions).len(),
    ensures
        parse_forms(j, 0, nothing()).errors.len() == 0,
        erase_all(parse_forms(j, 0, nothing()).functions) == erase_all(
            parse_forms(i, 0, nothing()).functions,
        ),
{
    let fns = parse_forms(i, 0, nothing()).functions;
    lemma_forms_canonical(i, 0, nothing());
    lemma_forms_round_trip(j, 0, fns, 0, nothing());
    let out = parse_forms(j, 0, nothing()).functions;
    assert(erase_all(out) =~= erase_all(fns)) by {
        assert forall|k: int| 0 <= k < fns.len() implies erase(out[k]) == erase(fns[k]) by {
            assert(erase(out[0 + k - 0]) == erase(fns[k]));
        }
    }
}

/// The outcome before anything is parsed.
pub open spec fn nothing() -> Outcome {
    Outcome { functions: Seq::empty(), errors: Seq::empty() }
}

} // verus!
