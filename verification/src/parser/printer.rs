//! Writing a tree as tokens: the printer that the round trip is stated
//! of.

use crate::common::{name_is, share, Spanned};
use crate::parser::parser::found_view;
use crate::parser::ast::{names_view, node_view, nodes_view, LispVal, LispValX, Node, Sexp};
use crate::parser::grammar::{ensures_text, requires_text};
use crate::parser::lexer::{Token, TokenView};
use crate::parser::spelling::spell;
use crate::parser::round_trip::{
    clauses_onto, head_operator, idents_onto, operator_of, unparse, unparse_all_onto,
    unparse_forms, unparse_onto,
};
use std::sync::Arc;
use vstd::prelude::*;

verus! {

/// The mathematical value of a sequence of tokens without spans.
pub open spec fn plain_view(v: Seq<Token>) -> Seq<TokenView> {
    v.map_values(|t: Token| t@)
}

pub open spec fn no_tokens() -> Seq<TokenView> {
    Seq::empty()
}

proof fn lemma_idents_onto(names: Seq<Seq<char>>, from: int, rest: Seq<TokenView>)
    ensures
        idents_onto(names, from, rest) == idents_onto(names, from, no_tokens()) + rest,
    decreases names.len() - from,
{
    if 0 <= from < names.len() {
        lemma_idents_onto(names, from + 1, rest);
    }
    assert(idents_onto(names, from, rest) =~= idents_onto(names, from, no_tokens()) + rest);
}

/// What a tree is written as before `rest` is what it is written as,
/// then `rest`.
pub proof fn lemma_onto(n: Node, rest: Seq<TokenView>)
    ensures
        unparse_onto(n, rest) == unparse(n) + rest,
    decreases n, 0int,
{
    let e = no_tokens();
    match n.x {
        Sexp::List(items) => {
            let close = seq![TokenView::RParen];
            let from: int = if head_operator(items) is Some {
                1
            } else {
                0
            };
            lemma_all_onto(items, from, close + rest);
            lemma_all_onto(items, from, close + e);
            assert(unparse_onto(n, rest) =~= unparse_onto(n, e) + rest);
        },
        Sexp::Function { name, params, preconditions, postcondition, body } => {
            let close = seq![TokenView::RParen];
            let b = unparse_all_onto(body, 0, e);
            lemma_all_onto(body, 0, close + rest);
            lemma_all_onto(body, 0, close + e);
            let post_r = unparse_all_onto(body, 0, close + rest);
            let post_e = unparse_all_onto(body, 0, close + e);
            assert(post_r =~= post_e + rest);
            let pre_r = match postcondition {
                Some(clause) => seq![TokenView::Ident(ensures_text())] + unparse_onto(
                    *clause,
                    post_r,
                ),
                None => post_r,
            };
            let pre_e = match postcondition {
                Some(clause) => seq![TokenView::Ident(ensures_text())] + unparse_onto(
                    *clause,
                    post_e,
                ),
                None => post_e,
            };
            match postcondition {
                Some(clause) => {
                    lemma_onto(*clause, post_r);
                    lemma_onto(*clause, post_e);
                },
                None => {},
            }
            assert(pre_r =~= pre_e + rest);
            let head_r = match preconditions {
                Some(clauses) => clauses_onto(clauses, 0, pre_r),
                None => pre_r,
            };
            let head_e = match preconditions {
                Some(clauses) => clauses_onto(clauses, 0, pre_e),
                None => pre_e,
            };
            match preconditions {
                Some(clauses) => {
                    lemma_clauses_onto(clauses, 0, pre_r);
                    lemma_clauses_onto(clauses, 0, pre_e);
                },
                None => {},
            }
            assert(head_r =~= head_e + rest);
            lemma_idents_onto(params, 0, close + head_r);
            lemma_idents_onto(params, 0, close + head_e);
            assert(unparse_onto(n, rest) =~= unparse_onto(n, e) + rest);
        },
        _ => {
            assert(unparse_onto(n, rest) =~= unparse_onto(n, e) + rest);
        },
    }
}

/// What trees are written as before `rest` is what they are written as,
/// then `rest`; and the first is written first.
pub proof fn lemma_all_onto(items: Seq<Node>, from: int, rest: Seq<TokenView>)
    ensures
        unparse_all_onto(items, from, rest) == unparse_all_onto(items, from, no_tokens()) + rest,
        0 <= from < items.len() ==> unparse_all_onto(items, from, no_tokens()) == unparse(
            items[from],
        ) + unparse_all_onto(items, from + 1, no_tokens()),
    decreases items, items.len() - from,
{
    let e = no_tokens();
    if 0 <= from < items.len() {
        lemma_all_onto(items, from + 1, rest);
        lemma_onto(items[from], unparse_all_onto(items, from + 1, rest));
        lemma_onto(items[from], unparse_all_onto(items, from + 1, e));
    }
    assert(unparse_all_onto(items, from, rest) =~= unparse_all_onto(items, from, e) + rest);
}

/// The same of preconditions, each after its `requires`.
pub proof fn lemma_clauses_onto(clauses: Seq<Node>, from: int, rest: Seq<TokenView>)
    ensures
        clauses_onto(clauses, from, rest) == clauses_onto(clauses, from, no_tokens()) + rest,
        0 <= from < clauses.len() ==> clauses_onto(clauses, from, no_tokens())
            == seq![TokenView::Ident(requires_text())] + unparse(clauses[from]) + clauses_onto(
            clauses,
            from + 1,
            no_tokens(),
        ),
    decreases clauses, clauses.len() - from,
{
    let e = no_tokens();
    if 0 <= from < clauses.len() {
        lemma_clauses_onto(clauses, from + 1, rest);
        lemma_onto(clauses[from], clauses_onto(clauses, from + 1, rest));
        lemma_onto(clauses[from], clauses_onto(clauses, from + 1, e));
        assert(clauses_onto(clauses, from, e) =~= seq![TokenView::Ident(requires_text())]
            + unparse(clauses[from]) + clauses_onto(clauses, from + 1, e));
    }
    assert(clauses_onto(clauses, from, rest) =~= clauses_onto(clauses, from, e) + rest);
}

/// The operator that is written as `name`, if there is one.
pub fn operator_token(name: &Arc<String>) -> (r: Option<Token>)
    ensures
        found_view(r) == operator_of(name@),
{
    if name_is(name, "-") {
        Some(Token::Neg)
    } else if name_is(name, "+") {
        Some(Token::Add)
    } else if name_is(name, "*") {
        Some(Token::Mult)
    } else if name_is(name, "/") {
        Some(Token::Div)
    } else if name_is(name, "<") {
        Some(Token::Le)
    } else if name_is(name, "<=") {
        Some(Token::Leq)
    } else if name_is(name, ">") {
        Some(Token::Ge)
    } else if name_is(name, ">=") {
        Some(Token::Geq)
    } else if name_is(name, "==") {
        Some(Token::Eq)
    } else {
        None
    }
}

fn put(out: Vec<Token>, t: Token) -> (r: Vec<Token>)
    ensures
        plain_view(r@) == plain_view(out@) + seq![t@],
{
    let mut r = out;
    r.push(t);
    assert(plain_view(r@) =~= plain_view(out@) + seq![t@]);
    r
}

fn write_all(items: &Vec<Spanned<LispVal>>, from: usize, out: Vec<Token>) -> (r: Vec<Token>)
    requires
        from <= items.len(),
    ensures
        plain_view(r@) == plain_view(out@) + unparse_all_onto(
            nodes_view(items@),
            from as int,
            no_tokens(),
        ),
    decreases items, 1int,
{
    let ghost all = nodes_view(items@);
    let mut r = out;
    let mut k: usize = from;
    while k < items.len()
        invariant
            from <= k <= items.len(),
            all == nodes_view(items@),
            plain_view(r@) + unparse_all_onto(all, k as int, no_tokens()) == plain_view(out@)
                + unparse_all_onto(all, from as int, no_tokens()),
        decreases items.len() - k,
    {
        let ghost before = plain_view(r@);
        proof {
            lemma_all_onto(all, k as int, no_tokens());
            assert(all[k as int] == node_view(items@[k as int]));
        }
        r = write_tree(&items[k], r);
        proof {
            let one = unparse(all[k as int]);
            let more = unparse_all_onto(all, k + 1, no_tokens());
            assert((before + one) + more =~= before + (one + more));
        }
        k += 1;
    }
    assert(plain_view(r@) + no_tokens() =~= plain_view(r@));
    r
}

fn write_clauses(clauses: &Vec<Spanned<LispVal>>, out: Vec<Token>) -> (r: Vec<Token>)
    ensures
        plain_view(r@) == plain_view(out@) + clauses_onto(nodes_view(clauses@), 0, no_tokens()),
    decreases clauses, 1int,
{
    let ghost all = nodes_view(clauses@);
    let mut r = out;
    let mut k: usize = 0;
    while k < clauses.len()
        invariant
            k <= clauses.len(),
            all == nodes_view(clauses@),
            plain_view(r@) + clauses_onto(all, k as int, no_tokens()) == plain_view(out@)
                + clauses_onto(all, 0, no_tokens()),
        decreases clauses.len() - k,
    {
        let ghost before = plain_view(r@);
        proof {
            lemma_clauses_onto(all, k as int, no_tokens());
            assert(all[k as int] == node_view(clauses@[k as int]));
        }
        r = put(r, Token::Ident(Arc::new(String::from_str("requires"))));
        r = write_tree(&clauses[k], r);
        proof {
            let word = seq![TokenView::Ident(requires_text())];
            let one = unparse(all[k as int]);
            let more = clauses_onto(all, k + 1, no_tokens());
            assert(((before + word) + one) + more =~= before + (word + one + more));
        }
        k += 1;
    }
    assert(plain_view(r@) + no_tokens() =~= plain_view(r@));
    r
}

fn write_names(names: &Vec<Arc<String>>, out: Vec<Token>) -> (r: Vec<Token>)
    ensures
        plain_view(r@) == plain_view(out@) + idents_onto(names_view(names@), 0, no_tokens()),
{
    let ghost all = names_view(names@);
    let mut r = out;
    let mut k: usize = 0;
    while k < names.len()
        invariant
            k <= names.len(),
            all == names_view(names@),
            plain_view(r@) + idents_onto(all, k as int, no_tokens()) == plain_view(out@)
                + idents_onto(all, 0, no_tokens()),
        decreases names.len() - k,
    {
        let ghost before = plain_view(r@);
        r = put(r, Token::Ident(share(&names[k])));
        proof {
            let one = seq![TokenView::Ident(all[k as int])];
            let more = idents_onto(all, k + 1, no_tokens());
            assert((before + one) + more =~= before + (one + more));
        }
        k += 1;
    }
    assert(plain_view(r@) + no_tokens() =~= plain_view(r@));
    r
}

/// The tokens of a list: `(`, the operator if the first item reads as
/// one, the items, `)`.
pub open spec fn list_tokens(items: Seq<Node>) -> Seq<TokenView> {
    match head_operator(items) {
        Some(op) => seq![TokenView::LParen] + seq![op] + unparse_all_onto(items, 1, no_tokens())
            + seq![TokenView::RParen],
        None => seq![TokenView::LParen] + unparse_all_onto(items, 0, no_tokens())
            + seq![TokenView::RParen],
    }
}

/// The tokens of the contract clauses of a definition.
pub open spec fn contract_tokens(
    preconditions: Option<Seq<Node>>,
    postcondition: Option<Box<Node>>,
) -> Seq<TokenView> {
    (match preconditions {
        Some(clauses) => clauses_onto(clauses, 0, no_tokens()),
        None => no_tokens(),
    }) + (match postcondition {
        Some(clause) => seq![TokenView::Ident(ensures_text())] + unparse(*clause),
        None => no_tokens(),
    })
}

/// The tokens of the header of a definition.
pub open spec fn header_tokens(name: Seq<char>, params: Seq<Seq<char>>) -> Seq<TokenView> {
    seq![TokenView::LParen, TokenView::Define, TokenView::LParen, TokenView::Ident(name)]
        + idents_onto(params, 0, no_tokens()) + seq![TokenView::RParen]
}

/// A list is written as its tokens.
pub proof fn lemma_list_tokens(n: Node)
    requires
        n.x is List,
    ensures
        unparse(n) == list_tokens(n.x->List_0),
{
    let items = n.x->List_0;
    let e = no_tokens();
    let close = seq![TokenView::RParen];
    let from: int = if head_operator(items) is Some {
        1
    } else {
        0
    };
    lemma_all_onto(items, from, close + e);
    assert(unparse(n) =~= list_tokens(items));
}

/// The tokens of a definition: its header, its contract clauses, its
/// body and `)`.
pub open spec fn definition_tokens(n: Node) -> Seq<TokenView> {
    match n.x {
        Sexp::Function { name, params, preconditions, postcondition, body } => header_tokens(
            name,
            params,
        ) + contract_tokens(preconditions, postcondition) + unparse_all_onto(
            body,
            0,
            no_tokens(),
        ) + seq![TokenView::RParen],
        _ => no_tokens(),
    }
}

/// A definition is written as its tokens.
pub proof fn lemma_definition_tokens(n: Node)
    requires
        n.x is Function,
    ensures
        unparse(n) == definition_tokens(n),
{
    let e = no_tokens();
    let close = seq![TokenView::RParen];
    match n.x {
        Sexp::Function { name, params, preconditions, postcondition, body } => {
            lemma_all_onto(body, 0, close + e);
            let post_e = unparse_all_onto(body, 0, close + e);
            assert(post_e =~= unparse_all_onto(body, 0, e) + close);
            let pre_e = match postcondition {
                Some(clause) => seq![TokenView::Ident(ensures_text())] + unparse_onto(
                    *clause,
                    post_e,
                ),
                None => post_e,
            };
            match postcondition {
                Some(clause) => {
                    lemma_onto(*clause, post_e);
                },
                None => {},
            }
            let head_e = match preconditions {
                Some(clauses) => clauses_onto(clauses, 0, pre_e),
                None => pre_e,
            };
            match preconditions {
                Some(clauses) => {
                    lemma_clauses_onto(clauses, 0, pre_e);
                },
                None => {},
            }
            assert(head_e =~= contract_tokens(preconditions, postcondition) + unparse_all_onto(
                body,
                0,
                e,
            ) + close);
            lemma_idents_onto(params, 0, close + head_e);
            assert(unparse(n) =~= definition_tokens(n));
        },
        _ => {},
    }
}

fn write_list(n: &Spanned<LispVal>, out: Vec<Token>) -> (r: Vec<Token>)
    requires
        (*n.x) is List,
    ensures
        plain_view(r@) == plain_view(out@) + unparse(node_view(*n)),
    decreases n, 0int,
{
    match &*n.x {
        LispValX::List(items) => {
            let ghost all = nodes_view(items@);
            let head = if items.len() > 0 {
                assert(all[0] == node_view(items@[0]));
                match &*items[0].x {
                    LispValX::Atom(t) => operator_token(t),
                    _ => None,
                }
            } else {
                None
            };
            let r0 = put(out, Token::LParen);
            let (r1, from) = match head {
                Some(op) => (put(r0, op), 1),
                None => (r0, 0),
            };
            let r2 = write_all(items, from, r1);
            let r3 = put(r2, Token::RParen);
            proof {
                lemma_list_tokens(node_view(*n));
                assert(plain_view(r3@) =~= plain_view(out@) + list_tokens(all));
            }
            r3
        },
        _ => out,
    }
}

fn write_header(name: &Arc<String>, params: &Vec<Arc<String>>, out: Vec<Token>) -> (r: Vec<
    Token,
>)
    ensures
        plain_view(r@) == plain_view(out@) + header_tokens(name@, names_view(params@)),
{
    let r = put(out, Token::LParen);
    let r = put(r, Token::Define);
    let r = put(r, Token::LParen);
    let r = put(r, Token::Ident(share(name)));
    let r = write_names(params, r);
    let r = put(r, Token::RParen);
    assert(plain_view(r@) =~= plain_view(out@) + header_tokens(name@, names_view(params@)));
    r
}

fn write_contract(n: &Spanned<LispVal>, out: Vec<Token>) -> (r: Vec<Token>)
    requires
        (*n.x) is Function,
    ensures
        plain_view(r@) == plain_view(out@) + contract_tokens(
            node_view(*n).x->preconditions,
            node_view(*n).x->postcondition,
        ),
    decreases n, 0int,
{
    match &*n.x {
        LispValX::Function { preconditions, postcondition, .. } => {
            let r = match preconditions {
                Some(clauses) => write_clauses(clauses, out),
                None => out,
            };
            let ghost mid = plain_view(r@);
            let r = match postcondition {
                Some(clause) => {
                    let r = put(r, Token::Ident(Arc::new(String::from_str("ensures"))));
                    write_tree(clause, r)
                },
                None => r,
            };
            assert(plain_view(r@) =~= plain_view(out@) + contract_tokens(
                node_view(*n).x->preconditions,
                node_view(*n).x->postcondition,
            ));
            r
        },
        _ => out,
    }
}

fn write_definition(n: &Spanned<LispVal>, out: Vec<Token>) -> (r: Vec<Token>)
    requires
        (*n.x) is Function,
    ensures
        plain_view(r@) == plain_view(out@) + unparse(node_view(*n)),
    decreases n, 1int,
{
    match &*n.x {
        LispValX::Function { name, params, body, .. } => {
            let r0 = write_header(name, params, out);
            let r1 = write_contract(n, r0);
            let r2 = write_all(body, 0, r1);
            let r3 = put(r2, Token::RParen);
            proof {
                lemma_definition_tokens(node_view(*n));
                assert(plain_view(r3@) =~= plain_view(out@) + definition_tokens(node_view(*n)));
            }
            r3
        },
        _ => out,
    }
}

/// Writes a tree as tokens after those of `out`.
pub fn write_tree(n: &Spanned<LispVal>, out: Vec<Token>) -> (r: Vec<Token>)
    ensures
        plain_view(r@) == plain_view(out@) + unparse(node_view(*n)),
    decreases n, 2int,
{
    match &*n.x {
        LispValX::Atom(t) => {
            let r = put(out, Token::Ident(share(t)));
            assert(unparse(node_view(*n)) =~= seq![TokenView::Ident(t@)]);
            r
        },
        LispValX::Int(t) => {
            let r = put(out, Token::Num(share(t)));
            assert(unparse(node_view(*n)) =~= seq![TokenView::Num(t@)]);
            r
        },
        LispValX::String(t) => {
            let r = put(out, Token::Str(share(t)));
            assert(unparse(node_view(*n)) =~= seq![TokenView::Str(t@)]);
            r
        },
        LispValX::Bool(b) => {
            let r = put(out, Token::Bool(*b));
            assert(unparse(node_view(*n)) =~= seq![TokenView::Bool(*b)]);
            r
        },
        LispValX::List(_) => write_list(n, out),
        LispValX::Function { .. } => write_definition(n, out),
    }
}

/// Writes the forms of a module as tokens, one after the other.
pub fn write_forms(forms: &Vec<Spanned<LispVal>>) -> (r: Vec<Token>)
    ensures
        plain_view(r@) == unparse_forms(nodes_view(forms@)),
{
    let none: Vec<Token> = Vec::new();
    assert(plain_view(none@) =~= no_tokens());
    let r = write_all(forms, 0, none);
    assert(no_tokens() + unparse_forms(nodes_view(forms@)) =~= unparse_forms(nodes_view(forms@)));
    r
}

/// Writes tokens as text: each as it is written, with a space after it.
pub fn write_text(tokens: &Vec<Token>) -> (r: String)
    ensures
        r@ == spell(plain_view(tokens@), 0),
{
    let ghost all = plain_view(tokens@);
    let mut r = String::new();
    let mut k: usize = 0;
    assert(r@ + spell(all, 0) =~= spell(all, 0));
    while k < tokens.len()
        invariant
            k <= tokens.len(),
            all == plain_view(tokens@),
            r@ + spell(all, k as int) == spell(all, 0),
        decreases tokens.len() - k,
    {
        let ghost before = r@;
        let word = tokens[k].to_text();
        r.append(word.as_str());
        r.append(" ");
        proof {
            reveal_strlit(" ");
            assert(" "@ =~= seq![' ']);
            assert(all[k as int] == tokens@[k as int]@);
            assert((before + word@ + seq![' ']) + spell(all, k + 1) =~= before + (word@ + seq![' ']
                + spell(all, k + 1)));
        }
        k += 1;
    }
    assert(r@ + Seq::<char>::empty() =~= r@);
    r
}

/// Writes a module as text that parses to the same module, but for the
/// places of its trees.
pub fn write_source(module: &crate::parser::ast::LispModuleX) -> (r: String)
    ensures
        r@ == crate::parser::reparse::module_text(module@),
{
    let tokens = write_forms(&*module.functions);
    write_text(&tokens)
}

} // verus!
