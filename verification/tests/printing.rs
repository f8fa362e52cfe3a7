use lisp_front::common::Spanned;
use lisp_front::parser::ast::{LispVal, LispValX};
use lisp_front::parser::lexer::{lex, Token};
use lisp_front::parser::parser::parse_source;
use lisp_front::parser::printer::{
    operator_token, write_forms, write_source, write_text, write_tree,
};
use std::sync::Arc;

fn s(text: &str) -> Arc<String> {
    Arc::new(text.to_string())
}

fn shape(n: &Spanned<LispVal>) -> String {
    match &*n.x {
        LispValX::Atom(t) => format!("atom:{}", t),
        LispValX::Int(t) => format!("int:{}", t),
        LispValX::String(t) => format!("str:{:?}", t),
        LispValX::Bool(b) => format!("bool:{}", b),
        LispValX::List(items) => {
            let inner: Vec<String> = items.iter().map(shape).collect();
            format!("[{}]", inner.join(" "))
        }
        LispValX::Function { name, params, preconditions, postcondition, body } => {
            let pre: Option<Vec<String>> =
                preconditions.as_ref().map(|cs| cs.iter().map(shape).collect());
            let post: Option<String> = postcondition.as_ref().map(|c| shape(c));
            let b: Vec<String> = body.iter().map(shape).collect();
            format!("fn {} {:?} pre={:?} post={:?} body={:?}", name, params, pre, post, b)
        }
    }
}

fn text_of(tokens: &[Token]) -> String {
    let words: Vec<String> = tokens.iter().map(|t| t.to_text()).collect();
    words.join(" ")
}

#[test]
fn a_module_is_written_with_a_space_after_each_token() {
    let out = parse_source("t", "(define (f x) (+ x 1.5) \"a b\")");
    assert_eq!(write_source(&out.module), "( define ( f x ) ( + x 1.5 ) \"a b\" ) ");
    assert_eq!(write_text(&vec![]), "");
    assert_eq!(write_text(&vec![Token::Leq, Token::Bool(false)]), "<= #f ");
}

#[test]
fn what_parsed_with_diagnostics_is_written_without_them() {
    let first = parse_source("t", "(define (f) 1) (oops) (define (g) (f))");
    assert_eq!(first.errors.len(), 1);
    let written = write_source(&first.module);
    assert_eq!(written, "( define ( f ) 1 ) ( define ( g ) ( f ) ) ");
    let second = parse_source("t", &written);
    assert_eq!(second.errors, vec![]);
    assert_eq!(second.module.functions.len(), 2);
}

fn round_trip(text: &str) {
    let first = parse_source("a", text);
    assert_eq!(first.errors, vec![]);
    let tokens = write_forms(&first.module.functions);
    let written = write_source(&first.module);
    assert_eq!(written, write_text(&tokens));
    let second = parse_source("b", &written);
    assert_eq!(second.errors, vec![]);
    let one: Vec<String> = first.module.functions.iter().map(shape).collect();
    let two: Vec<String> = second.module.functions.iter().map(shape).collect();
    assert_eq!(one, two);
    assert_eq!(write_forms(&second.module.functions), tokens);
}

#[test]
fn a_definition_is_written_as_its_tokens() {
    let out = parse_source("t", "(define   (f x)\n  (+ x 1))");
    let tokens = write_forms(&out.module.functions);
    assert_eq!(text_of(&tokens), "( define ( f x ) ( + x 1 ) )");
    let lexed: Vec<Token> =
        lex("(define (f x) (+ x 1))").unwrap().into_iter().map(|(t, _)| t).collect();
    assert_eq!(tokens, lexed);
}

#[test]
fn contract_clauses_are_written_before_the_body() {
    let out =
        parse_source("t", "(define (f x y) requires (> x 0) requires #t ensures (< result 9) x)");
    let tokens = write_forms(&out.module.functions);
    assert_eq!(
        text_of(&tokens),
        "( define ( f x y ) requires ( > x 0 ) requires #t ensures ( < result 9 ) x )"
    );
}

#[test]
fn what_parsed_parses_again_to_the_same_module() {
    round_trip("(define (f x) (+ x 1))");
    round_trip("(define (f)) (define (g a b c) \"s\" #f 2.5 () (g (f) (1 2) a))");
    round_trip("(define (f x) requires (> x 0) requires (<= x 9) ensures (== result x) (* x (- x 1)))");
    round_trip("(define (f) (define (g y) ensures #t (/ y 2)) (>= 1 2) (< 1 2))");
    round_trip("(define (f) (h requires ensures) (requires 1))");
    round_trip("");
}

#[test]
fn a_tree_is_written_after_what_was_written() {
    let out = parse_source("t", "(define (f) (g 1))");
    let body = match &*out.module.functions[0].x {
        LispValX::Function { body, .. } => body.clone(),
        _ => panic!("not a definition"),
    };
    let tokens = write_tree(&body[0], vec![Token::Define]);
    assert_eq!(
        tokens,
        vec![
            Token::Define,
            Token::LParen,
            Token::Ident(s("g")),
            Token::Num(s("1")),
            Token::RParen
        ]
    );
}

#[test]
fn operators_by_their_text() {
    assert_eq!(operator_token(&s("+")), Some(Token::Add));
    assert_eq!(operator_token(&s("-")), Some(Token::Neg));
    assert_eq!(operator_token(&s("*")), Some(Token::Mult));
    assert_eq!(operator_token(&s("/")), Some(Token::Div));
    assert_eq!(operator_token(&s("<")), Some(Token::Le));
    assert_eq!(operator_token(&s("<=")), Some(Token::Leq));
    assert_eq!(operator_token(&s(">")), Some(Token::Ge));
    assert_eq!(operator_token(&s(">=")), Some(Token::Geq));
    assert_eq!(operator_token(&s("==")), Some(Token::Eq));
    assert_eq!(operator_token(&s("=")), None);
    assert_eq!(operator_token(&s("x")), None);
}
