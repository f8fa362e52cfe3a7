use lisp_front::common::{Span, Spanned};
use lisp_front::parser::ast::{LispVal, LispValX};
use lisp_front::parser::grammar::TokenKind;
use lisp_front::parser::lexer::{LexErrorKind, Token};
use lisp_front::parser::parser::{parse_source, ParseError, ParseErrorKind};
use lisp_front::semantic::diagnostic::{Category, Severity};
use std::sync::Arc;

fn sp(start: usize, end: usize) -> Span {
    Span { start, end }
}

fn s(text: &str) -> Arc<String> {
    Arc::new(text.to_string())
}

fn at(x: LispValX, start: usize, end: usize) -> Spanned<LispVal> {
    Spanned { source: s("t"), x: Arc::new(x), span: sp(start, end) }
}

fn atom(name: &str, start: usize, end: usize) -> Spanned<LispVal> {
    at(LispValX::Atom(s(name)), start, end)
}

fn numeral(text: &str, start: usize, end: usize) -> Spanned<LispVal> {
    at(LispValX::Int(s(text)), start, end)
}

fn list(items: Vec<Spanned<LispVal>>, start: usize, end: usize) -> Spanned<LispVal> {
    at(LispValX::List(Arc::new(items)), start, end)
}

#[test]
fn parses_a_definition() {
    let out = parse_source("t", "(define (f x) (+ x 1))");
    assert_eq!(out.errors, vec![]);
    let expected = at(
        LispValX::Function {
            name: s("f"),
            params: vec![s("x")],
            preconditions: None,
            postcondition: None,
            body: Arc::new(vec![list(
                vec![atom("+", 15, 16), atom("x", 17, 18), numeral("1", 19, 20)],
                14,
                21,
            )]),
        },
        0,
        22,
    );
    assert_eq!(*out.module.functions, vec![expected]);
}

#[test]
fn every_node_carries_the_name_of_the_source() {
    let out = parse_source("prog.lp", "(define (f) 1)");
    let f = &out.module.functions[0];
    assert_eq!(**f.source(), "prog.lp");
    assert_eq!(f.start(), 0);
    assert_eq!(f.end(), 14);
    assert_eq!(f.len(), 14);
    match &**&f.x {
        LispValX::Function { body, .. } => assert_eq!(**body[0].source(), "prog.lp"),
        _ => panic!("not a definition"),
    }
}

#[test]
fn parses_contract_clauses() {
    let text = "(define (f x) requires (> x 0) requires (< x 9) ensures (> result 0) (+ x 1))";
    let out = parse_source("t", text);
    assert_eq!(out.errors, vec![]);
    match &*out.module.functions[0].x {
        LispValX::Function { name, params, preconditions, postcondition, body } => {
            assert_eq!(**name, "f");
            assert_eq!(*params, vec![s("x")]);
            let pre = preconditions.as_ref().unwrap();
            assert_eq!(
                **pre,
                vec![
                    list(vec![atom(">", 24, 25), atom("x", 26, 27), numeral("0", 28, 29)], 23, 30),
                    list(vec![atom("<", 41, 42), atom("x", 43, 44), numeral("9", 45, 46)], 40, 47),
                ]
            );
            let post = postcondition.as_ref().unwrap();
            assert_eq!(
                **post,
                list(vec![atom(">", 57, 58), atom("result", 59, 65), numeral("0", 66, 67)], 56, 68)
            );
            assert_eq!(body.len(), 1);
            assert_eq!(body[0].span, sp(69, 76));
        }
        _ => panic!("not a definition"),
    }
}

#[test]
fn an_empty_body_parses() {
    let out = parse_source("t", "(define (f))");
    assert_eq!(out.errors, vec![]);
    match &*out.module.functions[0].x {
        LispValX::Function { params, preconditions, postcondition, body, .. } => {
            assert!(params.is_empty());
            assert!(preconditions.is_none());
            assert!(postcondition.is_none());
            assert!(body.is_empty());
        }
        _ => panic!("not a definition"),
    }
}

#[test]
fn literals_and_lists_in_a_body() {
    let out = parse_source("t", "(define (f) \"s\" #t 2.5 () (g (h 1) x))");
    assert_eq!(out.errors, vec![]);
    match &*out.module.functions[0].x {
        LispValX::Function { body, .. } => {
            assert_eq!(
                **body,
                vec![
                    at(LispValX::String(s("s")), 12, 15),
                    at(LispValX::Bool(true), 16, 18),
                    numeral("2.5", 19, 22),
                    list(vec![], 23, 25),
                    list(
                        vec![
                            atom("g", 27, 28),
                            list(vec![atom("h", 30, 31), numeral("1", 32, 33)], 29, 34),
                            atom("x", 35, 36),
                        ],
                        26,
                        37
                    ),
                ]
            );
        }
        _ => panic!("not a definition"),
    }
}

#[test]
fn a_nested_definition_is_a_definition() {
    let out = parse_source("t", "(define (f) (define (g) 1))");
    assert_eq!(out.errors, vec![]);
    match &*out.module.functions[0].x {
        LispValX::Function { body, .. } => match &*body[0].x {
            LispValX::Function { name, .. } => assert_eq!(**name, "g"),
            _ => panic!("not a definition"),
        },
        _ => panic!("not a definition"),
    }
}

#[test]
fn unclosed_delimiter_names_the_outermost_parenthesis() {
    let out = parse_source("t", "(define (k x) (+ x 1)");
    assert!(out.module.functions.is_empty());
    assert_eq!(
        out.errors,
        vec![ParseError {
            kind: ParseErrorKind::UnclosedDelimiter { opening: sp(0, 1), found: None },
            span: sp(21, 22),
        }]
    );
}

#[test]
fn unclosed_inner_form_names_the_inner_parenthesis() {
    let out = parse_source("t", "(define (k x) (+ x 1");
    assert_eq!(
        out.errors,
        vec![ParseError {
            kind: ParseErrorKind::UnclosedDelimiter { opening: sp(14, 15), found: None },
            span: sp(20, 21),
        }]
    );
}

#[test]
fn unclosed_header() {
    let out = parse_source("t", "(define (k x");
    assert_eq!(
        out.errors,
        vec![ParseError {
            kind: ParseErrorKind::UnclosedDelimiter { opening: sp(8, 9), found: None },
            span: sp(12, 13),
        }]
    );
    let out = parse_source("t", "(define");
    assert_eq!(
        out.errors,
        vec![ParseError {
            kind: ParseErrorKind::UnclosedDelimiter { opening: sp(0, 1), found: None },
            span: sp(7, 8),
        }]
    );
    let out = parse_source("t", "(");
    assert_eq!(
        out.errors,
        vec![ParseError {
            kind: ParseErrorKind::UnclosedDelimiter { opening: sp(0, 1), found: None },
            span: sp(1, 2),
        }]
    );
}

#[test]
fn a_token_that_cannot_continue_a_form_leaves_it_unclosed() {
    let out = parse_source("t", "(define (f) (a + b))");
    assert_eq!(
        out.errors,
        vec![ParseError {
            kind: ParseErrorKind::UnclosedDelimiter { opening: sp(12, 13), found: Some(Token::Add) },
            span: sp(15, 16),
        }]
    );
}

#[test]
fn unexpected_tokens_name_what_was_expected() {
    let out = parse_source("t", "(define 5)");
    assert_eq!(
        out.errors,
        vec![ParseError {
            kind: ParseErrorKind::UnexpectedToken {
                found: Some(Token::Num(s("5"))),
                expected: vec![TokenKind::LParen],
            },
            span: sp(8, 9),
        }]
    );
    let out = parse_source("t", "(define (1))");
    assert_eq!(
        out.errors,
        vec![ParseError {
            kind: ParseErrorKind::UnexpectedToken {
                found: Some(Token::Num(s("1"))),
                expected: vec![TokenKind::Ident],
            },
            span: sp(9, 10),
        }]
    );
    let out = parse_source("t", "(define (f 1))");
    assert_eq!(
        out.errors,
        vec![ParseError {
            kind: ParseErrorKind::UnexpectedToken {
                found: Some(Token::Num(s("1"))),
                expected: vec![TokenKind::Ident, TokenKind::RParen],
            },
            span: sp(11, 12),
        }]
    );
    let out = parse_source("t", "(define (f) requires ))");
    assert_eq!(
        out.errors[0],
        ParseError {
            kind: ParseErrorKind::UnexpectedToken {
                found: Some(Token::RParen),
                expected: vec![
                    TokenKind::LParen,
                    TokenKind::Ident,
                    TokenKind::Num,
                    TokenKind::Str,
                    TokenKind::Bool
                ],
            },
            span: sp(21, 22),
        }
    );
}

#[test]
fn the_top_level_holds_definitions_only() {
    let out = parse_source("t", "(+ 1 2)");
    assert!(out.module.functions.is_empty());
    assert_eq!(
        out.errors,
        vec![ParseError {
            kind: ParseErrorKind::UnexpectedToken {
                found: Some(Token::Add),
                expected: vec![TokenKind::Define],
            },
            span: sp(1, 2),
        }]
    );
    let out = parse_source("t", "x");
    assert_eq!(
        out.errors,
        vec![ParseError {
            kind: ParseErrorKind::UnexpectedToken {
                found: Some(Token::Ident(s("x"))),
                expected: vec![TokenKind::LParen],
            },
            span: sp(0, 1),
        }]
    );
}

#[test]
fn parsing_resumes_at_the_next_top_level_form() {
    let out = parse_source("t", "(define (f) 1) ) (define (g) 2)");
    assert_eq!(out.module.functions.len(), 2);
    assert_eq!(
        out.errors,
        vec![ParseError {
            kind: ParseErrorKind::UnexpectedToken {
                found: Some(Token::RParen),
                expected: vec![TokenKind::LParen],
            },
            span: sp(15, 16),
        }]
    );
    assert_eq!(out.module.functions[1].span, sp(17, 31));
}

#[test]
fn one_run_reports_every_independent_error() {
    let out = parse_source("t", "(define 5 (x)) (define (g) (a + b)) (define (h) 1)");
    assert_eq!(out.module.functions.len(), 1);
    assert_eq!(out.module.functions[0].span, sp(36, 50));
    assert_eq!(out.errors.len(), 2);
    assert_eq!(out.errors[0].span, sp(8, 9));
    assert_eq!(
        out.errors[1],
        ParseError {
            kind: ParseErrorKind::UnclosedDelimiter { opening: sp(27, 28), found: Some(Token::Add) },
            span: sp(30, 31),
        }
    );
}

#[test]
fn a_contract_clause_after_the_body_is_out_of_place() {
    let out = parse_source("t", "(define (f x) (+ x 1) requires (> x 0))");
    assert!(out.module.functions.is_empty());
    assert_eq!(
        out.errors,
        vec![ParseError {
            kind: ParseErrorKind::Custom("a contract clause must come before the body".to_string()),
            span: sp(22, 30),
        }]
    );
    let out = parse_source("t", "(define (f x) ensures #t requires #t x)");
    assert_eq!(out.errors.len(), 1);
    assert_eq!(out.errors[0].span, sp(25, 33));
}

#[test]
fn a_contract_word_inside_an_expression_is_an_identifier() {
    let out = parse_source("t", "(define (f) (g requires))");
    assert_eq!(out.errors, vec![]);
}

#[test]
fn a_lexical_error_is_the_only_diagnostic() {
    let out = parse_source("t", "(define (f) $) (define 5)");
    assert!(out.module.functions.is_empty());
    assert_eq!(
        out.errors,
        vec![ParseError {
            kind: ParseErrorKind::Lexical(LexErrorKind::UnrecognizedChar('$')),
            span: sp(12, 13),
        }]
    );
}

#[test]
fn the_empty_text_is_the_empty_module() {
    let out = parse_source("t", "  ");
    assert!(out.module.functions.is_empty());
    assert!(out.errors.is_empty());
}

#[test]
fn parsing_is_a_function_of_the_text() {
    let text = "(define (f x) (+ x 1)) (define 5) (define (g) (f 2))";
    let a = parse_source("t", text);
    let b = parse_source("t", text);
    assert_eq!(a.module, b.module);
    assert_eq!(a.errors, b.errors);
}

#[test]
fn parse_diagnostics_have_messages_and_classes() {
    let out = parse_source("t", "(define (k x) (+ x 1)");
    assert_eq!(out.errors[0].message(), "unclosed delimiter");
    assert_eq!(out.errors[0].category(), Category::Syntactic);
    assert_eq!(out.errors[0].severity(), Severity::Recoverable);
    let out = parse_source("t", "(define 5)");
    assert_eq!(out.errors[0].message(), "unexpected token");
    let out = parse_source("t", "(define (f) requires");
    assert_eq!(out.errors[0].message(), "unclosed delimiter");
    let out = parse_source("t", "(define (f) 1 ensures #t)");
    assert_eq!(out.errors[0].message(), "a contract clause must come before the body");
    let out = parse_source("t", "?");
    assert_eq!(out.errors[0].message(), "unrecognized character");
    assert_eq!(out.errors[0].category(), Category::Lexical);
    let out = parse_source("t", "\"abc");
    assert_eq!(out.errors[0].message(), "unterminated string");
}

#[test]
fn tokens_are_written_as_they_were_read() {
    let text = "( ) + - * / < <= > >= == #t #f define f_1 12.5 \"a b\"";
    let tokens = lisp_front::parser::lexer::lex(text).unwrap();
    let chars: Vec<char> = text.chars().collect();
    assert_eq!(tokens.len(), 17);
    for (t, span) in &tokens {
        let written: String = chars[span.start..span.end].iter().collect();
        assert_eq!(t.to_text(), written);
    }
}
