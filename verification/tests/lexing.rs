use lisp_front::common::Span;
use lisp_front::parser::lexer::{lex, LexError, LexErrorKind, Token};
use std::sync::Arc;

fn sp(start: usize, end: usize) -> Span {
    Span { start, end }
}

fn ident(s: &str) -> Token {
    Token::Ident(Arc::new(s.to_string()))
}

fn num(s: &str) -> Token {
    Token::Num(Arc::new(s.to_string()))
}

fn text(s: &str) -> Token {
    Token::Str(Arc::new(s.to_string()))
}

#[test]
fn lexes_a_call_with_spans() {
    let tokens = lex("(+ x 1)").unwrap();
    assert_eq!(
        tokens,
        vec![
            (Token::LParen, sp(0, 1)),
            (Token::Add, sp(1, 2)),
            (ident("x"), sp(3, 4)),
            (num("1"), sp(5, 6)),
            (Token::RParen, sp(6, 7)),
        ]
    );
}

#[test]
fn empty_text_has_no_tokens() {
    assert_eq!(lex("").unwrap(), vec![]);
    assert_eq!(lex(" \t\r\n ").unwrap(), vec![]);
}

#[test]
fn two_character_operators_win() {
    let tokens = lex("<= < >= > ==").unwrap();
    assert_eq!(
        tokens,
        vec![
            (Token::Leq, sp(0, 2)),
            (Token::Le, sp(3, 4)),
            (Token::Geq, sp(5, 7)),
            (Token::Ge, sp(8, 9)),
            (Token::Eq, sp(10, 12)),
        ]
    );
}

#[test]
fn operators_need_no_space_between_them() {
    let tokens = lex("<==").unwrap_err();
    assert_eq!(tokens, LexError { kind: LexErrorKind::UnrecognizedChar('='), span: sp(2, 3) });
    let tokens = lex("<<=").unwrap();
    assert_eq!(tokens, vec![(Token::Le, sp(0, 1)), (Token::Leq, sp(1, 3))]);
}

#[test]
fn arithmetic_operators() {
    let tokens = lex("- + * /").unwrap();
    assert_eq!(
        tokens,
        vec![
            (Token::Neg, sp(0, 1)),
            (Token::Add, sp(2, 3)),
            (Token::Mult, sp(4, 5)),
            (Token::Div, sp(6, 7)),
        ]
    );
}

#[test]
fn a_single_equals_sign_is_no_token() {
    assert_eq!(
        lex("a = b").unwrap_err(),
        LexError { kind: LexErrorKind::UnrecognizedChar('='), span: sp(2, 3) }
    );
}

#[test]
fn numerals_keep_their_text() {
    assert_eq!(lex("12.50").unwrap(), vec![(num("12.50"), sp(0, 5))]);
    assert_eq!(lex("0").unwrap(), vec![(num("0"), sp(0, 1))]);
    assert_eq!(lex("0.5").unwrap(), vec![(num("0.5"), sp(0, 3))]);
    assert_eq!(lex("907").unwrap(), vec![(num("907"), sp(0, 3))]);
}

#[test]
fn a_leading_zero_stands_alone() {
    assert_eq!(
        lex("007").unwrap(),
        vec![(num("0"), sp(0, 1)), (num("0"), sp(1, 2)), (num("7"), sp(2, 3))]
    );
}

#[test]
fn a_point_needs_a_digit_after_it() {
    assert_eq!(
        lex("12.").unwrap_err(),
        LexError { kind: LexErrorKind::UnrecognizedChar('.'), span: sp(2, 3) }
    );
    assert_eq!(
        lex("1.x").unwrap_err(),
        LexError { kind: LexErrorKind::UnrecognizedChar('.'), span: sp(1, 2) }
    );
}

#[test]
fn strings_have_no_escapes() {
    assert_eq!(lex("\"a b\"").unwrap(), vec![(text("a b"), sp(0, 5))]);
    assert_eq!(lex("\"\"").unwrap(), vec![(text(""), sp(0, 2))]);
    assert_eq!(lex("\"a\\\" x").unwrap(), vec![(text("a\\"), sp(0, 4)), (ident("x"), sp(5, 6))]);
}

#[test]
fn an_unterminated_string_points_at_its_quote() {
    assert_eq!(
        lex("(f \"abc").unwrap_err(),
        LexError { kind: LexErrorKind::UnterminatedString, span: sp(3, 4) }
    );
}

#[test]
fn booleans() {
    assert_eq!(
        lex("#t #f").unwrap(),
        vec![(Token::Bool(true), sp(0, 2)), (Token::Bool(false), sp(3, 5))]
    );
    assert_eq!(
        lex("#x").unwrap_err(),
        LexError { kind: LexErrorKind::UnrecognizedChar('#'), span: sp(0, 1) }
    );
    assert_eq!(
        lex("#").unwrap_err(),
        LexError { kind: LexErrorKind::UnrecognizedChar('#'), span: sp(0, 1) }
    );
}

#[test]
fn the_keyword_is_a_whole_word() {
    assert_eq!(
        lex("define defined _define define1").unwrap(),
        vec![
            (Token::Define, sp(0, 6)),
            (ident("defined"), sp(7, 14)),
            (ident("_define"), sp(15, 22)),
            (ident("define1"), sp(23, 30)),
        ]
    );
}

#[test]
fn identifiers() {
    assert_eq!(
        lex("a_b1 _ Z9").unwrap(),
        vec![(ident("a_b1"), sp(0, 4)), (ident("_"), sp(5, 6)), (ident("Z9"), sp(7, 9))]
    );
    assert_eq!(lex("x1y").unwrap(), vec![(ident("x1y"), sp(0, 3))]);
    assert_eq!(lex("1x").unwrap(), vec![(num("1"), sp(0, 1)), (ident("x"), sp(1, 2))]);
}

#[test]
fn the_first_unrecognized_character_stops_lexing() {
    assert_eq!(
        lex("(a $ b ?)").unwrap_err(),
        LexError { kind: LexErrorKind::UnrecognizedChar('$'), span: sp(3, 4) }
    );
}

#[test]
fn spans_count_characters() {
    assert_eq!(
        lex("\"\u{e9}\u{4e2d}\" x").unwrap(),
        vec![(text("\u{e9}\u{4e2d}"), sp(0, 4)), (ident("x"), sp(5, 6))]
    );
}

#[test]
fn unicode_white_space_separates() {
    assert_eq!(
        lex("a\u{a0}b\u{2003}c\u{3000}\u{85}d").unwrap(),
        vec![
            (ident("a"), sp(0, 1)),
            (ident("b"), sp(2, 3)),
            (ident("c"), sp(4, 5)),
            (ident("d"), sp(7, 8)),
        ]
    );
    assert_eq!(
        lex("a\u{200b}b").unwrap_err(),
        LexError { kind: LexErrorKind::UnrecognizedChar('\u{200b}'), span: sp(1, 2) }
    );
}

#[test]
fn non_ascii_letters_start_no_identifier() {
    assert_eq!(
        lex("\u{e9}").unwrap_err(),
        LexError { kind: LexErrorKind::UnrecognizedChar('\u{e9}'), span: sp(0, 1) }
    );
}

#[test]
fn lexing_is_a_function_of_the_text() {
    let text = "(define (f x) requires (> x 0) (+ x 1.5)) \"s\" #t";
    assert_eq!(lex(text), lex(text));
}
