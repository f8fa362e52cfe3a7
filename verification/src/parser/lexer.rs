//! The lexer: from characters to spanned tokens.

use crate::common::Span;
use std::sync::Arc;
use vstd::prelude::*;

verus! {

/// One lexical unit. Numerals keep their text.
#[derive(Clone, Debug, PartialEq, Eq, Hash)]
pub enum Token {
    Neg,
    Add,
    Mult,
    Div,
    Bool(bool),
    Num(Arc<String>),
    Str(Arc<String>),
    Define,
    LParen,
    RParen,
    Ident(Arc<String>),
    Le,
    Leq,
    Ge,
    Geq,
    Eq,
}

/// The mathematical value of a [`Token`].
pub enum TokenView {
    Neg,
    Add,
    Mult,
    Div,
    Bool(bool),
    Num(Seq<char>),
    Str(Seq<char>),
    Define,
    LParen,
    RParen,
    Ident(Seq<char>),
    Le,
    Leq,
    Ge,
    Geq,
    Eq,
}

impl View for Token {
    type V = TokenView;

    open spec fn view(&self) -> TokenView {
        match *self {
            Token::Neg => TokenView::Neg,
            Token::Add => TokenView::Add,
            Token::Mult => TokenView::Mult,
            Token::Div => TokenView::Div,
            Token::Bool(b) => TokenView::Bool(b),
            Token::Num(t) => TokenView::Num(t@),
            Token::Str(t) => TokenView::Str(t@),
            Token::Define => TokenView::Define,
            Token::LParen => TokenView::LParen,
            Token::RParen => TokenView::RParen,
            Token::Ident(t) => TokenView::Ident(t@),
            Token::Le => TokenView::Le,
            Token::Leq => TokenView::Leq,
            Token::Ge => TokenView::Ge,
            Token::Geq => TokenView::Geq,
            Token::Eq => TokenView::Eq,
        }
    }
}

/// The text that a token is written as.
pub open spec fn token_text(t: TokenView) -> Seq<char> {
    match t {
        TokenView::Neg => "-"@,
        TokenView::Add => "+"@,
        TokenView::Mult => "*"@,
        TokenView::Div => "/"@,
        TokenView::Bool(b) => if b {
            "#t"@
        } else {
            "#f"@
        },
        TokenView::Num(v) => v,
        TokenView::Str(s) => "\""@ + s + "\""@,
        TokenView::Define => "define"@,
        TokenView::LParen => "("@,
        TokenView::RParen => ")"@,
        TokenView::Ident(s) => s,
        TokenView::Le => "<"@,
        TokenView::Leq => "<="@,
        TokenView::Ge => ">"@,
        TokenView::Geq => ">="@,
        TokenView::Eq => "=="@,
    }
}

impl Token {
    /// The text that the token is written as.
    pub fn to_text(&self) -> (r: String)
        ensures
            r@ == token_text(self@),
    {
        match self {
            Token::Neg => String::from_str("-"),
            Token::Add => String::from_str("+"),
            Token::Mult => String::from_str("*"),
            Token::Div => String::from_str("/"),
            Token::Bool(b) => if *b {
                String::from_str("#t")
            } else {
                String::from_str("#f")
            },
            Token::Num(v) => String::from_str(v.as_str()),
            Token::Str(s) => {
                let mut r = String::from_str("\"");
                r.append(s.as_str());
                r.append("\"");
                r
            },
            Token::Define => String::from_str("define"),
            Token::LParen => String::from_str("("),
            Token::RParen => String::from_str(")"),
            Token::Ident(s) => String::from_str(s.as_str()),
            Token::Le => String::from_str("<"),
            Token::Leq => String::from_str("<="),
            Token::Ge => String::from_str(">"),
            Token::Geq => String::from_str(">="),
            Token::Eq => String::from_str("=="),
        }
    }
}

/// A token with the span of its text.
pub type SpannedToken = (Token, Span);

/// The mathematical value of a token sequence.
pub type Tokens = Seq<(TokenView, Span)>;

pub open spec fn tokens_view(v: Seq<SpannedToken>) -> Tokens {
    v.map_values(|t: SpannedToken| (t.0@, t.1))
}

/// Why lexing stopped.
#[derive(Clone, Copy, Debug, PartialEq, Eq, Hash, Structural)]
pub enum LexErrorKind {
    /// A character that starts no token.
    UnrecognizedChar(char),
    /// A `"` with no closing `"` after it.
    UnterminatedString,
}

/// A lexical error; the span is that of the offending character, or of the
/// opening quote of an unterminated string.
#[derive(Clone, Copy, Debug, PartialEq, Eq, Hash, Structural)]
pub struct LexError {
    pub kind: LexErrorKind,
    pub span: Span,
}

/// The character classes that a run of characters is made of.
#[derive(Clone, Copy, Debug, PartialEq, Eq, Structural)]
pub enum CharClass {
    Space,
    Digit,
    IdentContinue,
    StringBody,
}

/// Unicode's `White_Space` code points.
pub open spec fn is_space(c: char) -> bool {
    ||| '\u{9}' <= c <= '\u{d}'
    ||| c == ' '
    ||| c == '\u{85}'
    ||| c == '\u{a0}'
    ||| c == '\u{1680}'
    ||| '\u{2000}' <= c <= '\u{200a}'
    ||| c == '\u{2028}'
    ||| c == '\u{2029}'
    ||| c == '\u{202f}'
    ||| c == '\u{205f}'
    ||| c == '\u{3000}'
}

pub open spec fn is_digit(c: char) -> bool {
    '0' <= c <= '9'
}

pub open spec fn is_ident_start(c: char) -> bool {
    ('a' <= c <= 'z') || ('A' <= c <= 'Z') || c == '_'
}

pub open spec fn in_class(k: CharClass, c: char) -> bool {
    match k {
        CharClass::Space => is_space(c),
        CharClass::Digit => is_digit(c),
        CharClass::IdentContinue => is_ident_start(c) || is_digit(c),
        CharClass::StringBody => c != '"',
    }
}

/// The end of the longest run of characters of class `k` that starts at `pos`.
pub open spec fn run_end(s: Seq<char>, pos: int, k: CharClass) -> int
    decreases s.len() - pos,
{
    if 0 <= pos < s.len() && in_class(k, s[pos]) {
        run_end(s, pos + 1, k)
    } else {
        pos
    }
}

pub proof fn lemma_run_end_bounds(s: Seq<char>, pos: int, k: CharClass)
    requires
        0 <= pos <= s.len(),
    ensures
        pos <= run_end(s, pos, k) <= s.len(),
    decreases s.len() - pos,
{
    if pos < s.len() && in_class(k, s[pos]) {
        lemma_run_end_bounds(s, pos + 1, k);
    }
}

/// The text of the keyword that opens a definition.
pub open spec fn define_text() -> Seq<char> {
    seq!['d', 'e', 'f', 'i', 'n', 'e']
}

/// The end of the numeral that starts at `pos`: a single `0` or a nonzero
/// digit with the digits after it, then a `.` with digits if both are there.
pub open spec fn number_end(s: Seq<char>, pos: int) -> int {
    let whole = if s[pos] == '0' {
        pos + 1
    } else {
        run_end(s, pos + 1, CharClass::Digit)
    };
    if whole + 1 < s.len() && s[whole] == '.' && is_digit(s[whole + 1]) {
        run_end(s, whole + 2, CharClass::Digit)
    } else {
        whole
    }
}

/// Whether `s` holds `c` at `pos`.
pub open spec fn has_char(s: Seq<char>, pos: int, c: char) -> bool {
    0 <= pos < s.len() && s[pos] == c
}

/// The token that starts at `pos`, with the offset just past it. A
/// two-character operator wins over its one-character prefix, and a run of
/// identifier characters is taken whole before it is compared with the
/// keyword.
pub open spec fn token_at(s: Seq<char>, pos: int) -> Result<(TokenView, int), LexErrorKind>
    recommends
        0 <= pos < s.len(),
{
    let c = s[pos];
    if is_digit(c) {
        let end = number_end(s, pos);
        Ok((TokenView::Num(s.subrange(pos, end)), end))
    } else if c == '"' {
        let close = run_end(s, pos + 1, CharClass::StringBody);
        if close < s.len() {
            Ok((TokenView::Str(s.subrange(pos + 1, close)), close + 1))
        } else {
            Err(LexErrorKind::UnterminatedString)
        }
    } else if c == '-' {
        Ok((TokenView::Neg, pos + 1))
    } else if c == '+' {
        Ok((TokenView::Add, pos + 1))
    } else if c == '*' {
        Ok((TokenView::Mult, pos + 1))
    } else if c == '/' {
        Ok((TokenView::Div, pos + 1))
    } else if c == '(' {
        Ok((TokenView::LParen, pos + 1))
    } else if c == ')' {
        Ok((TokenView::RParen, pos + 1))
    } else if c == '<' {
        if has_char(s, pos + 1, '=') {
            Ok((TokenView::Leq, pos + 2))
        } else {
            Ok((TokenView::Le, pos + 1))
        }
    } else if c == '>' {
        if has_char(s, pos + 1, '=') {
            Ok((TokenView::Geq, pos + 2))
        } else {
            Ok((TokenView::Ge, pos + 1))
        }
    } else if c == '=' && has_char(s, pos + 1, '=') {
        Ok((TokenView::Eq, pos + 2))
    } else if c == '#' && has_char(s, pos + 1, 't') {
        Ok((TokenView::Bool(true), pos + 2))
    } else if c == '#' && has_char(s, pos + 1, 'f') {
        Ok((TokenView::Bool(false), pos + 2))
    } else if is_ident_start(c) {
        let end = run_end(s, pos + 1, CharClass::IdentContinue);
        let text = s.subrange(pos, end);
        if text == define_text() {
            Ok((TokenView::Define, end))
        } else {
            Ok((TokenView::Ident(text), end))
        }
    } else {
        Err(LexErrorKind::UnrecognizedChar(c))
    }
}

/// A token is never empty and never runs past the text.
pub proof fn lemma_token_at_bounds(s: Seq<char>, pos: int)
    requires
        0 <= pos < s.len(),
    ensures
        token_at(s, pos) matches Ok((_, end)) ==> pos < end <= s.len(),
{
    let c = s[pos];
    if is_digit(c) {
        let whole = if c == '0' {
            pos + 1
        } else {
            run_end(s, pos + 1, CharClass::Digit)
        };
        lemma_run_end_bounds(s, pos + 1, CharClass::Digit);
        if whole + 1 < s.len() {
            lemma_run_end_bounds(s, whole + 2, CharClass::Digit);
        }
    } else if c == '"' {
        lemma_run_end_bounds(s, pos + 1, CharClass::StringBody);
    } else if is_ident_start(c) {
        lemma_run_end_bounds(s, pos + 1, CharClass::IdentContinue);
    }
}

pub open spec fn span_of(start: int, end: int) -> Span {
    Span { start: start as usize, end: end as usize }
}

/// The tokens of `s` from `pos` on, or the first lexical error. Whitespace
/// separates tokens and is dropped.
pub open spec fn lex_from(s: Seq<char>, pos: int) -> Result<Tokens, LexError>
    decreases s.len() - pos,
{
    let start = run_end(s, pos, CharClass::Space);
    if 0 <= pos <= start < s.len() {
        match token_at(s, start) {
            Err(kind) => Err(LexError { kind, span: span_of(start, start + 1) }),
            Ok((tok, end)) => {
                proof {
                    lemma_token_at_bounds(s, start);
                }
                match lex_from(s, end) {
                    Err(e) => Err(e),
                    Ok(rest) => Ok(seq![(tok, span_of(start, end))] + rest),
                }
            },
        }
    } else {
        Ok(Seq::empty())
    }
}

/// What lexing a whole text gives.
pub open spec fn lex_spec(s: Seq<char>) -> Result<Tokens, LexError> {
    lex_from(s, 0)
}

pub open spec fn lex_result_view(r: Result<Vec<SpannedToken>, LexError>) -> Result<
    Tokens,
    LexError,
> {
    match r {
        Ok(v) => Ok(tokens_view(v@)),
        Err(e) => Err(e),
    }
}

/// `String::push` appends the given character to the end of the string.
pub assume_specification[ std::string::String::push ](s: &mut std::string::String, ch: char)
    ensures
        final(s)@ == old(s)@.push(ch),
;

/// The characters of `s` in order.
pub fn to_chars(s: &str) -> (r: Vec<char>)
    ensures
        r@ == s@,
{
    let mut v: Vec<char> = Vec::new();
    for c in it: s.chars()
        invariant
            it.seq() == s@,
            v@ == it.seq().take(it.index() as int),
    {
        v.push(c);
        assert(v@ =~= it.seq().take(it.index() + 1));
    }
    assert(v@ =~= s@);
    v
}

/// The text between two offsets, as a shared string.
pub fn slice_text(chars: &Vec<char>, from: usize, to: usize) -> (r: Arc<String>)
    requires
        from <= to <= chars.len(),
    ensures
        r@ == chars@.subrange(from as int, to as int),
{
    let mut text = String::new();
    let mut i: usize = from;
    while i < to
        invariant
            from <= i <= to <= chars.len(),
            text@ == chars@.subrange(from as int, i as int),
        decreases to - i,
    {
        text.push(chars[i]);
        i += 1;
        assert(text@ =~= chars@.subrange(from as int, i as int));
    }
    Arc::new(text)
}

pub fn char_in_class(k: CharClass, c: char) -> (r: bool)
    ensures
        r == in_class(k, c),
{
    match k {
        CharClass::Space => {
            ('\u{9}' <= c && c <= '\u{d}') || c == ' ' || c == '\u{85}' || c == '\u{a0}' || c
                == '\u{1680}' || ('\u{2000}' <= c && c <= '\u{200a}') || c == '\u{2028}' || c
                == '\u{2029}' || c == '\u{202f}' || c == '\u{205f}' || c == '\u{3000}'
        },
        CharClass::Digit => '0' <= c && c <= '9',
        CharClass::IdentContinue => {
            ('a' <= c && c <= 'z') || ('A' <= c && c <= 'Z') || c == '_' || ('0' <= c && c <= '9')
        },
        CharClass::StringBody => c != '"',
    }
}

/// Walks over the run of class `k` that starts at `pos`.
pub fn scan_run(chars: &Vec<char>, pos: usize, k: CharClass) -> (r: usize)
    requires
        pos <= chars.len(),
    ensures
        r == run_end(chars@, pos as int, k),
        pos <= r <= chars.len(),
{
    let mut i: usize = pos;
    while i < chars.len() && char_in_class(k, chars[i])
        invariant
            pos <= i <= chars.len(),
            run_end(chars@, pos as int, k) == run_end(chars@, i as int, k),
        decreases chars.len() - i,
    {
        i += 1;
    }
    i
}

fn char_at_is(chars: &Vec<char>, pos: usize, c: char) -> (r: bool)
    ensures
        r == has_char(chars@, pos as int, c),
{
    pos < chars.len() && chars[pos] == c
}

fn is_define(chars: &Vec<char>, from: usize, to: usize) -> (r: bool)
    requires
        from <= to <= chars.len(),
    ensures
        r == (chars@.subrange(from as int, to as int) == define_text()),
{
    let ghost text = chars@.subrange(from as int, to as int);
    if to - from != 6 {
        assert(text.len() != define_text().len());
        false
    } else {
        let r = chars[from] == 'd' && chars[from + 1] == 'e' && chars[from + 2] == 'f' && chars[from
            + 3] == 'i' && chars[from + 4] == 'n' && chars[from + 5] == 'e';
        proof {
            if r {
                assert(text =~= define_text());
            } else {
                assert(text[0] == chars@[from as int]);
                assert(text[1] == chars@[from + 1]);
                assert(text[2] == chars@[from + 2]);
                assert(text[3] == chars@[from + 3]);
                assert(text[4] == chars@[from + 4]);
                assert(text[5] == chars@[from + 5]);
            }
        }
        r
    }
}

fn scan_number(chars: &Vec<char>, pos: usize) -> (r: usize)
    requires
        pos < chars.len(),
        is_digit(chars@[pos as int]),
    ensures
        r == number_end(chars@, pos as int),
        pos < r <= chars.len(),
{
    let whole = if chars[pos] == '0' {
        pos + 1
    } else {
        scan_run(chars, pos + 1, CharClass::Digit)
    };
    if whole < chars.len() && chars[whole] == '.' && whole + 1 < chars.len() && char_in_class(
        CharClass::Digit,
        chars[whole + 1],
    ) {
        scan_run(chars, whole + 2, CharClass::Digit)
    } else {
        whole
    }
}

/// Reads the token that starts at `pos`.
pub fn read_token(chars: &Vec<char>, pos: usize) -> (r: Result<(Token, usize), LexErrorKind>)
    requires
        pos < chars.len(),
    ensures
        match r {
            Ok((tok, end)) => token_at(chars@, pos as int) == Ok::<_, LexErrorKind>(
                (tok@, end as int),
            ) && pos < end <= chars.len(),
            Err(kind) => token_at(chars@, pos as int) == Err::<(TokenView, int), _>(kind),
        },
{
    let c = chars[pos];
    if char_in_class(CharClass::Digit, c) {
        let end = scan_number(chars, pos);
        Ok((Token::Num(slice_text(chars, pos, end)), end))
    } else if c == '"' {
        let close = scan_run(chars, pos + 1, CharClass::StringBody);
        if close < chars.len() {
            Ok((Token::Str(slice_text(chars, pos + 1, close)), close + 1))
        } else {
            Err(LexErrorKind::UnterminatedString)
        }
    } else if c == '-' {
        Ok((Token::Neg, pos + 1))
    } else if c == '+' {
        Ok((Token::Add, pos + 1))
    } else if c == '*' {
        Ok((Token::Mult, pos + 1))
    } else if c == '/' {
        Ok((Token::Div, pos + 1))
    } else if c == '(' {
        Ok((Token::LParen, pos + 1))
    } else if c == ')' {
        Ok((Token::RParen, pos + 1))
    } else if c == '<' {
        if char_at_is(chars, pos + 1, '=') {
            Ok((Token::Leq, pos + 2))
        } else {
            Ok((Token::Le, pos + 1))
        }
    } else if c == '>' {
        if char_at_is(chars, pos + 1, '=') {
            Ok((Token::Geq, pos + 2))
        } else {
            Ok((Token::Ge, pos + 1))
        }
    } else if c == '=' && char_at_is(chars, pos + 1, '=') {
        Ok((Token::Eq, pos + 2))
    } else if c == '#' && char_at_is(chars, pos + 1, 't') {
        Ok((Token::Bool(true), pos + 2))
    } else if c == '#' && char_at_is(chars, pos + 1, 'f') {
        Ok((Token::Bool(false), pos + 2))
    } else if ('a' <= c && c <= 'z') || ('A' <= c && c <= 'Z') || c == '_' {
        let end = scan_run(chars, pos + 1, CharClass::IdentContinue);
        if is_define(chars, pos, end) {
            Ok((Token::Define, end))
        } else {
            Ok((Token::Ident(slice_text(chars, pos, end)), end))
        }
    } else {
        Err(LexErrorKind::UnrecognizedChar(c))
    }
}

/// Lexes a sequence of characters.
pub fn lex_chars(chars: &Vec<char>) -> (r: Result<Vec<SpannedToken>, LexError>)
    ensures
        lex_result_view(r) == lex_spec(chars@),
{
    let mut out: Vec<SpannedToken> = Vec::new();
    let mut pos: usize = 0;
    loop
        invariant
            pos <= chars.len(),
            lex_spec(chars@) == match lex_from(chars@, pos as int) {
                Ok(rest) => Ok::<Tokens, LexError>(tokens_view(out@) + rest),
                Err(e) => Err(e),
            },
        decreases chars.len() - pos,
    {
        let start = scan_run(chars, pos, CharClass::Space);
        if start >= chars.len() {
            assert(tokens_view(out@) + Seq::empty() =~= tokens_view(out@));
            return Ok(out);
        }
        match read_token(chars, start) {
            Err(kind) => {
                return Err(LexError { kind, span: Span::new(start, start + 1) });
            },
            Ok((tok, end)) => {
                let ghost before = tokens_view(out@);
                let ghost item = (tok@, span_of(start as int, end as int));
                out.push((tok, Span::new(start, end)));
                proof {
                    assert(tokens_view(out@) =~= before.push(item));
                    match lex_from(chars@, end as int) {
                        Ok(rest) => {
                            assert(before + (seq![item] + rest) =~= before.push(item) + rest);
                        },
                        Err(_) => {},
                    }
                }
                pos = end;
            },
        }
    }
}

/// Lexes a source text: the tokens in order, each with the span of its
/// characters, or the first lexical error.
pub fn lex(src: &str) -> (r: Result<Vec<SpannedToken>, LexError>)
    ensures
        lex_result_view(r) == lex_spec(src@),
{
    let chars = to_chars(src);
    lex_chars(&chars)
}

} // verus!
