//! The parser: a recursive descent over the tokens that builds spanned
//! trees and keeps going after a diagnostic.

use crate::common::{share, Span, Spanned};
use crate::parser::ast::{
    all_functions, lemma_names_view_push, lemma_nodes_view_push, names_view, node_view, nodes_view,
    LispModule, LispModuleX, LispVal, LispValX, Node,
};
use crate::parser::grammar_laws::lemma_parsed_is_module;
use crate::parser::grammar::{
    err_contract_position, err_unclosed, err_unexpected, expr_starts, found_at, is_operator,
    lexical_error, operator_head, opens_definition, parse_define, parse_expr, parse_forms,
    parse_items, parse_params, parse_postcondition, parse_preconditions, parse_spec,
    parse_tokens_spec, parse_top, resume_at, skip_to_top, span_at, starts_expr, Input, Outcome,
    ParseErrorKindView, ParseErrorView, TokenKind,
};
use crate::parser::lexer::{
    lex_chars, to_chars, tokens_view, LexErrorKind, SpannedToken, Token, TokenView,
};
use crate::semantic::diagnostic::{Category, Severity};
use std::sync::Arc;
use vstd::prelude::*;

verus! {

/// What went wrong while lexing or parsing.
#[derive(Clone, Debug, PartialEq, Eq)]
pub enum ParseErrorKind {
    Lexical(LexErrorKind),
    /// A `(` at `opening` that is still open at the end of input (`found`
    /// is `None`) or at a token that cannot continue its form.
    UnclosedDelimiter { opening: Span, found: Option<Token> },
    /// A token, or the end of input, where only the `expected` kinds fit.
    UnexpectedToken { found: Option<Token>, expected: Vec<TokenKind> },
    Custom(String),
}

/// A diagnostic of the lexer or the parser, with the span it points at.
#[derive(Clone, Debug, PartialEq, Eq)]
pub struct ParseError {
    pub kind: ParseErrorKind,
    pub span: Span,
}

pub open spec fn found_view(t: Option<Token>) -> Option<TokenView> {
    match t {
        Some(t) => Some(t@),
        None => None,
    }
}

impl View for ParseErrorKind {
    type V = ParseErrorKindView;

    open spec fn view(&self) -> ParseErrorKindView {
        match *self {
            ParseErrorKind::Lexical(k) => ParseErrorKindView::Lexical(k),
            ParseErrorKind::UnclosedDelimiter { opening, found } => {
                ParseErrorKindView::UnclosedDelimiter { opening, found: found_view(found) }
            },
            ParseErrorKind::UnexpectedToken { found, expected } => {
                ParseErrorKindView::UnexpectedToken { found: found_view(found), expected: expected@ }
            },
            ParseErrorKind::Custom(m) => ParseErrorKindView::Custom(m@),
        }
    }
}

impl View for ParseError {
    type V = ParseErrorView;

    open spec fn view(&self) -> ParseErrorView {
        ParseErrorView { kind: self.kind@, span: self.span }
    }
}

/// What a parse diagnostic says, in words.
pub open spec fn parse_message(k: ParseErrorKindView) -> Seq<char> {
    match k {
        ParseErrorKindView::Lexical(LexErrorKind::UnrecognizedChar(_)) => "unrecognized character"@,
        ParseErrorKindView::Lexical(LexErrorKind::UnterminatedString) => "unterminated string"@,
        ParseErrorKindView::UnclosedDelimiter { .. } => "unclosed delimiter"@,
        ParseErrorKindView::UnexpectedToken { found, .. } => if found is Some {
            "unexpected token"@
        } else {
            "unexpected end of input"@
        },
        ParseErrorKindView::Custom(m) => m,
    }
}

/// The class of a parse diagnostic.
pub open spec fn parse_category(k: ParseErrorKindView) -> Category {
    match k {
        ParseErrorKindView::Lexical(_) => Category::Lexical,
        _ => Category::Syntactic,
    }
}

impl ParseError {
    /// What the diagnostic says, in words.
    pub fn message(&self) -> (r: String)
        ensures
            r@ == parse_message(self@.kind),
    {
        match &self.kind {
            ParseErrorKind::Lexical(LexErrorKind::UnrecognizedChar(_)) => String::from_str(
                "unrecognized character",
            ),
            ParseErrorKind::Lexical(LexErrorKind::UnterminatedString) => String::from_str(
                "unterminated string",
            ),
            ParseErrorKind::UnclosedDelimiter { .. } => String::from_str("unclosed delimiter"),
            ParseErrorKind::UnexpectedToken { found, .. } => if found.is_some() {
                String::from_str("unexpected token")
            } else {
                String::from_str("unexpected end of input")
            },
            ParseErrorKind::Custom(m) => String::from_str(m.as_str()),
        }
    }

    /// The class of the diagnostic: lexical or syntactic.
    pub fn category(&self) -> (r: Category)
        ensures
            r == parse_category(self@.kind),
    {
        match &self.kind {
            ParseErrorKind::Lexical(_) => Category::Lexical,
            _ => Category::Syntactic,
        }
    }

    /// Lexing and parsing diagnostics never end a run.
    pub fn severity(&self) -> (r: Severity)
        ensures
            r == Severity::Recoverable,
    {
        Severity::Recoverable
    }
}

pub open spec fn errors_view(v: Seq<ParseError>) -> Seq<ParseErrorView> {
    v.map_values(|e: ParseError| e@)
}

/// The tokens of one source text, ready for parsing.
pub struct TokenStream {
    pub tokens: Vec<SpannedToken>,
    /// The span that stands for the end of input.
    pub eoi: Span,
    /// The name of the source text.
    pub source: Arc<String>,
}

impl View for TokenStream {
    type V = Input;

    open spec fn view(&self) -> Input {
        Input { tokens: tokens_view(self.tokens@), eoi: self.eoi, source: self.source@ }
    }
}

pub open spec fn expr_step_view(r: Result<(Spanned<LispVal>, usize), ParseError>) -> Result<
    (Node, int),
    ParseErrorView,
> {
    match r {
        Ok((n, next)) => Ok((node_view(n), next as int)),
        Err(e) => Err(e@),
    }
}

pub open spec fn items_step_view(r: Result<(Vec<Spanned<LispVal>>, usize), ParseError>) -> Result<
    (Seq<Node>, int),
    ParseErrorView,
> {
    match r {
        Ok((v, next)) => Ok((nodes_view(v@), next as int)),
        Err(e) => Err(e@),
    }
}

pub open spec fn params_step_view(r: Result<(Vec<Arc<String>>, usize), ParseError>) -> Result<
    (Seq<Seq<char>>, int),
    ParseErrorView,
> {
    match r {
        Ok((v, next)) => Ok((names_view(v@), next as int)),
        Err(e) => Err(e@),
    }
}

pub open spec fn clause_step_view(
    r: Result<(Option<Arc<Spanned<LispVal>>>, usize), ParseError>,
) -> Result<(Option<Box<Node>>, int), ParseErrorView> {
    match r {
        Ok((Some(n), next)) => Ok((Some(Box::new(node_view(*n))), next as int)),
        Ok((None, next)) => Ok((None, next as int)),
        Err(e) => Err(e@),
    }
}

/// A copy of a token that shares its text.
pub fn copy_token(t: &Token) -> (r: Token)
    ensures
        r@ == t@,
{
    match t {
        Token::Neg => Token::Neg,
        Token::Add => Token::Add,
        Token::Mult => Token::Mult,
        Token::Div => Token::Div,
        Token::Bool(b) => Token::Bool(*b),
        Token::Num(s) => Token::Num(share(s)),
        Token::Str(s) => Token::Str(share(s)),
        Token::Define => Token::Define,
        Token::LParen => Token::LParen,
        Token::RParen => Token::RParen,
        Token::Ident(s) => Token::Ident(share(s)),
        Token::Le => Token::Le,
        Token::Leq => Token::Leq,
        Token::Ge => Token::Ge,
        Token::Geq => Token::Geq,
        Token::Eq => Token::Eq,
    }
}

/// Whether the token is an arithmetic or comparison operator.
pub fn token_is_operator(t: &Token) -> (r: bool)
    ensures
        r == is_operator(t@),
{
    match t {
        Token::Neg | Token::Add | Token::Mult | Token::Div | Token::Le | Token::Leq | Token::Ge
        | Token::Geq | Token::Eq => true,
        _ => false,
    }
}

/// Whether an expression can start with this token.
pub fn token_starts_expr(t: &Token) -> (r: bool)
    ensures
        r == starts_expr(t@),
{
    match t {
        Token::LParen | Token::Ident(_) | Token::Num(_) | Token::Str(_) | Token::Bool(_) => true,
        _ => false,
    }
}

/// Whether the token is the identifier `word`.
pub fn token_is_word(t: &Token, word: &str) -> (r: bool)
    ensures
        r == (t@ == TokenView::Ident(word@)),
{
    match t {
        Token::Ident(name) => {
            let w = String::from_str(word);
            **name == w
        },
        _ => false,
    }
}

impl TokenStream {
    pub fn found(&self, pos: usize) -> (r: Option<Token>)
        ensures
            found_view(r) == found_at(self@, pos as int),
    {
        if pos < self.tokens.len() {
            Some(copy_token(&self.tokens[pos].0))
        } else {
            None
        }
    }

    pub fn span_at(&self, pos: usize) -> (r: Span)
        ensures
            r == span_at(self@, pos as int),
    {
        if pos < self.tokens.len() {
            self.tokens[pos].1
        } else {
            self.eoi
        }
    }

    /// The diagnostic for the token at `pos` where only `expected` fits.
    pub fn unexpected(&self, pos: usize, expected: Vec<TokenKind>) -> (r: ParseError)
        ensures
            r@ == err_unexpected(self@, pos as int, expected@),
    {
        ParseError {
            kind: ParseErrorKind::UnexpectedToken { found: self.found(pos), expected },
            span: self.span_at(pos),
        }
    }

    /// The diagnostic for the `(` at `opening` that the token at `pos`
    /// leaves open.
    pub fn unclosed(&self, pos: usize, opening: Span) -> (r: ParseError)
        ensures
            r@ == err_unclosed(self@, pos as int, opening),
    {
        ParseError {
            kind: ParseErrorKind::UnclosedDelimiter { opening, found: self.found(pos) },
            span: self.span_at(pos),
        }
    }

    fn contract_position(&self, pos: usize) -> (r: ParseError)
        ensures
            r@ == err_contract_position(self@, pos as int),
    {
        ParseError {
            kind: ParseErrorKind::Custom(
                String::from_str("a contract clause must come before the body"),
            ),
            span: self.span_at(pos),
        }
    }

    fn expected_expr(&self, pos: usize) -> (r: ParseError)
        ensures
            r@ == err_unexpected(self@, pos as int, expr_starts()),
    {
        let expected = vec![
            TokenKind::LParen,
            TokenKind::Ident,
            TokenKind::Num,
            TokenKind::Str,
            TokenKind::Bool,
        ];
        assert(expected@ =~= expr_starts());
        self.unexpected(pos, expected)
    }

    fn make(&self, x: LispValX, span: Span) -> (r: Spanned<LispVal>)
        ensures
            r.source@ == self.source@,
            *r.x == x,
            r.span == span,
    {
        Spanned { source: share(&self.source), x: Arc::new(x), span }
    }

    /// Whether the tokens at `pos` are `(` and `define`.
    pub fn opens_definition(&self, pos: usize) -> (r: bool)
        ensures
            r == opens_definition(self@, pos as int),
    {
        pos < self.tokens.len() && self.tokens.len() - pos > 1 && matches!(
            self.tokens[pos].0,
            Token::LParen
        ) && matches!(self.tokens[pos + 1].0, Token::Define)
    }

    /// Reads the parameter names up to the `)` of the header.
    pub fn parse_params(&self, pos: usize, header: Span, acc: Vec<Arc<String>>) -> (r: Result<
        (Vec<Arc<String>>, usize),
        ParseError,
    >)
        requires
            pos <= self.tokens.len(),
        ensures
            params_step_view(r) == parse_params(self@, pos as int, header, names_view(acc@)),
            r matches Ok((_, close)) ==> pos <= close < self.tokens.len(),
    {
        let mut names = acc;
        let mut p: usize = pos;
        loop
            invariant
                pos <= p <= self.tokens.len(),
                parse_params(self@, pos as int, header, names_view(acc@)) == parse_params(
                    self@,
                    p as int,
                    header,
                    names_view(names@),
                ),
            decreases self.tokens.len() - p,
        {
            if p >= self.tokens.len() {
                return Err(self.unclosed(p, header));
            }
            match &self.tokens[p].0 {
                Token::RParen => {
                    return Ok((names, p));
                },
                Token::Ident(name) => {
                    proof {
                        lemma_names_view_push(names@, *name);
                    }
                    names.push(share(name));
                    p += 1;
                },
                _ => {
                    let expected = vec![TokenKind::Ident, TokenKind::RParen];
                    assert(expected@ =~= seq![TokenKind::Ident, TokenKind::RParen]);
                    return Err(self.unexpected(p, expected));
                },
            }
        }
    }

    /// Parses the expression that starts at `pos`.
    pub fn parse_expr(&self, pos: usize) -> (r: Result<(Spanned<LispVal>, usize), ParseError>)
        ensures
            expr_step_view(r) == parse_expr(self@, pos as int),
            r matches Ok((_, next)) ==> pos < next <= self.tokens.len(),
        decreases self.tokens.len() - pos, 2int,
    {
        if pos >= self.tokens.len() {
            return Err(self.expected_expr(pos));
        }
        let span = self.tokens[pos].1;
        match &self.tokens[pos].0 {
            Token::LParen => {
                if self.opens_definition(pos) {
                    self.parse_define(pos)
                } else {
                    let mut head: Vec<Spanned<LispVal>> = Vec::new();
                    let mut start = pos + 1;
                    if start < self.tokens.len() && token_is_operator(&self.tokens[start].0) {
                        let name = Arc::new(self.tokens[start].0.to_text());
                        head.push(self.make(LispValX::Atom(name), self.tokens[start].1));
                        start = start + 1;
                    }
                    assert(nodes_view(head@) =~= operator_head(self@, pos as int));
                    match self.parse_items(start, span, false, head) {
                        Err(e) => Err(e),
                        Ok((items, close)) => {
                            let whole = Span::join(span, self.span_at(close));
                            Ok((self.make(LispValX::List(Arc::new(items)), whole), close + 1))
                        },
                    }
                }
            },
            Token::Num(t) => Ok((self.make(LispValX::Int(share(t)), span), pos + 1)),
            Token::Str(t) => Ok((self.make(LispValX::String(share(t)), span), pos + 1)),
            Token::Bool(b) => Ok((self.make(LispValX::Bool(*b), span), pos + 1)),
            Token::Ident(t) => Ok((self.make(LispValX::Atom(share(t)), span), pos + 1)),
            _ => Err(self.expected_expr(pos)),
        }
    }

    /// Parses the expressions up to the `)` of the form opened at `opening`.
    pub fn parse_items(
        &self,
        pos: usize,
        opening: Span,
        in_body: bool,
        acc: Vec<Spanned<LispVal>>,
    ) -> (r: Result<(Vec<Spanned<LispVal>>, usize), ParseError>)
        requires
            pos <= self.tokens.len(),
        ensures
            items_step_view(r) == parse_items(
                self@,
                pos as int,
                opening,
                in_body,
                nodes_view(acc@),
            ),
            r matches Ok((_, close)) ==> pos <= close < self.tokens.len(),
        decreases self.tokens.len() - pos, 3int,
    {
        let mut items = acc;
        let mut p: usize = pos;
        loop
            invariant
                pos <= p <= self.tokens.len(),
                parse_items(self@, pos as int, opening, in_body, nodes_view(acc@)) == parse_items(
                    self@,
                    p as int,
                    opening,
                    in_body,
                    nodes_view(items@),
                ),
            decreases self.tokens.len() - p,
        {
            if p >= self.tokens.len() {
                return Err(self.unclosed(p, opening));
            }
            let tok = &self.tokens[p].0;
            if matches!(tok, Token::RParen) {
                return Ok((items, p));
            }
            if in_body && (token_is_word(tok, "requires") || token_is_word(tok, "ensures")) {
                return Err(self.contract_position(p));
            }
            if !token_starts_expr(tok) {
                return Err(self.unclosed(p, opening));
            }
            match self.parse_expr(p) {
                Err(e) => {
                    return Err(e);
                },
                Ok((item, next)) => {
                    proof {
                        lemma_nodes_view_push(items@, item);
                    }
                    items.push(item);
                    p = next;
                },
            }
        }
    }

    /// Parses the `requires` clauses that start at `pos`.
    pub fn parse_preconditions(&self, pos: usize, opening: Span) -> (r: Result<
        (Vec<Spanned<LispVal>>, usize),
        ParseError,
    >)
        requires
            pos <= self.tokens.len(),
        ensures
            items_step_view(r) == parse_preconditions(
                self@,
                pos as int,
                opening,
                Seq::<Node>::empty(),
            ),
            r matches Ok((_, next)) ==> pos <= next <= self.tokens.len(),
        decreases self.tokens.len() - pos, 3int,
    {
        let mut acc: Vec<Spanned<LispVal>> = Vec::new();
        let mut p: usize = pos;
        assert(nodes_view(acc@) =~= Seq::<Node>::empty());
        loop
            invariant
                pos <= p <= self.tokens.len(),
                parse_preconditions(self@, pos as int, opening, Seq::<Node>::empty())
                    == parse_preconditions(self@, p as int, opening, nodes_view(acc@)),
            decreases self.tokens.len() - p,
        {
            if p < self.tokens.len() && token_is_word(&self.tokens[p].0, "requires") {
                if p + 1 >= self.tokens.len() {
                    return Err(self.unclosed(p + 1, opening));
                }
                match self.parse_expr(p + 1) {
                    Err(e) => {
                        return Err(e);
                    },
                    Ok((clause, next)) => {
                        proof {
                            lemma_nodes_view_push(acc@, clause);
                        }
                        acc.push(clause);
                        p = next;
                    },
                }
            } else {
                return Ok((acc, p));
            }
        }
    }

    /// Parses the `ensures` clause at `pos`, if there is one.
    pub fn parse_postcondition(&self, pos: usize, opening: Span) -> (r: Result<
        (Option<Arc<Spanned<LispVal>>>, usize),
        ParseError,
    >)
        requires
            pos <= self.tokens.len(),
        ensures
            clause_step_view(r) == parse_postcondition(self@, pos as int, opening),
            r matches Ok((_, next)) ==> pos <= next <= self.tokens.len(),
        decreases self.tokens.len() - pos, 3int,
    {
        if pos < self.tokens.len() && token_is_word(&self.tokens[pos].0, "ensures") {
            if pos + 1 >= self.tokens.len() {
                return Err(self.unclosed(pos + 1, opening));
            }
            match self.parse_expr(pos + 1) {
                Err(e) => Err(e),
                Ok((clause, next)) => Ok((Some(Arc::new(clause)), next)),
            }
        } else {
            Ok((None, pos))
        }
    }

    /// Parses the definition whose `(` is at `pos`.
    pub fn parse_define(&self, pos: usize) -> (r: Result<(Spanned<LispVal>, usize), ParseError>)
        requires
            opens_definition(self@, pos as int),
        ensures
            expr_step_view(r) == parse_define(self@, pos as int),
            r matches Ok((_, next)) ==> pos < next <= self.tokens.len(),
        decreases self.tokens.len() - pos, 1int,
    {
        let opening = self.tokens[pos].1;
        let len = self.tokens.len();
        if len - pos <= 2 {
            return Err(self.unclosed(pos + 2, opening));
        }
        if !matches!(self.tokens[pos + 2].0, Token::LParen) {
            let expected = vec![TokenKind::LParen];
            assert(expected@ =~= seq![TokenKind::LParen]);
            return Err(self.unexpected(pos + 2, expected));
        }
        let header = self.tokens[pos + 2].1;
        if len - pos <= 3 {
            return Err(self.unclosed(pos + 3, header));
        }
        let name = match &self.tokens[pos + 3].0 {
            Token::Ident(name) => share(name),
            _ => {
                let expected = vec![TokenKind::Ident];
                assert(expected@ =~= seq![TokenKind::Ident]);
                return Err(self.unexpected(pos + 3, expected));
            },
        };
        let empty: Vec<Arc<String>> = Vec::new();
        assert(names_view(empty@) =~= Seq::<Seq<char>>::empty());
        let (params, close) = match self.parse_params(pos + 4, header, empty) {
            Err(e) => {
                return Err(e);
            },
            Ok(found) => found,
        };
        let (pre, pre_end) = match self.parse_preconditions(close + 1, opening) {
            Err(e) => {
                return Err(e);
            },
            Ok(found) => found,
        };
        let (post, post_end) = match self.parse_postcondition(pre_end, opening) {
            Err(e) => {
                return Err(e);
            },
            Ok(found) => found,
        };
        let none: Vec<Spanned<LispVal>> = Vec::new();
        assert(nodes_view(none@) =~= Seq::<Node>::empty());
        let (body, end) = match self.parse_items(post_end, opening, true, none) {
            Err(e) => {
                return Err(e);
            },
            Ok(found) => found,
        };
        let preconditions = if pre.len() == 0 {
            None
        } else {
            Some(Arc::new(pre))
        };
        let whole = Span::join(opening, self.span_at(end));
        let f = LispValX::Function {
            name,
            params,
            preconditions,
            postcondition: post,
            body: Arc::new(body),
        };
        Ok((self.make(f, whole), end + 1))
    }

    /// Parses the top-level form at `pos`, which must be a definition.
    pub fn parse_top(&self, pos: usize) -> (r: Result<(Spanned<LispVal>, usize), ParseError>)
        ensures
            expr_step_view(r) == parse_top(self@, pos as int),
            r matches Ok((_, next)) ==> pos < next <= self.tokens.len(),
    {
        if pos >= self.tokens.len() || !matches!(self.tokens[pos].0, Token::LParen) {
            let expected = vec![TokenKind::LParen];
            assert(expected@ =~= seq![TokenKind::LParen]);
            return Err(self.unexpected(pos, expected));
        }
        if self.tokens.len() - pos <= 1 {
            return Err(self.unclosed(pos + 1, self.tokens[pos].1));
        }
        if !matches!(self.tokens[pos + 1].0, Token::Define) {
            let expected = vec![TokenKind::Define];
            assert(expected@ =~= seq![TokenKind::Define]);
            return Err(self.unexpected(pos + 1, expected));
        }
        self.parse_define(pos)
    }

    /// Where parsing resumes after a diagnostic in the form at `pos`.
    pub fn resume_at(&self, pos: usize) -> (r: usize)
        requires
            pos < self.tokens.len(),
        ensures
            r == resume_at(self@.tokens, pos as int),
            pos < r <= self.tokens.len(),
    {
        let mut depth: usize = if matches!(self.tokens[pos].0, Token::LParen) {
            1
        } else {
            0
        };
        let mut p: usize = pos + 1;
        loop
            invariant
                pos < p <= self.tokens.len(),
                depth <= p,
                resume_at(self@.tokens, pos as int) == skip_to_top(
                    self@.tokens,
                    p as int,
                    depth as nat,
                ),
            decreases self.tokens.len() - p,
        {
            if p >= self.tokens.len() {
                return p;
            }
            match &self.tokens[p].0 {
                Token::LParen => {
                    if depth == 0 {
                        return p;
                    }
                    depth += 1;
                },
                Token::RParen => {
                    if depth > 0 {
                        depth -= 1;
                    }
                },
                _ => {},
            }
            p += 1;
        }
    }

    /// Parses every top-level form: the definitions that parse, in order,
    /// and every diagnostic, in order.
    pub fn parse_forms(&self) -> (r: (Vec<Spanned<LispVal>>, Vec<ParseError>))
        ensures
            (Outcome { functions: nodes_view(r.0@), errors: errors_view(r.1@) }) == parse_forms(
                self@,
                0,
                Outcome { functions: Seq::empty(), errors: Seq::empty() },
            ),
    {
        let mut functions: Vec<Spanned<LispVal>> = Vec::new();
        let mut errors: Vec<ParseError> = Vec::new();
        let mut p: usize = 0;
        let ghost first = Outcome { functions: Seq::empty(), errors: Seq::empty() };
        assert(nodes_view(functions@) =~= Seq::<Node>::empty());
        assert(errors_view(errors@) =~= Seq::<ParseErrorView>::empty());
        while p < self.tokens.len()
            invariant
                p <= self.tokens.len(),
                parse_forms(self@, 0, first) == parse_forms(
                    self@,
                    p as int,
                    Outcome { functions: nodes_view(functions@), errors: errors_view(errors@) },
                ),
            decreases self.tokens.len() - p,
        {
            match self.parse_top(p) {
                Ok((f, next)) => {
                    proof {
                        lemma_nodes_view_push(functions@, f);
                    }
                    functions.push(f);
                    p = next;
                },
                Err(e) => {
                    assert(errors_view(errors@.push(e)) =~= errors_view(errors@).push(e@));
                    errors.push(e);
                    p = self.resume_at(p);
                },
            }
        }
        (functions, errors)
    }
}

/// What parsing gives: the module of the definitions that parsed, and every
/// diagnostic.
#[derive(Clone, Debug)]
pub struct ParseOutput {
    pub module: LispModule,
    pub errors: Vec<ParseError>,
}

impl View for ParseOutput {
    type V = Outcome;

    open spec fn view(&self) -> Outcome {
        Outcome { functions: self.module@, errors: errors_view(self.errors@) }
    }
}

/// Parses the tokens of a text of `len` characters that is named `origin`.
pub fn parse_tokens(tokens: Vec<SpannedToken>, len: usize, origin: &str) -> (r: ParseOutput)
    ensures
        r@ == parse_tokens_spec(tokens_view(tokens@), len as nat, origin@),
{
    let stream = TokenStream {
        tokens,
        eoi: Span::new(
            len,
            if len < usize::MAX {
                len + 1
            } else {
                len
            },
        ),
        source: Arc::new(String::from_str(origin)),
    };
    let (functions, errors) = stream.parse_forms();
    ParseOutput { module: Arc::new(LispModuleX { functions: Arc::new(functions) }), errors }
}

/// Lexes and parses the characters of a text that is named `origin`.
pub fn parse_chars(origin: &str, chars: &Vec<char>) -> (r: ParseOutput)
    ensures
        r@ == parse_spec(origin@, chars@),
{
    match lex_chars(chars) {
        Err(e) => {
            let none: Vec<Spanned<LispVal>> = Vec::new();
            let errors = vec![ParseError { kind: ParseErrorKind::Lexical(e.kind), span: e.span }];
            assert(nodes_view(none@) =~= Seq::<Node>::empty());
            assert(errors_view(errors@) =~= seq![lexical_error(e)]);
            ParseOutput { module: Arc::new(LispModuleX { functions: Arc::new(none) }), errors }
        },
        Ok(tokens) => parse_tokens(tokens, chars.len(), origin),
    }
}

/// Lexes and parses a source text that is named `origin`: the definitions
/// that parsed, in source order, and every diagnostic, in source order. A
/// lexical error is the only diagnostic of its run.
pub fn parse_source(origin: &str, text: &str) -> (r: ParseOutput)
    ensures
        r@ == parse_spec(origin@, text@),
        all_functions(r.module@),
{
    proof {
        lemma_parsed_is_module(origin@, text@);
    }
    let chars = to_chars(text);
    parse_chars(origin, &chars)
}

} // verus!
