//! The diagnostics of lowering and type checking.

use crate::common::Span;
use crate::semantic::typeck::{LiteralType, Type};
use std::sync::Arc;
use vstd::prelude::*;

verus! {

/// Whether the run can go on after a diagnostic.
#[derive(Clone, Copy, Debug, PartialEq, Eq, Hash, Structural)]
pub enum Severity {
    Recoverable,
    Fatal,
}

/// The class of a diagnostic.
#[derive(Clone, Copy, Debug, PartialEq, Eq, Hash, Structural)]
pub enum Category {
    Lexical,
    Syntactic,
    Structure,
    Resolution,
    Type,
    ContractScope,
    Resource,
}

/// What a diagnostic of lowering or type checking says.
#[derive(Clone, Debug, PartialEq, Eq)]
pub enum DiagnosticKind {
    /// A top-level form that is no definition.
    NotAFunction,
    /// A call whose head names no function and no operator.
    UnresolvedCall(Arc<String>),
    /// An identifier with no typed binding in scope.
    UnboundVariable(Arc<String>),
    TypeMismatch { expected: Type, actual: Type },
    /// A contract clause whose type is not `Bool`.
    ContractNotBool { actual: Type },
    /// A call of a function of `params` parameters with `args` arguments.
    ArityMismatch { params: usize, args: usize },
    /// A definition without a body expression.
    EmptyBody,
    /// A definition where an expression is expected.
    NestedDefinition,
    /// A call of a function whose signature is not yet assumed.
    SignatureNotReady(Arc<String>),
    /// No fresh existential identifier is left.
    OutOfIdentifiers,
}

/// The mathematical value of a [`DiagnosticKind`].
pub enum DiagnosticKindView {
    NotAFunction,
    UnresolvedCall(Seq<char>),
    UnboundVariable(Seq<char>),
    TypeMismatch { expected: Type, actual: Type },
    ContractNotBool { actual: Type },
    ArityMismatch { params: usize, args: usize },
    EmptyBody,
    NestedDefinition,
    SignatureNotReady(Seq<char>),
    OutOfIdentifiers,
}

/// A diagnostic with the span it points at; `in_contract` says that it
/// arose in a `requires` or `ensures` clause.
#[derive(Clone, Debug, PartialEq, Eq)]
pub struct Diagnostic {
    pub kind: DiagnosticKind,
    pub span: Span,
    pub in_contract: bool,
}

/// The mathematical value of a [`Diagnostic`].
pub struct DiagnosticView {
    pub kind: DiagnosticKindView,
    pub span: Span,
    pub in_contract: bool,
}

impl View for DiagnosticKind {
    type V = DiagnosticKindView;

    open spec fn view(&self) -> DiagnosticKindView {
        match *self {
            DiagnosticKind::NotAFunction => DiagnosticKindView::NotAFunction,
            DiagnosticKind::UnresolvedCall(n) => DiagnosticKindView::UnresolvedCall(n@),
            DiagnosticKind::UnboundVariable(n) => DiagnosticKindView::UnboundVariable(n@),
            DiagnosticKind::TypeMismatch { expected, actual } => DiagnosticKindView::TypeMismatch {
                expected,
                actual,
            },
            DiagnosticKind::ContractNotBool { actual } => DiagnosticKindView::ContractNotBool {
                actual,
            },
            DiagnosticKind::ArityMismatch { params, args } => DiagnosticKindView::ArityMismatch {
                params,
                args,
            },
            DiagnosticKind::EmptyBody => DiagnosticKindView::EmptyBody,
            DiagnosticKind::NestedDefinition => DiagnosticKindView::NestedDefinition,
            DiagnosticKind::SignatureNotReady(n) => DiagnosticKindView::SignatureNotReady(n@),
            DiagnosticKind::OutOfIdentifiers => DiagnosticKindView::OutOfIdentifiers,
        }
    }
}

impl View for Diagnostic {
    type V = DiagnosticView;

    open spec fn view(&self) -> DiagnosticView {
        DiagnosticView { kind: self.kind@, span: self.span, in_contract: self.in_contract }
    }
}

pub open spec fn diagnostics_view(v: Seq<Diagnostic>) -> Seq<DiagnosticView> {
    v.map_values(|d: Diagnostic| d@)
}

/// The class of a diagnostic: an unbound name in a contract clause is a
/// matter of contract scope, elsewhere of resolution.
pub open spec fn category_of(d: DiagnosticView) -> Category {
    match d.kind {
        DiagnosticKindView::NotAFunction => Category::Structure,
        DiagnosticKindView::SignatureNotReady(_) => Category::Structure,
        DiagnosticKindView::UnresolvedCall(_) => Category::Resolution,
        DiagnosticKindView::UnboundVariable(_) => if d.in_contract {
            Category::ContractScope
        } else {
            Category::Resolution
        },
        DiagnosticKindView::OutOfIdentifiers => Category::Resource,
        _ => Category::Type,
    }
}

/// Structure and resource diagnostics end the run; the others do not.
pub open spec fn severity_of(d: DiagnosticView) -> Severity {
    match category_of(d) {
        Category::Structure => Severity::Fatal,
        Category::Resource => Severity::Fatal,
        _ => Severity::Recoverable,
    }
}

/// The name of a type, in words; every existential reads alike.
pub open spec fn type_text(t: Type) -> Seq<char> {
    match t {
        Type::Literal(LiteralType::Unit) => "Unit"@,
        Type::Literal(LiteralType::String) => "String"@,
        Type::Literal(LiteralType::Int) => "Int"@,
        Type::Literal(LiteralType::Bool) => "Bool"@,
        Type::Existential(_) => "an open type"@,
    }
}

/// What a diagnostic says, in words.
pub open spec fn message_of(k: DiagnosticKindView) -> Seq<char> {
    match k {
        DiagnosticKindView::NotAFunction => "a top-level form is not a definition"@,
        DiagnosticKindView::UnresolvedCall(n) => "unresolved call of "@ + n,
        DiagnosticKindView::UnboundVariable(n) => "unbound variable "@ + n,
        DiagnosticKindView::TypeMismatch { expected, actual } => "type mismatch: expected "@
            + type_text(expected) + ", found "@ + type_text(actual),
        DiagnosticKindView::ContractNotBool { actual } => "a contract clause must be Bool, found "@
            + type_text(actual),
        DiagnosticKindView::ArityMismatch { .. } => "wrong number of arguments"@,
        DiagnosticKindView::EmptyBody => "a definition needs a body"@,
        DiagnosticKindView::NestedDefinition => "a definition is not an expression"@,
        DiagnosticKindView::SignatureNotReady(n) => "no signature yet for "@ + n,
        DiagnosticKindView::OutOfIdentifiers => "out of fresh identifiers"@,
    }
}

/// The name of a type, in words.
pub fn name_of_type(t: Type) -> (r: &'static str)
    ensures
        r@ == type_text(t),
{
    match t {
        Type::Literal(LiteralType::Unit) => "Unit",
        Type::Literal(LiteralType::String) => "String",
        Type::Literal(LiteralType::Int) => "Int",
        Type::Literal(LiteralType::Bool) => "Bool",
        Type::Existential(_) => "an open type",
    }
}

impl Diagnostic {
    /// What the diagnostic says, in words.
    pub fn message(&self) -> (r: String)
        ensures
            r@ == message_of(self@.kind),
    {
        match &self.kind {
            DiagnosticKind::NotAFunction => String::from_str("a top-level form is not a definition"),
            DiagnosticKind::UnresolvedCall(n) => String::from_str("unresolved call of ").concat(
                n.as_str(),
            ),
            DiagnosticKind::UnboundVariable(n) => String::from_str("unbound variable ").concat(
                n.as_str(),
            ),
            DiagnosticKind::TypeMismatch { expected, actual } => String::from_str(
                "type mismatch: expected ",
            ).concat(name_of_type(*expected)).concat(", found ").concat(name_of_type(*actual)),
            DiagnosticKind::ContractNotBool { actual } => String::from_str(
                "a contract clause must be Bool, found ",
            ).concat(name_of_type(*actual)),
            DiagnosticKind::ArityMismatch { .. } => String::from_str("wrong number of arguments"),
            DiagnosticKind::EmptyBody => String::from_str("a definition needs a body"),
            DiagnosticKind::NestedDefinition => String::from_str(
                "a definition is not an expression",
            ),
            DiagnosticKind::SignatureNotReady(n) => String::from_str("no signature yet for ").concat(
                n.as_str(),
            ),
            DiagnosticKind::OutOfIdentifiers => String::from_str("out of fresh identifiers"),
        }
    }

    pub fn category(&self) -> (r: Category)
        ensures
            r == category_of(self@),
    {
        match &self.kind {
            DiagnosticKind::NotAFunction => Category::Structure,
            DiagnosticKind::SignatureNotReady(_) => Category::Structure,
            DiagnosticKind::UnresolvedCall(_) => Category::Resolution,
            DiagnosticKind::UnboundVariable(_) => if self.in_contract {
                Category::ContractScope
            } else {
                Category::Resolution
            },
            DiagnosticKind::OutOfIdentifiers => Category::Resource,
            _ => Category::Type,
        }
    }

    pub fn severity(&self) -> (r: Severity)
        ensures
            r == severity_of(self@),
    {
        match self.category() {
            Category::Structure => Severity::Fatal,
            Category::Resource => Severity::Fatal,
            _ => Severity::Recoverable,
        }
    }

    pub fn is_fatal(&self) -> (r: bool)
        ensures
            r == (severity_of(self@) == Severity::Fatal),
    {
        match self.severity() {
            Severity::Fatal => true,
            Severity::Recoverable => false,
        }
    }
}

} // verus!
