//! The tree that the parser builds, and the mathematical trees that the
//! contracts of every stage speak of.

use crate::common::{Span, Spanned};
use std::sync::Arc;
use vstd::prelude::*;

verus! {

pub type LispVal = Arc<LispValX>;

/// A node of the parsed tree.
#[derive(Clone, Debug, Hash, Eq, PartialEq)]
pub enum LispValX {
    /// A bare identifier, or an operator at the head of a list.
    Atom(Arc<String>),
    /// A parenthesized form.
    List(Arc<Vec<Spanned<LispVal>>>),
    /// A numeral, kept as text.
    Int(Arc<String>),
    String(Arc<String>),
    Bool(bool),
    /// A definition: `preconditions` holds the expressions that follow
    /// `requires`, `postcondition` the one that follows `ensures`.
    Function {
        name: Arc<String>,
        params: Vec<Arc<String>>,
        preconditions: Option<Arc<Vec<Spanned<LispVal>>>>,
        postcondition: Option<Arc<Spanned<LispVal>>>,
        body: Arc<Vec<Spanned<LispVal>>>,
    },
}

pub type LispModule = Arc<LispModuleX>;

/// The definitions of one source text, in source order.
#[derive(Clone, Debug, PartialEq, Eq)]
pub struct LispModuleX {
    pub functions: Arc<Vec<Spanned<LispVal>>>,
}

/// The mathematical value of a tree, before or after lowering.
pub enum Sexp {
    Atom(Seq<char>),
    List(Seq<Node>),
    Int(Seq<char>),
    Str(Seq<char>),
    Bool(bool),
    Function {
        name: Seq<char>,
        params: Seq<Seq<char>>,
        preconditions: Option<Seq<Node>>,
        postcondition: Option<Box<Node>>,
        body: Seq<Node>,
    },
    FunctionCall { name: Seq<char>, args: Seq<Node> },
}

/// The mathematical value of a spanned tree.
pub struct Node {
    pub source: Seq<char>,
    pub x: Sexp,
    pub span: Span,
}

pub open spec fn names_view(names: Seq<Arc<String>>) -> Seq<Seq<char>> {
    names.map_values(|n: Arc<String>| n@)
}

pub open spec fn node_view(n: Spanned<LispVal>) -> Node
    decreases n, 1int,
{
    Node { source: n.source@, x: val_view(*n.x), span: n.span }
}

pub open spec fn nodes_view(items: Seq<Spanned<LispVal>>) -> Seq<Node>
    decreases items, 2int,
{
    Seq::new(
        items.len(),
        |i: int|
            if 0 <= i < items.len() {
                node_view(items[i])
            } else {
                arbitrary()
            },
    )
}

pub open spec fn val_view(v: LispValX) -> Sexp
    decreases v, 0int,
{
    match v {
        LispValX::Atom(s) => Sexp::Atom(s@),
        LispValX::List(items) => Sexp::List(nodes_view(items@)),
        LispValX::Int(s) => Sexp::Int(s@),
        LispValX::String(s) => Sexp::Str(s@),
        LispValX::Bool(b) => Sexp::Bool(b),
        LispValX::Function { name, params, preconditions, postcondition, body } => Sexp::Function {
            name: name@,
            params: names_view(params@),
            preconditions: match preconditions {
                Some(p) => Some(nodes_view(p@)),
                None => None,
            },
            postcondition: match postcondition {
                Some(e) => Some(Box::new(node_view(*e))),
                None => None,
            },
            body: nodes_view(body@),
        },
    }
}

impl View for Spanned<LispVal> {
    type V = Node;

    open spec fn view(&self) -> Node {
        node_view(*self)
    }
}

impl View for LispModuleX {
    type V = Seq<Node>;

    open spec fn view(&self) -> Seq<Node> {
        nodes_view(self.functions@)
    }
}

/// Whether every form is a definition: what holds of a module.
pub open spec fn all_functions(forms: Seq<Node>) -> bool {
    forall|k: int| 0 <= k < forms.len() ==> (#[trigger] forms[k]).x is Function
}

/// Adding a tree at the end adds its value at the end.
pub proof fn lemma_nodes_view_push(items: Seq<Spanned<LispVal>>, n: Spanned<LispVal>)
    ensures
        nodes_view(items.push(n)) == nodes_view(items).push(node_view(n)),
{
    assert(nodes_view(items.push(n)) =~= nodes_view(items).push(node_view(n)));
}

pub proof fn lemma_names_view_push(names: Seq<Arc<String>>, n: Arc<String>)
    ensures
        names_view(names.push(n)) == names_view(names).push(n@),
{
    assert(names_view(names.push(n)) =~= names_view(names).push(n@));
}

} // verus!
