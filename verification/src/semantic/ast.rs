//! The tree that the type checker reads: the parsed tree with its calls
//! told apart from its lists.

use crate::common::Spanned;
use crate::parser::ast::{names_view, Node, Sexp};
use std::sync::Arc;
use vstd::prelude::*;

verus! {

pub type LispVal = Arc<LispValX>;

/// A node of the lowered tree.
#[derive(Clone, Debug, Hash, Eq, PartialEq)]
pub enum LispValX {
    /// A reference to a variable.
    Atom(Arc<String>),
    /// A list that is data, not a call.
    List(Arc<Vec<Spanned<LispVal>>>),
    Int(Arc<String>),
    String(Arc<String>),
    Bool(bool),
    Function {
        name: Arc<String>,
        params: Vec<Arc<String>>,
        preconditions: Option<Arc<Vec<Spanned<LispVal>>>>,
        postcondition: Option<Arc<Spanned<LispVal>>>,
        body: Arc<Vec<Spanned<LispVal>>>,
    },
    /// A call of a function or an operator by name.
    FunctionCall { name: Arc<String>, args: Arc<Vec<Spanned<LispVal>>> },
}

pub type LispModule = Arc<LispModuleX>;

/// The lowered definitions of one source text, in source order.
#[derive(Clone, Debug, PartialEq, Eq)]
pub struct LispModuleX {
    pub functions: Arc<Vec<Spanned<LispVal>>>,
}

pub open spec fn node_view(n: Spanned<LispVal>) -> Node
    decreases n, 1int,
{
    Node { source: n.source@, x: val_view(*n.x), span: n.span }
}

pub open spec fn nodes_view(items: Seq<Spanned<LispVal>>) -> Seq<Node>
    decreases items, 2int,
{
    Seq::new(
        items.len(),
        |i: int|
            if 0 <= i < items.len() {
                node_view(items[i])
            } else {
                arbitrary()
            },
    )
}

pub open spec fn val_view(v: LispValX) -> Sexp
    decreases v, 0int,
{
    match v {
        LispValX::Atom(s) => Sexp::Atom(s@),
        LispValX::List(items) => Sexp::List(nodes_view(items@)),
        LispValX::Int(s) => Sexp::Int(s@),
        LispValX::String(s) => Sexp::Str(s@),
        LispValX::Bool(b) => Sexp::Bool(b),
        LispValX::Function { name, params, preconditions, postcondition, body } => Sexp::Function {
            name: name@,
            params: names_view(params@),
            preconditions: match preconditions {
                Some(p) => Some(nodes_view(p@)),
                None => None,
            },
            postcondition: match postcondition {
                Some(e) => Some(Box::new(node_view(*e))),
                None => None,
            },
            body: nodes_view(body@),
        },
        LispValX::FunctionCall { name, args } => Sexp::FunctionCall {
            name: name@,
            args: nodes_view(args@),
        },
    }
}

impl View for Spanned<LispVal> {
    type V = Node;

    open spec fn view(&self) -> Node {
        node_view(*self)
    }
}

impl View for LispModuleX {
    type V = Seq<Node>;

    open spec fn view(&self) -> Seq<Node> {
        nodes_view(self.functions@)
    }
}

/// Adding a tree at the end adds its value at the end.
pub proof fn lemma_nodes_view_push(items: Seq<Spanned<LispVal>>, n: Spanned<LispVal>)
    ensures
        nodes_view(items.push(n)) == nodes_view(items).push(node_view(n)),
{
    assert(nodes_view(items.push(n)) =~= nodes_view(items).push(node_view(n)));
}

} // verus!
