//! What holds of everything that lowering gives.

use crate::parser::ast::{all_functions, Node, Sexp};
use crate::semantic::lower::{
    defined_name, defined_names, is_callable, lemma_first_non_function, lower_forms,
    lower_module_spec, lower_node, lower_seq,
};
use vstd::prelude::*;

verus! {

/// Whether every call in the tree names something callable and no list
/// that is left is headed by an identifier. Inside a definition the
/// definition's own name is callable.
pub open spec fn resolved(known: Seq<Seq<char>>, n: Node) -> bool
    decreases n, 0int,
{
    match n.x {
        Sexp::FunctionCall { name, args } => is_callable(known, name) && resolved_all(
            known,
            args,
            0,
        ),
        Sexp::List(items) => !(items.len() > 0 && items[0].x is Atom) && resolved_all(
            known,
            items,
            0,
        ),
        Sexp::Function { name, preconditions, postcondition, body, .. } => {
            let inner = known.push(name);
            &&& match preconditions {
                Some(clauses) => resolved_all(inner, clauses, 0),
                None => true,
            }
            &&& match postcondition {
                Some(clause) => resolved(inner, *clause),
                None => true,
            }
            &&& resolved_all(inner, body, 0)
        },
        _ => true,
    }
}

/// Whether each of the trees from `from` on is resolved.
pub open spec fn resolved_all(known: Seq<Seq<char>>, items: Seq<Node>, from: int) -> bool
    decreases items, items.len() - from,
{
    if 0 <= from < items.len() {
        resolved(known, items[from]) && resolved_all(known, items, from + 1)
    } else {
        true
    }
}

proof fn lemma_resolved_push(known: Seq<Seq<char>>, items: Seq<Node>, from: int, n: Node)
    requires
        0 <= from <= items.len(),
        resolved_all(known, items, from),
        resolved(known, n),
    ensures
        resolved_all(known, items.push(n), from),
    decreases items.len() - from,
{
    let more = items.push(n);
    if from < items.len() {
        assert(more[from] == items[from]);
        lemma_resolved_push(known, items, from + 1, n);
    } else {
        assert(more[from] == n);
        assert(resolved_all(known, more, from + 1));
    }
}

/// Lowering keeps what a tree is and where it stands: a definition stays
/// a definition of the same name and parameters, an identifier stays one,
/// and nothing else becomes one; and what it gives is resolved.
pub proof fn lemma_lower_node(known: Seq<Seq<char>>, n: Node)
    ensures
        lower_node(known, n) matches Ok(m) ==> {
            &&& m.span == n.span
            &&& m.source == n.source
            &&& m.x is Atom <==> n.x is Atom
            &&& n.x is Function ==> m.x is Function && m.x->params == n.x->params && defined_name(m)
                == defined_name(n)
            &&& resolved(known, m)
        },
    decreases n, 0int,
{
    match n.x {
        Sexp::List(items) => {
            if items.len() > 0 && items[0].x is Atom {
                lemma_lower_seq(known, items, 1, Seq::empty());
            } else {
                lemma_lower_seq(known, items, 0, Seq::empty());
                match lower_seq(known, items, 0, Seq::empty()) {
                    Ok(lowered) => {
                        if items.len() > 0 {
                            lemma_lower_node(known, items[0]);
                        }
                    },
                    Err(_) => {},
                }
            }
        },
        Sexp::FunctionCall { name, args } => {
            lemma_lower_seq(known, args, 0, Seq::empty());
        },
        Sexp::Function { name, params, preconditions, postcondition, body } => {
            let inner = known.push(name);
            match preconditions {
                Some(clauses) => {
                    lemma_lower_seq(inner, clauses, 0, Seq::empty());
                },
                None => {},
            }
            match postcondition {
                Some(clause) => {
                    lemma_lower_node(inner, *clause);
                },
                None => {},
            }
            lemma_lower_seq(inner, body, 0, Seq::empty());
        },
        _ => {},
    }
}

/// Lowering a sequence lowers each tree in its place.
pub proof fn lemma_lower_seq(known: Seq<Seq<char>>, items: Seq<Node>, from: int, acc: Seq<Node>)
    requires
        0 <= from <= items.len(),
        resolved_all(known, acc, 0),
    ensures
        lower_seq(known, items, from, acc) matches Ok(out) ==> {
            &&& out.len() == acc.len() + items.len() - from
            &&& resolved_all(known, out, 0)
            &&& forall|k: int| 0 <= k < acc.len() ==> out[k] == acc[k]
            &&& forall|k: int|
                from <= k < items.len() ==> lower_node(known, #[trigger] items[k]) == Ok::<
                    Node,
                    crate::semantic::diagnostic::DiagnosticView,
                >(out[acc.len() + k - from])
        },
    decreases items, items.len() - from,
{
    if from < items.len() {
        lemma_lower_node(known, items[from]);
        match lower_node(known, items[from]) {
            Ok(lowered) => {
                lemma_resolved_push(known, acc, 0, lowered);
                lemma_lower_seq(known, items, from + 1, acc.push(lowered));
                match lower_seq(known, items, from + 1, acc.push(lowered)) {
                    Ok(out) => {
                        assert(out[acc.len() as int] == acc.push(lowered)[acc.len() as int]);
                    },
                    Err(_) => {},
                }
            },
            Err(_) => {},
        }
    }
}

/// Lowering the forms lowers each in its place, as long as none fails.
pub proof fn lemma_lower_forms(
    known: Seq<Seq<char>>,
    forms: Seq<Node>,
    from: int,
    done: Seq<Node>,
    errors: Seq<crate::semantic::diagnostic::DiagnosticView>,
)
    requires
        0 <= from <= forms.len(),
    ensures
        ({
            let (d, e) = lower_forms(known, forms, from, done, errors);
            &&& errors.len() <= e.len()
            &&& d.len() + e.len() == done.len() + errors.len() + forms.len() - from
            &&& e.len() == errors.len() ==> {
                &&& forall|k: int| 0 <= k < done.len() ==> d[k] == done[k]
                &&& forall|k: int|
                    from <= k < forms.len() ==> lower_node(known, #[trigger] forms[k]) == Ok::<
                        Node,
                        crate::semantic::diagnostic::DiagnosticView,
                    >(d[done.len() + k - from])
            }
        }),
    decreases forms.len() - from,
{
    if from < forms.len() {
        match lower_node(known, forms[from]) {
            Ok(lowered) => {
                lemma_lower_forms(known, forms, from + 1, done.push(lowered), errors);
                let (d, e) = lower_forms(known, forms, from + 1, done.push(lowered), errors);
                if e.len() == errors.len() {
                    assert(d[done.len() as int] == done.push(lowered)[done.len() as int]);
                    assert forall|k: int| 0 <= k < done.len() implies d[k] == done[k] by {
                        assert(d[k] == done.push(lowered)[k]);
                    }
                }
            },
            Err(d) => {
                lemma_lower_forms(known, forms, from + 1, done, errors.push(d));
            },
        }
    }
}

/// What lowering gives is a module of as many definitions, under the same
/// names and with the same parameters, at the same places in the source,
/// and resolved: every call in it names an operator or a definition, and
/// no list in it is headed by an identifier.
pub proof fn lemma_lowered_module(forms: Seq<Node>)
    ensures
        lower_module_spec(forms) matches Ok(fns) ==> {
            &&& all_functions(forms)
            &&& all_functions(fns)
            &&& fns.len() == forms.len()
            &&& defined_names(fns) == defined_names(forms)
            &&& forall|k: int|
                0 <= k < fns.len() ==> {
                    &&& (#[trigger] fns[k]).span == forms[k].span
                    &&& fns[k].x->params == forms[k].x->params
                    &&& resolved(defined_names(forms), fns[k])
                }
        },
{
    match lower_module_spec(forms) {
        Ok(fns) => {
            lemma_first_non_function(forms, 0);
            let known = defined_names(forms);
            lemma_lower_forms(known, forms, 0, Seq::empty(), Seq::empty());
            assert forall|k: int| 0 <= k < fns.len() implies {
                &&& (#[trigger] fns[k]).x is Function
                &&& fns[k].span == forms[k].span
                &&& fns[k].x->params == forms[k].x->params
                &&& defined_name(fns[k]) == defined_name(forms[k])
                &&& resolved(known, fns[k])
            } by {
                assert(forms[k].x is Function);
                lemma_lower_node(known, forms[k]);
            }
            assert(defined_names(fns) =~= defined_names(forms));
        },
        Err(_) => {},
    }
}

} // verus!
