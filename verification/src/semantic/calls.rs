//! The call graph of a lowered module.

use crate::common::{share, Spanned};
use crate::parser::ast::{lemma_names_view_push, names_view, Node, Sexp};
use crate::semantic::ast::{node_view, nodes_view, LispVal, LispValX};
use crate::semantic::lower::defined_names;
use crate::semantic::order::{falses, matrix_view, Graph};
use std::sync::Arc;
use vstd::prelude::*;

verus! {

/// The names at the heads of the calls in a tree, added to `acc`: a call's
/// own name, then those in its arguments; for a definition those in its
/// preconditions, its postcondition and its body.
pub open spec fn callees(n: Node, acc: Seq<Seq<char>>) -> Seq<Seq<char>>
    decreases n, 0int,
{
    match n.x {
        Sexp::FunctionCall { name, args } => callees_seq(args, 0, acc.push(name)),
        Sexp::List(items) => callees_seq(items, 0, acc),
        Sexp::Function { preconditions, postcondition, body, .. } => {
            let a1 = match preconditions {
                Some(clauses) => callees_seq(clauses, 0, acc),
                None => acc,
            };
            let a2 = match postcondition {
                Some(clause) => callees(*clause, a1),
                None => a1,
            };
            callees_seq(body, 0, a2)
        },
        _ => acc,
    }
}

/// The names at the heads of the calls in the trees from `from` on, added
/// to `acc`.
pub open spec fn callees_seq(items: Seq<Node>, from: int, acc: Seq<Seq<char>>) -> Seq<Seq<char>>
    decreases items, items.len() - from,
{
    if 0 <= from < items.len() {
        callees_seq(items, from + 1, callees(items[from], acc))
    } else {
        acc
    }
}

/// The index of the first of `names` from `from` on that reads `name`, or
/// the number of names.
pub open spec fn first_index(names: Seq<Seq<char>>, name: Seq<char>, from: int) -> int
    decreases names.len() - from,
{
    if 0 <= from < names.len() {
        if names[from] == name {
            from
        } else {
            first_index(names, name, from + 1)
        }
    } else {
        names.len() as int
    }
}

/// Whether one of the first `upto` of the `called` names is that of
/// function `b`: a name stands for the first function that bears it.
pub open spec fn hits(names: Seq<Seq<char>>, called: Seq<Seq<char>>, b: int, upto: int) -> bool
    decreases upto,
{
    0 < upto <= called.len() && (first_index(names, called[upto - 1], 0) == b || hits(
        names,
        called,
        b,
        upto - 1,
    ))
}

/// Whether function `a` calls function `b`: the name of `b` heads a call
/// in the body, a precondition or the postcondition of `a`.
pub open spec fn calls(fns: Seq<Node>, a: int, b: int) -> bool {
    let called = callees(fns[a], Seq::empty());
    hits(defined_names(fns), called, b, called.len() as int)
}

/// The call graph of a module: an edge from each function to each
/// function that it calls.
pub open spec fn call_graph(fns: Seq<Node>) -> Graph {
    Seq::new(fns.len(), |a: int| Seq::new(fns.len(), |b: int| calls(fns, a, b)))
}

fn gather_all(items: &Vec<Spanned<LispVal>>, acc: Vec<Arc<String>>) -> (r: Vec<Arc<String>>)
    ensures
        names_view(r@) == callees_seq(nodes_view(items@), 0, names_view(acc@)),
    decreases items, 1int,
{
    let mut out = acc;
    let mut k: usize = 0;
    while k < items.len()
        invariant
            k <= items.len(),
            callees_seq(nodes_view(items@), 0, names_view(acc@)) == callees_seq(
                nodes_view(items@),
                k as int,
                names_view(out@),
            ),
        decreases items.len() - k,
    {
        out = gather(&items[k], out);
        k += 1;
    }
    out
}

/// Gathers the names at the heads of the calls in a tree.
pub fn gather(n: &Spanned<LispVal>, acc: Vec<Arc<String>>) -> (r: Vec<Arc<String>>)
    ensures
        names_view(r@) == callees(node_view(*n), names_view(acc@)),
    decreases n, 0int,
{
    match &*n.x {
        LispValX::FunctionCall { name, args } => {
            let mut out = acc;
            proof {
                lemma_names_view_push(out@, *name);
            }
            out.push(share(name));
            gather_all(args, out)
        },
        LispValX::List(items) => gather_all(items, acc),
        LispValX::Function { preconditions, postcondition, body, .. } => {
            let a1 = match preconditions {
                Some(clauses) => gather_all(clauses, acc),
                None => acc,
            };
            let a2 = match postcondition {
                Some(clause) => gather(clause, a1),
                None => a1,
            };
            gather_all(body, a2)
        },
        _ => acc,
    }
}

/// The index of the first name that reads as `name` does.
pub fn find_name(names: &Vec<Arc<String>>, name: &Arc<String>) -> (r: usize)
    ensures
        r == first_index(names_view(names@), name@, 0),
        r <= names.len(),
{
    let mut k: usize = 0;
    while k < names.len()
        invariant
            k <= names.len(),
            first_index(names_view(names@), name@, 0) == first_index(
                names_view(names@),
                name@,
                k as int,
            ),
        decreases names.len() - k,
    {
        if *names[k] == **name {
            return k;
        }
        k += 1;
    }
    k
}

/// The names that the definitions bear, in order.
pub fn names_of(fns: &Vec<Spanned<LispVal>>) -> (r: Vec<Arc<String>>)
    ensures
        names_view(r@) == defined_names(nodes_view(fns@)),
        r.len() == fns.len(),
{
    let mut out: Vec<Arc<String>> = Vec::new();
    let mut k: usize = 0;
    let ghost all = defined_names(nodes_view(fns@));
    while k < fns.len()
        invariant
            k <= fns.len(),
            out.len() == k,
            all == defined_names(nodes_view(fns@)),
            names_view(out@) == all.take(k as int),
        decreases fns.len() - k,
    {
        let name = match &*fns[k].x {
            LispValX::Function { name, .. } => share(name),
            _ => Arc::new(String::new()),
        };
        proof {
            lemma_names_view_push(out@, name);
            assert(nodes_view(fns@)[k as int] == node_view(fns@[k as int]));
        }
        out.push(name);
        k += 1;
        assert(all.take(k as int) =~= all.take(k - 1).push(name@));
    }
    assert(names_view(out@) =~= all);
    out
}

/// The row of the call graph for the definition `f`.
pub fn call_row(names: &Vec<Arc<String>>, f: &Spanned<LispVal>) -> (r: Vec<bool>)
    ensures
        r.len() == names.len(),
        forall|b: int|
            0 <= b < names.len() ==> r[b] == hits(
                names_view(names@),
                callees(node_view(*f), Seq::empty()),
                b,
                callees(node_view(*f), Seq::empty()).len() as int,
            ),
{
    let none: Vec<Arc<String>> = Vec::new();
    assert(names_view(none@) =~= Seq::<Seq<char>>::empty());
    let called = gather(f, none);
    let n = names.len();
    let mut row = falses(n);
    let mut j: usize = 0;
    while j < called.len()
        invariant
            j <= called.len(),
            n == names.len(),
            row.len() == n,
            forall|b: int|
                0 <= b < n ==> row[b] == hits(
                    names_view(names@),
                    names_view(called@),
                    b,
                    j as int,
                ),
        decreases called.len() - j,
    {
        let k = find_name(names, &called[j]);
        if k < n {
            row.set(k, true);
        }
        j += 1;
    }
    row
}

/// The call graph of the definitions, as its adjacency matrix.
pub fn call_matrix(fns: &Vec<Spanned<LispVal>>) -> (r: Vec<Vec<bool>>)
    ensures
        matrix_view(r@) == call_graph(nodes_view(fns@)),
        r.len() == fns.len(),
{
    let names = names_of(fns);
    let mut rows: Vec<Vec<bool>> = Vec::new();
    let mut a: usize = 0;
    let ghost fv = nodes_view(fns@);
    while a < fns.len()
        invariant
            a <= fns.len(),
            fv == nodes_view(fns@),
            names.len() == fns.len(),
            names_view(names@) == defined_names(fv),
            rows.len() == a,
            forall|x: int|
                0 <= x < a ==> (#[trigger] rows[x])@ == Seq::new(
                    fv.len(),
                    |b: int| calls(fv, x, b),
                ),
        decreases fns.len() - a,
    {
        let row = call_row(&names, &fns[a]);
        assert(fv[a as int] == node_view(fns@[a as int]));
        assert(row@ =~= Seq::new(fv.len(), |b: int| calls(fv, a as int, b)));
        rows.push(row);
        a += 1;
    }
    assert(matrix_view(rows@) =~= call_graph(fv));
    rows
}

} // verus!
