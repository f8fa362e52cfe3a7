//! Lowering: a list whose head names a function or an operator becomes a
//! call; every other list stays data.

use crate::common::{name_is, share, Span, Spanned};
use crate::parser::ast as syntax;
use crate::parser::ast::{all_functions, lemma_names_view_push, names_view, Node, Sexp};
use crate::semantic::ast::{
    lemma_nodes_view_push, node_view, nodes_view, LispModule, LispModuleX, LispVal, LispValX,
};
use crate::semantic::diagnostic::{
    diagnostics_view, Diagnostic, DiagnosticKind, DiagnosticKindView, DiagnosticView,
};
use std::sync::Arc;
use vstd::prelude::*;

verus! {

/// Whether `n` is the name of an arithmetic or comparison operator.
pub open spec fn is_operator_name(n: Seq<char>) -> bool {
    n == "+"@ || n == "-"@ || n == "*"@ || n == "/"@ || n == "<"@ || n == "<="@ || n == ">"@ || n
        == ">="@ || n == "=="@
}

/// Whether a call can name `name`: it is an operator or one of `known`.
pub open spec fn is_callable(known: Seq<Seq<char>>, name: Seq<char>) -> bool {
    is_operator_name(name) || known.contains(name)
}

pub open spec fn unresolved_call(name: Seq<char>, span: Span) -> DiagnosticView {
    DiagnosticView { kind: DiagnosticKindView::UnresolvedCall(name), span, in_contract: false }
}

pub open spec fn not_a_function(span: Span) -> DiagnosticView {
    DiagnosticView { kind: DiagnosticKindView::NotAFunction, span, in_contract: false }
}

pub open spec fn with_value(n: Node, x: Sexp) -> Node {
    Node { source: n.source, x, span: n.span }
}

/// The lowered form of a tree, or the first unresolved call in it. A list
/// headed by an identifier is a call site: its head must be callable. A
/// definition can be called from inside itself. A call that is already
/// one is held to the same rule.
pub open spec fn lower_node(known: Seq<Seq<char>>, n: Node) -> Result<Node, DiagnosticView>
    decreases n, 0int,
{
    match n.x {
        Sexp::List(items) => {
            if items.len() > 0 && items[0].x is Atom {
                let name = items[0].x->Atom_0;
                if is_callable(known, name) {
                    match lower_seq(known, items, 1, Seq::empty()) {
                        Ok(args) => Ok(with_value(n, Sexp::FunctionCall { name, args })),
                        Err(d) => Err(d),
                    }
                } else {
                    Err(unresolved_call(name, n.span))
                }
            } else {
                match lower_seq(known, items, 0, Seq::empty()) {
                    Ok(lowered) => Ok(with_value(n, Sexp::List(lowered))),
                    Err(d) => Err(d),
                }
            }
        },
        Sexp::Function { name, params, preconditions, postcondition, body } => {
            let inner = known.push(name);
            let pre = match preconditions {
                None => Ok(None),
                Some(clauses) => match lower_seq(inner, clauses, 0, Seq::empty()) {
                    Ok(lowered) => Ok(Some(lowered)),
                    Err(d) => Err(d),
                },
            };
            let post = match postcondition {
                None => Ok(None),
                Some(clause) => match lower_node(inner, *clause) {
                    Ok(lowered) => Ok(Some(Box::new(lowered))),
                    Err(d) => Err(d),
                },
            };
            match (pre, post, lower_seq(inner, body, 0, Seq::empty())) {
                (Err(d), _, _) => Err(d),
                (Ok(_), Err(d), _) => Err(d),
                (Ok(_), Ok(_), Err(d)) => Err(d),
                (Ok(pre), Ok(post), Ok(body)) => Ok(
                    with_value(
                        n,
                        Sexp::Function {
                            name,
                            params,
                            preconditions: pre,
                            postcondition: post,
                            body,
                        },
                    ),
                ),
            }
        },
        Sexp::FunctionCall { name, args } => {
            if is_callable(known, name) {
                match lower_seq(known, args, 0, Seq::empty()) {
                    Ok(lowered) => Ok(with_value(n, Sexp::FunctionCall { name, args: lowered })),
                    Err(d) => Err(d),
                }
            } else {
                Err(unresolved_call(name, n.span))
            }
        },
        _ => Ok(n),
    }
}

/// The lowered forms of `items` from `from` on, added to `acc`, or the
/// first unresolved call.
pub open spec fn lower_seq(known: Seq<Seq<char>>, items: Seq<Node>, from: int, acc: Seq<Node>)
    -> Result<Seq<Node>, DiagnosticView>
    decreases items, items.len() - from,
{
    if 0 <= from < items.len() {
        match lower_node(known, items[from]) {
            Err(d) => Err(d),
            Ok(lowered) => lower_seq(known, items, from + 1, acc.push(lowered)),
        }
    } else {
        Ok(acc)
    }
}

/// The name that a top-level form defines.
pub open spec fn defined_name(n: Node) -> Seq<char> {
    match n.x {
        Sexp::Function { name, .. } => name,
        _ => Seq::empty(),
    }
}

/// The names that the forms define, in order.
pub open spec fn defined_names(forms: Seq<Node>) -> Seq<Seq<char>> {
    forms.map_values(|n: Node| defined_name(n))
}

/// The index of the first form from `from` on that is no definition, or
/// the number of forms.
pub open spec fn first_non_function(forms: Seq<Node>, from: int) -> int
    decreases forms.len() - from,
{
    if 0 <= from < forms.len() && forms[from].x is Function {
        first_non_function(forms, from + 1)
    } else {
        from
    }
}

pub proof fn lemma_first_non_function(forms: Seq<Node>, from: int)
    requires
        0 <= from <= forms.len(),
        forall|k: int| 0 <= k < from ==> (#[trigger] forms[k]).x is Function,
    ensures
        from <= first_non_function(forms, from) <= forms.len(),
        all_functions(forms) <==> first_non_function(forms, from) == forms.len(),
        first_non_function(forms, from) < forms.len() ==> !(forms[first_non_function(
            forms,
            from,
        )].x is Function),
    decreases forms.len() - from,
{
    if from < forms.len() && forms[from].x is Function {
        lemma_first_non_function(forms, from + 1);
    }
}

/// The lowered definitions and the diagnostics of the forms from `from`
/// on, added to what was gathered: one diagnostic for each definition that
/// holds an unresolved call.
pub open spec fn lower_forms(
    known: Seq<Seq<char>>,
    forms: Seq<Node>,
    from: int,
    done: Seq<Node>,
    errors: Seq<DiagnosticView>,
) -> (Seq<Node>, Seq<DiagnosticView>)
    decreases forms.len() - from,
{
    if 0 <= from < forms.len() {
        match lower_node(known, forms[from]) {
            Ok(lowered) => lower_forms(known, forms, from + 1, done.push(lowered), errors),
            Err(d) => lower_forms(known, forms, from + 1, done, errors.push(d)),
        }
    } else {
        (done, errors)
    }
}

/// What lowering a module gives. A form that is no definition is fatal and
/// the only diagnostic; else every definition is lowered against the names
/// of all of them, and the module is given if none held an unresolved call.
pub open spec fn lower_module_spec(forms: Seq<Node>) -> Result<Seq<Node>, Seq<DiagnosticView>> {
    let bad = first_non_function(forms, 0);
    if 0 <= bad < forms.len() {
        Err(seq![not_a_function(forms[bad].span)])
    } else {
        let (done, errors) = lower_forms(
            defined_names(forms),
            forms,
            0,
            Seq::empty(),
            Seq::empty(),
        );
        if errors.len() == 0 {
            Ok(done)
        } else {
            Err(errors)
        }
    }
}

pub open spec fn lowered_view(r: Result<Spanned<LispVal>, Diagnostic>) -> Result<
    Node,
    DiagnosticView,
> {
    match r {
        Ok(n) => Ok(node_view(n)),
        Err(d) => Err(d@),
    }
}

pub open spec fn lowered_seq_view(r: Result<Vec<Spanned<LispVal>>, Diagnostic>) -> Result<
    Seq<Node>,
    DiagnosticView,
> {
    match r {
        Ok(v) => Ok(nodes_view(v@)),
        Err(d) => Err(d@),
    }
}

pub open spec fn lowered_module_view(r: Result<LispModule, Vec<Diagnostic>>) -> Result<
    Seq<Node>,
    Seq<DiagnosticView>,
> {
    match r {
        Ok(m) => Ok(m@),
        Err(ds) => Err(diagnostics_view(ds@)),
    }
}

pub fn operator_named(name: &Arc<String>) -> (r: bool)
    ensures
        r == is_operator_name(name@),
{
    name_is(name, "+") || name_is(name, "-") || name_is(name, "*") || name_is(name, "/")
        || name_is(name, "<") || name_is(name, "<=") || name_is(name, ">") || name_is(name, ">=")
        || name_is(name, "==")
}

/// Whether `names` holds a name that reads as `name` does.
pub fn holds_name(names: &Vec<Arc<String>>, name: &Arc<String>) -> (r: bool)
    ensures
        r == names_view(names@).contains(name@),
{
    let mut k: usize = 0;
    while k < names.len()
        invariant
            k <= names.len(),
            forall|j: int| 0 <= j < k ==> names_view(names@)[j] != name@,
        decreases names.len() - k,
    {
        if **name == *names[k] {
            assert(names_view(names@)[k as int] == name@);
            return true;
        }
        k += 1;
    }
    false
}

/// A copy of the names that shares their text.
pub fn share_names(names: &Vec<Arc<String>>) -> (r: Vec<Arc<String>>)
    ensures
        names_view(r@) == names_view(names@),
{
    let mut out: Vec<Arc<String>> = Vec::new();
    let mut k: usize = 0;
    while k < names.len()
        invariant
            k <= names.len(),
            names_view(out@) == names_view(names@).take(k as int),
        decreases names.len() - k,
    {
        let name = share(&names[k]);
        proof {
            lemma_names_view_push(out@, name);
        }
        out.push(name);
        k += 1;
        assert(names_view(names@).take(k as int) =~= names_view(names@).take(k - 1).push(
            name@,
        ));
    }
    assert(names_view(out@) =~= names_view(names@));
    out
}

fn lower_items(known: &Vec<Arc<String>>, items: &Vec<Spanned<syntax::LispVal>>, from: usize) -> (r:
    Result<Vec<Spanned<LispVal>>, Diagnostic>)
    requires
        from <= items.len(),
    ensures
        lowered_seq_view(r) == lower_seq(
            names_view(known@),
            syntax::nodes_view(items@),
            from as int,
            Seq::empty(),
        ),
    decreases items, 1int,
{
    let mut out: Vec<Spanned<LispVal>> = Vec::new();
    let mut k: usize = from;
    assert(nodes_view(out@) =~= Seq::<Node>::empty());
    while k < items.len()
        invariant
            from <= k <= items.len(),
            lower_seq(names_view(known@), syntax::nodes_view(items@), from as int, Seq::empty())
                == lower_seq(
                names_view(known@),
                syntax::nodes_view(items@),
                k as int,
                nodes_view(out@),
            ),
        decreases items.len() - k,
    {
        match lower_tree(known, &items[k]) {
            Err(d) => {
                return Err(d);
            },
            Ok(lowered) => {
                proof {
                    lemma_nodes_view_push(out@, lowered);
                }
                out.push(lowered);
                k += 1;
            },
        }
    }
    Ok(out)
}

/// Lowers one tree against the names that a call can name.
pub fn lower_tree(known: &Vec<Arc<String>>, n: &Spanned<syntax::LispVal>) -> (r: Result<
    Spanned<LispVal>,
    Diagnostic,
>)
    ensures
        lowered_view(r) == lower_node(names_view(known@), syntax::node_view(*n)),
    decreases n, 0int,
{
    let source = share(&n.source);
    let span = n.span;
    match &*n.x {
        syntax::LispValX::Atom(s) => Ok(
            Spanned { source, x: Arc::new(LispValX::Atom(share(s))), span },
        ),
        syntax::LispValX::Int(s) => Ok(
            Spanned { source, x: Arc::new(LispValX::Int(share(s))), span },
        ),
        syntax::LispValX::String(s) => Ok(
            Spanned { source, x: Arc::new(LispValX::String(share(s))), span },
        ),
        syntax::LispValX::Bool(b) => Ok(Spanned { source, x: Arc::new(LispValX::Bool(*b)), span }),
        syntax::LispValX::List(items) => {
            let head = if items.len() > 0 {
                match &*items[0].x {
                    syntax::LispValX::Atom(name) => Some(share(name)),
                    _ => None,
                }
            } else {
                None
            };
            match head {
                Some(name) => {
                    if operator_named(&name) || holds_name(known, &name) {
                        match lower_items(known, items, 1) {
                            Err(d) => Err(d),
                            Ok(args) => Ok(
                                Spanned {
                                    source,
                                    x: Arc::new(
                                        LispValX::FunctionCall { name, args: Arc::new(args) },
                                    ),
                                    span,
                                },
                            ),
                        }
                    } else {
                        Err(
                            Diagnostic {
                                kind: DiagnosticKind::UnresolvedCall(name),
                                span,
                                in_contract: false,
                            },
                        )
                    }
                },
                None => match lower_items(known, items, 0) {
                    Err(d) => Err(d),
                    Ok(lowered) => Ok(
                        Spanned { source, x: Arc::new(LispValX::List(Arc::new(lowered))), span },
                    ),
                },
            }
        },
        syntax::LispValX::Function { name, params, preconditions, postcondition, body } => {
            let mut inner = share_names(known);
            proof {
                lemma_names_view_push(inner@, *name);
            }
            inner.push(share(name));
            let pre = match preconditions {
                None => None,
                Some(clauses) => match lower_items(&inner, clauses, 0) {
                    Err(d) => {
                        return Err(d);
                    },
                    Ok(lowered) => Some(Arc::new(lowered)),
                },
            };
            let post = match postcondition {
                None => None,
                Some(clause) => match lower_tree(&inner, clause) {
                    Err(d) => {
                        return Err(d);
                    },
                    Ok(lowered) => Some(Arc::new(lowered)),
                },
            };
            match lower_items(&inner, body, 0) {
                Err(d) => Err(d),
                Ok(lowered) => Ok(
                    Spanned {
                        source,
                        x: Arc::new(
                            LispValX::Function {
                                name: share(name),
                                params: share_names(params),
                                preconditions: pre,
                                postcondition: post,
                                body: Arc::new(lowered),
                            },
                        ),
                        span,
                    },
                ),
            }
        },
    }
}

/// The names that the forms define, in order.
pub fn names_of(forms: &Vec<Spanned<syntax::LispVal>>) -> (r: Vec<Arc<String>>)
    ensures
        names_view(r@) == defined_names(syntax::nodes_view(forms@)),
{
    let mut out: Vec<Arc<String>> = Vec::new();
    let mut k: usize = 0;
    let ghost all = defined_names(syntax::nodes_view(forms@));
    while k < forms.len()
        invariant
            k <= forms.len(),
            all == defined_names(syntax::nodes_view(forms@)),
            names_view(out@) == all.take(k as int),
        decreases forms.len() - k,
    {
        let name = match &*forms[k].x {
            syntax::LispValX::Function { name, .. } => share(name),
            _ => Arc::new(String::new()),
        };
        proof {
            lemma_names_view_push(out@, name);
            assert(syntax::nodes_view(forms@)[k as int] == syntax::node_view(forms@[k as int]));
        }
        out.push(name);
        k += 1;
        assert(all.take(k as int) =~= all.take(k - 1).push(name@));
    }
    assert(names_view(out@) =~= all);
    out
}

/// Lowers a parsed module. A top-level form that is no definition is fatal;
/// else the lowered module, or one diagnostic for each definition that
/// holds an unresolved call.
pub fn lower_module(module: &syntax::LispModuleX) -> (r: Result<LispModule, Vec<Diagnostic>>)
    ensures
        lowered_module_view(r) == lower_module_spec(module@),
        r matches Ok(m) ==> all_functions(m@) && m@.len() == module@.len(),
        r matches Err(ds) ==> ds.len() > 0,
{
    proof {
        crate::semantic::lower_laws::lemma_lowered_module(module@);
    }
    let forms = &*module.functions;
    let ghost fv = syntax::nodes_view(forms@);
    let mut k: usize = 0;
    while k < forms.len()
        invariant
            k <= forms.len(),
            fv == syntax::nodes_view(forms@),
            fv == module@,
            first_non_function(fv, 0) == first_non_function(fv, k as int),
        decreases forms.len() - k,
    {
        assert(fv[k as int] == syntax::node_view(forms@[k as int]));
        match &*forms[k].x {
            syntax::LispValX::Function { .. } => {},
            _ => {
                let errors = vec![
                    Diagnostic {
                        kind: DiagnosticKind::NotAFunction,
                        span: forms[k].span,
                        in_contract: false,
                    },
                ];
                assert(diagnostics_view(errors@) =~= seq![not_a_function(fv[k as int].span)]);
                assert(!(fv[k as int].x is Function));
                assert(first_non_function(fv, k as int) == k);
                assert(fv.len() == forms.len());
                return Err(errors);
            },
        }
        k += 1;
    }
    let known = names_of(forms);
    let mut done: Vec<Spanned<LispVal>> = Vec::new();
    let mut errors: Vec<Diagnostic> = Vec::new();
    assert(nodes_view(done@) =~= Seq::<Node>::empty());
    assert(diagnostics_view(errors@) =~= Seq::<DiagnosticView>::empty());
    let mut j: usize = 0;
    while j < forms.len()
        invariant
            j <= forms.len(),
            fv == syntax::nodes_view(forms@),
            names_view(known@) == defined_names(fv),
            lower_forms(defined_names(fv), fv, 0, Seq::empty(), Seq::empty()) == lower_forms(
                defined_names(fv),
                fv,
                j as int,
                nodes_view(done@),
                diagnostics_view(errors@),
            ),
        decreases forms.len() - j,
    {
        match lower_tree(&known, &forms[j]) {
            Ok(lowered) => {
                proof {
                    lemma_nodes_view_push(done@, lowered);
                }
                done.push(lowered);
            },
            Err(d) => {
                assert(diagnostics_view(errors@.push(d)) =~= diagnostics_view(errors@).push(d@));
                errors.push(d);
            },
        }
        j += 1;
    }
    if errors.len() == 0 {
        Ok(Arc::new(LispModuleX { functions: Arc::new(done) }))
    } else {
        Err(errors)
    }
}

} // verus!
