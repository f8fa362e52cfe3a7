//! The typing rules, as mathematical functions on an ordered context.

use crate::common::Span;
use crate::parser::ast::{Node, Sexp};
use crate::semantic::diagnostic::{DiagnosticKindView, DiagnosticView};
use crate::semantic::typeck::{LiteralType, Type};
use vstd::prelude::*;

verus! {

/// The mathematical value of one entry of a context.
pub enum Element {
    /// A term variable in scope, with no type.
    Variable(Seq<char>),
    /// A term variable with its type.
    TypedVariable(Seq<char>, Type),
    /// An existential that is not solved.
    Existential(usize),
    /// An existential with its solution.
    Solved(usize, Type),
    /// The start of a scope.
    Marker(usize),
}

/// A context: its entries, oldest first.
pub type Ctx = Seq<Element>;

/// What a derivation threads through: the context and the next fresh
/// identifier.
pub struct Env {
    pub ctx: Ctx,
    pub next: usize,
}

/// Whether a function's signature can be used, and how.
#[derive(Clone, Copy, Debug, PartialEq, Eq, Hash, Structural)]
pub enum Status {
    /// Not yet reached in the processing order.
    Pending,
    /// Being checked: its existentials stand in the context.
    Assumed,
    /// Checked: an existential left in it stands for any type.
    Final,
}

/// The mathematical value of one entry of the signature table.
pub struct EntryView {
    pub name: Seq<char>,
    pub params: Seq<Type>,
    pub ret: Type,
    pub status: Status,
}

pub type Table = Seq<EntryView>;

pub open spec fn diag(kind: DiagnosticKindView, span: Span, in_contract: bool) -> DiagnosticView {
    DiagnosticView { kind, span, in_contract }
}

pub open spec fn literal(t: LiteralType) -> Type {
    Type::Literal(t)
}

/// The type of the innermost typed binding of `name` among the first
/// `upto` entries.
pub open spec fn lookup(ctx: Ctx, name: Seq<char>, upto: int) -> Option<Type>
    decreases upto,
{
    if upto <= 0 || upto > ctx.len() {
        None
    } else {
        match ctx[upto - 1] {
            Element::TypedVariable(n, t) => if n == name {
                Some(t)
            } else {
                lookup(ctx, name, upto - 1)
            },
            _ => lookup(ctx, name, upto - 1),
        }
    }
}

/// Whether the entry introduces the existential `id`, solved or not.
pub open spec fn introduces(e: Element, id: usize) -> bool {
    match e {
        Element::Existential(i) => i == id,
        Element::Solved(i, _) => i == id,
        _ => false,
    }
}

/// The index of the first entry from `from` on that introduces `id`, or
/// the length of the context.
pub open spec fn position(ctx: Ctx, id: usize, from: int) -> int
    decreases ctx.len() - from,
{
    if 0 <= from < ctx.len() {
        if introduces(ctx[from], id) {
            from
        } else {
            position(ctx, id, from + 1)
        }
    } else {
        ctx.len() as int
    }
}

/// The type that `t` stands for, following at most `fuel` solutions.
pub open spec fn resolve(ctx: Ctx, t: Type, fuel: nat) -> Type
    decreases fuel,
{
    match t {
        Type::Literal(_) => t,
        Type::Existential(id) => {
            let p = position(ctx, id, 0);
            if fuel > 0 && 0 <= p < ctx.len() {
                match ctx[p] {
                    Element::Solved(_, s) => resolve(ctx, s, (fuel - 1) as nat),
                    _ => t,
                }
            } else {
                t
            }
        },
    }
}

/// The type that `t` stands for in the context: a literal type, or an
/// existential that is not solved.
pub open spec fn apply(ctx: Ctx, t: Type) -> Type {
    resolve(ctx, t, ctx.len())
}

/// The context with the unsolved existential `id` solved to `t`, at the
/// place where it was introduced; nothing if the context holds no such
/// existential.
pub open spec fn solve(ctx: Ctx, id: usize, t: Type) -> Option<Ctx> {
    let p = position(ctx, id, 0);
    if 0 <= p < ctx.len() && ctx[p] == Element::Existential(id) {
        Some(ctx.update(p, Element::Solved(id, t)))
    } else {
        None
    }
}

/// The context in which the two types are one, or nothing if they cannot
/// be. Literal types must be equal; an unsolved existential is solved to
/// the other type, and of two existentials the one introduced later to the
/// one introduced earlier.
pub open spec fn unify(ctx: Ctx, expected: Type, actual: Type) -> Option<Ctx> {
    let e = apply(ctx, expected);
    let a = apply(ctx, actual);
    match (e, a) {
        (Type::Literal(x), Type::Literal(y)) => if x == y {
            Some(ctx)
        } else {
            None
        },
        (Type::Existential(i), Type::Literal(_)) => solve(ctx, i, a),
        (Type::Literal(_), Type::Existential(j)) => solve(ctx, j, e),
        (Type::Existential(i), Type::Existential(j)) => if i == j {
            Some(ctx)
        } else if position(ctx, i, 0) < position(ctx, j, 0) {
            solve(ctx, j, e)
        } else {
            solve(ctx, i, a)
        },
    }
}

pub open spec fn is_arithmetic(n: Seq<char>) -> bool {
    n == "+"@ || n == "-"@ || n == "*"@ || n == "/"@
}

pub open spec fn is_comparison(n: Seq<char>) -> bool {
    n == "<"@ || n == "<="@ || n == ">"@ || n == ">="@ || n == "=="@
}

/// The result type of the operator `n`; every operator takes two `Int`s.
pub open spec fn operator_result(n: Seq<char>) -> Option<LiteralType> {
    if is_arithmetic(n) {
        Some(LiteralType::Int)
    } else if is_comparison(n) {
        Some(LiteralType::Bool)
    } else {
        None
    }
}

pub open spec fn operator_params() -> Seq<Type> {
    seq![literal(LiteralType::Int), literal(LiteralType::Int)]
}

/// The index of the first entry from `from` on for the function `name`, or
/// the length of the table.
pub open spec fn find_entry(table: Table, name: Seq<char>, from: int) -> int
    decreases table.len() - from,
{
    if 0 <= from < table.len() {
        if table[from].name == name {
            from
        } else {
            find_entry(table, name, from + 1)
        }
    } else {
        table.len() as int
    }
}

/// The fresh existential that stands for `g` in this instance, if one was
/// made.
pub open spec fn instance_of(made: Seq<(usize, usize)>, g: usize, from: int) -> Option<usize>
    decreases made.len() - from,
{
    if 0 <= from < made.len() {
        if made[from].0 == g {
            Some(made[from].1)
        } else {
            instance_of(made, g, from + 1)
        }
    } else {
        None
    }
}

/// The context with one more unsolved existential, the next fresh one.
pub open spec fn mint(env: Env) -> Env {
    Env { ctx: env.ctx.push(Element::Existential(env.next)), next: (env.next + 1) as usize }
}

/// An instance of the types of a final signature: each existential in them
/// is replaced, wherever it occurs, by one fresh existential that the
/// context then holds. Nothing if the identifiers run out.
pub open spec fn instantiate(
    env: Env,
    types: Seq<Type>,
    from: int,
    made: Seq<(usize, usize)>,
    acc: Seq<Type>,
) -> (Env, Option<Seq<Type>>)
    decreases types.len() - from,
{
    if 0 <= from < types.len() {
        match types[from] {
            Type::Literal(_) => instantiate(env, types, from + 1, made, acc.push(types[from])),
            Type::Existential(g) => match instance_of(made, g, 0) {
                Some(f) => instantiate(
                    env,
                    types,
                    from + 1,
                    made,
                    acc.push(Type::Existential(f)),
                ),
                None => if env.next == usize::MAX {
                    (env, None)
                } else {
                    instantiate(
                        mint(env),
                        types,
                        from + 1,
                        made.push((g, env.next)),
                        acc.push(Type::Existential(env.next)),
                    )
                },
            },
        }
    } else {
        (env, Some(acc))
    }
}

/// The types of a signature in one sequence: the parameters, then the
/// result.
pub open spec fn signature_types(e: EntryView) -> Seq<Type> {
    e.params.push(e.ret)
}

/// What a rule gives: the context and counter that it leaves, and a type
/// or a diagnostic.
pub type Synthesis = (Env, Result<Type, DiagnosticView>);

/// What a check gives: the context and counter that it leaves, and
/// possibly a diagnostic.
pub type Checked = (Env, Result<(), DiagnosticView>);

pub open spec fn arity_mismatch(params: nat, args: nat, span: Span, in_contract: bool)
    -> DiagnosticView {
    diag(
        DiagnosticKindView::ArityMismatch { params: params as usize, args: args as usize },
        span,
        in_contract,
    )
}

/// Synthesis: the type of an expression, with no type expected. A literal
/// has its literal type; an identifier the type of its innermost typed
/// binding; a list that is data has type `Unit` once each of its items has
/// a type; a call has the callee's result type once each argument checks
/// against the parameter at its place.
pub open spec fn synthesize(table: Table, env: Env, n: Node, in_contract: bool) -> Synthesis
    decreases n, 0int,
{
    match n.x {
        Sexp::Int(_) => (env, Ok(literal(LiteralType::Int))),
        Sexp::Str(_) => (env, Ok(literal(LiteralType::String))),
        Sexp::Bool(_) => (env, Ok(literal(LiteralType::Bool))),
        Sexp::Atom(name) => match lookup(env.ctx, name, env.ctx.len() as int) {
            Some(t) => (env, Ok(apply(env.ctx, t))),
            None => (
                env,
                Err(diag(DiagnosticKindView::UnboundVariable(name), n.span, in_contract)),
            ),
        },
        Sexp::List(items) => {
            let (after, r) = synthesize_all(table, env, items, 0, in_contract);
            match r {
                Ok(_) => (after, Ok(literal(LiteralType::Unit))),
                Err(d) => (after, Err(d)),
            }
        },
        Sexp::Function { .. } => (
            env,
            Err(diag(DiagnosticKindView::NestedDefinition, n.span, in_contract)),
        ),
        Sexp::FunctionCall { name, args } => match operator_result(name) {
            Some(result) => if args.len() != 2 {
                (env, Err(arity_mismatch(2, args.len(), n.span, in_contract)))
            } else {
                let (after, r) = check_all(table, env, args, operator_params(), 0, in_contract);
                match r {
                    Ok(_) => (after, Ok(literal(result))),
                    Err(d) => (after, Err(d)),
                }
            },
            None => {
                let k = find_entry(table, name, 0);
                if !(0 <= k < table.len()) {
                    (env, Err(diag(DiagnosticKindView::UnresolvedCall(name), n.span, in_contract)))
                } else if table[k].status is Pending {
                    (
                        env,
                        Err(
                            diag(DiagnosticKindView::SignatureNotReady(name), n.span, in_contract),
                        ),
                    )
                } else if args.len() != table[k].params.len() {
                    (
                        env,
                        Err(
                            arity_mismatch(table[k].params.len(), args.len(), n.span, in_contract),
                        ),
                    )
                } else {
                    let (ready, types) = if table[k].status is Final {
                        instantiate(env, signature_types(table[k]), 0, Seq::empty(), Seq::empty())
                    } else {
                        (env, Some(signature_types(table[k])))
                    };
                    match types {
                        None => (
                            ready,
                            Err(diag(DiagnosticKindView::OutOfIdentifiers, n.span, in_contract)),
                        ),
                        Some(types) => {
                            let (after, r) = check_all(table, ready, args, types, 0, in_contract);
                            match r {
                                Ok(_) => (after, Ok(apply(after.ctx, types[args.len() as int]))),
                                Err(d) => (after, Err(d)),
                            }
                        },
                    }
                }
            },
        },
    }
}

/// Checking: the expression's type is synthesized and made one with the
/// expected type.
pub open spec fn check(table: Table, env: Env, n: Node, expected: Type, in_contract: bool)
    -> Checked
    decreases n, 1int,
{
    let (after, r) = synthesize(table, env, n, in_contract);
    match r {
        Err(d) => (after, Err(d)),
        Ok(actual) => match unify(after.ctx, expected, actual) {
            Some(ctx) => (Env { ctx, next: after.next }, Ok(())),
            None => (
                after,
                Err(
                    diag(
                        DiagnosticKindView::TypeMismatch {
                            expected: apply(after.ctx, expected),
                            actual: apply(after.ctx, actual),
                        },
                        n.span,
                        in_contract,
                    ),
                ),
            ),
        },
    }
}

/// Checks the arguments from `from` on, each against the type at its
/// place, up to the first diagnostic.
pub open spec fn check_all(
    table: Table,
    env: Env,
    args: Seq<Node>,
    types: Seq<Type>,
    from: int,
    in_contract: bool,
) -> Checked
    decreases args, args.len() - from,
{
    if 0 <= from < args.len() && from < types.len() {
        let (after, r) = check(table, env, args[from], types[from], in_contract);
        match r {
            Err(d) => (after, Err(d)),
            Ok(_) => check_all(table, after, args, types, from + 1, in_contract),
        }
    } else {
        (env, Ok(()))
    }
}

/// Synthesizes the items from `from` on, up to the first diagnostic.
pub open spec fn synthesize_all(
    table: Table,
    env: Env,
    items: Seq<Node>,
    from: int,
    in_contract: bool,
) -> Checked
    decreases items, items.len() - from,
{
    if 0 <= from < items.len() {
        let (after, r) = synthesize(table, env, items[from], in_contract);
        match r {
            Err(d) => (after, Err(d)),
            Ok(_) => synthesize_all(table, after, items, from + 1, in_contract),
        }
    } else {
        (env, Ok(()))
    }
}

/// A contract clause must have type `Bool`.
pub open spec fn check_contract(table: Table, env: Env, clause: Node) -> Checked {
    let (after, r) = synthesize(table, env, clause, true);
    match r {
        Err(d) => (after, Err(d)),
        Ok(actual) => match unify(after.ctx, literal(LiteralType::Bool), actual) {
            Some(ctx) => (Env { ctx, next: after.next }, Ok(())),
            None => (
                after,
                Err(
                    diag(
                        DiagnosticKindView::ContractNotBool { actual: apply(after.ctx, actual) },
                        clause.span,
                        true,
                    ),
                ),
            ),
        },
    }
}

/// Checks the contract clauses from `from` on, up to the first diagnostic.
pub open spec fn check_contracts(table: Table, env: Env, clauses: Seq<Node>, from: int) -> Checked
    decreases clauses.len() - from,
{
    if 0 <= from < clauses.len() {
        let (after, r) = check_contract(table, env, clauses[from]);
        match r {
            Err(d) => (after, Err(d)),
            Ok(_) => check_contracts(table, after, clauses, from + 1),
        }
    } else {
        (env, Ok(()))
    }
}

/// Checks the body expressions from `from` on: each has a type, and the
/// last is checked against the result type.
pub open spec fn check_body(table: Table, env: Env, body: Seq<Node>, from: int, ret: Type)
    -> Checked
    decreases body.len() - from,
{
    if 0 <= from < body.len() - 1 {
        let (after, r) = synthesize(table, env, body[from], false);
        match r {
            Err(d) => (after, Err(d)),
            Ok(_) => check_body(table, after, body, from + 1, ret),
        }
    } else if 0 <= from && from == body.len() - 1 {
        check(table, env, body[from], ret, false)
    } else {
        (env, Ok(()))
    }
}

/// The context with the parameters from `from` on bound to their types.
pub open spec fn bind_params(ctx: Ctx, names: Seq<Seq<char>>, types: Seq<Type>, from: int) -> Ctx
    decreases names.len() - from,
{
    if 0 <= from < names.len() && from < types.len() {
        bind_params(
            ctx.push(Element::TypedVariable(names[from], types[from])),
            names,
            types,
            from + 1,
        )
    } else {
        ctx
    }
}

/// The name that a postcondition has for the result.
pub open spec fn result_text() -> Seq<char> {
    "result"@
}

/// The first `len` entries of the context, or all of it if it is shorter.
pub open spec fn truncated(ctx: Ctx, len: int) -> Ctx {
    if 0 <= len <= ctx.len() {
        ctx.subrange(0, len)
    } else {
        ctx
    }
}

pub open spec fn with_ctx(env: Env, ctx: Ctx) -> Env {
    Env { ctx, next: env.next }
}

/// What follows the entry of a definition: the preconditions, the body,
/// the postcondition, each only if what came before gave no diagnostic.
pub open spec fn check_parts(
    table: Table,
    env: Env,
    span: Span,
    preconditions: Option<Seq<Node>>,
    body: Seq<Node>,
    postcondition: Option<Box<Node>>,
    ret: Type,
) -> Checked {
    let (e1, r1) = match preconditions {
        Some(clauses) => check_contracts(table, env, clauses, 0),
        None => (env, Ok(())),
    };
    if r1 is Err {
        (e1, r1)
    } else if body.len() == 0 {
        (e1, Err(diag(DiagnosticKindView::EmptyBody, span, false)))
    } else {
        let (e2, r2) = check_body(table, e1, body, 0, ret);
        if r2 is Err {
            (e2, r2)
        } else {
            match postcondition {
                Some(clause) => check_contract(
                    table,
                    with_ctx(e2, e2.ctx.push(Element::TypedVariable(result_text(), ret))),
                    *clause,
                ),
                None => (e2, Ok(())),
            }
        }
    }
}

/// Checks the definition `f` against entry `k` of the table. Enter: a
/// marker, then each parameter bound to its type in the signature. Then
/// the preconditions, each of type `Bool`; the body, its last expression
/// checked against the result type; the postcondition, of type `Bool`, with
/// `result` bound to the result type. Exit: the context is cut back to
/// where the marker went in, whatever the outcome.
pub open spec fn check_definition(table: Table, env: Env, f: Node, k: int) -> Checked {
    match f.x {
        Sexp::Function { name, params, preconditions, postcondition, body } => {
            if env.next == usize::MAX {
                (env, Err(diag(DiagnosticKindView::OutOfIdentifiers, f.span, false)))
            } else {
                let entered = Env {
                    ctx: bind_params(
                        env.ctx.push(Element::Marker(env.next)),
                        params,
                        table[k].params,
                        0,
                    ),
                    next: (env.next + 1) as usize,
                };
                let (after, r) = check_parts(
                    table,
                    entered,
                    f.span,
                    preconditions,
                    body,
                    postcondition,
                    table[k].ret,
                );
                (with_ctx(after, truncated(after.ctx, env.ctx.len() as int)), r)
            }
        },
        _ => (env, Err(diag(DiagnosticKindView::NotAFunction, f.span, false))),
    }
}

/// The number of parameters of a definition.
pub open spec fn arity_of(f: Node) -> nat {
    match f.x {
        Sexp::Function { params, .. } => params.len(),
        _ => 0,
    }
}

/// The existentials `start`, `start + 1`, ... as types.
pub open spec fn minted_types(start: usize, count: nat) -> Seq<Type> {
    Seq::new(count, |i: int| Type::Existential((start + i) as usize))
}

/// The existentials `start`, `start + 1`, ... as unsolved context entries.
pub open spec fn minted_entries(start: usize, count: nat) -> Seq<Element> {
    Seq::new(count, |i: int| Element::Existential((start + i) as usize))
}

/// The table and context in which function `k`, of `arity` parameters, is
/// assumed to have a fresh existential for each parameter and one more for
/// its result.
pub open spec fn assume_signature(table: Table, env: Env, k: int, arity: nat) -> (Table, Env) {
    (
        table.update(
            k,
            EntryView {
                name: table[k].name,
                params: minted_types(env.next, arity),
                ret: Type::Existential((env.next + arity) as usize),
                status: Status::Assumed,
            },
        ),
        Env {
            ctx: env.ctx + minted_entries(env.next, arity + 1),
            next: (env.next + arity + 1) as usize,
        },
    )
}

/// Assumes a signature for each member of the group from `from` on, and
/// says whether the identifiers sufficed; if not, it stops at the member
/// for which they ran out.
pub open spec fn assume_group(
    table: Table,
    env: Env,
    fns: Seq<Node>,
    group: Seq<usize>,
    from: int,
) -> (Table, Env, bool)
    decreases group.len() - from,
{
    if 0 <= from < group.len() {
        let k = group[from] as int;
        let arity = arity_of(fns[k]);
        if env.next + arity + 1 > usize::MAX {
            (table, env, false)
        } else {
            let (t, e) = assume_signature(table, env, k, arity);
            assume_group(t, e, fns, group, from + 1)
        }
    } else {
        (table, env, true)
    }
}

/// Whether entry `k` has as many parameter types as definition `k` has
/// parameters.
pub open spec fn has_arity(table: Table, fns: Seq<Node>, k: int) -> bool {
    table[k].params.len() == arity_of(fns[k])
}

/// Whether the signature of function `k` is final and fits its definition.
pub open spec fn decided(table: Table, fns: Seq<Node>, k: int) -> bool {
    table[k].status is Final && has_arity(table, fns, k)
}

/// Whether the diagnostic ends the run.
pub open spec fn is_fatal(d: DiagnosticView) -> bool {
    crate::semantic::diagnostic::severity_of(d) == crate::semantic::diagnostic::Severity::Fatal
}

/// What checking several definitions gives: the context and counter left,
/// the diagnostics in order, and whether a fatal one ended the run.
pub struct Round {
    pub env: Env,
    pub errors: Seq<DiagnosticView>,
    pub halted: bool,
}

/// Checks the members of the group from `from` on, each against its entry.
/// A definition gives at most one diagnostic; a fatal one ends the run.
pub open spec fn check_members(
    table: Table,
    env: Env,
    fns: Seq<Node>,
    group: Seq<usize>,
    from: int,
    errors: Seq<DiagnosticView>,
) -> Round
    decreases group.len() - from,
{
    if 0 <= from < group.len() {
        let k = group[from] as int;
        let (after, r) = check_definition(table, env, fns[k], k);
        match r {
            Ok(_) => check_members(table, after, fns, group, from + 1, errors),
            Err(d) => if is_fatal(d) {
                Round { env: after, errors: errors.push(d), halted: true }
            } else {
                check_members(table, after, fns, group, from + 1, errors.push(d))
            },
        }
    } else {
        Round { env, errors, halted: false }
    }
}

pub open spec fn apply_all(ctx: Ctx, types: Seq<Type>) -> Seq<Type> {
    types.map_values(|t: Type| apply(ctx, t))
}

/// The table with the signatures of the members from `from` on made
/// final: every type in them is what it stands for in the context.
pub open spec fn finalize_group(table: Table, ctx: Ctx, group: Seq<usize>, from: int) -> Table
    decreases group.len() - from,
{
    if 0 <= from < group.len() {
        let k = group[from] as int;
        finalize_group(
            table.update(
                k,
                EntryView {
                    name: table[k].name,
                    params: apply_all(ctx, table[k].params),
                    ret: apply(ctx, table[k].ret),
                    status: Status::Final,
                },
            ),
            ctx,
            group,
            from + 1,
        )
    } else {
        table
    }
}

/// What checking a group gives: the table with the group's signatures,
/// and the round's outcome.
pub struct GroupOutcome {
    pub table: Table,
    pub round: Round,
}

/// Checks one group. A marker opens its scope and every member is assumed
/// to have a signature of fresh existentials; the members are checked
/// against these, which solves them; the signatures are then made final,
/// and if no diagnostic arose every member is checked once more against
/// the final signatures. The context is cut back to the marker at the end.
pub open spec fn check_group(table: Table, env: Env, fns: Seq<Node>, group: Seq<usize>)
    -> GroupOutcome {
    let here = if group.len() > 0 {
        fns[group[0] as int].span
    } else {
        Span { start: 0, end: 0 }
    };
    let out = diag(DiagnosticKindView::OutOfIdentifiers, here, false);
    if env.next == usize::MAX {
        GroupOutcome { table, round: Round { env, errors: seq![out], halted: true } }
    } else {
        let opened = Env {
            ctx: env.ctx.push(Element::Marker(env.next)),
            next: (env.next + 1) as usize,
        };
        let (assumed, ready, enough) = assume_group(table, opened, fns, group, 0);
        if !enough {
            GroupOutcome {
                table: assumed,
                round: Round {
                    env: with_ctx(ready, truncated(ready.ctx, env.ctx.len() as int)),
                    errors: seq![out],
                    halted: true,
                },
            }
        } else {
            let first = check_members(assumed, ready, fns, group, 0, Seq::empty());
            let decided = finalize_group(assumed, first.env.ctx, group, 0);
            let last = if first.errors.len() == 0 {
                check_members(decided, first.env, fns, group, 0, Seq::empty())
            } else {
                first
            };
            GroupOutcome {
                table: decided,
                round: Round {
                    env: with_ctx(last.env, truncated(last.env.ctx, env.ctx.len() as int)),
                    errors: last.errors,
                    halted: last.halted,
                },
            }
        }
    }
}

/// Checks the groups from `from` on in order, up to a fatal diagnostic.
pub open spec fn check_groups(
    table: Table,
    env: Env,
    fns: Seq<Node>,
    order: Seq<Seq<usize>>,
    from: int,
    errors: Seq<DiagnosticView>,
) -> (Table, Seq<DiagnosticView>)
    decreases order.len() - from,
{
    if 0 <= from < order.len() {
        let o = check_group(table, env, fns, order[from]);
        if o.round.halted {
            (o.table, errors + o.round.errors)
        } else {
            check_groups(o.table, o.round.env, fns, order, from + 1, errors + o.round.errors)
        }
    } else {
        (table, errors)
    }
}

/// The table before any function is reached: every signature pending.
pub open spec fn initial_table(fns: Seq<Node>) -> Table {
    fns.map_values(
        |f: Node|
            EntryView {
                name: crate::semantic::lower::defined_name(f),
                params: Seq::empty(),
                ret: literal(LiteralType::Unit),
                status: Status::Pending,
            },
    )
}

/// The mathematical value of a signature.
pub struct SignatureView {
    pub params: Seq<Type>,
    pub ret: Type,
}

/// The signatures of a table, in order.
pub open spec fn signatures_of(table: Table) -> Seq<SignatureView> {
    table.map_values(|e: EntryView| SignatureView { params: e.params, ret: e.ret })
}

/// What checking a lowered module gives. A form that is no definition is
/// fatal and the only diagnostic. Else the groups are checked in the
/// processing order of the call graph, from an empty context and the
/// first identifier: the signature of every definition, in source order,
/// if no diagnostic arose, and else the diagnostics in the order in which
/// they arose.
pub open spec fn check_module_spec(fns: Seq<Node>) -> Result<
    Seq<SignatureView>,
    Seq<DiagnosticView>,
> {
    let bad = crate::semantic::lower::first_non_function(fns, 0);
    if 0 <= bad < fns.len() {
        Err(seq![crate::semantic::lower::not_a_function(fns[bad].span)])
    } else {
        let (table, errors) = check_groups(
            initial_table(fns),
            Env { ctx: Seq::empty(), next: 0 },
            fns,
            crate::semantic::order::processing_order(crate::semantic::calls::call_graph(fns)),
            0,
            Seq::empty(),
        );
        if errors.len() == 0 {
            Ok(signatures_of(table))
        } else {
            Err(errors)
        }
    }
}

/// What lowering and checking a parsed module gives: the lowered module
/// with its signatures, or the diagnostics of the stage that failed.
pub open spec fn synth_spec(forms: Seq<Node>) -> Result<
    (Seq<Node>, Seq<SignatureView>),
    Seq<DiagnosticView>,
> {
    match crate::semantic::lower::lower_module_spec(forms) {
        Err(ds) => Err(ds),
        Ok(lowered) => match check_module_spec(lowered) {
            Err(ds) => Err(ds),
            Ok(signatures) => Ok((lowered, signatures)),
        },
    }
}

} // verus!
