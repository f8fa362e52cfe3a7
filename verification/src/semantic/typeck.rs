//! The bidirectional type checker.

use crate::common::{name_is, share, Span, Spanned};
use crate::parser::ast as syntax;
use crate::parser::ast::{all_functions, names_view, Node};
use crate::semantic::ast::{node_view, nodes_view, LispModule, LispModuleX, LispVal, LispValX};
use crate::semantic::calls::{call_graph, call_matrix};
use crate::semantic::context::{
    evolves, lemma_evolves_trans, lemma_evolves_truncated, Context, ContextElement,
};
use crate::semantic::context_laws::{
    lemma_sound_bind, lemma_sound_mint, lemma_sound_push, lemma_sound_truncated,
    lemma_sound_unify, sound,
};
use crate::semantic::diagnostic::{diagnostics_view, Diagnostic, DiagnosticKind, DiagnosticView};
use crate::semantic::lower::{first_non_function, lower_module, not_a_function};
use crate::semantic::groups::check_one_group;
use crate::semantic::order::{groups_view, order_groups, processing_order};
use crate::semantic::order_laws::{group_index, lemma_node_in_order};
use crate::semantic::rules::{
    apply, arity_of, bind_params, check, check_all, check_body, check_contract, check_contracts,
    check_definition, check_groups, check_module_spec, check_parts, decided, diag, find_entry,
    initial_table, instance_of, instantiate, literal, operator_params, operator_result,
    result_text, signature_types, signatures_of, synth_spec, synthesize, synthesize_all, Element,
    EntryView, Env, SignatureView, Status, Table,
};
use std::sync::Arc;
use vstd::prelude::*;

verus! {

/// The source of fresh existential identifiers of one checking run: the
/// next identifier to hand out.
#[derive(Clone, Copy, Debug, PartialEq, Eq, Structural)]
pub struct State {
    pub existentials: usize,
}

impl State {
    /// The state at the start of a run.
    pub fn initial() -> (r: State)
        ensures
            r.existentials == 0,
    {
        State { existentials: 0 }
    }

    /// Whether every identifier has been handed out.
    pub fn exhausted(&self) -> (r: bool)
        ensures
            r == (self.existentials == usize::MAX),
    {
        self.existentials == usize::MAX
    }

    /// Hands out the next identifier; it was never handed out before, and
    /// every later one is greater.
    pub fn fresh_existentials(&mut self) -> (r: usize)
        requires
            old(self).existentials < usize::MAX,
        ensures
            r == old(self).existentials,
            final(self).existentials == old(self).existentials + 1,
    {
        let result = self.existentials;
        self.existentials += 1;
        result
    }
}

/// The types of literals.
#[derive(Clone, Copy, Debug, PartialEq, Eq, Hash, Structural)]
pub enum LiteralType {
    Unit,
    String,
    Int,
    Bool,
}

/// A type: that of a literal, or an existential variable that stands for
/// a type not yet known.
#[derive(Clone, Copy, Debug, PartialEq, Eq, Hash, Structural)]
pub enum Type {
    Literal(LiteralType),
    Existential(usize),
}

/// The types of a function: those of its parameters and that of its
/// result. An existential in a final signature stands for any type.
#[derive(Clone, Debug, PartialEq, Eq)]
pub struct Signature {
    pub params: Vec<Type>,
    pub ret: Type,
}

impl View for Signature {
    type V = SignatureView;

    open spec fn view(&self) -> SignatureView {
        SignatureView { params: self.params@, ret: self.ret }
    }
}

/// One entry of the signature table: a function's name, its signature as
/// far as it is known, and whether it can be used.
#[derive(Clone, Debug, PartialEq, Eq)]
pub struct Entry {
    pub name: Arc<String>,
    pub signature: Signature,
    pub status: Status,
}

impl View for Entry {
    type V = EntryView;

    open spec fn view(&self) -> EntryView {
        EntryView {
            name: self.name@,
            params: self.signature.params@,
            ret: self.signature.ret,
            status: self.status,
        }
    }
}

pub open spec fn table_view(t: Seq<Entry>) -> Table {
    t.map_values(|e: Entry| e@)
}

pub open spec fn env_of(c: Context, s: State) -> Env {
    Env { ctx: c@, next: s.existentials }
}

pub open spec fn synthesis_view(r: Result<Type, Diagnostic>) -> Result<Type, DiagnosticView> {
    match r {
        Ok(t) => Ok(t),
        Err(d) => Err(d@),
    }
}

pub open spec fn checked_view(r: Result<(), Diagnostic>) -> Result<(), DiagnosticView> {
    match r {
        Ok(_) => Ok(()),
        Err(d) => Err(d@),
    }
}

pub open spec fn types_view(r: Option<Vec<Type>>) -> Option<Seq<Type>> {
    match r {
        Some(v) => Some(v@),
        None => None,
    }
}

fn report(kind: DiagnosticKind, span: Span, in_contract: bool) -> (r: Diagnostic)
    ensures
        r@ == diag(kind@, span, in_contract),
{
    Diagnostic { kind, span, in_contract }
}

/// The result type of the operator `name`, if it is one.
pub fn operator_type(name: &Arc<String>) -> (r: Option<LiteralType>)
    ensures
        r == operator_result(name@),
{
    if name_is(name, "+") || name_is(name, "-") || name_is(name, "*") || name_is(name, "/") {
        Some(LiteralType::Int)
    } else if name_is(name, "<") || name_is(name, "<=") || name_is(name, ">") || name_is(
        name,
        ">=",
    ) || name_is(name, "==") {
        Some(LiteralType::Bool)
    } else {
        None
    }
}

/// The index of the first entry for the function `name`, or the length of
/// the table.
pub fn entry_index(table: &Vec<Entry>, name: &Arc<String>) -> (r: usize)
    ensures
        r == find_entry(table_view(table@), name@, 0),
        r <= table.len(),
{
    let mut k: usize = 0;
    while k < table.len()
        invariant
            k <= table.len(),
            find_entry(table_view(table@), name@, 0) == find_entry(
                table_view(table@),
                name@,
                k as int,
            ),
        decreases table.len() - k,
    {
        if *table[k].name == **name {
            return k;
        }
        k += 1;
    }
    k
}

fn instance(made: &Vec<(usize, usize)>, g: usize) -> (r: Option<usize>)
    ensures
        r == instance_of(made@, g, 0),
{
    let mut k: usize = 0;
    while k < made.len()
        invariant
            k <= made.len(),
            instance_of(made@, g, 0) == instance_of(made@, g, k as int),
        decreases made.len() - k,
    {
        if made[k].0 == g {
            return Some(made[k].1);
        }
        k += 1;
    }
    None
}

/// Makes an instance of the types of a final signature: a fresh
/// existential for each existential in them.
pub fn instantiate_types(context: &mut Context, state: &mut State, types: &Vec<Type>) -> (r:
    Option<Vec<Type>>)
    ensures
        (env_of(*final(context), *final(state)), types_view(r)) == instantiate(
            env_of(*old(context), *old(state)),
            types@,
            0,
            Seq::empty(),
            Seq::empty(),
        ),
        r matches Some(v) ==> v.len() == types.len(),
        evolves(old(context)@, final(context)@),
        old(state).existentials <= final(state).existentials,
        sound(env_of(*old(context), *old(state))) ==> sound(
            env_of(*final(context), *final(state)),
        ),
{
    let mut made: Vec<(usize, usize)> = Vec::new();
    let mut acc: Vec<Type> = Vec::new();
    let mut k: usize = 0;
    let ghost start = env_of(*context, *state);
    while k < types.len()
        invariant
            k <= types.len(),
            acc.len() == k,
            instantiate(start, types@, 0, Seq::empty(), Seq::empty()) == instantiate(
                env_of(*context, *state),
                types@,
                k as int,
                made@,
                acc@,
            ),
            start == env_of(*old(context), *old(state)),
            evolves(start.ctx, context@),
            start.next <= state.existentials,
            sound(start) ==> sound(env_of(*context, *state)),
        decreases types.len() - k,
    {
        let ghost before = context@;
        match types[k] {
            Type::Literal(_) => {
                acc.push(types[k]);
            },
            Type::Existential(g) => match instance(&made, g) {
                Some(f) => {
                    acc.push(Type::Existential(f));
                },
                None => {
                    if state.exhausted() {
                        return None;
                    }
                    let ghost cur = env_of(*context, *state);
                    let f = state.fresh_existentials();
                    context.push(ContextElement::Existential(f));
                    made.push((g, f));
                    acc.push(Type::Existential(f));
                    proof {
                        lemma_evolves_trans(start.ctx, before, context@);
                        if sound(cur) {
                            lemma_sound_mint(cur);
                        }
                    }
                },
            },
        }
        k += 1;
    }
    Some(acc)
}

/// A copy of the types.
pub fn copy_types(types: &Vec<Type>) -> (r: Vec<Type>)
    ensures
        r@ == types@,
{
    let mut out: Vec<Type> = Vec::new();
    let mut k: usize = 0;
    while k < types.len()
        invariant
            k <= types.len(),
            out@ == types@.take(k as int),
        decreases types.len() - k,
    {
        out.push(types[k]);
        k += 1;
        assert(out@ =~= types@.take(k as int));
    }
    assert(types@.take(k as int) =~= types@);
    out
}

/// The types of an entry's signature in one sequence.
fn entry_types(e: &Entry) -> (r: Vec<Type>)
    ensures
        r@ == signature_types(e@),
{
    let mut out = copy_types(&e.signature.params);
    out.push(e.signature.ret);
    out
}

/// Synthesis: the type of the expression `n` in the context, with no type
/// expected. The context may gain entries at the end and have
/// existentials solved in place; the counter only rises.
pub fn synt_to(
    context: &mut Context,
    state: &mut State,
    table: &Vec<Entry>,
    n: &Spanned<LispVal>,
    in_contract: bool,
) -> (r: Result<Type, Diagnostic>)
    ensures
        (env_of(*final(context), *final(state)), synthesis_view(r)) == synthesize(
            table_view(table@),
            env_of(*old(context), *old(state)),
            node_view(*n),
            in_contract,
        ),
        evolves(old(context)@, final(context)@),
        old(state).existentials <= final(state).existentials,
        sound(env_of(*old(context), *old(state))) ==> sound(
            env_of(*final(context), *final(state)),
        ),
    decreases n, 0int,
{
    let span = n.span;
    match &*n.x {
        LispValX::Int(_) => Ok(Type::Literal(LiteralType::Int)),
        LispValX::String(_) => Ok(Type::Literal(LiteralType::String)),
        LispValX::Bool(_) => Ok(Type::Literal(LiteralType::Bool)),
        LispValX::Atom(name) => match context.lookup(name) {
            Some(t) => Ok(context.apply(t)),
            None => Err(report(DiagnosticKind::UnboundVariable(share(name)), span, in_contract)),
        },
        LispValX::List(items) => match synt_all(context, state, table, items, in_contract) {
            Ok(_) => Ok(Type::Literal(LiteralType::Unit)),
            Err(d) => Err(d),
        },
        LispValX::Function { .. } => Err(
            report(DiagnosticKind::NestedDefinition, span, in_contract),
        ),
        LispValX::FunctionCall { name, args } => match operator_type(name) {
            Some(result) => {
                assert(nodes_view(args@).len() == args@.len());
                if args.len() != 2 {
                    return Err(
                        report(
                            DiagnosticKind::ArityMismatch { params: 2, args: args.len() },
                            span,
                            in_contract,
                        ),
                    );
                }
                let types = vec![Type::Literal(LiteralType::Int), Type::Literal(LiteralType::Int)];
                assert(types@ =~= operator_params());
                match check_args(context, state, table, args, &types, in_contract) {
                    Ok(_) => Ok(Type::Literal(result)),
                    Err(d) => Err(d),
                }
            },
            None => {
                assert(nodes_view(args@).len() == args@.len());
                let k = entry_index(table, name);
                if k >= table.len() {
                    return Err(
                        report(DiagnosticKind::UnresolvedCall(share(name)), span, in_contract),
                    );
                }
                assert(table_view(table@)[k as int] == table@[k as int]@);
                let entry = &table[k];
                match entry.status {
                    Status::Pending => {
                        return Err(
                            report(
                                DiagnosticKind::SignatureNotReady(share(name)),
                                span,
                                in_contract,
                            ),
                        );
                    },
                    _ => {},
                }
                if args.len() != entry.signature.params.len() {
                    return Err(
                        report(
                            DiagnosticKind::ArityMismatch {
                                params: entry.signature.params.len(),
                                args: args.len(),
                            },
                            span,
                            in_contract,
                        ),
                    );
                }
                let own = entry_types(entry);
                let ghost before = context@;
                let types = match entry.status {
                    Status::Final => match instantiate_types(context, state, &own) {
                        Some(types) => types,
                        None => {
                            return Err(
                                report(DiagnosticKind::OutOfIdentifiers, span, in_contract),
                            );
                        },
                    },
                    _ => own,
                };
                let ghost ready = context@;
                match check_args(context, state, table, args, &types, in_contract) {
                    Ok(_) => {
                        proof {
                            lemma_evolves_trans(before, ready, context@);
                        }
                        Ok(context.apply(types[args.len()]))
                    },
                    Err(d) => {
                        proof {
                            lemma_evolves_trans(before, ready, context@);
                        }
                        Err(d)
                    },
                }
            },
        },
    }
}

/// Checking: the type of the expression is synthesized and made one with
/// the expected type.
pub fn check_against(
    context: &mut Context,
    state: &mut State,
    table: &Vec<Entry>,
    n: &Spanned<LispVal>,
    expected: Type,
    in_contract: bool,
) -> (r: Result<(), Diagnostic>)
    ensures
        (env_of(*final(context), *final(state)), checked_view(r)) == check(
            table_view(table@),
            env_of(*old(context), *old(state)),
            node_view(*n),
            expected,
            in_contract,
        ),
        evolves(old(context)@, final(context)@),
        old(state).existentials <= final(state).existentials,
        sound(env_of(*old(context), *old(state))) ==> sound(
            env_of(*final(context), *final(state)),
        ),
    decreases n, 1int,
{
    let actual = match synt_to(context, state, table, n, in_contract) {
        Err(d) => {
            return Err(d);
        },
        Ok(t) => t,
    };
    let ghost mid = context@;
    let ghost cur = env_of(*context, *state);
    let r = context.unify(expected, actual);
    proof {
        lemma_evolves_trans(old(context)@, mid, context@);
        if sound(cur) {
            lemma_sound_unify(cur, expected, actual);
        }
    }
    match r {
        Ok(_) => Ok(()),
        Err((e, a)) => Err(
            report(DiagnosticKind::TypeMismatch { expected: e, actual: a }, n.span, in_contract),
        ),
    }
}

/// Checks each argument against the type at its place, up to the first
/// diagnostic.
pub fn check_args(
    context: &mut Context,
    state: &mut State,
    table: &Vec<Entry>,
    args: &Vec<Spanned<LispVal>>,
    types: &Vec<Type>,
    in_contract: bool,
) -> (r: Result<(), Diagnostic>)
    ensures
        (env_of(*final(context), *final(state)), checked_view(r)) == check_all(
            table_view(table@),
            env_of(*old(context), *old(state)),
            nodes_view(args@),
            types@,
            0,
            in_contract,
        ),
        evolves(old(context)@, final(context)@),
        old(state).existentials <= final(state).existentials,
        sound(env_of(*old(context), *old(state))) ==> sound(
            env_of(*final(context), *final(state)),
        ),
    decreases args, 2int,
{
    let mut k: usize = 0;
    let ghost start = env_of(*context, *state);
    while k < args.len() && k < types.len()
        invariant
            k <= args.len(),
            check_all(table_view(table@), start, nodes_view(args@), types@, 0, in_contract)
                == check_all(
                table_view(table@),
                env_of(*context, *state),
                nodes_view(args@),
                types@,
                k as int,
                in_contract,
            ),
            start == env_of(*old(context), *old(state)),
            evolves(start.ctx, context@),
            start.next <= state.existentials,
            sound(start) ==> sound(env_of(*context, *state)),
        decreases args.len() - k,
    {
        let ghost before = context@;
        let r = check_against(context, state, table, &args[k], types[k], in_contract);
        proof {
            lemma_evolves_trans(start.ctx, before, context@);
        }
        match r {
            Err(d) => {
                return Err(d);
            },
            Ok(_) => {},
        }
        k += 1;
    }
    Ok(())
}

/// Synthesizes a type for each item, up to the first diagnostic.
pub fn synt_all(
    context: &mut Context,
    state: &mut State,
    table: &Vec<Entry>,
    items: &Vec<Spanned<LispVal>>,
    in_contract: bool,
) -> (r: Result<(), Diagnostic>)
    ensures
        (env_of(*final(context), *final(state)), checked_view(r)) == synthesize_all(
            table_view(table@),
            env_of(*old(context), *old(state)),
            nodes_view(items@),
            0,
            in_contract,
        ),
        evolves(old(context)@, final(context)@),
        old(state).existentials <= final(state).existentials,
        sound(env_of(*old(context), *old(state))) ==> sound(
            env_of(*final(context), *final(state)),
        ),
    decreases items, 2int,
{
    let mut k: usize = 0;
    let ghost start = env_of(*context, *state);
    while k < items.len()
        invariant
            k <= items.len(),
            synthesize_all(table_view(table@), start, nodes_view(items@), 0, in_contract)
                == synthesize_all(
                table_view(table@),
                env_of(*context, *state),
                nodes_view(items@),
                k as int,
                in_contract,
            ),
            start == env_of(*old(context), *old(state)),
            evolves(start.ctx, context@),
            start.next <= state.existentials,
            sound(start) ==> sound(env_of(*context, *state)),
        decreases items.len() - k,
    {
        let ghost before = context@;
        let r = synt_to(context, state, table, &items[k], in_contract);
        proof {
            lemma_evolves_trans(start.ctx, before, context@);
        }
        match r {
            Err(d) => {
                return Err(d);
            },
            Ok(_) => {},
        }
        k += 1;
    }
    Ok(())
}

/// Checks that a contract clause has type `Bool`.
pub fn check_clause(
    context: &mut Context,
    state: &mut State,
    table: &Vec<Entry>,
    clause: &Spanned<LispVal>,
) -> (r: Result<(), Diagnostic>)
    ensures
        (env_of(*final(context), *final(state)), checked_view(r)) == check_contract(
            table_view(table@),
            env_of(*old(context), *old(state)),
            node_view(*clause),
        ),
        evolves(old(context)@, final(context)@),
        old(state).existentials <= final(state).existentials,
        sound(env_of(*old(context), *old(state))) ==> sound(
            env_of(*final(context), *final(state)),
        ),
{
    let actual = match synt_to(context, state, table, clause, true) {
        Err(d) => {
            return Err(d);
        },
        Ok(t) => t,
    };
    let ghost mid = context@;
    let ghost cur = env_of(*context, *state);
    let r = context.unify(Type::Literal(LiteralType::Bool), actual);
    proof {
        lemma_evolves_trans(old(context)@, mid, context@);
        if sound(cur) {
            lemma_sound_unify(cur, Type::Literal(LiteralType::Bool), actual);
        }
    }
    match r {
        Ok(_) => Ok(()),
        Err((_, a)) => Err(report(DiagnosticKind::ContractNotBool { actual: a }, clause.span, true)),
    }
}

fn check_clauses(
    context: &mut Context,
    state: &mut State,
    table: &Vec<Entry>,
    clauses: &Vec<Spanned<LispVal>>,
) -> (r: Result<(), Diagnostic>)
    ensures
        (env_of(*final(context), *final(state)), checked_view(r)) == check_contracts(
            table_view(table@),
            env_of(*old(context), *old(state)),
            nodes_view(clauses@),
            0,
        ),
        evolves(old(context)@, final(context)@),
        old(state).existentials <= final(state).existentials,
        sound(env_of(*old(context), *old(state))) ==> sound(
            env_of(*final(context), *final(state)),
        ),
{
    let mut k: usize = 0;
    let ghost start = env_of(*context, *state);
    while k < clauses.len()
        invariant
            k <= clauses.len(),
            check_contracts(table_view(table@), start, nodes_view(clauses@), 0) == check_contracts(
                table_view(table@),
                env_of(*context, *state),
                nodes_view(clauses@),
                k as int,
            ),
            start == env_of(*old(context), *old(state)),
            evolves(start.ctx, context@),
            start.next <= state.existentials,
            sound(start) ==> sound(env_of(*context, *state)),
        decreases clauses.len() - k,
    {
        let ghost before = context@;
        let r = check_clause(context, state, table, &clauses[k]);
        proof {
            lemma_evolves_trans(start.ctx, before, context@);
        }
        match r {
            Err(d) => {
                return Err(d);
            },
            Ok(_) => {},
        }
        k += 1;
    }
    Ok(())
}

fn check_exprs(
    context: &mut Context,
    state: &mut State,
    table: &Vec<Entry>,
    body: &Vec<Spanned<LispVal>>,
    ret: Type,
) -> (r: Result<(), Diagnostic>)
    requires
        body.len() > 0,
    ensures
        (env_of(*final(context), *final(state)), checked_view(r)) == check_body(
            table_view(table@),
            env_of(*old(context), *old(state)),
            nodes_view(body@),
            0,
            ret,
        ),
        evolves(old(context)@, final(context)@),
        old(state).existentials <= final(state).existentials,
        sound(env_of(*old(context), *old(state))) ==> sound(
            env_of(*final(context), *final(state)),
        ),
{
    let mut k: usize = 0;
    let last = body.len() - 1;
    let ghost start = env_of(*context, *state);
    while k < last
        invariant
            k <= last,
            last == body.len() - 1,
            check_body(table_view(table@), start, nodes_view(body@), 0, ret) == check_body(
                table_view(table@),
                env_of(*context, *state),
                nodes_view(body@),
                k as int,
                ret,
            ),
            start == env_of(*old(context), *old(state)),
            evolves(start.ctx, context@),
            start.next <= state.existentials,
            sound(start) ==> sound(env_of(*context, *state)),
        decreases last - k,
    {
        let ghost before = context@;
        let r = synt_to(context, state, table, &body[k], false);
        proof {
            lemma_evolves_trans(start.ctx, before, context@);
        }
        match r {
            Err(d) => {
                return Err(d);
            },
            Ok(_) => {},
        }
        k += 1;
    }
    let ghost before = context@;
    let r = check_against(context, state, table, &body[last], ret, false);
    proof {
        lemma_evolves_trans(start.ctx, before, context@);
    }
    r
}

fn bind(context: &mut Context, names: &Vec<Arc<String>>, types: &Vec<Type>)
    ensures
        final(context)@ == bind_params(old(context)@, names_view(names@), types@, 0),
        evolves(old(context)@, final(context)@),
{
    let mut k: usize = 0;
    let ghost start = context@;
    while k < names.len() && k < types.len()
        invariant
            k <= names.len(),
            bind_params(start, names_view(names@), types@, 0) == bind_params(
                context@,
                names_view(names@),
                types@,
                k as int,
            ),
            start == old(context)@,
            evolves(start, context@),
        decreases names.len() - k,
    {
        let ghost before = context@;
        context.push(ContextElement::TypedVariable(share(&names[k]), types[k]));
        proof {
            lemma_evolves_trans(start, before, context@);
        }
        k += 1;
    }
}

fn check_inside(
    context: &mut Context,
    state: &mut State,
    table: &Vec<Entry>,
    f: &Spanned<LispVal>,
    ret: Type,
) -> (r: Result<(), Diagnostic>)
    requires
        (*f.x) is Function,
    ensures
        (env_of(*final(context), *final(state)), checked_view(r)) == check_parts(
            table_view(table@),
            env_of(*old(context), *old(state)),
            f.span,
            node_view(*f).x->preconditions,
            node_view(*f).x->body,
            node_view(*f).x->postcondition,
            ret,
        ),
        evolves(old(context)@, final(context)@),
        old(state).existentials <= final(state).existentials,
        sound(env_of(*old(context), *old(state))) ==> sound(
            env_of(*final(context), *final(state)),
        ),
{
    match &*f.x {
        LispValX::Function { preconditions, postcondition, body, .. } => {
            match preconditions {
                Some(clauses) => match check_clauses(context, state, table, clauses) {
                    Err(d) => {
                        return Err(d);
                    },
                    Ok(_) => {},
                },
                None => {},
            }
            assert(nodes_view(body@).len() == body@.len());
            if body.len() == 0 {
                return Err(report(DiagnosticKind::EmptyBody, f.span, false));
            }
            let ghost e1 = context@;
            match check_exprs(context, state, table, body, ret) {
                Err(d) => {
                    proof {
                        lemma_evolves_trans(old(context)@, e1, context@);
                    }
                    return Err(d);
                },
                Ok(_) => {},
            }
            proof {
                lemma_evolves_trans(old(context)@, e1, context@);
            }
            match postcondition {
                Some(clause) => {
                    let ghost e2 = context@;
                    proof {
                        let cur = env_of(*context, *state);
                        if sound(cur) {
                            lemma_sound_push(
                                cur,
                                Element::TypedVariable(result_text(), ret),
                                cur.next,
                            );
                        }
                    }
                    context.push(
                        ContextElement::TypedVariable(
                            Arc::new(String::from_str("result")),
                            ret,
                        ),
                    );
                    let ghost e3 = context@;
                    let r = check_clause(context, state, table, clause);
                    proof {
                        lemma_evolves_trans(old(context)@, e2, e3);
                        lemma_evolves_trans(old(context)@, e3, context@);
                    }
                    r
                },
                None => Ok(()),
            }
        },
        _ => Ok(()),
    }
}

/// Checks the definition `f` against entry `k` of the table: enter its
/// scope, check its preconditions, its body and its postcondition, and
/// leave the scope. The context comes back as long as it was, with
/// nothing changed but existentials that were solved.
pub fn check_function(
    context: &mut Context,
    state: &mut State,
    table: &Vec<Entry>,
    f: &Spanned<LispVal>,
    k: usize,
) -> (r: Result<(), Diagnostic>)
    requires
        k < table.len(),
    ensures
        (env_of(*final(context), *final(state)), checked_view(r)) == check_definition(
            table_view(table@),
            env_of(*old(context), *old(state)),
            node_view(*f),
            k as int,
        ),
        final(context)@.len() == old(context)@.len(),
        evolves(old(context)@, final(context)@),
        old(state).existentials <= final(state).existentials,
        sound(env_of(*old(context), *old(state))) ==> sound(
            env_of(*final(context), *final(state)),
        ),
{
    assert(table_view(table@)[k as int] == table@[k as int]@);
    match &*f.x {
        LispValX::Function { params, .. } => {
            if state.exhausted() {
                return Err(report(DiagnosticKind::OutOfIdentifiers, f.span, false));
            }
            let entry_len = context.len();
            let ghost first = env_of(*context, *state);
            let marker = state.fresh_existentials();
            context.push(ContextElement::Marker(marker));
            let ghost e0 = context@;
            let ghost marked = env_of(*context, *state);
            bind(context, params, &table[k].signature.params);
            let ghost e1 = context@;
            proof {
                if sound(first) {
                    lemma_sound_push(first, Element::Marker(first.next), marked.next);
                    lemma_sound_bind(marked, names_view(params@), table[k as int].signature.params@, 0);
                }
            }
            let r = check_inside(context, state, table, f, table[k].signature.ret);
            proof {
                lemma_evolves_trans(old(context)@, e0, e1);
                lemma_evolves_trans(old(context)@, e1, context@);
                lemma_evolves_truncated(old(context)@, context@);
                let cur = env_of(*context, *state);
                if sound(cur) {
                    lemma_sound_truncated(cur, entry_len as int);
                }
            }
            context.truncate(entry_len);
            r
        },
        _ => Err(report(DiagnosticKind::NotAFunction, f.span, false)),
    }
}

/// Whether one of the groups holds the node `a`.
pub open spec fn holds(groups: Seq<Seq<usize>>, a: int) -> bool {
    exists|i: int| 0 <= i < groups.len() && (#[trigger] groups[i]).contains(a as usize)
}

/// The processing order of the definitions: the groups of definitions
/// that call each other, a group after the groups that it calls. Each
/// group holds indices into `fns`.
pub fn topo_sort(fns: Arc<Vec<Spanned<LispVal>>>) -> (r: Vec<Vec<usize>>)
    requires
        all_functions(nodes_view(fns@)),
    ensures
        groups_view(r@) == processing_order(call_graph(nodes_view(fns@))),
        forall|i: int, k: int|
            0 <= i < r.len() && 0 <= k < r[i].len() ==> #[trigger] r[i][k] < fns.len(),
        forall|a: int| 0 <= a < fns.len() ==> #[trigger] holds(groups_view(r@), a),
{
    let matrix = call_matrix(&*fns);
    let r = order_groups(&matrix);
    proof {
        let g = call_graph(nodes_view(fns@));
        assert forall|a: int| 0 <= a < fns.len() implies #[trigger] holds(
            groups_view(r@),
            a,
        ) by {
            lemma_node_in_order(g, a);
            let i = group_index(g, a);
            assert(groups_view(r@)[i].contains(a as usize));
        }
    }
    r
}

/// The index of the first form that is no definition, or the number of
/// forms.
pub fn first_other(fns: &Vec<Spanned<LispVal>>) -> (r: usize)
    ensures
        r == first_non_function(nodes_view(fns@), 0),
        r <= fns.len(),
        r == fns.len() <==> all_functions(nodes_view(fns@)),
{
    let ghost fv = nodes_view(fns@);
    let mut k: usize = 0;
    while k < fns.len()
        invariant
            k <= fns.len(),
            fv == nodes_view(fns@),
            first_non_function(fv, 0) == first_non_function(fv, k as int),
            forall|j: int| 0 <= j < k ==> (#[trigger] fv[j]).x is Function,
        decreases fns.len() - k,
    {
        assert(fv[k as int] == node_view(fns@[k as int]));
        match &*fns[k].x {
            LispValX::Function { .. } => {},
            _ => {
                assert(!(fv[k as int].x is Function));
                return k;
            },
        }
        k += 1;
    }
    k
}

/// The table before any function is reached.
pub fn first_table(fns: &Vec<Spanned<LispVal>>) -> (r: Vec<Entry>)
    ensures
        table_view(r@) == initial_table(nodes_view(fns@)),
        r.len() == fns.len(),
{
    let ghost all = initial_table(nodes_view(fns@));
    let mut out: Vec<Entry> = Vec::new();
    let mut k: usize = 0;
    while k < fns.len()
        invariant
            k <= fns.len(),
            out.len() == k,
            all == initial_table(nodes_view(fns@)),
            table_view(out@) == all.take(k as int),
        decreases fns.len() - k,
    {
        let name = match &*fns[k].x {
            LispValX::Function { name, .. } => share(name),
            _ => Arc::new(String::new()),
        };
        let entry = Entry {
            name,
            signature: Signature { params: Vec::new(), ret: Type::Literal(LiteralType::Unit) },
            status: Status::Pending,
        };
        proof {
            assert(nodes_view(fns@)[k as int] == node_view(fns@[k as int]));
            assert(entry@.params =~= Seq::<Type>::empty());
            assert(entry@ == all[k as int]);
        }
        out.push(entry);
        k += 1;
        assert(table_view(out@) =~= all.take(k as int));
    }
    assert(table_view(out@) =~= all);
    out
}

pub open spec fn signatures_view(v: Seq<Signature>) -> Seq<SignatureView> {
    v.map_values(|s: Signature| s@)
}

/// The signatures of a table, in order.
pub fn signatures(table: &Vec<Entry>) -> (r: Vec<Signature>)
    ensures
        signatures_view(r@) == signatures_of(table_view(table@)),
{
    let ghost all = signatures_of(table_view(table@));
    let mut out: Vec<Signature> = Vec::new();
    let mut k: usize = 0;
    while k < table.len()
        invariant
            k <= table.len(),
            all == signatures_of(table_view(table@)),
            signatures_view(out@) == all.take(k as int),
        decreases table.len() - k,
    {
        let params = copy_types(&table[k].signature.params);
        let sig = Signature { params, ret: table[k].signature.ret };
        assert(table_view(table@)[k as int] == table@[k as int]@);
        assert(sig@ == all[k as int]);
        let ghost before = signatures_view(out@);
        out.push(sig);
        assert(signatures_view(out@) =~= before.push(sig@));
        k += 1;
        assert(all.take(k as int) =~= all.take(k - 1).push(all[k - 1]));
    }
    assert(signatures_view(out@) =~= all);
    out
}

pub open spec fn signatures_result_view(r: Result<Vec<Signature>, Vec<Diagnostic>>) -> Result<
    Seq<SignatureView>,
    Seq<DiagnosticView>,
> {
    match r {
        Ok(v) => Ok(signatures_view(v@)),
        Err(ds) => Err(diagnostics_view(ds@)),
    }
}

/// Goes on with the groups after group `j`, once a diagnostic has arisen.
fn finish_in_order(
    table: &mut Vec<Entry>,
    fns: &Vec<Spanned<LispVal>>,
    order: &Vec<Vec<usize>>,
    j: usize,
    errors: Vec<Diagnostic>,
    halted: bool,
    context: Context,
    state: State,
) -> (r: Vec<Diagnostic>)
    requires
        j < order.len(),
        errors.len() > 0,
        old(table).len() == fns.len(),
        forall|i: int, k: int|
            0 <= i < order.len() && 0 <= k < order[i].len() ==> #[trigger] order[i][k] < fns.len(),
    ensures
        final(table).len() == old(table).len(),
        r.len() > 0,
        (table_view(final(table)@), diagnostics_view(r@)) == if halted {
            (table_view(old(table)@), diagnostics_view(errors@))
        } else {
            check_groups(
                table_view(old(table)@),
                env_of(context, state),
                nodes_view(fns@),
                groups_view(order@),
                j + 1,
                diagnostics_view(errors@),
            )
        },
{
    let mut all = errors;
    let mut ctx = context;
    let mut st = state;
    if halted {
        return all;
    }
    let mut i: usize = j + 1;
    while i < order.len()
        invariant
            j < i <= order.len(),
            !halted,
            table.len() == fns.len(),
            old(table).len() == fns.len(),
            all.len() > 0,
            forall|a: int, k: int|
                0 <= a < order.len() && 0 <= k < order[a].len() ==> #[trigger] order[a][k]
                    < fns.len(),
            check_groups(
                table_view(old(table)@),
                env_of(context, state),
                nodes_view(fns@),
                groups_view(order@),
                j + 1,
                diagnostics_view(errors@),
            ) == check_groups(
                table_view(table@),
                env_of(ctx, st),
                nodes_view(fns@),
                groups_view(order@),
                i as int,
                diagnostics_view(all@),
            ),
        decreases order.len() - i,
    {
        assert(groups_view(order@)[i as int] == order@[i as int]@);
        assert forall|k: int| 0 <= k < order[i as int].len() implies order[i as int][k]
            < fns.len() by {
            assert(order[i as int][k] < fns.len());
        }
        let (mut found, stop) = check_one_group(&mut ctx, &mut st, table, fns, &order[i]);
        let ghost before = diagnostics_view(all@);
        let ghost added = diagnostics_view(found@);
        all.append(&mut found);
        assert(diagnostics_view(all@) =~= before + added);
        if stop {
            return all;
        }
        i += 1;
    }
    all
}

/// Checks the groups in order, up to a fatal diagnostic.
pub fn check_in_order(
    table: &mut Vec<Entry>,
    fns: &Vec<Spanned<LispVal>>,
    order: &Vec<Vec<usize>>,
) -> (errors: Vec<Diagnostic>)
    requires
        old(table).len() == fns.len(),
        forall|i: int, k: int|
            0 <= i < order.len() && 0 <= k < order[i].len() ==> #[trigger] order[i][k] < fns.len(),
    ensures
        (table_view(final(table)@), diagnostics_view(errors@)) == check_groups(
            table_view(old(table)@),
            Env { ctx: Seq::empty(), next: 0 },
            nodes_view(fns@),
            groups_view(order@),
            0,
            Seq::empty(),
        ),
        final(table).len() == old(table).len(),
        errors.len() == 0 ==> forall|i: int, k: int|
            0 <= i < order.len() && 0 <= k < order[i].len() ==> decided(
                table_view(final(table)@),
                nodes_view(fns@),
                #[trigger] order[i][k] as int,
            ),
{
    let mut context = Context::new();
    let mut state = State::initial();
    let mut errors: Vec<Diagnostic> = Vec::new();
    let mut j: usize = 0;
    assert(diagnostics_view(errors@) =~= Seq::<DiagnosticView>::empty());
    while j < order.len()
        invariant
            j <= order.len(),
            table.len() == fns.len(),
            old(table).len() == fns.len(),
            forall|i: int, k: int|
                0 <= i < order.len() && 0 <= k < order[i].len() ==> #[trigger] order[i][k]
                    < fns.len(),
            check_groups(
                table_view(old(table)@),
                Env { ctx: Seq::empty(), next: 0 },
                nodes_view(fns@),
                groups_view(order@),
                0,
                Seq::empty(),
            ) == check_groups(
                table_view(table@),
                env_of(context, state),
                nodes_view(fns@),
                groups_view(order@),
                j as int,
                diagnostics_view(errors@),
            ),
            errors.len() == 0,
            forall|i: int, k: int|
                0 <= i < j && 0 <= k < order[i].len() ==> decided(
                    table_view(table@),
                    nodes_view(fns@),
                    #[trigger] order[i][k] as int,
                ),
        decreases order.len() - j,
    {
        assert(groups_view(order@)[j as int] == order@[j as int]@);
        let ghost prior = table_view(table@);
        assert forall|k: int| 0 <= k < order[j as int].len() implies order[j as int][k]
            < fns.len() by {
            assert(order[j as int][k] < fns.len());
        }
        let (mut found, halted) = check_one_group(&mut context, &mut state, table, fns, &order[j]);
        let ghost before = diagnostics_view(errors@);
        let ghost added = diagnostics_view(found@);
        let clean = found.len() == 0;
        errors.append(&mut found);
        assert(diagnostics_view(errors@) =~= before + added);
        if halted || !clean {
            return finish_in_order(table, fns, order, j, errors, halted, context, state);
        }
        proof {
            assert forall|i: int, k: int|
                0 <= i < j + 1 && 0 <= k < order[i].len() implies decided(
                table_view(table@),
                nodes_view(fns@),
                #[trigger] order[i][k] as int,
            ) by {
                let x = order[i][k];
                if i < j {
                    assert(decided(prior, nodes_view(fns@), order[i][k] as int));
                    if order[j as int]@.contains(x) {
                        let m = choose|m: int|
                            0 <= m < order[j as int]@.len() && order[j as int]@[m] == x;
                        assert(decided(
                            table_view(table@),
                            nodes_view(fns@),
                            order[j as int][m] as int,
                        ));
                    } else {
                        assert(table_view(table@)[x as int] == prior[x as int]);
                    }
                }
            }
        }
        j += 1;
    }
    errors
}

/// Checks a lowered module: the signature of every definition, in source
/// order, or the diagnostics in the order in which they arose. A form
/// that is no definition is fatal; of the others each definition gives at
/// most one diagnostic.
pub fn check_module(module: &LispModuleX) -> (r: Result<Vec<Signature>, Vec<Diagnostic>>)
    ensures
        signatures_result_view(r) == check_module_spec(module@),
        r matches Ok(sigs) ==> all_functions(module@) && sigs.len() == module@.len()
            && forall|k: int|
            0 <= k < sigs.len() ==> (#[trigger] sigs[k]).params.len() == arity_of(module@[k]),
        r matches Err(ds) ==> ds.len() > 0,
{
    let fns = &*module.functions;
    let bad = first_other(fns);
    if bad < fns.len() {
        assert(nodes_view(fns@)[bad as int] == node_view(fns@[bad as int]));
        let errors = vec![
            Diagnostic { kind: DiagnosticKind::NotAFunction, span: fns[bad].span, in_contract: false },
        ];
        assert(diagnostics_view(errors@) =~= seq![not_a_function(fns[bad as int].span)]);
        return Err(errors);
    }
    let order = topo_sort(share(&module.functions));
    let mut table = first_table(fns);
    let errors = check_in_order(&mut table, fns, &order);
    if errors.len() == 0 {
        let sigs = signatures(&table);
        proof {
            let tv = table_view(table@);
            assert(signatures_view(sigs@).len() == tv.len());
            assert forall|k: int| 0 <= k < sigs.len() implies (#[trigger] sigs[k]).params.len()
                == arity_of(module@[k]) by {
                assert(holds(groups_view(order@), k));
                let i = choose|i: int|
                    0 <= i < groups_view(order@).len() && (#[trigger] groups_view(
                        order@,
                    )[i]).contains(k as usize);
                assert(groups_view(order@)[i] == order[i]@);
                let m = choose|m: int| 0 <= m < order[i]@.len() && order[i]@[m] == k as usize;
                assert(decided(tv, nodes_view(fns@), order[i][m] as int));
                assert(signatures_view(sigs@)[k] == sigs[k]@);
            }
        }
        Ok(sigs)
    } else {
        Err(errors)
    }
}

/// A module that passed the checker: the lowered definitions and, at the
/// same index, the signature of each.
#[derive(Clone, Debug)]
pub struct CheckedModule {
    pub module: LispModule,
    pub signatures: Vec<Signature>,
}

pub open spec fn synth_view(r: Result<CheckedModule, Vec<Diagnostic>>) -> Result<
    (Seq<Node>, Seq<SignatureView>),
    Seq<DiagnosticView>,
> {
    match r {
        Ok(m) => Ok((m.module@, signatures_view(m.signatures@))),
        Err(ds) => Err(diagnostics_view(ds@)),
    }
}

/// Lowers and checks a parsed module: the lowered module with the
/// signature of every definition, or the diagnostics of the stage that
/// failed.
pub fn synth(module: syntax::LispModule) -> (r: Result<CheckedModule, Vec<Diagnostic>>)
    ensures
        synth_view(r) == synth_spec(module@),
        r matches Ok(m) ==> all_functions(m.module@) && m.module@.len() == module@.len()
            && m.signatures.len() == module@.len() && forall|k: int|
            0 <= k < m.signatures.len() ==> (#[trigger] m.signatures[k]).params.len() == arity_of(
                m.module@[k],
            ),
        r matches Err(ds) ==> ds.len() > 0,
{
    match lower_module(&*module) {
        Err(ds) => Err(ds),
        Ok(lowered) => match check_module(&*lowered) {
            Err(ds) => Err(ds),
            Ok(signatures) => Ok(CheckedModule { module: lowered, signatures }),
        },
    }
}

} // verus!
