//! Checking the groups of the processing order: the members of a group
//! are checked together, against signatures that they solve together.

use crate::common::{share, Span, Spanned};
use crate::semantic::ast::{node_view, nodes_view, LispVal, LispValX};
use crate::semantic::context::{
    evolves, lemma_evolves_trans, lemma_evolves_truncated, Context, ContextElement,
};
use crate::semantic::context_laws::{lemma_sound_mint, lemma_sound_push, lemma_sound_truncated, sound};
use crate::semantic::diagnostic::{diagnostics_view, Diagnostic, DiagnosticKind, DiagnosticView};
use crate::semantic::rules::{
    apply_all, arity_of, assume_group, assume_signature, check_group, check_members, decided,
    finalize_group, has_arity, minted_entries, minted_types, Element, GroupOutcome, Round, Status,
};
use crate::semantic::typeck::{check_function, env_of, table_view, Entry, Signature, State, Type};
use std::sync::Arc;
use vstd::prelude::*;

verus! {

/// The number of parameters of a definition.
pub fn arity(f: &Spanned<LispVal>) -> (r: usize)
    ensures
        r == arity_of(node_view(*f)),
{
    match &*f.x {
        LispValX::Function { params, .. } => params.len(),
        _ => 0,
    }
}

/// Assumes for function `k` a signature of fresh existentials: one for
/// each parameter and one for the result.
pub fn assume_one(
    context: &mut Context,
    state: &mut State,
    table: &mut Vec<Entry>,
    k: usize,
    arity: usize,
)
    requires
        k < old(table).len(),
        old(state).existentials + arity + 1 <= usize::MAX,
    ensures
        (table_view(final(table)@), env_of(*final(context), *final(state))) == assume_signature(
            table_view(old(table)@),
            env_of(*old(context), *old(state)),
            k as int,
            arity as nat,
        ),
        final(table).len() == old(table).len(),
        evolves(old(context)@, final(context)@),
        old(state).existentials <= final(state).existentials,
        sound(env_of(*old(context), *old(state))) ==> sound(
            env_of(*final(context), *final(state)),
        ),
{
    let ghost before = context@;
    let ghost start = state.existentials;
    let mut params: Vec<Type> = Vec::new();
    let mut i: usize = 0;
    assert(context@ =~= before + minted_entries(start, 0));
    assert(params@ =~= minted_types(start, 0));
    while i < arity
        invariant
            i <= arity,
            start + arity + 1 <= usize::MAX,
            state.existentials == start + i,
            context@ == before + minted_entries(start, i as nat),
            params@ == minted_types(start, i as nat),
            sound(env_of(*old(context), *old(state))) ==> sound(env_of(*context, *state)),
        decreases arity - i,
    {
        proof {
            let cur = env_of(*context, *state);
            if sound(cur) {
                lemma_sound_mint(cur);
            }
        }
        let id = state.fresh_existentials();
        context.push(ContextElement::Existential(id));
        params.push(Type::Existential(id));
        i += 1;
        assert(context@ =~= before + minted_entries(start, i as nat));
        assert(params@ =~= minted_types(start, i as nat));
    }
    proof {
        let cur = env_of(*context, *state);
        if sound(cur) {
            lemma_sound_mint(cur);
        }
    }
    let ret = state.fresh_existentials();
    context.push(ContextElement::Existential(ret));
    assert(context@ =~= before + minted_entries(start, (arity + 1) as nat));
    let entry = Entry {
        name: share(&table[k].name),
        signature: Signature { params, ret: Type::Existential(ret) },
        status: Status::Assumed,
    };
    assert(table_view(table@)[k as int] == table@[k as int]@);
    table.set(k, entry);
    assert(table_view(table@) =~= table_view(old(table)@).update(k as int, entry@));
}

/// Assumes a signature for each member of the group; says whether the
/// identifiers sufficed.
pub fn assume_members(
    context: &mut Context,
    state: &mut State,
    table: &mut Vec<Entry>,
    fns: &Vec<Spanned<LispVal>>,
    group: &Vec<usize>,
) -> (r: bool)
    requires
        old(table).len() == fns.len(),
        forall|j: int| 0 <= j < group.len() ==> group[j] < fns.len(),
    ensures
        (table_view(final(table)@), env_of(*final(context), *final(state)), r) == assume_group(
            table_view(old(table)@),
            env_of(*old(context), *old(state)),
            nodes_view(fns@),
            group@,
            0,
        ),
        final(table).len() == old(table).len(),
        r ==> forall|j: int|
            0 <= j < group.len() ==> table_view(final(table)@)[#[trigger] group[j] as int].status
                is Assumed && has_arity(
                table_view(final(table)@),
                nodes_view(fns@),
                group[j] as int,
            ),
        forall|x: int|
            0 <= x < fns.len() && !group@.contains(x as usize) ==> #[trigger] table_view(
                final(table)@,
            )[x] == table_view(old(table)@)[x],
        evolves(old(context)@, final(context)@),
        old(state).existentials <= final(state).existentials,
        sound(env_of(*old(context), *old(state))) ==> sound(
            env_of(*final(context), *final(state)),
        ),
{
    let mut j: usize = 0;
    while j < group.len()
        invariant
            j <= group.len(),
            table.len() == fns.len(),
            old(table).len() == fns.len(),
            forall|x: int| 0 <= x < group.len() ==> group[x] < fns.len(),
            assume_group(
                table_view(old(table)@),
                env_of(*old(context), *old(state)),
                nodes_view(fns@),
                group@,
                0,
            ) == assume_group(
                table_view(table@),
                env_of(*context, *state),
                nodes_view(fns@),
                group@,
                j as int,
            ),
            evolves(old(context)@, context@),
            old(state).existentials <= state.existentials,
            sound(env_of(*old(context), *old(state))) ==> sound(env_of(*context, *state)),
            forall|i: int|
                0 <= i < j ==> table_view(table@)[#[trigger] group[i] as int].status is Assumed
                    && has_arity(table_view(table@), nodes_view(fns@), group[i] as int),
            forall|x: int|
                0 <= x < fns.len() && (forall|i: int| 0 <= i < j ==> #[trigger] group[i] != x)
                    ==> #[trigger] table_view(table@)[x] == table_view(old(table)@)[x],
        decreases group.len() - j,
    {
        let k = group[j];
        assert(nodes_view(fns@)[k as int] == node_view(fns@[k as int]));
        let n = arity(&fns[k]);
        if n >= usize::MAX - state.existentials {
            return false;
        }
        let ghost before = context@;
        assume_one(context, state, table, k, n);
        proof {
            lemma_evolves_trans(old(context)@, before, context@);
        }
        j += 1;
    }
    true
}

/// Checks each member of the group against its entry. A definition gives
/// at most one diagnostic; a fatal one ends the run. Says, with the
/// diagnostics, whether the run was ended.
pub fn check_each(
    context: &mut Context,
    state: &mut State,
    table: &Vec<Entry>,
    fns: &Vec<Spanned<LispVal>>,
    group: &Vec<usize>,
) -> (r: (Vec<Diagnostic>, bool))
    requires
        table.len() == fns.len(),
        forall|j: int| 0 <= j < group.len() ==> group[j] < fns.len(),
    ensures
        (Round {
            env: env_of(*final(context), *final(state)),
            errors: diagnostics_view(r.0@),
            halted: r.1,
        }) == check_members(
            table_view(table@),
            env_of(*old(context), *old(state)),
            nodes_view(fns@),
            group@,
            0,
            Seq::empty(),
        ),
        r.1 ==> r.0.len() > 0,
        final(context)@.len() == old(context)@.len(),
        evolves(old(context)@, final(context)@),
        old(state).existentials <= final(state).existentials,
        sound(env_of(*old(context), *old(state))) ==> sound(
            env_of(*final(context), *final(state)),
        ),
{
    let mut errors: Vec<Diagnostic> = Vec::new();
    let mut j: usize = 0;
    assert(diagnostics_view(errors@) =~= Seq::<DiagnosticView>::empty());
    while j < group.len()
        invariant
            j <= group.len(),
            table.len() == fns.len(),
            forall|x: int| 0 <= x < group.len() ==> group[x] < fns.len(),
            check_members(
                table_view(table@),
                env_of(*old(context), *old(state)),
                nodes_view(fns@),
                group@,
                0,
                Seq::empty(),
            ) == check_members(
                table_view(table@),
                env_of(*context, *state),
                nodes_view(fns@),
                group@,
                j as int,
                diagnostics_view(errors@),
            ),
            context@.len() == old(context)@.len(),
            evolves(old(context)@, context@),
            old(state).existentials <= state.existentials,
            sound(env_of(*old(context), *old(state))) ==> sound(env_of(*context, *state)),
        decreases group.len() - j,
    {
        let k = group[j];
        assert(nodes_view(fns@)[k as int] == node_view(fns@[k as int]));
        let ghost before = context@;
        let r = check_function(context, state, table, &fns[k], k);
        proof {
            lemma_evolves_trans(old(context)@, before, context@);
        }
        match r {
            Ok(_) => {},
            Err(d) => {
                let fatal = d.is_fatal();
                assert(diagnostics_view(errors@.push(d)) =~= diagnostics_view(errors@).push(d@));
                errors.push(d);
                if fatal {
                    return (errors, true);
                }
            },
        }
        j += 1;
    }
    (errors, false)
}

/// What each of the types stands for in the context.
pub fn resolve_all(context: &Context, types: &Vec<Type>) -> (r: Vec<Type>)
    ensures
        r@ == apply_all(context@, types@),
{
    let mut out: Vec<Type> = Vec::new();
    let mut k: usize = 0;
    while k < types.len()
        invariant
            k <= types.len(),
            out@ == apply_all(context@, types@).take(k as int),
        decreases types.len() - k,
    {
        out.push(context.apply(types[k]));
        k += 1;
        assert(out@ =~= apply_all(context@, types@).take(k as int));
    }
    assert(out@ =~= apply_all(context@, types@));
    out
}

/// Makes the signatures of the members final: every type in them becomes
/// what it stands for in the context.
pub fn finalize_members(context: &Context, table: &mut Vec<Entry>, group: &Vec<usize>)
    requires
        forall|j: int| 0 <= j < group.len() ==> group[j] < old(table).len(),
    ensures
        table_view(final(table)@) == finalize_group(
            table_view(old(table)@),
            context@,
            group@,
            0,
        ),
        final(table).len() == old(table).len(),
        forall|j: int|
            0 <= j < group.len() ==> table_view(final(table)@)[#[trigger] group[j] as int].status
                is Final && table_view(final(table)@)[group[j] as int].params.len() == table_view(
                old(table)@,
            )[group[j] as int].params.len(),
        forall|x: int|
            0 <= x < old(table).len() && !group@.contains(x as usize) ==> #[trigger] table_view(
                final(table)@,
            )[x] == table_view(old(table)@)[x],
{
    let mut j: usize = 0;
    while j < group.len()
        invariant
            j <= group.len(),
            table.len() == old(table).len(),
            forall|x: int| 0 <= x < group.len() ==> group[x] < table.len(),
            finalize_group(table_view(old(table)@), context@, group@, 0) == finalize_group(
                table_view(table@),
                context@,
                group@,
                j as int,
            ),
            forall|i: int|
                0 <= i < j ==> table_view(table@)[#[trigger] group[i] as int].status is Final,
            forall|x: int|
                0 <= x < table.len() ==> (#[trigger] table_view(table@)[x]).params.len()
                    == table_view(old(table)@)[x].params.len(),
            forall|x: int|
                0 <= x < table.len() && (forall|i: int| 0 <= i < j ==> #[trigger] group[i] != x)
                    ==> #[trigger] table_view(table@)[x] == table_view(old(table)@)[x],
        decreases group.len() - j,
    {
        let k = group[j];
        assert(table_view(table@)[k as int] == table@[k as int]@);
        let entry = Entry {
            name: share(&table[k].name),
            signature: Signature {
                params: resolve_all(context, &table[k].signature.params),
                ret: context.apply(table[k].signature.ret),
            },
            status: Status::Final,
        };
        let ghost before = table_view(table@);
        table.set(k, entry);
        assert(table_view(table@) =~= before.update(k as int, entry@));
        j += 1;
    }
}

/// Checks one group: opens its scope, assumes a signature for each
/// member, checks the members, makes their signatures final, checks them
/// once more if no diagnostic arose, and closes the scope. The context
/// comes back as long as it was, with nothing changed but existentials
/// that were solved.
pub fn check_one_group(
    context: &mut Context,
    state: &mut State,
    table: &mut Vec<Entry>,
    fns: &Vec<Spanned<LispVal>>,
    group: &Vec<usize>,
) -> (r: (Vec<Diagnostic>, bool))
    requires
        old(table).len() == fns.len(),
        forall|j: int| 0 <= j < group.len() ==> group[j] < fns.len(),
    ensures
        (GroupOutcome {
            table: table_view(final(table)@),
            round: Round {
                env: env_of(*final(context), *final(state)),
                errors: diagnostics_view(r.0@),
                halted: r.1,
            },
        }) == check_group(
            table_view(old(table)@),
            env_of(*old(context), *old(state)),
            nodes_view(fns@),
            group@,
        ),
        final(table).len() == old(table).len(),
        final(context)@.len() == old(context)@.len(),
        evolves(old(context)@, final(context)@),
        old(state).existentials <= final(state).existentials,
        sound(env_of(*old(context), *old(state))) ==> sound(
            env_of(*final(context), *final(state)),
        ),
        r.1 ==> r.0.len() > 0,
        !r.1 ==> forall|j: int|
            0 <= j < group.len() ==> decided(
                table_view(final(table)@),
                nodes_view(fns@),
                #[trigger] group[j] as int,
            ),
        forall|x: int|
            0 <= x < fns.len() && !group@.contains(x as usize) ==> #[trigger] table_view(
                final(table)@,
            )[x] == table_view(old(table)@)[x],
{
    let here = if group.len() > 0 {
        assert(nodes_view(fns@)[group[0] as int] == node_view(fns@[group[0] as int]));
        fns[group[0]].span
    } else {
        Span::new(0, 0)
    };
    if state.exhausted() {
        let errors = vec![
            Diagnostic { kind: DiagnosticKind::OutOfIdentifiers, span: here, in_contract: false },
        ];
        assert(diagnostics_view(errors@) =~= seq![errors@[0]@]);
        return (errors, true);
    }
    let entry_len = context.len();
    proof {
        let cur = env_of(*context, *state);
        if sound(cur) {
            lemma_sound_push(cur, Element::Marker(cur.next), (cur.next + 1) as usize);
        }
    }
    let marker = state.fresh_existentials();
    context.push(ContextElement::Marker(marker));
    let ghost opened = context@;
    let enough = assume_members(context, state, table, fns, group);
    proof {
        lemma_evolves_trans(old(context)@, opened, context@);
    }
    if !enough {
        let errors = vec![
            Diagnostic { kind: DiagnosticKind::OutOfIdentifiers, span: here, in_contract: false },
        ];
        assert(diagnostics_view(errors@) =~= seq![errors@[0]@]);
        proof {
            lemma_evolves_truncated(old(context)@, context@);
            let cur = env_of(*context, *state);
            if sound(cur) {
                lemma_sound_truncated(cur, entry_len as int);
            }
        }
        context.truncate(entry_len);
        return (errors, true);
    }
    let ghost ready = context@;
    let (first, halted) = check_each(context, state, table, fns, group);
    proof {
        lemma_evolves_trans(old(context)@, ready, context@);
    }
    finalize_members(context, table, group);
    let ghost solved = context@;
    let (errors, stop) = if first.len() == 0 {
        check_each(context, state, table, fns, group)
    } else {
        (first, halted)
    };
    proof {
        lemma_evolves_trans(old(context)@, solved, context@);
        lemma_evolves_truncated(old(context)@, context@);
        let cur = env_of(*context, *state);
        if sound(cur) {
            lemma_sound_truncated(cur, entry_len as int);
        }
    }
    context.truncate(entry_len);
    (errors, stop)
}

} // verus!
