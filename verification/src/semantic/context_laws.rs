//! What holds of every context that the checker builds: identifiers are
//! fresh, each is introduced once, and a solution speaks only of what was
//! introduced before it.

use crate::semantic::rules::{
    apply, bind_params, introduces, mint, position, resolve, solve, truncated, unify, Ctx,
    Element, Env,
};
use crate::semantic::typeck::Type;
use vstd::prelude::*;

verus! {

/// The identifier that an entry carries, if it carries one.
pub open spec fn id_of(e: Element) -> Option<usize> {
    match e {
        Element::Existential(i) => Some(i),
        Element::Solved(i, _) => Some(i),
        Element::Marker(i) => Some(i),
        _ => None,
    }
}

/// Whether every identifier in the context is below `next`: the next
/// fresh identifier is in no entry.
pub open spec fn ids_below(ctx: Ctx, next: usize) -> bool {
    forall|p: int| 0 <= p < ctx.len() ==> (id_of(#[trigger] ctx[p]) matches Some(i) ==> i < next)
}

/// Whether no identifier is carried by two entries.
pub open spec fn ids_distinct(ctx: Ctx) -> bool {
    forall|p: int, q: int|
        0 <= p < q < ctx.len() && id_of(#[trigger] ctx[p]) is Some ==> id_of(ctx[p]) != id_of(
            #[trigger] ctx[q],
        )
}

/// Whether every solution is a literal type or an existential that the
/// context introduces before the one that it solves.
pub open spec fn well_scoped(ctx: Ctx) -> bool {
    forall|p: int|
        0 <= p < ctx.len() ==> (#[trigger] ctx[p] matches Element::Solved(_, Type::Existential(j))
            ==> position(ctx, j, 0) < p)
}

/// What holds of the context and counter of a run at every step.
pub open spec fn sound(env: Env) -> bool {
    ids_below(env.ctx, env.next) && ids_distinct(env.ctx) && well_scoped(env.ctx)
}

/// Whether the context has no solution for the type: it is a literal
/// type, or an existential that is not solved.
pub open spec fn settled(ctx: Ctx, t: Type) -> bool {
    t matches Type::Existential(i) ==> !(position(ctx, i, 0) < ctx.len() && ctx[position(
        ctx,
        i,
        0,
    )] is Solved)
}

pub proof fn lemma_position_bounds(ctx: Ctx, id: usize, from: int)
    requires
        0 <= from <= ctx.len(),
    ensures
        from <= position(ctx, id, from) <= ctx.len(),
        position(ctx, id, from) < ctx.len() ==> introduces(ctx[position(ctx, id, from)], id),
        forall|k: int| from <= k < position(ctx, id, from) ==> !introduces(#[trigger] ctx[k], id),
    decreases ctx.len() - from,
{
    if from < ctx.len() && !introduces(ctx[from], id) {
        lemma_position_bounds(ctx, id, from + 1);
    }
}

/// The first entry that introduces an identifier is where `position`
/// says, whatever comes after it.
pub proof fn lemma_position_is(ctx: Ctx, id: usize, from: int, at: int)
    requires
        0 <= from <= at < ctx.len(),
        introduces(ctx[at], id),
        forall|k: int| from <= k < at ==> !introduces(#[trigger] ctx[k], id),
    ensures
        position(ctx, id, from) == at,
    decreases at - from,
{
    if from < at {
        lemma_position_is(ctx, id, from + 1, at);
    }
}

/// Two contexts that introduce the same identifiers at the same places up
/// to where one is found agree on where it is found.
pub proof fn lemma_position_same(a: Ctx, b: Ctx, id: usize)
    requires
        position(a, id, 0) < a.len(),
        position(a, id, 0) < b.len(),
        forall|k: int|
            0 <= k <= position(a, id, 0) ==> introduces(#[trigger] a[k], id) == introduces(
                b[k],
                id,
            ),
    ensures
        position(b, id, 0) == position(a, id, 0),
{
    lemma_position_bounds(a, id, 0);
    let at = position(a, id, 0);
    assert forall|k: int| 0 <= k < at implies !introduces(#[trigger] b[k], id) by {
        assert(!introduces(a[k], id));
    }
    lemma_position_is(b, id, 0, at);
}

/// Following solutions in a well-scoped context ends at a settled type:
/// each step goes to an earlier entry.
pub proof fn lemma_resolve_settles(ctx: Ctx, t: Type, fuel: nat)
    requires
        well_scoped(ctx),
        t matches Type::Existential(i) ==> position(ctx, i, 0) < fuel || position(ctx, i, 0)
            >= ctx.len(),
    ensures
        settled(ctx, resolve(ctx, t, fuel)),
    decreases fuel,
{
    match t {
        Type::Literal(_) => {},
        Type::Existential(id) => {
            lemma_position_bounds(ctx, id, 0);
            let p = position(ctx, id, 0);
            if fuel > 0 && p < ctx.len() {
                match ctx[p] {
                    Element::Solved(_, s) => {
                        lemma_resolve_settles(ctx, s, (fuel - 1) as nat);
                    },
                    _ => {},
                }
            }
        },
    }
}

/// In a well-scoped context a type stands for a literal type or for an
/// existential that is not solved.
pub proof fn lemma_apply_settles(ctx: Ctx, t: Type)
    requires
        well_scoped(ctx),
    ensures
        settled(ctx, apply(ctx, t)),
{
    match t {
        Type::Existential(i) => {
            lemma_position_bounds(ctx, i, 0);
        },
        _ => {},
    }
    lemma_resolve_settles(ctx, t, ctx.len());
}

/// Adding an entry that is no solution, with an identifier (if any) that
/// is the next fresh one, keeps the run sound.
pub proof fn lemma_sound_push(env: Env, e: Element, next: usize)
    requires
        sound(env),
        env.next <= next,
        !(e is Solved),
        id_of(e) matches Some(i) ==> env.next <= i < next,
    ensures
        sound(Env { ctx: env.ctx.push(e), next }),
{
    let after = env.ctx.push(e);
    assert forall|p: int| 0 <= p < after.len() implies (#[trigger] after[p] matches Element::Solved(
        _,
        Type::Existential(j),
    ) ==> position(after, j, 0) < p) by {
        if p < env.ctx.len() {
            assert(after[p] == env.ctx[p]);
            match env.ctx[p] {
                Element::Solved(_, Type::Existential(j)) => {
                    lemma_position_same(env.ctx, after, j);
                },
                _ => {},
            }
        }
    }
    assert forall|p: int, q: int|
        0 <= p < q < after.len() && id_of(#[trigger] after[p]) is Some implies id_of(after[p])
        != id_of(#[trigger] after[q]) by {
        assert(after[p] == env.ctx[p]);
        if q < env.ctx.len() {
            assert(after[q] == env.ctx[q]);
        }
    }
    assert forall|p: int| 0 <= p < after.len() implies (id_of(#[trigger] after[p]) matches Some(i)
        ==> i < next) by {
        if p < env.ctx.len() {
            assert(after[p] == env.ctx[p]);
        }
    }
}

/// Minting keeps the run sound.
pub proof fn lemma_sound_mint(env: Env)
    requires
        sound(env),
        env.next < usize::MAX,
    ensures
        sound(mint(env)),
{
    lemma_sound_push(env, Element::Existential(env.next), (env.next + 1) as usize);
}

/// Cutting the context back keeps the run sound.
pub proof fn lemma_sound_truncated(env: Env, len: int)
    requires
        sound(env),
    ensures
        sound(Env { ctx: truncated(env.ctx, len), next: env.next }),
{
    let after = truncated(env.ctx, len);
    if 0 <= len <= env.ctx.len() {
        assert forall|p: int| 0 <= p < after.len() implies (
        #[trigger] after[p] matches Element::Solved(_, Type::Existential(j)) ==> position(
            after,
            j,
            0,
        ) < p) by {
            assert(after[p] == env.ctx[p]);
            match env.ctx[p] {
                Element::Solved(_, Type::Existential(j)) => {
                    lemma_position_same(env.ctx, after, j);
                },
                _ => {},
            }
        }
        assert forall|p: int, q: int|
            0 <= p < q < after.len() && id_of(#[trigger] after[p]) is Some implies id_of(
            after[p],
        ) != id_of(#[trigger] after[q]) by {
            assert(after[p] == env.ctx[p]);
            assert(after[q] == env.ctx[q]);
        }
        assert forall|p: int| 0 <= p < after.len() implies (id_of(#[trigger] after[p]) matches Some(
            i,
        ) ==> i < env.next) by {
            assert(after[p] == env.ctx[p]);
        }
    }
}

/// Solving an existential to a literal type, or to an existential that
/// was introduced before it, keeps the run sound.
pub proof fn lemma_sound_solve(env: Env, id: usize, t: Type)
    requires
        sound(env),
        t matches Type::Existential(j) ==> position(env.ctx, j, 0) < position(env.ctx, id, 0),
    ensures
        solve(env.ctx, id, t) matches Some(c) ==> sound(Env { ctx: c, next: env.next }),
{
    match solve(env.ctx, id, t) {
        Some(after) => {
            let at = position(env.ctx, id, 0);
            assert forall|p: int| 0 <= p < after.len() implies (
            #[trigger] after[p] matches Element::Solved(_, Type::Existential(j)) ==> position(
                after,
                j,
                0,
            ) < p) by {
                match after[p] {
                    Element::Solved(_, Type::Existential(j)) => {
                        if p != at {
                            assert(after[p] == env.ctx[p]);
                        }
                        assert(position(env.ctx, j, 0) < p);
                        assert forall|k: int| 0 <= k <= position(env.ctx, j, 0) implies introduces(
                            #[trigger] env.ctx[k],
                            j,
                        ) == introduces(after[k], j) by {
                            if k != at {
                                assert(after[k] == env.ctx[k]);
                            }
                        }
                        lemma_position_same(env.ctx, after, j);
                    },
                    _ => {},
                }
            }
            assert forall|p: int, q: int|
                0 <= p < q < after.len() && id_of(#[trigger] after[p]) is Some implies id_of(
                after[p],
            ) != id_of(#[trigger] after[q]) by {
                assert(id_of(after[p]) == id_of(env.ctx[p]));
                assert(id_of(after[q]) == id_of(env.ctx[q]));
            }
            assert forall|p: int| 0 <= p < after.len() implies (
            id_of(#[trigger] after[p]) matches Some(i) ==> i < env.next) by {
                assert(id_of(after[p]) == id_of(env.ctx[p]));
            }
        },
        None => {},
    }
}

/// Making two types one keeps the run sound: an existential is solved to
/// a literal type or to an existential introduced before it.
pub proof fn lemma_sound_unify(env: Env, expected: Type, actual: Type)
    requires
        sound(env),
    ensures
        unify(env.ctx, expected, actual) matches Some(c) ==> sound(Env { ctx: c, next: env.next }),
{
    let ctx = env.ctx;
    let e = apply(ctx, expected);
    let a = apply(ctx, actual);
    lemma_apply_settles(ctx, e);
    lemma_apply_settles(ctx, a);
    match (e, a) {
        (Type::Literal(_), Type::Literal(_)) => {},
        (Type::Existential(i), Type::Literal(_)) => {
            lemma_sound_solve(env, i, a);
        },
        (Type::Literal(_), Type::Existential(j)) => {
            lemma_sound_solve(env, j, e);
        },
        (Type::Existential(i), Type::Existential(j)) => {
            lemma_position_bounds(ctx, i, 0);
            lemma_position_bounds(ctx, j, 0);
            if i == j {
            } else if position(ctx, i, 0) < position(ctx, j, 0) {
                lemma_sound_solve(env, j, e);
            } else {
                if position(ctx, i, 0) < ctx.len() {
                    if position(ctx, j, 0) == position(ctx, i, 0) {
                        assert(introduces(ctx[position(ctx, i, 0)], i));
                        assert(introduces(ctx[position(ctx, j, 0)], j));
                    }
                    lemma_sound_solve(env, i, a);
                }
            }
        },
    }
}

/// Binding parameters keeps the run sound.
pub proof fn lemma_sound_bind(env: Env, names: Seq<Seq<char>>, types: Seq<Type>, from: int)
    requires
        sound(env),
    ensures
        sound(Env { ctx: bind_params(env.ctx, names, types, from), next: env.next }),
    decreases names.len() - from,
{
    if 0 <= from < names.len() && from < types.len() {
        let e = Element::TypedVariable(names[from], types[from]);
        lemma_sound_push(env, e, env.next);
        lemma_sound_bind(Env { ctx: env.ctx.push(e), next: env.next }, names, types, from + 1);
    }
}

/// A higher counter keeps the run sound.
pub proof fn lemma_sound_rise(env: Env, next: usize)
    requires
        sound(env),
        env.next <= next,
    ensures
        sound(Env { ctx: env.ctx, next }),
{
    assert forall|p: int| 0 <= p < env.ctx.len() implies (
    id_of(#[trigger] env.ctx[p]) matches Some(i) ==> i < next) by {}
}

} // verus!
