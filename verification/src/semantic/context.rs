//! The ordered context of the type checker and what is done to it: look a
//! name up, follow solutions, solve an existential in place.

use crate::semantic::rules::{
    apply, introduces, lookup, position, resolve, solve, truncated, unify, Ctx, Element,
};
use crate::semantic::context_laws::{lemma_apply_settles, settled, well_scoped};
use crate::semantic::typeck::Type;
use std::sync::Arc;
use vstd::prelude::*;

verus! {

/// One entry of the context.
#[derive(Clone, Debug, PartialEq, Eq)]
pub enum ContextElement {
    /// A term variable in scope, with no type.
    Variable(Arc<String>),
    /// An existential that is not solved.
    Existential(usize),
    /// An existential with its solution.
    Solved(usize, Type),
    /// The start of a scope.
    Marker(usize),
    /// A term variable with its type.
    TypedVariable(Arc<String>, Type),
}

impl View for ContextElement {
    type V = Element;

    open spec fn view(&self) -> Element {
        match *self {
            ContextElement::Variable(n) => Element::Variable(n@),
            ContextElement::Existential(i) => Element::Existential(i),
            ContextElement::Solved(i, t) => Element::Solved(i, t),
            ContextElement::Marker(i) => Element::Marker(i),
            ContextElement::TypedVariable(n, t) => Element::TypedVariable(n@, t),
        }
    }
}

/// The context: its entries, oldest first. It grows at the end, is cut
/// back to a saved length, and an existential is solved where it stands.
#[derive(Clone, Debug, PartialEq, Eq)]
pub struct Context {
    pub elements: Vec<ContextElement>,
}

impl View for Context {
    type V = Ctx;

    open spec fn view(&self) -> Ctx {
        self.elements@.map_values(|e: ContextElement| e@)
    }
}

/// Whether an entry is what it was, or the solution of the existential
/// that it was.
pub open spec fn kept_or_solved(before: Element, after: Element) -> bool {
    before == after || (before matches Element::Existential(i) && after matches Element::Solved(
        j,
        _,
    ) && i == j)
}

/// Whether `after` can come from `before` by adding entries at the end and
/// solving existentials in place: no entry moves, and none is lost.
pub open spec fn evolves(before: Ctx, after: Ctx) -> bool {
    &&& before.len() <= after.len()
    &&& forall|i: int|
        #![trigger before[i]]
        #![trigger after[i]]
        0 <= i < before.len() ==> kept_or_solved(before[i], after[i])
}

/// A context that evolves, and evolves again, has evolved.
pub proof fn lemma_evolves_trans(a: Ctx, b: Ctx, c: Ctx)
    requires
        evolves(a, b),
        evolves(b, c),
    ensures
        evolves(a, c),
{
    assert forall|i: int| 0 <= i < a.len() implies kept_or_solved(a[i], c[i]) by {
        assert(kept_or_solved(a[i], b[i]));
        assert(kept_or_solved(b[i], c[i]));
    }
}

/// Cutting an evolved context back to the old length leaves an evolved
/// context of that length.
pub proof fn lemma_evolves_truncated(a: Ctx, b: Ctx)
    requires
        evolves(a, b),
    ensures
        evolves(a, truncated(b, a.len() as int)),
        truncated(b, a.len() as int).len() == a.len(),
{
    let t = truncated(b, a.len() as int);
    assert forall|i: int| 0 <= i < a.len() implies kept_or_solved(a[i], t[i]) by {
        assert(kept_or_solved(a[i], b[i]));
    }
}

impl Context {
    /// The empty context.
    pub fn new() -> (r: Context)
        ensures
            r@ == Seq::<Element>::empty(),
    {
        let r = Context { elements: Vec::new() };
        assert(r@ =~= Seq::<Element>::empty());
        r
    }

    pub fn len(&self) -> (r: usize)
        ensures
            r == self@.len(),
    {
        self.elements.len()
    }

    /// Adds an entry at the end.
    pub fn push(&mut self, e: ContextElement)
        ensures
            final(self)@ == old(self)@.push(e@),
            evolves(old(self)@, final(self)@),
    {
        self.elements.push(e);
        assert(self@ =~= old(self)@.push(e@));
    }

    /// Cuts the context back to its first `len` entries: the exit from the
    /// scope that was entered at that length.
    pub fn truncate(&mut self, len: usize)
        ensures
            final(self)@ == truncated(old(self)@, len as int),
    {
        self.elements.truncate(len);
        assert(self@ =~= truncated(old(self)@, len as int));
    }

    /// The type of the innermost typed binding of `name`.
    pub fn lookup(&self, name: &Arc<String>) -> (r: Option<Type>)
        ensures
            r == lookup(self@, name@, self@.len() as int),
    {
        let mut i: usize = self.elements.len();
        while i > 0
            invariant
                i <= self.elements.len(),
                lookup(self@, name@, self@.len() as int) == lookup(self@, name@, i as int),
            decreases i,
        {
            i -= 1;
            match &self.elements[i] {
                ContextElement::TypedVariable(n, t) => {
                    if **n == **name {
                        return Some(*t);
                    }
                },
                _ => {},
            }
        }
        None
    }

    /// The index of the entry that introduces `id`, or the length.
    pub fn position(&self, id: usize) -> (r: usize)
        ensures
            r == position(self@, id, 0),
            r <= self@.len(),
            r < self@.len() ==> introduces(self@[r as int], id),
    {
        let mut i: usize = 0;
        while i < self.elements.len()
            invariant
                i <= self.elements.len(),
                position(self@, id, 0) == position(self@, id, i as int),
            decreases self.elements.len() - i,
        {
            let found = match &self.elements[i] {
                ContextElement::Existential(j) => *j == id,
                ContextElement::Solved(j, _) => *j == id,
                _ => false,
            };
            if found {
                return i;
            }
            i += 1;
        }
        i
    }

    /// The type that `t` stands for: solutions are followed until a
    /// literal type or an unsolved existential is met.
    pub fn apply(&self, t: Type) -> (r: Type)
        ensures
            r == apply(self@, t),
            well_scoped(self@) ==> settled(self@, r),
    {
        proof {
            if well_scoped(self@) {
                lemma_apply_settles(self@, t);
            }
        }
        let mut cur = t;
        let mut fuel: usize = self.elements.len();
        loop
            invariant
                fuel <= self.elements.len(),
                apply(self@, t) == resolve(self@, cur, fuel as nat),
                well_scoped(self@) ==> settled(self@, apply(self@, t)),
            decreases fuel,
        {
            match cur {
                Type::Literal(_) => {
                    return cur;
                },
                Type::Existential(id) => {
                    if fuel == 0 {
                        return cur;
                    }
                    let p = self.position(id);
                    if p >= self.elements.len() {
                        return cur;
                    }
                    match &self.elements[p] {
                        ContextElement::Solved(_, s) => {
                            cur = *s;
                            fuel -= 1;
                        },
                        _ => {
                            return cur;
                        },
                    }
                },
            }
        }
    }

    /// Solves the unsolved existential `id` to `t`, where it stands. Says
    /// whether the context held it.
    pub fn solve(&mut self, id: usize, t: Type) -> (r: bool)
        ensures
            match solve(old(self)@, id, t) {
                Some(c) => r && final(self)@ == c,
                None => !r && final(self)@ == old(self)@,
            },
            evolves(old(self)@, final(self)@),
            final(self)@.len() == old(self)@.len(),
    {
        let p = self.position(id);
        if p >= self.elements.len() {
            return false;
        }
        let open = match &self.elements[p] {
            ContextElement::Existential(_) => true,
            _ => false,
        };
        if !open {
            return false;
        }
        self.elements.set(p, ContextElement::Solved(id, t));
        assert(self@ =~= old(self)@.update(p as int, Element::Solved(id, t)));
        true
    }

    /// Makes the two types one, solving an existential if need be. On a
    /// mismatch the context is left as it was, and the two types come
    /// back as the context reads them.
    pub fn unify(&mut self, expected: Type, actual: Type) -> (r: Result<(), (Type, Type)>)
        ensures
            match r {
                Ok(_) => unify(old(self)@, expected, actual) == Some(final(self)@),
                Err(pair) => unify(old(self)@, expected, actual) is None && final(self)@ == old(
                    self,
                )@ && pair == (apply(old(self)@, expected), apply(old(self)@, actual)),
            },
            evolves(old(self)@, final(self)@),
            final(self)@.len() == old(self)@.len(),
    {
        let e = self.apply(expected);
        let a = self.apply(actual);
        let ok = match (e, a) {
            (Type::Literal(x), Type::Literal(y)) => x == y,
            (Type::Existential(i), Type::Literal(_)) => self.solve(i, a),
            (Type::Literal(_), Type::Existential(j)) => self.solve(j, e),
            (Type::Existential(i), Type::Existential(j)) => {
                if i == j {
                    true
                } else if self.position(i) < self.position(j) {
                    self.solve(j, e)
                } else {
                    self.solve(i, a)
                }
            },
        };
        if ok {
            Ok(())
        } else {
            Err((e, a))
        }
    }
}

} // verus!
