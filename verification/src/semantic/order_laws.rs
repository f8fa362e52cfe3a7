//! What holds of the processing order: every node is in a group, a group
//! is a set of nodes that reach each other, and callees come first.

use crate::semantic::order::{
    count_true, edge, group_of, is_leader, is_walk, lemma_count_subset, lemma_reaches_in_range,
    lemma_reaches_self, lemma_reaches_trans, members, processing_order, rank_groups, ranked,
    reach_count, reach_set, reaches, same_group, Graph,
};
use crate::parser::ast::Node;
use crate::semantic::calls::{call_graph, calls};
use vstd::prelude::*;

verus! {

/// Whether no node can get back to itself along an edge.
pub open spec fn acyclic(g: Graph) -> bool {
    forall|a: int, b: int| #[trigger] edge(g, a, b) ==> !reaches(g, b, a)
}

/// The first node from `from` on that is in the group of `a`.
pub open spec fn first_same(g: Graph, a: int, from: int) -> int
    decreases a - from,
{
    if from >= a || same_group(g, a, from) {
        from
    } else {
        first_same(g, a, from + 1)
    }
}

/// The first node of the group of `a`.
pub open spec fn leader_of(g: Graph, a: int) -> int {
    first_same(g, a, 0)
}

/// The place of the group of `a` in the processing order: the groups that
/// reach fewer nodes come before it, and those that reach as many and
/// start lower.
pub open spec fn group_index(g: Graph, a: int) -> int {
    slot(g, leader_of(g, a))
}

/// The place of the group whose first node is `l`.
pub open spec fn slot(g: Graph, l: int) -> int {
    let rank = reach_count(g, l);
    (ranked(g, rank - 1).len() + rank_groups(g, rank, l).len()) as int
}

pub proof fn lemma_same_group_trans(g: Graph, a: int, b: int, c: int)
    requires
        same_group(g, a, b),
        same_group(g, b, c),
    ensures
        same_group(g, a, c),
{
    lemma_reaches_trans(g, a, b, c);
    lemma_reaches_trans(g, c, b, a);
}

proof fn lemma_first_same(g: Graph, a: int, from: int)
    requires
        0 <= from <= a < g.len(),
        forall|j: int| 0 <= j < from ==> !#[trigger] same_group(g, a, j),
    ensures
        from <= first_same(g, a, from) <= a,
        same_group(g, a, first_same(g, a, from)),
        forall|j: int| 0 <= j < first_same(g, a, from) ==> !#[trigger] same_group(g, a, j),
    decreases a - from,
{
    lemma_reaches_self(g, a);
    if from >= a || same_group(g, a, from) {
    } else {
        lemma_first_same(g, a, from + 1);
    }
}

/// The first node of a group is in the group and no node below it is.
pub proof fn lemma_leader_of(g: Graph, a: int)
    requires
        0 <= a < g.len(),
    ensures
        0 <= leader_of(g, a) <= a,
        same_group(g, a, leader_of(g, a)),
        is_leader(g, leader_of(g, a)),
{
    lemma_first_same(g, a, 0);
    let l = leader_of(g, a);
    assert forall|j: int| 0 <= j < l implies !#[trigger] same_group(g, l, j) by {
        if same_group(g, l, j) {
            lemma_same_group_trans(g, a, l, j);
        }
    }
}

proof fn lemma_count_positive(s: Seq<bool>, k: int)
    requires
        0 <= k < s.len(),
        s[k],
    ensures
        count_true(s) > 0,
    decreases s.len(),
{
    if k < s.len() - 1 {
        lemma_count_positive(s.drop_last(), k);
    }
}

/// A node reaches itself, and no more nodes than there are.
pub proof fn lemma_reach_count_bounds(g: Graph, a: int)
    requires
        0 <= a < g.len(),
    ensures
        1 <= reach_count(g, a) <= g.len(),
{
    lemma_reaches_self(g, a);
    lemma_count_positive(reach_set(g, a), a);
    crate::semantic::order::lemma_count_bound(reach_set(g, a));
}

/// A node reaches whatever its callees reach: it reaches at least as many
/// nodes as a node that it reaches, and more where that node cannot get
/// back to it.
pub proof fn lemma_reach_count_mono(g: Graph, a: int, b: int)
    requires
        reaches(g, a, b),
    ensures
        reach_count(g, b) <= reach_count(g, a),
        !reaches(g, b, a) ==> reach_count(g, b) < reach_count(g, a),
{
    let s = reach_set(g, b);
    let t = reach_set(g, a);
    lemma_reaches_in_range(g, a, b);
    assert forall|i: int| 0 <= i < s.len() && s[i] implies t[i] by {
        lemma_reaches_trans(g, a, b, i);
    }
    lemma_count_subset(s, t);
    if !reaches(g, b, a) {
        lemma_reaches_self(g, a);
        assert(t[a] && !s[a]);
    }
}

proof fn lemma_members_holds(g: Graph, a: int, upto: int, j: int)
    requires
        0 <= j < upto <= usize::MAX,
        same_group(g, a, j),
    ensures
        members(g, a, upto).contains(j as usize),
    decreases upto,
{
    if j == upto - 1 {
        let m = members(g, a, upto);
        assert(m[m.len() - 1] == j as usize);
    } else {
        lemma_members_holds(g, a, upto - 1, j);
        let m0 = members(g, a, upto - 1);
        let k = choose|k: int| 0 <= k < m0.len() && m0[k] == j as usize;
        assert(members(g, a, upto)[k] == j as usize);
    }
}

proof fn lemma_members_only(g: Graph, a: int, upto: int, k: int)
    requires
        0 <= upto <= usize::MAX,
        0 <= k < members(g, a, upto).len(),
    ensures
        0 <= members(g, a, upto)[k] < upto,
        same_group(g, a, members(g, a, upto)[k] as int),
    decreases upto,
{
    if upto > 0 {
        if same_group(g, a, upto - 1) && k == members(g, a, upto).len() - 1 {
        } else {
            lemma_members_only(g, a, upto - 1, k);
        }
    }
}

proof fn lemma_members_alone(g: Graph, a: int, upto: int)
    requires
        0 <= a < g.len(),
        0 <= upto <= usize::MAX,
        forall|j: int| 0 <= j < upto && j != a ==> !#[trigger] same_group(g, a, j),
    ensures
        members(g, a, upto) == if a < upto {
            seq![a as usize]
        } else {
            Seq::<usize>::empty()
        },
    decreases upto,
{
    lemma_reaches_self(g, a);
    if upto > 0 {
        lemma_members_alone(g, a, upto - 1);
        if a == upto - 1 {
            assert(members(g, a, upto) =~= seq![a as usize]);
        }
    }
}

proof fn lemma_rank_groups_prefix(g: Graph, rank: nat, i: int, j: int)
    requires
        0 <= i <= j,
    ensures
        rank_groups(g, rank, i).len() <= rank_groups(g, rank, j).len(),
        forall|k: int|
            0 <= k < rank_groups(g, rank, i).len() ==> #[trigger] rank_groups(g, rank, j)[k]
                == rank_groups(g, rank, i)[k],
    decreases j,
{
    if i < j {
        lemma_rank_groups_prefix(g, rank, i, j - 1);
    }
}

proof fn lemma_ranked_prefix(g: Graph, c: int, d: int)
    requires
        0 <= c <= d,
    ensures
        ranked(g, c).len() <= ranked(g, d).len(),
        forall|k: int| 0 <= k < ranked(g, c).len() ==> #[trigger] ranked(g, d)[k] == ranked(g, c)[k],
    decreases d,
{
    if c < d {
        lemma_ranked_prefix(g, c, d - 1);
    }
}

/// The group of a first node stands in the processing order at the place
/// that its rank and its first node give.
pub proof fn lemma_leader_slot(g: Graph, l: int)
    requires
        0 <= l < g.len(),
        is_leader(g, l),
    ensures
        ranked(g, reach_count(g, l) - 1).len() <= slot(g, l) < ranked(
            g,
            reach_count(g, l) as int,
        ).len(),
        ranked(g, reach_count(g, l) as int).len() <= processing_order(g).len(),
        processing_order(g)[slot(g, l)] == group_of(g, l),
{
    let n = g.len() as int;
    let c = reach_count(g, l);
    lemma_reach_count_bounds(g, l);
    let before = rank_groups(g, c, l);
    let k = before.len() as int;
    assert(rank_groups(g, c, l + 1) == before.push(group_of(g, l)));
    lemma_rank_groups_prefix(g, c, l + 1, n);
    assert(rank_groups(g, c, n)[k] == rank_groups(g, c, l + 1)[k]);
    let base = ranked(g, c - 1).len() as int;
    assert(ranked(g, c as int) == ranked(g, c - 1) + rank_groups(g, c, n));
    assert(ranked(g, c as int)[base + k] == rank_groups(g, c, n)[k]);
    lemma_ranked_prefix(g, c as int, n);
    assert(ranked(g, n)[base + k] == ranked(g, c as int)[base + k]);
}

/// Every node is in the group at its group's place in the processing
/// order, and every node of that group is in the node's group.
pub proof fn lemma_node_in_order(g: Graph, a: int)
    requires
        0 <= a < g.len() <= usize::MAX,
    ensures
        0 <= group_index(g, a) < processing_order(g).len(),
        processing_order(g)[group_index(g, a)].contains(a as usize),
        forall|k: int|
            0 <= k < processing_order(g)[group_index(g, a)].len() ==> same_group(
                g,
                a,
                #[trigger] processing_order(g)[group_index(g, a)][k] as int,
            ),
{
    let l = leader_of(g, a);
    lemma_leader_of(g, a);
    lemma_leader_slot(g, l);
    lemma_members_holds(g, l, g.len() as int, a);
    let group = processing_order(g)[group_index(g, a)];
    assert(group == group_of(g, l));
    assert forall|k: int| 0 <= k < group.len() implies same_group(g, a, #[trigger] group[k] as int) by {
        lemma_members_only(g, l, g.len() as int, k);
        lemma_same_group_trans(g, a, l, group[k] as int);
    }
}

/// Nodes that reach each other have the same first node.
pub proof fn lemma_same_leader(g: Graph, a: int, b: int)
    requires
        0 <= a < g.len(),
        same_group(g, a, b),
    ensures
        leader_of(g, a) == leader_of(g, b),
{
    lemma_reaches_in_range(g, a, b);
    lemma_leader_of(g, a);
    lemma_leader_of(g, b);
    let la = leader_of(g, a);
    let lb = leader_of(g, b);
    lemma_same_group_trans(g, la, a, b);
    lemma_same_group_trans(g, la, b, lb);
    lemma_same_group_trans(g, lb, b, a);
    lemma_same_group_trans(g, lb, a, la);
    if la < lb {
        assert(same_group(g, lb, la));
    } else if lb < la {
        assert(same_group(g, la, lb));
    }
}

/// Callees come first: the group of a node that `a` reaches stands no
/// later than the group of `a`, and at the same place exactly if the node
/// reaches `a` in turn.
pub proof fn lemma_callees_first(g: Graph, a: int, b: int)
    requires
        g.len() <= usize::MAX,
        reaches(g, a, b),
    ensures
        group_index(g, b) <= group_index(g, a),
        group_index(g, b) == group_index(g, a) <==> reaches(g, b, a),
{
    lemma_reaches_in_range(g, a, b);
    let la = leader_of(g, a);
    let lb = leader_of(g, b);
    lemma_leader_of(g, a);
    lemma_leader_of(g, b);
    if reaches(g, b, a) {
        lemma_same_leader(g, a, b);
    } else {
        lemma_reaches_trans(g, la, a, b);
        lemma_reaches_trans(g, la, b, lb);
        if reaches(g, lb, la) {
            lemma_reaches_trans(g, b, lb, la);
            lemma_reaches_trans(g, b, la, a);
        }
        lemma_reach_count_mono(g, la, lb);
        let ca = reach_count(g, la);
        let cb = reach_count(g, lb);
        lemma_leader_slot(g, lb);
        lemma_ranked_prefix(g, cb as int, ca - 1);
    }
}

proof fn lemma_first_step(g: Graph, a: int, b: int)
    requires
        reaches(g, a, b),
        a != b,
    ensures
        exists|x: int| #[trigger] edge(g, a, x) && reaches(g, x, b),
{
    let p = choose|p: Seq<int>| #[trigger] is_walk(g, p) && p[0] == a && p[p.len() - 1] == b;
    let q = p.subrange(1, p.len() as int);
    assert(edge(g, p[0], p[0int + 1]));
    assert forall|i: int| 0 <= i < q.len() - 1 implies edge(g, #[trigger] q[i], q[i + 1]) by {
        assert(edge(g, p[i + 1], p[i + 1 + 1]));
    }
    assert(is_walk(g, q));
    assert(edge(g, a, q[0]) && reaches(g, q[0], b));
}

/// In a graph without cycles no two nodes reach each other.
pub proof fn lemma_acyclic_alone(g: Graph, a: int, b: int)
    requires
        acyclic(g),
        same_group(g, a, b),
    ensures
        a == b,
{
    if a != b {
        lemma_first_step(g, a, b);
        let x = choose|x: int| #[trigger] edge(g, a, x) && reaches(g, x, b);
        lemma_reaches_trans(g, x, b, a);
    }
}

/// In a call graph without cycles every function is a group of its own
/// and stands in the processing order after each function that it calls.
pub proof fn lemma_acyclic_order(g: Graph, a: int, b: int)
    requires
        g.len() <= usize::MAX,
        acyclic(g),
        edge(g, a, b),
    ensures
        0 <= group_index(g, b) < group_index(g, a) < processing_order(g).len(),
        processing_order(g)[group_index(g, b)] == seq![b as usize],
        processing_order(g)[group_index(g, a)] == seq![a as usize],
{
    lemma_reaches_self(g, a);
    crate::semantic::order::lemma_reaches_step(g, a, a, b);
    lemma_callees_first(g, a, b);
    lemma_acyclic_group(g, a);
    lemma_acyclic_group(g, b);
}

/// In a graph without cycles the group of a node holds the node alone.
pub proof fn lemma_acyclic_group(g: Graph, a: int)
    requires
        0 <= a < g.len() <= usize::MAX,
        acyclic(g),
    ensures
        0 <= group_index(g, a) < processing_order(g).len(),
        processing_order(g)[group_index(g, a)] == seq![a as usize],
{
    lemma_leader_of(g, a);
    lemma_acyclic_alone(g, a, leader_of(g, a));
    lemma_leader_slot(g, a);
    assert forall|j: int| 0 <= j < g.len() && j != a implies !#[trigger] same_group(g, a, j) by {
        if same_group(g, a, j) {
            lemma_acyclic_alone(g, a, j);
        }
    }
    lemma_members_alone(g, a, g.len() as int);
}

/// In a module whose call graph has no cycle, every function is a group
/// of its own and stands in the processing order after each function that
/// it calls.
pub proof fn lemma_callees_checked_first(fns: Seq<Node>, a: int, b: int)
    requires
        fns.len() <= usize::MAX,
        acyclic(call_graph(fns)),
        0 <= a < fns.len(),
        0 <= b < fns.len(),
        calls(fns, a, b),
    ensures
        0 <= group_index(call_graph(fns), b) < group_index(call_graph(fns), a) < processing_order(
            call_graph(fns),
        ).len(),
        processing_order(call_graph(fns))[group_index(call_graph(fns), b)] == seq![b as usize],
        processing_order(call_graph(fns))[group_index(call_graph(fns), a)] == seq![a as usize],
{
    let g = call_graph(fns);
    assert(edge(g, a, b));
    lemma_acyclic_order(g, a, b);
}

/// Whether `l` is the first node of a group that reaches `rank` nodes and
/// stands at place `k` among the groups of its rank.
pub open spec fn leads(g: Graph, l: int, rank: nat, k: int) -> bool {
    0 <= l < g.len() && is_leader(g, l) && reach_count(g, l) == rank && rank_groups(g, rank, l).len()
        == k
}

proof fn lemma_rank_groups_origin(g: Graph, rank: nat, upto: int, k: int)
    requires
        0 <= upto <= g.len(),
        0 <= k < rank_groups(g, rank, upto).len(),
    ensures
        exists|l: int| #[trigger] leads(g, l, rank, k) && l < upto && rank_groups(g, rank, upto)[k]
            == group_of(g, l),
    decreases upto,
{
    if upto > 0 {
        let before = rank_groups(g, rank, upto - 1);
        if k < before.len() {
            lemma_rank_groups_origin(g, rank, upto - 1, k);
            let l = choose|l: int| #[trigger]
                leads(g, l, rank, k) && l < upto - 1 && before[k] == group_of(g, l);
            assert(leads(g, l, rank, k) && l < upto && rank_groups(g, rank, upto)[k] == group_of(
                g,
                l,
            ));
        } else {
            assert(leads(g, upto - 1, rank, k));
        }
    }
}

proof fn lemma_ranked_origin(g: Graph, upto: int, i: int)
    requires
        0 <= upto <= g.len(),
        0 <= i < ranked(g, upto).len(),
    ensures
        exists|l: int|
            0 <= l < g.len() && is_leader(g, l) && #[trigger] slot(g, l) == i && reach_count(g, l)
                <= upto && ranked(g, upto)[i] == group_of(g, l),
    decreases upto,
{
    if upto > 0 {
        let before = ranked(g, upto - 1);
        if i < before.len() {
            lemma_ranked_origin(g, upto - 1, i);
            let l = choose|l: int|
                0 <= l < g.len() && is_leader(g, l) && #[trigger] slot(g, l) == i && reach_count(
                    g,
                    l,
                ) <= upto - 1 && before[i] == group_of(g, l);
            assert(slot(g, l) == i && ranked(g, upto)[i] == group_of(g, l));
        } else {
            let k = i - before.len();
            lemma_rank_groups_origin(g, upto as nat, g.len() as int, k);
            let l = choose|l: int| #[trigger]
                leads(g, l, upto as nat, k) && l < g.len() && rank_groups(
                    g,
                    upto as nat,
                    g.len() as int,
                )[k] == group_of(g, l);
            assert(slot(g, l) == i);
            assert(ranked(g, upto)[i] == group_of(g, l));
        }
    }
}

/// A first node is the first node of its own group.
pub proof fn lemma_leader_leads_itself(g: Graph, l: int)
    requires
        0 <= l < g.len(),
        is_leader(g, l),
    ensures
        leader_of(g, l) == l,
{
    lemma_leader_of(g, l);
    let m = leader_of(g, l);
    if m < l {
        assert(same_group(g, l, m));
    }
}

/// Every group of the processing order is the group of a node, at the
/// place of that node's group: the order holds nothing else.
pub proof fn lemma_group_has_leader(g: Graph, i: int)
    requires
        g.len() <= usize::MAX,
        0 <= i < processing_order(g).len(),
    ensures
        exists|l: int|
            0 <= l < g.len() && is_leader(g, l) && #[trigger] slot(g, l) == i && processing_order(
                g,
            )[i] == group_of(g, l),
{
    lemma_ranked_origin(g, g.len() as int, i);
}

/// A node is in one group only: a group that holds it stands at the place
/// of the node's group.
pub proof fn lemma_one_group(g: Graph, a: int, i: int)
    requires
        0 <= a < g.len() <= usize::MAX,
        0 <= i < processing_order(g).len(),
        processing_order(g)[i].contains(a as usize),
    ensures
        i == group_index(g, a),
{
    lemma_group_has_leader(g, i);
    let l = choose|l: int|
        0 <= l < g.len() && is_leader(g, l) && #[trigger] slot(g, l) == i && processing_order(
            g,
        )[i] == group_of(g, l);
    let group = group_of(g, l);
    let k = choose|k: int| 0 <= k < group.len() && group[k] == a as usize;
    lemma_members_only(g, l, g.len() as int, k);
    lemma_reaches_in_range(g, l, a);
    lemma_same_leader(g, l, a);
    lemma_leader_leads_itself(g, l);
}

/// The nodes of a group stand in it in rising order: none stands twice.
pub proof fn lemma_members_rise(g: Graph, a: int, upto: int, j: int, k: int)
    requires
        0 <= upto <= usize::MAX,
        0 <= j < k < members(g, a, upto).len(),
    ensures
        members(g, a, upto)[j] < members(g, a, upto)[k],
    decreases upto,
{
    if upto > 0 {
        if same_group(g, a, upto - 1) && k == members(g, a, upto).len() - 1 {
            lemma_members_only(g, a, upto - 1, j);
        } else {
            lemma_members_rise(g, a, upto - 1, j, k);
        }
    }
}

} // verus!
