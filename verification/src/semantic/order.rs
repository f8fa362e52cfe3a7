//! The dependency orderer: strongly connected components of a call graph,
//! callees before callers.

use vstd::prelude::*;

verus! {

/// A directed graph on the nodes `0..len`, as its adjacency matrix.
pub type Graph = Seq<Seq<bool>>;

pub open spec fn matrix_view(m: Seq<Vec<bool>>) -> Graph {
    m.map_values(|r: Vec<bool>| r@)
}

pub open spec fn groups_view(v: Seq<Vec<usize>>) -> Seq<Seq<usize>> {
    v.map_values(|g: Vec<usize>| g@)
}

/// Whether every row has one entry for each node.
pub open spec fn square(g: Graph) -> bool {
    forall|a: int| 0 <= a < g.len() ==> (#[trigger] g[a]).len() == g.len()
}

/// Whether the graph has an edge from `a` to `b`.
pub open spec fn edge(g: Graph, a: int, b: int) -> bool {
    0 <= a < g.len() && 0 <= b < g.len() && b < g[a].len() && g[a][b]
}

/// Whether `p` is a walk: a nonempty sequence of nodes, each joined to the
/// next by an edge.
pub open spec fn is_walk(g: Graph, p: Seq<int>) -> bool {
    &&& p.len() > 0
    &&& 0 <= p[0] < g.len()
    &&& forall|i: int| 0 <= i < p.len() - 1 ==> edge(g, #[trigger] p[i], p[i + 1])
}

/// Whether a walk leads from `a` to `b`; every node reaches itself.
pub open spec fn reaches(g: Graph, a: int, b: int) -> bool {
    exists|p: Seq<int>| #[trigger] is_walk(g, p) && p[0] == a && p[p.len() - 1] == b
}

/// Whether each of the two nodes reaches the other.
pub open spec fn same_group(g: Graph, a: int, b: int) -> bool {
    reaches(g, a, b) && reaches(g, b, a)
}

pub proof fn lemma_reaches_self(g: Graph, a: int)
    requires
        0 <= a < g.len(),
    ensures
        reaches(g, a, a),
{
    let p = seq![a];
    assert(is_walk(g, p));
}

pub proof fn lemma_reaches_in_range(g: Graph, a: int, b: int)
    requires
        reaches(g, a, b),
    ensures
        0 <= a < g.len(),
        0 <= b < g.len(),
{
    let p = choose|p: Seq<int>| #[trigger] is_walk(g, p) && p[0] == a && p[p.len() - 1] == b;
    if p.len() > 1 {
        assert(edge(g, p[p.len() - 2], p[p.len() - 2 + 1]));
    }
}

pub proof fn lemma_reaches_step(g: Graph, a: int, k: int, j: int)
    requires
        reaches(g, a, k),
        edge(g, k, j),
    ensures
        reaches(g, a, j),
{
    let p = choose|p: Seq<int>| #[trigger] is_walk(g, p) && p[0] == a && p[p.len() - 1] == k;
    let q = p.push(j);
    assert forall|i: int| 0 <= i < q.len() - 1 implies edge(g, #[trigger] q[i], q[i + 1]) by {
        if i < p.len() - 1 {
            assert(edge(g, p[i], p[i + 1]));
        }
    }
    assert(is_walk(g, q));
}

pub proof fn lemma_reaches_trans(g: Graph, a: int, b: int, c: int)
    requires
        reaches(g, a, b),
        reaches(g, b, c),
    ensures
        reaches(g, a, c),
{
    let p = choose|p: Seq<int>| #[trigger] is_walk(g, p) && p[0] == a && p[p.len() - 1] == b;
    let q = choose|q: Seq<int>| #[trigger] is_walk(g, q) && q[0] == b && q[q.len() - 1] == c;
    let r = p + q.subrange(1, q.len() as int);
    assert forall|i: int| 0 <= i < r.len() - 1 implies edge(g, #[trigger] r[i], r[i + 1]) by {
        if i < p.len() - 1 {
            assert(edge(g, p[i], p[i + 1]));
        } else if i == p.len() - 1 {
            assert(edge(g, q[0], q[0int + 1]));
        } else {
            let k = i - p.len() + 1;
            assert(edge(g, q[k], q[k + 1]));
        }
    }
    assert(is_walk(g, r));
    assert(r[0] == a);
    assert(r[r.len() - 1] == c);
}

/// Whether the set holds every node that an edge leads to from a node of
/// the set.
pub open spec fn closed(g: Graph, set: Seq<bool>) -> bool {
    forall|k: int, j: int| 0 <= k < set.len() && set[k] && #[trigger] edge(g, k, j) ==> set[j]
}

/// A walk that starts in a closed set stays in it.
pub proof fn lemma_walk_stays(g: Graph, set: Seq<bool>, p: Seq<int>, i: int)
    requires
        set.len() == g.len(),
        closed(g, set),
        is_walk(g, p),
        set[p[0]],
        0 <= i < p.len(),
    ensures
        0 <= p[i] < g.len(),
        set[p[i]],
    decreases i,
{
    if i > 0 {
        lemma_walk_stays(g, set, p, i - 1);
        assert(edge(g, p[i - 1], p[i - 1 + 1]));
    }
}

/// The number of `true` entries.
pub open spec fn count_true(s: Seq<bool>) -> nat
    decreases s.len(),
{
    if s.len() == 0 {
        0
    } else {
        count_true(s.drop_last()) + if s.last() {
            1nat
        } else {
            0nat
        }
    }
}

pub proof fn lemma_count_bound(s: Seq<bool>)
    ensures
        count_true(s) <= s.len(),
    decreases s.len(),
{
    if s.len() > 0 {
        lemma_count_bound(s.drop_last());
    }
}

pub proof fn lemma_count_set(s: Seq<bool>, i: int)
    requires
        0 <= i < s.len(),
        !s[i],
    ensures
        count_true(s.update(i, true)) == count_true(s) + 1,
    decreases s.len(),
{
    let t = s.update(i, true);
    if i == s.len() - 1 {
        assert(t.drop_last() =~= s.drop_last());
    } else {
        lemma_count_set(s.drop_last(), i);
        assert(t.drop_last() =~= s.drop_last().update(i, true));
    }
}

/// A set has no more entries than a set that holds it, and fewer where the
/// other holds a node more.
pub proof fn lemma_count_subset(s: Seq<bool>, t: Seq<bool>)
    requires
        s.len() == t.len(),
        forall|i: int| 0 <= i < s.len() && s[i] ==> t[i],
    ensures
        count_true(s) <= count_true(t),
        (exists|k: int| 0 <= k < s.len() && t[k] && !s[k]) ==> count_true(s) < count_true(t),
    decreases s.len(),
{
    if s.len() > 0 {
        let s0 = s.drop_last();
        let t0 = t.drop_last();
        assert forall|i: int| 0 <= i < s0.len() && s0[i] implies t0[i] by {
            assert(s[i] ==> t[i]);
        }
        lemma_count_subset(s0, t0);
        if exists|k: int| 0 <= k < s.len() && t[k] && !s[k] {
            let k = choose|k: int| 0 <= k < s.len() && t[k] && !s[k];
            if k < s.len() - 1 {
                assert(t0[k] && !s0[k]);
            }
        }
    }
}

/// The set of the nodes that `a` reaches.
pub open spec fn reach_set(g: Graph, a: int) -> Seq<bool> {
    Seq::new(g.len(), |j: int| reaches(g, a, j))
}

/// The number of nodes that `a` reaches.
pub open spec fn reach_count(g: Graph, a: int) -> nat {
    count_true(reach_set(g, a))
}

/// Whether `a` is the first node of its group.
pub open spec fn is_leader(g: Graph, a: int) -> bool {
    forall|j: int| 0 <= j < a ==> !#[trigger] same_group(g, a, j)
}

/// The nodes below `upto` that are in the group of `a`, in rising order.
pub open spec fn members(g: Graph, a: int, upto: int) -> Seq<usize>
    decreases upto,
{
    if upto <= 0 {
        Seq::empty()
    } else if same_group(g, a, upto - 1) {
        members(g, a, upto - 1).push((upto - 1) as usize)
    } else {
        members(g, a, upto - 1)
    }
}

/// The group of `a`: the nodes that reach `a` and that `a` reaches.
pub open spec fn group_of(g: Graph, a: int) -> Seq<usize> {
    members(g, a, g.len() as int)
}

/// The groups whose first node is below `upto` and reaches `rank` nodes, by
/// first node.
pub open spec fn rank_groups(g: Graph, rank: nat, upto: int) -> Seq<Seq<usize>>
    decreases upto,
{
    if upto <= 0 {
        Seq::empty()
    } else if is_leader(g, upto - 1) && reach_count(g, upto - 1) == rank {
        rank_groups(g, rank, upto - 1).push(group_of(g, upto - 1))
    } else {
        rank_groups(g, rank, upto - 1)
    }
}

/// The groups that reach at most `upto` nodes, by the number of nodes
/// reached, then by first node.
pub open spec fn ranked(g: Graph, upto: int) -> Seq<Seq<usize>>
    decreases upto,
{
    if upto <= 0 {
        Seq::empty()
    } else {
        ranked(g, upto - 1) + rank_groups(g, upto as nat, g.len() as int)
    }
}

/// The processing order of a graph: its groups, a group that reaches fewer
/// nodes first, and of two that reach as many the one with the lower first
/// node.
pub open spec fn processing_order(g: Graph) -> Seq<Seq<usize>> {
    ranked(g, g.len() as int)
}

pub(crate) fn falses(n: usize) -> (r: Vec<bool>)
    ensures
        r.len() == n,
        forall|i: int| 0 <= i < n ==> !r[i],
{
    let mut v: Vec<bool> = Vec::new();
    while v.len() < n
        invariant
            v.len() <= n,
            forall|i: int| 0 <= i < v.len() ==> !v[i],
        decreases n - v.len(),
    {
        v.push(false);
    }
    v
}

/// The first node that is visited and not yet expanded, or the number of
/// nodes.
fn next_open(visited: &Vec<bool>, expanded: &Vec<bool>) -> (k: usize)
    requires
        visited.len() == expanded.len(),
    ensures
        k <= visited.len(),
        k < visited.len() ==> visited[k as int] && !expanded[k as int],
        k == visited.len() ==> forall|j: int| 0 <= j < visited.len() && visited[j] ==> expanded[j],
{
    let mut k: usize = 0;
    while k < visited.len()
        invariant
            k <= visited.len(),
            visited.len() == expanded.len(),
            forall|j: int| 0 <= j < k && visited[j] ==> expanded[j],
        decreases visited.len() - k,
    {
        if visited[k] && !expanded[k] {
            return k;
        }
        k += 1;
    }
    k
}

/// The set of the nodes that `a` reaches.
pub fn reach_row(g: &Vec<Vec<bool>>, a: usize) -> (r: Vec<bool>)
    requires
        square(matrix_view(g@)),
        a < g.len(),
    ensures
        r@ == reach_set(matrix_view(g@), a as int),
{
    let n = g.len();
    let ghost gv = matrix_view(g@);
    let mut visited = falses(n);
    let mut expanded = falses(n);
    visited.set(a, true);
    proof {
        lemma_reaches_self(gv, a as int);
        lemma_count_bound(expanded@);
    }
    loop
        invariant
            n == g.len(),
            gv == matrix_view(g@),
            square(gv),
            a < n,
            visited.len() == n,
            expanded.len() == n,
            visited[a as int],
            forall|j: int| 0 <= j < n && visited[j] ==> reaches(gv, a as int, j),
            forall|k: int, j: int|
                0 <= k < n && expanded[k] && #[trigger] edge(gv, k, j) ==> visited[j],
            forall|k: int| 0 <= k < n && expanded[k] ==> visited[k],
            count_true(expanded@) <= n,
        decreases n - count_true(expanded@),
    {
        let k = next_open(&visited, &expanded);
        if k >= n {
            proof {
                assert(closed(gv, visited@));
                assert forall|j: int| 0 <= j < n implies visited[j] == reaches(
                    gv,
                    a as int,
                    j,
                ) by {
                    if reaches(gv, a as int, j) {
                        let p = choose|p: Seq<int>| #[trigger]
                            is_walk(gv, p) && p[0] == a as int && p[p.len() - 1] == j;
                        lemma_walk_stays(gv, visited@, p, p.len() - 1);
                    }
                }
                assert(visited@ =~= reach_set(gv, a as int));
            }
            return visited;
        }
        let mut j: usize = 0;
        let ghost before = visited@;
        while j < n
            invariant
                n == g.len(),
                gv == matrix_view(g@),
                square(gv),
                k < n,
                j <= n,
                visited.len() == n,
                before.len() == n,
                visited[k as int],
                forall|x: int| 0 <= x < n && before[x] ==> visited[x],
                forall|x: int| 0 <= x < n && visited[x] ==> reaches(gv, a as int, x),
                forall|x: int| 0 <= x < j && edge(gv, k as int, x) ==> visited[x],
            decreases n - j,
        {
            assert(gv[k as int] == g@[k as int]@);
            assert(gv[k as int].len() == n);
            if g[k][j] {
                proof {
                    assert(edge(gv, k as int, j as int));
                    lemma_reaches_step(gv, a as int, k as int, j as int);
                }
                visited.set(j, true);
            }
            j += 1;
        }
        proof {
            lemma_count_set(expanded@, k as int);
            lemma_count_bound(expanded@.update(k as int, true));
        }
        expanded.set(k, true);
    }
}

/// The number of `true` entries of a row.
pub fn count_row(row: &Vec<bool>) -> (r: usize)
    ensures
        r == count_true(row@),
{
    let mut total: usize = 0;
    let mut i: usize = 0;
    while i < row.len()
        invariant
            i <= row.len(),
            total == count_true(row@.take(i as int)),
            total <= i,
        decreases row.len() - i,
    {
        proof {
            assert(row@.take(i + 1).drop_last() =~= row@.take(i as int));
        }
        if row[i] {
            total += 1;
        }
        i += 1;
    }
    assert(row@.take(row.len() as int) =~= row@);
    total
}

/// What the orderer works from: for each node the set of the nodes that it
/// reaches, and their number.
pub struct Reach {
    pub rows: Vec<Vec<bool>>,
    pub counts: Vec<usize>,
}

impl Reach {
    /// Whether this is what `g` gives.
    pub open spec fn of(&self, g: Graph) -> bool {
        &&& self.rows.len() == g.len()
        &&& self.counts.len() == g.len()
        &&& forall|a: int| 0 <= a < g.len() ==> (#[trigger] self.rows[a])@ == reach_set(g, a)
        &&& forall|a: int| 0 <= a < g.len() ==> #[trigger] self.counts[a] == reach_count(g, a)
    }

    /// Works out what every node reaches.
    pub fn new(g: &Vec<Vec<bool>>) -> (r: Reach)
        requires
            square(matrix_view(g@)),
        ensures
            r.of(matrix_view(g@)),
    {
        let mut rows: Vec<Vec<bool>> = Vec::new();
        let mut counts: Vec<usize> = Vec::new();
        let mut a: usize = 0;
        let ghost gv = matrix_view(g@);
        while a < g.len()
            invariant
                a <= g.len(),
                gv == matrix_view(g@),
                square(gv),
                rows.len() == a,
                counts.len() == a,
                forall|x: int| 0 <= x < a ==> (#[trigger] rows[x])@ == reach_set(gv, x),
                forall|x: int| 0 <= x < a ==> #[trigger] counts[x] == reach_count(gv, x),
            decreases g.len() - a,
        {
            let row = reach_row(g, a);
            let c = count_row(&row);
            rows.push(row);
            counts.push(c);
            a += 1;
        }
        Reach { rows, counts }
    }

    /// Whether each of the two nodes reaches the other.
    fn same_group(&self, Ghost(g): Ghost<Graph>, a: usize, b: usize) -> (r: bool)
        requires
            self.of(g),
            a < g.len(),
            b < g.len(),
        ensures
            r == same_group(g, a as int, b as int),
    {
        assert(self.rows[a as int]@ == reach_set(g, a as int));
        assert(self.rows[b as int]@ == reach_set(g, b as int));
        self.rows[a][b] && self.rows[b][a]
    }

    /// Whether `a` is the first node of its group.
    fn is_leader(&self, Ghost(g): Ghost<Graph>, a: usize) -> (r: bool)
        requires
            self.of(g),
            a < g.len(),
        ensures
            r == is_leader(g, a as int),
    {
        let mut j: usize = 0;
        while j < a
            invariant
                j <= a,
                a < g.len(),
                self.of(g),
                forall|x: int| 0 <= x < j ==> !#[trigger] same_group(g, a as int, x),
            decreases a - j,
        {
            if self.same_group(Ghost(g), a, j) {
                return false;
            }
            j += 1;
        }
        true
    }

    /// The group of `a`, in rising order.
    fn group(&self, Ghost(g): Ghost<Graph>, a: usize) -> (r: Vec<usize>)
        requires
            self.of(g),
            a < g.len(),
        ensures
            r@ == group_of(g, a as int),
            forall|k: int| 0 <= k < r.len() ==> r[k] < g.len(),
    {
        let mut out: Vec<usize> = Vec::new();
        let mut j: usize = 0;
        let n = self.rows.len();
        while j < n
            invariant
                j <= n,
                n == g.len(),
                a < g.len(),
                self.of(g),
                out@ == members(g, a as int, j as int),
                forall|k: int| 0 <= k < out.len() ==> out[k] < j,
            decreases n - j,
        {
            if self.same_group(Ghost(g), a, j) {
                out.push(j);
            }
            j += 1;
        }
        out
    }
}

/// The processing order of a graph.
pub fn order_groups(g: &Vec<Vec<bool>>) -> (r: Vec<Vec<usize>>)
    requires
        square(matrix_view(g@)),
    ensures
        groups_view(r@) == processing_order(matrix_view(g@)),
        forall|i: int, k: int| 0 <= i < r.len() && 0 <= k < r[i].len() ==> #[trigger] r[i][k] < g.len(),
{
    let ghost gv = matrix_view(g@);
    let reach = Reach::new(g);
    let n = g.len();
    let mut out: Vec<Vec<usize>> = Vec::new();
    let mut rank: usize = 0;
    assert(groups_view(out@) =~= ranked(gv, 0));
    while rank < n
        invariant
            rank <= n,
            n == g.len(),
            gv == matrix_view(g@),
            reach.of(gv),
            groups_view(out@) == ranked(gv, rank as int),
            forall|i: int, k: int|
                0 <= i < out.len() && 0 <= k < out[i].len() ==> #[trigger] out[i][k] < n,
        decreases n - rank,
    {
        rank += 1;
        let ghost before = groups_view(out@);
        let mut a: usize = 0;
        assert(before + rank_groups(gv, rank as nat, 0) =~= before);
        while a < n
            invariant
                a <= n,
                0 < rank <= n,
                n == g.len(),
                gv == matrix_view(g@),
                reach.of(gv),
                groups_view(out@) == before + rank_groups(gv, rank as nat, a as int),
                forall|i: int, k: int|
                    0 <= i < out.len() && 0 <= k < out[i].len() ==> #[trigger] out[i][k] < n,
            decreases n - a,
        {
            if reach.counts[a] == rank && reach.is_leader(Ghost(gv), a) {
                let group = reach.group(Ghost(gv), a);
                let ghost prior = groups_view(out@);
                out.push(group);
                assert(groups_view(out@) =~= prior.push(group_of(gv, a as int)));
                assert(before + rank_groups(gv, rank as nat, a as int).push(
                    group_of(gv, a as int),
                ) =~= prior.push(group_of(gv, a as int)));
            }
            a += 1;
        }
    }
    out
}

} // verus!
