//! Graph representations (adjacency lists over dense vertex positions) and
//! the mathematical model that the algorithms are specified against.
use vstd::prelude::*;

pub mod directed_graph;
pub mod processing;
pub mod undirected_graph;

pub use directed_graph::{DiGraph, EdgeWeightedDiGraph, FlowEdge, FlowNetwork, WeightedDiEdge};
pub use undirected_graph::Graph;

verus! {

/// `adj` only names vertices that exist.
pub open spec fn valid_adjacency(adj: Seq<Seq<usize>>) -> bool {
    forall|u: int, i: int|
        0 <= u < adj.len() && 0 <= i < adj[u].len() ==> #[trigger] adj[u][i] < adj.len()
}

/// There is an edge from `u` to `v`.
pub open spec fn has_edge(adj: Seq<Seq<usize>>, u: int, v: usize) -> bool {
    0 <= u < adj.len() && adj[u].contains(v)
}

/// The set of (origin, destination) pairs of an adjacency structure.
pub open spec fn edge_set(adj: Seq<Seq<usize>>) -> Set<(usize, usize)> {
    Set::new(|e: (usize, usize)| has_edge(adj, e.0 as int, e.1))
}

/// Number of vertices among the first `k` that have an edge towards `v`.
pub open spec fn in_count(adj: Seq<Seq<usize>>, v: usize, k: int) -> nat
    decreases k,
{
    if k <= 0 {
        0
    } else {
        in_count(adj, v, k - 1) + if adj[k - 1].contains(v) {
            1nat
        } else {
            0nat
        }
    }
}

/// Number of vertices among the first `k` that have an edge to themselves.
pub open spec fn loop_count(adj: Seq<Seq<usize>>, k: int) -> nat
    decreases k,
{
    if k <= 0 {
        0
    } else {
        loop_count(adj, k - 1) + if adj[k - 1].contains((k - 1) as usize) {
            1nat
        } else {
            0nat
        }
    }
}

/// Sum of the first `k` entries of `s`.
pub open spec fn seq_sum(s: Seq<usize>, k: int) -> int
    decreases k,
{
    if k <= 0 {
        0
    } else {
        seq_sum(s, k - 1) + s[k - 1]
    }
}

/// `p` is a walk: consecutive vertices are joined by an edge.
pub open spec fn is_walk(adj: Seq<Seq<usize>>, p: Seq<usize>) -> bool {
    &&& p.len() > 0
    &&& forall|i: int| 0 <= i < p.len() - 1 ==> #[trigger] has_edge(adj, p[i] as int, p[i + 1])
}

/// `v` can be reached from `s` by following edges.
pub open spec fn reachable(adj: Seq<Seq<usize>>, s: usize, v: usize) -> bool {
    exists|p: Seq<usize>| is_walk(adj, p) && p[0] == s && p.last() == v
}

pub proof fn lemma_reachable_self(adj: Seq<Seq<usize>>, v: usize)
    ensures
        reachable(adj, v, v),
{
    let p = seq![v];
    assert(is_walk(adj, p) && p[0] == v && p.last() == v);
}

/// A walk to `b` followed by an edge from `b` to `c` is a walk to `c`.
pub proof fn lemma_reachable_step(adj: Seq<Seq<usize>>, a: usize, b: usize, c: usize)
    requires
        reachable(adj, a, b),
        has_edge(adj, b as int, c),
    ensures
        reachable(adj, a, c),
{
    let p = choose|p: Seq<usize>| is_walk(adj, p) && p[0] == a && p.last() == b;
    let q = p.push(c);
    assert forall|i: int| 0 <= i < q.len() - 1 implies #[trigger] has_edge(adj, q[i] as int, q[i + 1]) by {
        if i < p.len() - 1 {
            assert(q[i] == p[i] && q[i + 1] == p[i + 1]);
        } else {
            assert(q[i] == b && q[i + 1] == c);
        }
    }
    assert(is_walk(adj, q) && q[0] == a && q.last() == c);
}

/// An edge from `a` to `b` followed by a walk from `b` to `c` is a walk to `c`.
pub proof fn lemma_reachable_prepend(adj: Seq<Seq<usize>>, a: usize, b: usize, c: usize)
    requires
        has_edge(adj, a as int, b),
        reachable(adj, b, c),
    ensures
        reachable(adj, a, c),
{
    let p = choose|p: Seq<usize>| is_walk(adj, p) && p[0] == b && p.last() == c;
    let q = seq![a] + p;
    assert forall|i: int| 0 <= i < q.len() - 1 implies #[trigger] has_edge(adj, q[i] as int, q[i + 1]) by {
        if i == 0 {
            assert(q[0] == a && q[1] == b);
        } else {
            assert(q[i] == p[i - 1] && q[i + 1] == p[i]);
            assert(has_edge(adj, p[i - 1] as int, p[(i - 1) + 1]));
        }
    }
    assert(is_walk(adj, q) && q[0] == a && q.last() == c);
}

/// A walk to `b` followed by a walk from `b` to `c` is a walk to `c`.
pub proof fn lemma_reachable_trans(adj: Seq<Seq<usize>>, a: usize, b: usize, c: usize)
    requires
        reachable(adj, a, b),
        reachable(adj, b, c),
    ensures
        reachable(adj, a, c),
{
    let q = choose|q: Seq<usize>| is_walk(adj, q) && q[0] == b && q.last() == c;
    lemma_walk_extend(adj, a, b, q);
}

/// A walk to `b` followed by the walk `p` from `b` reaches the end of `p`.
pub proof fn lemma_walk_extend(adj: Seq<Seq<usize>>, a: usize, b: usize, p: Seq<usize>)
    requires
        reachable(adj, a, b),
        is_walk(adj, p),
        p[0] == b,
    ensures
        reachable(adj, a, p.last()),
    decreases p.len(),
{
    if p.len() == 1 {
    } else {
        let prefix = p.drop_last();
        assert(is_walk(adj, prefix)) by {
            assert forall|i: int| 0 <= i < prefix.len() - 1 implies #[trigger] has_edge(adj, prefix[i] as int, prefix[i + 1]) by {
                assert(prefix[i] == p[i] && prefix[i + 1] == p[i + 1]);
            }
        }
        lemma_walk_extend(adj, a, b, prefix);
        let h = p.len() - 2;
        assert(has_edge(adj, p[h] as int, p[h + 1]));
        lemma_reachable_step(adj, a, prefix.last(), p.last());
    }
}

/// In a graph where every edge has its reverse, reaching is symmetric.
pub proof fn lemma_reachable_symmetric(adj: Seq<Seq<usize>>, a: usize, b: usize)
    requires
        forall|u: usize, v: usize| #[trigger] has_edge(adj, u as int, v) ==> has_edge(adj, v as int, u),
        reachable(adj, a, b),
    ensures
        reachable(adj, b, a),
{
    let p = choose|p: Seq<usize>| is_walk(adj, p) && p[0] == a && p.last() == b;
    let r = p.reverse();
    assert forall|i: int| 0 <= i < r.len() - 1 implies #[trigger] has_edge(adj, r[i] as int, r[i + 1]) by {
        let j = p.len() - 2 - i;
        assert(r[i] == p[j + 1] && r[i + 1] == p[j]);
        assert(has_edge(adj, p[j] as int, p[j + 1]));
    }
    assert(is_walk(adj, r) && r[0] == b && r.last() == a);
}

/// `p` lists a walk backwards, from its last vertex `p[0]` to its first `p.last()`.
pub open spec fn is_back_walk(adj: Seq<Seq<usize>>, p: Seq<usize>) -> bool {
    &&& p.len() > 0
    &&& forall|i: int| 0 <= i < p.len() - 1 ==> #[trigger] has_edge(adj, p[i + 1] as int, p[i])
}

pub proof fn lemma_push_contains(s: Seq<usize>, t: usize, x: usize)
    ensures
        s.push(t).contains(x) <==> (s.contains(x) || x == t),
{
    if s.contains(x) {
        let i = choose|i: int| 0 <= i < s.len() && s[i] == x;
        assert(s.push(t)[i] == x);
    }
    if x == t {
        assert(s.push(t)[s.len() as int] == t);
    }
    if s.push(t).contains(x) {
        let i = choose|i: int| 0 <= i < s.push(t).len() && s.push(t)[i] == x;
        if i < s.len() {
            assert(s[i] == x);
        }
    }
}

/// Adding a new destination `t` to the list of `s`.
pub open spec fn add_to_row(adj: Seq<Seq<usize>>, s: int, t: usize) -> Seq<Seq<usize>> {
    adj.update(s, adj[s].push(t))
}

pub proof fn lemma_in_count_add(adj: Seq<Seq<usize>>, s: int, t: usize, v: usize, k: int)
    requires
        0 <= s < adj.len(),
        !adj[s].contains(t),
        k <= adj.len(),
    ensures
        in_count(add_to_row(adj, s, t), v, k) == in_count(adj, v, k) + if v == t && s < k {
            1nat
        } else {
            0nat
        },
    decreases k,
{
    if k > 0 {
        lemma_in_count_add(adj, s, t, v, k - 1);
        if k - 1 == s {
            lemma_push_contains(adj[s], t, v);
        }
    }
}

pub proof fn lemma_in_count_zero(adj: Seq<Seq<usize>>, v: usize, k: int)
    requires
        valid_adjacency(adj),
        v >= adj.len(),
        k <= adj.len(),
    ensures
        in_count(adj, v, k) == 0,
    decreases k,
{
    if k > 0 {
        lemma_in_count_zero(adj, v, k - 1);
        if adj[k - 1].contains(v) {
            let i = choose|i: int| 0 <= i < adj[k - 1].len() && #[trigger] adj[k - 1][i] == v;
            assert(adj[k - 1][i] < adj.len());
        }
    }
}

pub proof fn lemma_in_count_bound(adj: Seq<Seq<usize>>, v: usize, k: int)
    ensures
        in_count(adj, v, k) <= if k < 0 {
            0
        } else {
            k
        },
    decreases k,
{
    if k > 0 {
        lemma_in_count_bound(adj, v, k - 1);
    }
}

/// Rows past `n` are empty: they add no in-edges.
pub proof fn lemma_in_count_extend(adj: Seq<Seq<usize>>, adj2: Seq<Seq<usize>>, v: usize, n: int, k: int)
    requires
        0 <= n <= k <= adj2.len(),
        n == adj.len(),
        forall|i: int| 0 <= i < n ==> adj2[i] == adj[i],
        forall|i: int| n <= i < adj2.len() ==> adj2[i].len() == 0,
    ensures
        in_count(adj2, v, k) == in_count(adj, v, n),
    decreases k,
{
    if k > n {
        lemma_in_count_extend(adj, adj2, v, n, k - 1);
    } else {
        lemma_in_count_prefix(adj, adj2, v, k);
    }
}

pub proof fn lemma_in_count_prefix(adj: Seq<Seq<usize>>, adj2: Seq<Seq<usize>>, v: usize, k: int)
    requires
        0 <= k <= adj.len(),
        k <= adj2.len(),
        forall|i: int| 0 <= i < k ==> adj2[i] == adj[i],
    ensures
        in_count(adj2, v, k) == in_count(adj, v, k),
    decreases k,
{
    if k > 0 {
        lemma_in_count_prefix(adj, adj2, v, k - 1);
    }
}

pub proof fn lemma_seq_sum_bump(s: Seq<usize>, i: int, k: int)
    requires
        0 <= i < s.len(),
        k <= s.len(),
        s[i] < usize::MAX,
    ensures
        seq_sum(s.update(i, (s[i] + 1) as usize), k) == seq_sum(s, k) + if i < k {
            1int
        } else {
            0int
        },
    decreases k,
{
    if k > 0 {
        lemma_seq_sum_bump(s, i, k - 1);
    }
}

/// Entries past `n` are zero: they add nothing to the sum.
pub proof fn lemma_seq_sum_extend(s: Seq<usize>, s2: Seq<usize>, n: int, k: int)
    requires
        0 <= n <= k <= s2.len(),
        n == s.len(),
        forall|i: int| 0 <= i < n ==> s2[i] == s[i],
        forall|i: int| n <= i < s2.len() ==> s2[i] == 0,
    ensures
        seq_sum(s2, k) == seq_sum(s, n),
    decreases k,
{
    if k > n {
        lemma_seq_sum_extend(s, s2, n, k - 1);
    } else {
        lemma_seq_sum_prefix(s, s2, k);
    }
}

pub proof fn lemma_seq_sum_prefix(s: Seq<usize>, s2: Seq<usize>, k: int)
    requires
        0 <= k <= s.len(),
        k <= s2.len(),
        forall|i: int| 0 <= i < k ==> s2[i] == s[i],
    ensures
        seq_sum(s2, k) == seq_sum(s, k),
    decreases k,
{
    if k > 0 {
        lemma_seq_sum_prefix(s, s2, k - 1);
    }
}

pub proof fn lemma_edge_set_add(adj: Seq<Seq<usize>>, s: usize, t: usize)
    requires
        s < adj.len(),
    ensures
        edge_set(add_to_row(adj, s as int, t)) == edge_set(adj).insert((s, t)),
{
    let a2 = add_to_row(adj, s as int, t);
    assert forall|e: (usize, usize)| #[trigger] edge_set(a2).contains(e) <==> edge_set(adj).insert(
        (s, t),
    ).contains(e) by {
        if e.0 == s {
            lemma_push_contains(adj[s as int], t, e.1);
        }
    }
    assert(edge_set(a2) =~= edge_set(adj).insert((s, t)));
}

/// Appending vertices without edges keeps the edge set.
pub proof fn lemma_edge_set_extend(adj: Seq<Seq<usize>>, adj2: Seq<Seq<usize>>)
    requires
        adj.len() <= adj2.len(),
        forall|i: int| 0 <= i < adj.len() ==> adj2[i] == adj[i],
        forall|i: int| adj.len() <= i < adj2.len() ==> adj2[i].len() == 0,
    ensures
        edge_set(adj2) == edge_set(adj),
{
    assert forall|e: (usize, usize)| #[trigger] edge_set(adj2).contains(e) <==> edge_set(adj).contains(e) by {
        if adj.len() <= e.0 < adj2.len() {
            assert(!adj2[e.0 as int].contains(e.1));
        }
    }
    assert(edge_set(adj2) =~= edge_set(adj));
}

/// The edges of `e` with their direction reversed.
pub open spec fn flipped(e: Set<(usize, usize)>) -> Set<(usize, usize)> {
    Set::new(|x: (usize, usize)| e.contains((x.1, x.0)))
}

pub proof fn lemma_flipped_len(e: Set<(usize, usize)>)
    requires
        e.finite(),
    ensures
        flipped(e).finite(),
        flipped(e).len() == e.len(),
{
    let f = |x: (usize, usize)| (x.1, x.0);
    assert forall|y: (usize, usize)| #[trigger] flipped(e).contains(y) <==> e.map(f).contains(y) by {
        if flipped(e).contains(y) {
            assert(f((y.1, y.0)) == y);
        }
    }
    assert(flipped(e) =~= e.map(f));
    assert(vstd::relations::injective_on(f, e));
    vstd::set_lib::lemma_map_size(e, flipped(e), f);
}

/// Flipping twice gives the edges back.
pub proof fn lemma_flipped_twice(e: Set<(usize, usize)>)
    ensures
        flipped(flipped(e)) == e,
{
    assert(flipped(flipped(e)) =~= e);
}

/// Linear membership test on a list of vertices.
pub(crate) fn contains_vertex(row: &Vec<usize>, x: usize) -> (r: bool)
    ensures
        r == row@.contains(x),
{
    let mut i: usize = 0;
    while i < row.len()
        invariant
            i <= row.len(),
            forall|j: int| 0 <= j < i ==> row@[j] != x,
        decreases row.len() - i,
    {
        if row[i] == x {
            return true;
        }
        i = i + 1;
    }
    false
}

/// One more than the largest end named by the first `k` pairs (zero when
/// there are none): the number of vertices a graph built from them has.
pub open spec fn span(ends: Seq<(usize, usize)>, k: int) -> nat
    decreases k,
{
    if k <= 0 {
        0
    } else {
        let e = ends[k - 1];
        let m = if e.0 > e.1 { e.0 } else { e.1 };
        if span(ends, k - 1) > m { span(ends, k - 1) } else { (m + 1) as nat }
    }
}

/// The (origin, destination) pairs of weighted edges.
pub open spec fn ends_of(edges: Seq<(usize, usize, i64)>) -> Seq<(usize, usize)> {
    edges.map_values(|e: (usize, usize, i64)| (e.0, e.1))
}

/// What a processing algorithm needs to know of a graph: its vertices and,
/// for each, the vertices its edges lead to.
pub trait VertexInfo {
    /// For each vertex position, the destinations of its out-edges.
    spec fn adjacency(&self) -> Seq<Seq<usize>>;

    spec fn well_formed(&self) -> bool;

    proof fn lemma_adjacency_valid(&self)
        requires
            self.well_formed(),
        ensures
            valid_adjacency(self.adjacency()),
    ;

    fn vertex_edges(&self, vertex: usize) -> (r: Vec<usize>)
        requires
            self.well_formed(),
            vertex < self.adjacency().len(),
        ensures
            r@ == self.adjacency()[vertex as int],
    ;

    fn nb_vertices(&self) -> (r: usize)
        requires
            self.well_formed(),
        ensures
            r == self.adjacency().len(),
    ;
}

} // verus!
