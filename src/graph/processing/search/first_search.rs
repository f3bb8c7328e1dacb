use std::collections::VecDeque;
use vstd::prelude::*;

use crate::graph::{has_edge, reachable, valid_adjacency, VertexInfo};

verus! {

/// Number of `false` entries among the first `k`.
pub open spec fn unmarked_count(m: Seq<bool>, k: int) -> nat
    decreases k,
{
    if k <= 0 {
        0
    } else {
        unmarked_count(m, k - 1) + if m[k - 1] {
            0nat
        } else {
            1nat
        }
    }
}

/// `m2` marks every vertex that `m1` marks.
pub open spec fn grows(m1: Seq<bool>, m2: Seq<bool>) -> bool {
    &&& m1.len() == m2.len()
    &&& forall|v: int| 0 <= v < m1.len() && #[trigger] m1[v] ==> m2[v]
}

/// Vertex `v` is unmarked in `m1` and marked in `m2`.
pub open spec fn newly(m1: Seq<bool>, m2: Seq<bool>, v: int) -> bool {
    !m1[v] && m2[v]
}

/// Every vertex that went from unmarked to marked has all its
/// out-neighbours marked.
pub open spec fn closed_under(adj: Seq<Seq<usize>>, m1: Seq<bool>, m2: Seq<bool>) -> bool {
    forall|v: int, i: int|
        0 <= v < m1.len() && newly(m1, m2, v) && 0 <= i < adj[v].len() ==> m2[#[trigger] adj[v][i] as int]
}

pub proof fn lemma_unmarked_count_mono(m1: Seq<bool>, m2: Seq<bool>, k: int)
    requires
        grows(m1, m2),
        0 <= k <= m1.len(),
    ensures
        unmarked_count(m2, k) <= unmarked_count(m1, k),
        (exists|v: int| 0 <= v < k && newly(m1, m2, v)) ==> unmarked_count(m2, k) < unmarked_count(m1, k),
    decreases k,
{
    if k > 0 {
        lemma_unmarked_count_mono(m1, m2, k - 1);
        if exists|v: int| 0 <= v < k && newly(m1, m2, v) {
            let v = choose|v: int| 0 <= v < k && newly(m1, m2, v);
            if v < k - 1 {
                assert(exists|w: int| 0 <= w < k - 1 && newly(m1, m2, w));
            }
        }
    }
}

/// `v` can be reached from `s` by a walk all of whose vertices are unmarked
/// in `m`.
pub open spec fn reachable_avoiding(adj: Seq<Seq<usize>>, m: Seq<bool>, s: usize, v: usize) -> bool {
    exists|p: Seq<usize>|
        crate::graph::is_walk(adj, p) && p[0] == s && p.last() == v && forall|k: int| 0 <= k < p.len() ==> #[trigger] p[k] < m.len() && !m[p[k] as int]
}

proof fn lemma_avoiding_self(adj: Seq<Seq<usize>>, m: Seq<bool>, s: usize)
    requires
        s < m.len(),
        !m[s as int],
    ensures
        reachable_avoiding(adj, m, s, s),
{
    let p = seq![s];
    assert(crate::graph::is_walk(adj, p) && p[0] == s && p.last() == s);
    assert(forall|k: int| 0 <= k < p.len() ==> #[trigger] p[k] < m.len() && !m[p[k] as int]);
}

/// An edge from an unmarked `a` to `b`, then a walk from `b` avoiding what
/// `m1` marks, where `m1` marks at least what `m0` marks, avoids what `m0`
/// marks.
proof fn lemma_avoiding_prepend(adj: Seq<Seq<usize>>, m0: Seq<bool>, m1: Seq<bool>, a: usize, b: usize, c: usize)
    requires
        grows(m0, m1),
        a < m0.len(),
        !m0[a as int],
        has_edge(adj, a as int, b),
        reachable_avoiding(adj, m1, b, c),
    ensures
        reachable_avoiding(adj, m0, a, c),
{
    let p = choose|p: Seq<usize>|
        crate::graph::is_walk(adj, p) && p[0] == b && p.last() == c && forall|k: int| 0 <= k < p.len() ==> #[trigger] p[k] < m1.len() && !m1[p[k] as int];
    let q = seq![a] + p;
    assert forall|i: int| 0 <= i < q.len() - 1 implies #[trigger] has_edge(adj, q[i] as int, q[i + 1]) by {
        if i == 0 {
            assert(q[0] == a && q[1] == b);
        } else {
            assert(q[i] == p[i - 1] && q[i + 1] == p[i]);
            assert(has_edge(adj, p[i - 1] as int, p[(i - 1) + 1]));
        }
    }
    assert forall|k: int| 0 <= k < q.len() implies #[trigger] q[k] < m0.len() && !m0[q[k] as int] by {
        if k > 0 {
            assert(q[k] == p[k - 1]);
            assert(p[k - 1] < m1.len() && !m1[p[k - 1] as int]);
            if m0[q[k] as int] {
                assert(m1[q[k] as int]);
            }
        }
    }
    assert(crate::graph::is_walk(adj, q) && q[0] == a && q.last() == c);
}

/// The predecessor links of the vertices marked by one search from `origin`
/// form a tree rooted at `origin`: each link is an edge, and leads to a
/// vertex of smaller rank that the same search marked.
pub open spec fn search_tree(
    adj: Seq<Seq<usize>>,
    m1: Seq<bool>,
    m2: Seq<bool>,
    edge_to: Seq<usize>,
    origin: int,
    rank: Seq<int>,
) -> bool {
    forall|v: int|
        0 <= v < m1.len() && #[trigger] newly(m1, m2, v) && v != origin ==> {
            &&& 0 <= edge_to[v] < m1.len()
            &&& newly(m1, m2, edge_to[v] as int)
            &&& has_edge(adj, edge_to[v] as int, v as usize)
            &&& 0 <= rank[edge_to[v] as int] < rank[v]
        }
}

/// A search that starts with nothing marked marks exactly what its origin
/// reaches.
pub proof fn lemma_search_marks_reachable(
    adj: Seq<Seq<usize>>,
    m1: Seq<bool>,
    m2: Seq<bool>,
    edge_to: Seq<usize>,
    origin: usize,
    rank: Seq<int>,
    v: usize,
)
    requires
        valid_adjacency(adj),
        m1.len() == adj.len(),
        m2.len() == adj.len(),
        forall|x: int| 0 <= x < m1.len() ==> !#[trigger] m1[x],
        origin < adj.len(),
        m2[origin as int],
        closed_under(adj, m1, m2),
        search_tree(adj, m1, m2, edge_to, origin as int, rank),
        v < adj.len(),
    ensures
        m2[v as int] <==> reachable(adj, origin, v),
{
    if m2[v as int] {
        lemma_tree_reaches(adj, m1, m2, edge_to, origin, rank, v);
    }
    if reachable(adj, origin, v) {
        let p = choose|p: Seq<usize>| crate::graph::is_walk(adj, p) && p[0] == origin && p.last() == v;
        assert(p.len() > 0);
        assert(p[0] < adj.len());
        assert(m2[p[0] as int]);
        lemma_walk_marked(adj, m1, m2, p, (p.len() - 1) as int);
    }
}

proof fn lemma_walk_marked(adj: Seq<Seq<usize>>, m1: Seq<bool>, m2: Seq<bool>, p: Seq<usize>, k: int)
    requires
        valid_adjacency(adj),
        m1.len() == adj.len(),
        m2.len() == adj.len(),
        forall|x: int| 0 <= x < m1.len() ==> !#[trigger] m1[x],
        closed_under(adj, m1, m2),
        crate::graph::is_walk(adj, p),
        p[0] < adj.len(),
        m2[p[0] as int],
        0 <= k < p.len(),
    ensures
        p[k] < adj.len(),
        m2[p[k] as int],
    decreases k,
{
    if k > 0 {
        lemma_walk_marked(adj, m1, m2, p, k - 1);
        let h = k - 1;
        assert(has_edge(adj, p[h] as int, p[h + 1]));
        let i = choose|i: int| 0 <= i < adj[p[k - 1] as int].len() && #[trigger] adj[p[k - 1] as int][i] == p[k];
        assert(newly(m1, m2, p[k - 1] as int));
        assert(m2[adj[p[k - 1] as int][i] as int]);
    }
}

proof fn lemma_tree_reaches(
    adj: Seq<Seq<usize>>,
    m1: Seq<bool>,
    m2: Seq<bool>,
    edge_to: Seq<usize>,
    origin: usize,
    rank: Seq<int>,
    v: usize,
)
    requires
        m1.len() == adj.len(),
        m2.len() == adj.len(),
        forall|x: int| 0 <= x < m1.len() ==> !#[trigger] m1[x],
        search_tree(adj, m1, m2, edge_to, origin as int, rank),
        v < adj.len(),
        m2[v as int],
    ensures
        reachable(adj, origin, v),
    decreases (if v == origin || rank[v as int] < 0 { 0 } else { rank[v as int] + 1 }),
{
    if v == origin {
        crate::graph::lemma_reachable_self(adj, v);
    } else {
        assert(newly(m1, m2, v as int));
        let p = edge_to[v as int];
        lemma_tree_reaches(adj, m1, m2, edge_to, origin, rank, p);
        crate::graph::lemma_reachable_step(adj, origin, p, v);
    }
}

fn dfs_paths<G: VertexInfo>(
    graph: &G,
    marked: &mut Vec<bool>,
    edge_to: &mut Vec<usize>,
    origin: usize,
    component: usize,
    is_component: bool,
    rank: Ghost<Seq<int>>,
    clock: Ghost<int>,
) -> (out: Ghost<(Seq<int>, int)>)
    requires
        graph.well_formed(),
        old(marked).len() == graph.adjacency().len(),
        old(edge_to).len() == graph.adjacency().len(),
        rank@.len() == graph.adjacency().len(),
        origin < graph.adjacency().len(),
        component < graph.adjacency().len(),
        !old(marked)@[origin as int],
        forall|v: int| 0 <= v < rank@.len() && old(marked)@[v] ==> #[trigger] rank@[v] < clock@,
        clock@ >= 0,
    ensures
        grows(old(marked)@, final(marked)@),
        final(marked)@[origin as int],
        final(edge_to).len() == old(edge_to).len(),
        closed_under(graph.adjacency(), old(marked)@, final(marked)@),
        forall|v: int|
            0 <= v < old(marked).len() && !(newly(old(marked)@, final(marked)@, v) && v != origin)
                ==> #[trigger] final(edge_to)@[v] == old(edge_to)@[v],
        is_component ==> forall|v: int|
            0 <= v < old(marked).len() && #[trigger] newly(old(marked)@, final(marked)@, v) && v != origin
                ==> final(edge_to)@[v] == component,
        !is_component ==> search_tree(graph.adjacency(), old(marked)@, final(marked)@, final(edge_to)@, origin as int, out@.0),
        out@.0.len() == rank@.len(),
        out@.1 > clock@,
        out@.0[origin as int] == clock@,
        forall|v: int| 0 <= v < rank@.len() && old(marked)@[v] ==> #[trigger] out@.0[v] == rank@[v],
        forall|v: int| 0 <= v < rank@.len() && #[trigger] newly(old(marked)@, final(marked)@, v) ==> clock@ <= out@.0[v] < out@.1,
        forall|v: int| 0 <= v < rank@.len() && #[trigger] newly(old(marked)@, final(marked)@, v) ==> reachable_avoiding(graph.adjacency(), old(marked)@, origin, v as usize),
    decreases unmarked_count(old(marked)@, old(marked)@.len() as int),
{
    let ghost adj = graph.adjacency();
    let ghost m0 = marked@;
    let ghost e0 = edge_to@;
    proof {
        graph.lemma_adjacency_valid();
    }
    marked.set(origin, true);
    let ghost mut r = rank@.update(origin as int, clock@);
    let ghost mut t = clock@ + 1;
    let source = if is_component { component } else { origin };
    let adjacent_vertices = graph.vertex_edges(origin);
    proof {
        lemma_avoiding_self(adj, m0, origin);
    }
    let mut j: usize = 0;
    while j < adjacent_vertices.len()
        invariant
            graph.well_formed(),
            adj == graph.adjacency(),
            valid_adjacency(adj),
            adjacent_vertices@ == adj[origin as int],
            j <= adjacent_vertices.len(),
            origin < adj.len(),
            component < adj.len(),
            source == if is_component { component } else { origin },
            m0 == old(marked)@,
            m0.len() == adj.len(),
            e0.len() == adj.len(),
            marked.len() == adj.len(),
            edge_to.len() == adj.len(),
            r.len() == adj.len(),
            !m0[origin as int],
            grows(m0, marked@),
            marked@[origin as int],
            forall|v: int| 0 <= v < rank@.len() && m0[v] ==> #[trigger] rank@[v] < clock@,
            clock@ >= 0,
            forall|k: int| 0 <= k < j ==> marked@[#[trigger] adj[origin as int][k] as int],
            closed_under(adj, m0.update(origin as int, true), marked@),
            forall|v: int|
                0 <= v < adj.len() && !(newly(m0, marked@, v) && v != origin)
                    ==> #[trigger] edge_to@[v] == e0[v],
            is_component ==> forall|v: int|
                0 <= v < adj.len() && #[trigger] newly(m0, marked@, v) && v != origin
                    ==> edge_to@[v] == component,
            !is_component ==> search_tree(adj, m0, marked@, edge_to@, origin as int, r),
            t > clock@,
            r[origin as int] == clock@,
            forall|v: int| 0 <= v < adj.len() && m0[v] ==> #[trigger] r[v] == rank@[v],
            forall|v: int| 0 <= v < adj.len() && #[trigger] newly(m0, marked@, v) ==> clock@ <= r[v] < t,
            forall|v: int| 0 <= v < adj.len() && marked@[v] ==> #[trigger] r[v] < t,
            forall|v: int| 0 <= v < adj.len() && #[trigger] newly(m0, marked@, v) ==> reachable_avoiding(adj, m0, origin, v as usize),
        decreases adjacent_vertices.len() - j,
    {
        let u = adjacent_vertices[j];
        assert(adj[origin as int][j as int] == u);
        if !marked[u] {
            let ghost m1 = marked@;
            let ghost e1 = edge_to@;
            proof {
                assert(newly(m0, m1, origin as int));
                assert(exists|v: int| 0 <= v < m0.len() && newly(m0, m1, v));
                lemma_unmarked_count_mono(m0, m1, m0.len() as int);
                assert(unmarked_count(m1, m1.len() as int) < unmarked_count(m0, m0.len() as int));
            }
            let Ghost(res) = dfs_paths(graph, marked, edge_to, u, component, is_component, Ghost(r), Ghost(t));
            let ghost m2 = marked@;
            let ghost e2 = edge_to@;
            edge_to.set(u, source);
            proof {
                let r1 = r;
                let t1 = t;
                r = res.0;
                t = res.1;
                assert forall|v: int, i: int|
                    0 <= v < m0.len() && newly(m0.update(origin as int, true), marked@, v) && 0 <= i < adj[v].len() implies marked@[#[trigger] adj[v][i] as int] by {
                    if !m1[v] {
                        assert(newly(m1, m2, v));
                    } else {
                        assert(newly(m0.update(origin as int, true), m1, v));
                    }
                }
                assert forall|v: int|
                    0 <= v < adj.len() && !(newly(m0, marked@, v) && v != origin) implies #[trigger] edge_to@[v] == e0[v] by {
                    if v != u as int {
                        assert(e2[v] == e1[v]);
                    }
                }
                if is_component {
                    assert forall|v: int|
                        0 <= v < adj.len() && #[trigger] newly(m0, marked@, v) && v != origin implies edge_to@[v] == component by {
                        if !m1[v] && v != u as int {
                            assert(newly(m1, m2, v));
                        } else if m1[v] {
                            assert(e2[v] == e1[v]);
                            assert(newly(m0, m1, v));
                        }
                    }
                } else {
                    assert forall|v: int|
                        0 <= v < adj.len() && #[trigger] newly(m0, marked@, v) && v != origin implies {
                            &&& 0 <= edge_to@[v] < adj.len()
                            &&& newly(m0, marked@, edge_to@[v] as int)
                            &&& has_edge(adj, edge_to@[v] as int, v as usize)
                            &&& 0 <= r[edge_to@[v] as int] < r[v]
                        } by {
                        if v == u as int {
                            assert(newly(m1, m2, v));
                            assert(r[origin as int] == r1[origin as int]);
                            assert(adj[origin as int].contains(u));
                        } else if !m1[v] {
                            assert(newly(m1, m2, v));
                            let p = e2[v] as int;
                            assert(newly(m1, m2, p));
                        } else {
                            assert(newly(m0, m1, v));
                            let p = e1[v] as int;
                            assert(newly(m0, m1, p));
                            assert(m1[p]);
                            assert(r[p] == r1[p]);
                            assert(r[v] == r1[v]);
                        }
                    }
                }
                assert forall|v: int| 0 <= v < adj.len() && #[trigger] newly(m0, marked@, v) implies clock@ <= r[v] < t by {
                    if !m1[v] {
                        assert(newly(m1, m2, v));
                    } else {
                        assert(r[v] == r1[v]);
                        assert(r1[v] < t1);
                    }
                }
                assert forall|v: int| 0 <= v < adj.len() && marked@[v] implies #[trigger] r[v] < t by {
                    if !m1[v] {
                        assert(newly(m1, m2, v));
                    } else {
                        assert(r[v] == r1[v]);
                        assert(r1[v] < t1);
                    }
                }
                assert forall|k: int| 0 <= k < j + 1 implies marked@[#[trigger] adj[origin as int][k] as int] by {
                    if k < j {
                        assert(m1[adj[origin as int][k] as int]);
                    }
                }
                assert forall|v: int| 0 <= v < adj.len() && #[trigger] newly(m0, marked@, v) implies reachable_avoiding(adj, m0, origin, v as usize) by {
                    if !m1[v] {
                        assert(newly(m1, m2, v));
                        assert(has_edge(adj, origin as int, u));
                        lemma_avoiding_prepend(adj, m0, m1, origin, u, v as usize);
                    } else {
                        assert(newly(m0, m1, v));
                    }
                }
            }
        }
        j = j + 1;
    }
    proof {
        assert forall|v: int, i: int|
            0 <= v < m0.len() && newly(m0, marked@, v) && 0 <= i < adj[v].len() implies marked@[#[trigger] adj[v][i] as int] by {
            if v != origin as int {
                assert(newly(m0.update(origin as int, true), marked@, v));
            }
        }
    }
    Ghost((r, t))
}


/// Each out-neighbour of `order[i]` comes earlier in `order`, or reaches
/// `order[i]` back.
pub open spec fn finished_after_successors(adj: Seq<Seq<usize>>, order: Seq<usize>, i: int) -> bool {
    forall|k: int|
        0 <= k < adj[order[i] as int].len() ==> (exists|j: int| 0 <= j < i && order[j] == #[trigger] adj[order[i] as int][k])
            || reachable(adj, adj[order[i] as int][k], order[i])
}

/// A vertex that is marked and not yet finished.
pub open spec fn open_vertex(marked: Seq<bool>, order: Seq<usize>, v: int) -> bool {
    marked[v] && !order.contains(v as usize)
}

/// Every out-neighbour of a vertex of the list is marked.
pub open spec fn list_closed(adj: Seq<Seq<usize>>, marked: Seq<bool>, list: Seq<usize>) -> bool {
    forall|i: int, k: int|
        0 <= i < list.len() && list[i] < adj.len() && 0 <= k < adj[list[i] as int].len() ==> marked[#[trigger] adj[list[i] as int][k] as int]
}

/// A walk from `list[i]` whose later vertices do not reach back to
/// `list[i]` only meets vertices listed before `list[i]`.
pub open spec fn finished_before_unreached(adj: Seq<Seq<usize>>, list: Seq<usize>, i: int) -> bool {
    forall|p: Seq<usize>|
        #[trigger] crate::graph::is_walk(adj, p) && p[0] == list[i] && (forall|k: int| 1 <= k < p.len() ==> !reachable(adj, #[trigger] p[k], list[i]))
            ==> forall|k: int| 1 <= k < p.len() ==> #[trigger] listed_before(list, i, p[k])
}

/// `x` stands in `list` before position `i`.
pub open spec fn listed_before(list: Seq<usize>, i: int, x: usize) -> bool {
    exists|j: int| 0 <= j < i && list[j] == x
}

proof fn lemma_walk_listed(adj: Seq<Seq<usize>>, m: Seq<bool>, o: Seq<usize>, x: usize, p: Seq<usize>, k: int)
    requires
        valid_adjacency(adj),
        m.len() == adj.len(),
        x < adj.len(),
        list_closed(adj, m, o),
        forall|i: int| 0 <= i < adj[x as int].len() ==> m[#[trigger] adj[x as int][i] as int],
        forall|v: int| 0 <= v < adj.len() && #[trigger] m[v] && !o.contains(v as usize) ==> reachable(adj, v as usize, x),
        crate::graph::is_walk(adj, p),
        p[0] == x,
        forall|j: int| 1 <= j < p.len() ==> !reachable(adj, #[trigger] p[j], x),
        1 <= k < p.len(),
    ensures
        p[k] < adj.len(),
        o.contains(p[k]),
    decreases k,
{
    let h = k - 1;
    assert(has_edge(adj, p[h] as int, p[h + 1]));
    let i = choose|i: int| 0 <= i < adj[p[h] as int].len() && #[trigger] adj[p[h] as int][i] == p[h + 1];
    if k == 1 {
        assert(m[adj[x as int][i] as int]);
    } else {
        lemma_walk_listed(adj, m, o, x, p, k - 1);
        let jj = choose|jj: int| 0 <= jj < o.len() && o[jj] == p[h];
        assert(m[adj[o[jj] as int][i] as int]);
    }
    assert(p[k] < adj.len());
    assert(m[p[k] as int]);
    assert(!reachable(adj, p[k], x));
    assert(((p[k] as int) as usize) == p[k]);
}

/// The list holds each marked vertex exactly once, and nothing else.
pub open spec fn list_matches_marks(adj: Seq<Seq<usize>>, marked: Seq<bool>, list: Seq<usize>) -> bool {
    &&& list.no_duplicates()
    &&& forall|i: int| 0 <= i < list.len() ==> (#[trigger] list[i]) < adj.len() && marked[list[i] as int]
    &&& forall|v: int| 0 <= v < adj.len() && #[trigger] marked[v] ==> list.contains(v as usize)
}

/// What the postorder guarantees rest on: the list holds marked vertices,
/// each once, and every marked vertex not in it reaches `origin`.
pub open spec fn order_premise(adj: Seq<Seq<usize>>, marked: Seq<bool>, order: Seq<usize>, origin: usize) -> bool {
    &&& order.no_duplicates()
    &&& forall|i: int| 0 <= i < order.len() ==> (#[trigger] order[i]) < adj.len() && marked[order[i] as int]
    &&& forall|v: int| 0 <= v < adj.len() && #[trigger] open_vertex(marked, order, v) ==> reachable(adj, v as usize, origin)
}

fn dfs_order<G: VertexInfo>(graph: &G, marked: &mut Vec<bool>, order: &mut Vec<usize>, origin: usize)
    requires
        graph.well_formed(),
        old(marked).len() == graph.adjacency().len(),
        origin < graph.adjacency().len(),
        !old(marked)@[origin as int],
    ensures
        grows(old(marked)@, final(marked)@),
        final(marked)@[origin as int],
        closed_under(graph.adjacency(), old(marked)@, final(marked)@),
        final(order)@.len() > old(order)@.len(),
        final(order)@.subrange(0, old(order)@.len() as int) == old(order)@,
        final(order)@.last() == origin,
        forall|i: int| old(order).len() <= i < final(order).len() ==> #[trigger] newly(old(marked)@, final(marked)@, final(order)@[i] as int),
        forall|i: int| old(order).len() <= i < final(order).len() ==> (#[trigger] final(order)@[i]) < graph.adjacency().len(),
        forall|v: int| 0 <= v < graph.adjacency().len() && #[trigger] newly(old(marked)@, final(marked)@, v) ==> final(order)@.contains(v as usize),
        order_premise(graph.adjacency(), old(marked)@, old(order)@, origin) ==> {
            &&& final(order)@.no_duplicates()
            &&& forall|i: int| 0 <= i < final(order).len() ==> (#[trigger] final(order)@[i]) < graph.adjacency().len() && final(marked)@[final(order)@[i] as int]
            &&& forall|v: int| 0 <= v < graph.adjacency().len() ==> (#[trigger] open_vertex(final(marked)@, final(order)@, v) <==> open_vertex(old(marked)@, old(order)@, v))
            &&& forall|i: int| old(order).len() <= i < final(order).len() ==> #[trigger] finished_after_successors(graph.adjacency(), final(order)@, i)
        },
        order_premise(graph.adjacency(), old(marked)@, old(order)@, origin) && list_closed(graph.adjacency(), old(marked)@, old(order)@) ==> {
            &&& list_closed(graph.adjacency(), final(marked)@, final(order)@)
            &&& forall|i: int| old(order).len() <= i < final(order).len() ==> #[trigger] finished_before_unreached(graph.adjacency(), final(order)@, i)
        },
        forall|v: int| 0 <= v < graph.adjacency().len() && #[trigger] newly(old(marked)@, final(marked)@, v) ==> reachable_avoiding(graph.adjacency(), old(marked)@, origin, v as usize),
    decreases unmarked_count(old(marked)@, old(marked)@.len() as int),
{
    let ghost adj = graph.adjacency();
    let ghost m0 = marked@;
    let ghost o0 = order@;
    let ghost pre = order_premise(adj, m0, o0, origin);
    let ghost cl = pre && list_closed(adj, m0, o0);
    proof {
        graph.lemma_adjacency_valid();
    }
    marked.set(origin, true);
    let adjacent_vertices = graph.vertex_edges(origin);
    let mut j: usize = 0;
    proof {
        lemma_avoiding_self(adj, m0, origin);
        assert forall|v: int| 0 <= v < adj.len() && #[trigger] newly(m0, marked@, v) implies reachable_avoiding(adj, m0, origin, v as usize) by {
            assert(v == origin as int);
        }
        assert(pre ==> !o0.contains(origin)) by {
            if pre && o0.contains(origin) {
                let i = choose|i: int| 0 <= i < o0.len() && o0[i] == origin;
                assert(m0[o0[i] as int]);
            }
        }
    }
    while j < adjacent_vertices.len()
        invariant
            graph.well_formed(),
            adj == graph.adjacency(),
            valid_adjacency(adj),
            adjacent_vertices@ == adj[origin as int],
            j <= adjacent_vertices.len(),
            origin < adj.len(),
            m0 == old(marked)@,
            o0 == old(order)@,
            m0.len() == adj.len(),
            marked.len() == adj.len(),
            !m0[origin as int],
            grows(m0, marked@),
            marked@[origin as int],
            pre == order_premise(adj, m0, o0, origin),
            pre ==> !o0.contains(origin),
            order@.len() >= o0.len(),
            order@.subrange(0, o0.len() as int) == o0,
            pre ==> order@.no_duplicates(),
            pre ==> !order@.contains(origin),
            forall|i: int| o0.len() <= i < order.len() ==> #[trigger] newly(m0, marked@, order@[i] as int),
            forall|i: int| o0.len() <= i < order.len() ==> (#[trigger] order@[i]) < adj.len(),
            pre ==> forall|i: int| 0 <= i < order.len() ==> (#[trigger] order@[i]) < adj.len() && marked@[order@[i] as int],
            forall|v: int| 0 <= v < adj.len() && #[trigger] newly(m0, marked@, v) && v != origin ==> order@.contains(v as usize),
            pre ==> forall|v: int| 0 <= v < adj.len() ==> (#[trigger] open_vertex(marked@, order@, v) <==> (open_vertex(m0, o0, v) || v == origin)),
            pre ==> forall|i: int| o0.len() <= i < order.len() ==> #[trigger] finished_after_successors(adj, order@, i),
            cl == (pre && list_closed(adj, m0, o0)),
            cl ==> list_closed(adj, marked@, order@),
            cl ==> forall|i: int| o0.len() <= i < order.len() ==> #[trigger] finished_before_unreached(adj, order@, i),
            forall|k: int| 0 <= k < j ==> marked@[#[trigger] adj[origin as int][k] as int],
            closed_under(adj, m0.update(origin as int, true), marked@),
            forall|v: int| 0 <= v < adj.len() && #[trigger] newly(m0, marked@, v) ==> reachable_avoiding(adj, m0, origin, v as usize),
        decreases adjacent_vertices.len() - j,
    {
        let u = adjacent_vertices[j];
        assert(adj[origin as int][j as int] == u);
        if !marked[u] {
            let ghost m1 = marked@;
            let ghost o1 = order@;
            proof {
                assert(newly(m0, m1, origin as int));
                assert(exists|v: int| 0 <= v < m0.len() && newly(m0, m1, v));
                lemma_unmarked_count_mono(m0, m1, m0.len() as int);
                assert(has_edge(adj, origin as int, u));
                if pre {
                    assert forall|v: int| 0 <= v < adj.len() && #[trigger] open_vertex(m1, o1, v) implies reachable(adj, v as usize, u) by {
                        if v == origin as int {
                            crate::graph::lemma_reachable_self(adj, origin);
                        }
                        crate::graph::lemma_reachable_step(adj, v as usize, origin, u);
                    }
                    assert(order_premise(adj, m1, o1, u));
                }
                assert(pre ==> order_premise(adj, m1, o1, u));
            }
            let ghost fb = cl;
            dfs_order(graph, marked, order, u);
            proof {
                let m2 = marked@;
                let o2 = order@;
                assert(o2.subrange(0, o0.len() as int) =~= o0) by {
                    assert forall|i: int| 0 <= i < o0.len() implies o2[i] == o0[i] by {
                        assert(o2.subrange(0, o1.len() as int)[i] == o1[i]);
                        assert(o1.subrange(0, o0.len() as int)[i] == o0[i]);
                    }
                }
                assert(pre ==> !o2.contains(origin)) by {
                    if pre && o2.contains(origin) {
                        let i = choose|i: int| 0 <= i < o2.len() && o2[i] == origin;
                        if i < o1.len() {
                            assert(o2.subrange(0, o1.len() as int)[i] == o1[i]);
                        } else {
                            assert(newly(m1, m2, o2[i] as int));
                        }
                    }
                }
                assert forall|i: int| o0.len() <= i < o2.len() implies (#[trigger] o2[i]) < adj.len() by {
                    if i < o1.len() {
                        assert(o2.subrange(0, o1.len() as int)[i] == o1[i]);
                    }
                }
                assert forall|i: int| o0.len() <= i < o2.len() implies #[trigger] newly(m0, m2, o2[i] as int) && o2[i] < adj.len() by {
                    if i < o1.len() {
                        assert(o2.subrange(0, o1.len() as int)[i] == o1[i]);
                        assert(newly(m0, m1, o1[i] as int));
                        assert(o1[i] < adj.len());
                    } else {
                        assert(newly(m1, m2, o2[i] as int));
                        assert(o2[i] < adj.len());
                    }
                }
                assert forall|v: int| 0 <= v < adj.len() && #[trigger] newly(m0, m2, v) && v != origin implies o2.contains(v as usize) by {
                    if m1[v] {
                        assert(newly(m0, m1, v));
                        let i = choose|i: int| 0 <= i < o1.len() && o1[i] == v as usize;
                        assert(o2.subrange(0, o1.len() as int)[i] == o1[i]);
                    } else {
                        assert(newly(m1, m2, v));
                    }
                }
                assert forall|i: int| pre && o0.len() <= i < o2.len() implies #[trigger] finished_after_successors(adj, o2, i) by {
                    if i < o1.len() {
                        assert(finished_after_successors(adj, o1, i));
                        assert forall|k: int| 0 <= k < o1.len() implies o2[k] == o1[k] by {
                            assert(o2.subrange(0, o1.len() as int)[k] == o1[k]);
                        }
                        assert(o2[i] == o1[i]);
                        let x = o2[i] as int;
                        assert forall|k: int| 0 <= k < adj[x].len() implies (exists|jj: int| 0 <= jj < i && o2[jj] == #[trigger] adj[x][k])
                            || reachable(adj, adj[x][k], o2[i]) by {
                            if exists|jj: int| 0 <= jj < i && o1[jj] == adj[x][k] {
                                let jj = choose|jj: int| 0 <= jj < i && o1[jj] == adj[x][k];
                                assert(o2[jj] == o1[jj]);
                            }
                        }
                    }
                }
                if cl {
                    assert forall|i: int| o0.len() <= i < o2.len() implies #[trigger] finished_before_unreached(adj, o2, i) by {
                        if i < o1.len() {
                            assert(finished_before_unreached(adj, o1, i));
                            assert forall|k: int| 0 <= k < o1.len() implies o2[k] == o1[k] by {
                                assert(o2.subrange(0, o1.len() as int)[k] == o1[k]);
                            }
                            assert forall|p: Seq<usize>|
                                #[trigger] crate::graph::is_walk(adj, p) && p[0] == o2[i] && (forall|k: int| 1 <= k < p.len() ==> !reachable(adj, #[trigger] p[k], o2[i]))
                                    implies forall|k: int| 1 <= k < p.len() ==> #[trigger] listed_before(o2, i, p[k]) by {
                                assert forall|k: int| 1 <= k < p.len() implies #[trigger] listed_before(o2, i, p[k]) by {
                                    assert(listed_before(o1, i, p[k]));
                                    let j = choose|j: int| 0 <= j < i && o1[j] == p[k];
                                    assert(o2[j] == o1[j]);
                                }
                            }
                        }
                    }
                }
                assert forall|v: int, i: int|
                    0 <= v < m0.len() && newly(m0.update(origin as int, true), m2, v) && 0 <= i < adj[v].len() implies m2[#[trigger] adj[v][i] as int] by {
                    if !m1[v] {
                        assert(newly(m1, m2, v));
                    } else {
                        assert(newly(m0.update(origin as int, true), m1, v));
                    }
                }
                assert forall|k: int| 0 <= k < j + 1 implies m2[#[trigger] adj[origin as int][k] as int] by {
                    if k < j {
                        assert(m1[adj[origin as int][k] as int]);
                    }
                }
                assert forall|v: int| 0 <= v < adj.len() && #[trigger] newly(m0, m2, v) implies reachable_avoiding(adj, m0, origin, v as usize) by {
                    if !m1[v] {
                        assert(newly(m1, m2, v));
                        lemma_avoiding_prepend(adj, m0, m1, origin, u, v as usize);
                    } else {
                        assert(newly(m0, m1, v));
                    }
                }
            }
        }
        j = j + 1;
    }
    let ghost o3 = order@;
    let ghost m3 = marked@;
    order.push(origin);
    proof {
        let o4 = order@;
        assert(o4.subrange(0, o3.len() as int) =~= o3);
        assert(o4.subrange(0, o0.len() as int) =~= o0) by {
            assert forall|i: int| 0 <= i < o0.len() implies o4[i] == o0[i] by {
                assert(o3.subrange(0, o0.len() as int)[i] == o0[i]);
            }
        }
        assert forall|i: int, jj: int| pre && 0 <= i < o4.len() && 0 <= jj < o4.len() && i != jj implies o4[i] != o4[jj] by {
            if i == o3.len() as int {
                assert(o3.contains(o3[jj]));
            } else if jj == o3.len() as int {
                assert(o3.contains(o3[i]));
            }
        }
        assert forall|v: int| pre && 0 <= v < adj.len() implies (#[trigger] open_vertex(m3, o4, v) <==> open_vertex(m0, o0, v)) by {
            crate::graph::lemma_push_contains(o3, origin, v as usize);
            assert(open_vertex(m3, o3, v) == (open_vertex(m0, o0, v) || v == origin as int));
            if v == origin as int {
                assert(o4.contains(origin));
                assert(!open_vertex(m0, o0, v));
            }
        }
        assert forall|v: int| 0 <= v < adj.len() && #[trigger] newly(m0, m3, v) implies o4.contains(v as usize) by {
            crate::graph::lemma_push_contains(o3, origin, v as usize);
        }
        assert forall|i: int| pre && o0.len() <= i < o4.len() implies #[trigger] finished_after_successors(adj, o4, i) by {
            if i < o3.len() {
                assert(finished_after_successors(adj, o3, i));
                let x = o4[i] as int;
                assert(o4[i] == o3[i]);
                assert forall|k: int| 0 <= k < adj[x].len() implies (exists|jj: int| 0 <= jj < i && o4[jj] == #[trigger] adj[x][k])
                    || reachable(adj, adj[x][k], o4[i]) by {
                    if exists|jj: int| 0 <= jj < i && o3[jj] == adj[x][k] {
                        let jj = choose|jj: int| 0 <= jj < i && o3[jj] == adj[x][k];
                        assert(o4[jj] == o3[jj]);
                    }
                }
            } else {
                let x = origin as int;
                assert(o4[i] == origin);
                assert forall|k: int| 0 <= k < adj[x].len() implies (exists|jj: int| 0 <= jj < i && o4[jj] == #[trigger] adj[x][k])
                    || reachable(adj, adj[x][k], o4[i]) by {
                    let y = adj[x][k];
                    assert(m3[y as int]);
                    if o3.contains(y) {
                        let jj = choose|jj: int| 0 <= jj < o3.len() && o3[jj] == y;
                        assert(o4[jj] == y);
                    } else if y == origin {
                        crate::graph::lemma_reachable_self(adj, origin);
                    } else {
                        assert(open_vertex(m3, o3, y as int));
                        assert(open_vertex(m0, o0, y as int));
                    }
                }
            }
        }
        assert forall|v: int, i: int|
            0 <= v < m0.len() && newly(m0, m3, v) && 0 <= i < adj[v].len() implies m3[#[trigger] adj[v][i] as int] by {
            if v != origin as int {
                assert(newly(m0.update(origin as int, true), m3, v));
            }
        }
        if cl {
            assert forall|i: int, k: int|
                0 <= i < o4.len() && o4[i] < adj.len() && 0 <= k < adj[o4[i] as int].len() implies m3[#[trigger] adj[o4[i] as int][k] as int] by {
                if i < o3.len() {
                    assert(o4[i] == o3[i]);
                } else {
                    assert(o4[i] == origin);
                }
            }
            assert forall|v: int| 0 <= v < adj.len() && #[trigger] m3[v] && !o3.contains(v as usize) implies reachable(adj, v as usize, origin) by {
                if v == origin as int {
                    crate::graph::lemma_reachable_self(adj, origin);
                } else {
                    assert(open_vertex(m3, o3, v));
                    assert(open_vertex(m0, o0, v));
                }
            }
            assert forall|i: int| o0.len() <= i < o4.len() implies #[trigger] finished_before_unreached(adj, o4, i) by {
                if i < o3.len() {
                    assert(finished_before_unreached(adj, o3, i));
                    assert(o4[i] == o3[i]);
                    assert forall|p: Seq<usize>|
                        #[trigger] crate::graph::is_walk(adj, p) && p[0] == o4[i] && (forall|k: int| 1 <= k < p.len() ==> !reachable(adj, #[trigger] p[k], o4[i]))
                            implies forall|k: int| 1 <= k < p.len() ==> #[trigger] listed_before(o4, i, p[k]) by {
                        assert forall|k: int| 1 <= k < p.len() implies #[trigger] listed_before(o4, i, p[k]) by {
                            assert(listed_before(o3, i, p[k]));
                            let j = choose|j: int| 0 <= j < i && o3[j] == p[k];
                            assert(o4[j] == o3[j]);
                        }
                    }
                } else {
                    assert(o4[i] == origin);
                    assert forall|p: Seq<usize>|
                        #[trigger] crate::graph::is_walk(adj, p) && p[0] == o4[i] && (forall|k: int| 1 <= k < p.len() ==> !reachable(adj, #[trigger] p[k], o4[i]))
                            implies forall|k: int| 1 <= k < p.len() ==> #[trigger] listed_before(o4, i, p[k]) by {
                        assert forall|k: int| 1 <= k < p.len() implies #[trigger] listed_before(o4, i, p[k]) by {
                            lemma_walk_listed(adj, m3, o3, origin, p, k);
                            let j = choose|j: int| 0 <= j < o3.len() && o3[j] == p[k];
                            assert(o4[j] == o3[j]);
                        }
                    }
                }
            }
        }
    }
}


/// Depth-first search from `origin`, over the vertices not yet marked.
///
/// With `mut_edge_to`, each vertex it reaches records in `edge_to` the
/// vertex it was reached from (or `component`, with `is_component`).
/// Without, `edge_to` is a list to which each vertex it reaches is appended
/// once all its successors are done (postorder).
pub fn dfs<G: VertexInfo>(
    graph: &G,
    marked: &mut Vec<bool>,
    edge_to: &mut Vec<usize>,
    origin: usize,
    component: usize,
    mut_edge_to: bool,
    is_component: bool,
)
    requires
        graph.well_formed(),
        old(marked).len() == graph.adjacency().len(),
        origin < graph.adjacency().len(),
        component < graph.adjacency().len(),
        !old(marked)@[origin as int],
        mut_edge_to ==> old(edge_to).len() == graph.adjacency().len(),
    ensures
        grows(old(marked)@, final(marked)@),
        final(marked)@[origin as int],
        closed_under(graph.adjacency(), old(marked)@, final(marked)@),
        mut_edge_to ==> {
            &&& final(edge_to).len() == old(edge_to).len()
            &&& forall|v: int|
                0 <= v < old(marked).len() && !(newly(old(marked)@, final(marked)@, v) && v != origin)
                    ==> #[trigger] final(edge_to)@[v] == old(edge_to)@[v]
            &&& is_component ==> forall|v: int|
                0 <= v < old(marked).len() && #[trigger] newly(old(marked)@, final(marked)@, v) && v != origin
                    ==> final(edge_to)@[v] == component
            &&& !is_component ==> exists|rank: Seq<int>| search_tree(graph.adjacency(), old(marked)@, final(marked)@, final(edge_to)@, origin as int, rank)
            &&& forall|v: int| 0 <= v < old(marked).len() && #[trigger] newly(old(marked)@, final(marked)@, v) ==> reachable_avoiding(graph.adjacency(), old(marked)@, origin, v as usize)
        },
        !mut_edge_to ==> {
            &&& final(edge_to)@.len() > old(edge_to)@.len()
            &&& final(edge_to)@.subrange(0, old(edge_to)@.len() as int) == old(edge_to)@
            &&& final(edge_to)@.last() == origin
            &&& forall|i: int| old(edge_to).len() <= i < final(edge_to).len() ==> #[trigger] newly(old(marked)@, final(marked)@, final(edge_to)@[i] as int)
            &&& forall|i: int| old(edge_to).len() <= i < final(edge_to).len() ==> (#[trigger] final(edge_to)@[i]) < graph.adjacency().len()
            &&& forall|v: int| 0 <= v < graph.adjacency().len() && #[trigger] newly(old(marked)@, final(marked)@, v) ==> final(edge_to)@.contains(v as usize)
            &&& list_matches_marks(graph.adjacency(), old(marked)@, old(edge_to)@) ==> {
                &&& list_matches_marks(graph.adjacency(), final(marked)@, final(edge_to)@)
                &&& forall|i: int| old(edge_to).len() <= i < final(edge_to).len() ==> #[trigger] finished_after_successors(graph.adjacency(), final(edge_to)@, i)
            }
            &&& list_matches_marks(graph.adjacency(), old(marked)@, old(edge_to)@) && list_closed(graph.adjacency(), old(marked)@, old(edge_to)@) ==> {
                &&& list_closed(graph.adjacency(), final(marked)@, final(edge_to)@)
                &&& forall|i: int| old(edge_to).len() <= i < final(edge_to).len() ==> #[trigger] finished_before_unreached(graph.adjacency(), final(edge_to)@, i)
            }
            &&& forall|v: int| 0 <= v < old(marked).len() && #[trigger] newly(old(marked)@, final(marked)@, v) ==> reachable_avoiding(graph.adjacency(), old(marked)@, origin, v as usize)
        },
{
    if mut_edge_to {
        let Ghost(res) = dfs_paths(
            graph,
            marked,
            edge_to,
            origin,
            component,
            is_component,
            Ghost(Seq::new(marked.len() as nat, |i: int| 0int)),
            Ghost(1int),
        );
        proof {
            if !is_component {
                assert(search_tree(graph.adjacency(), old(marked)@, marked@, edge_to@, origin as int, res.0));
            }
        }
    } else {
        let ghost matching = list_matches_marks(graph.adjacency(), marked@, edge_to@);
        proof {
            if matching {
                assert forall|v: int| 0 <= v < graph.adjacency().len() && #[trigger] open_vertex(marked@, edge_to@, v) implies reachable(graph.adjacency(), v as usize, origin) by {
                    assert(marked@[v]);
                }
                assert(order_premise(graph.adjacency(), marked@, edge_to@, origin));
            }
        }
        dfs_order(graph, marked, edge_to, origin);
        proof {
            if matching {
                assert forall|v: int| 0 <= v < graph.adjacency().len() && #[trigger] marked@[v] implies edge_to@.contains(v as usize) by {
                    if !edge_to@.contains(v as usize) {
                        assert(open_vertex(marked@, edge_to@, v));
                        assert(old(marked)@[v]);
                    }
                }
            }
        }
    }
}

/// Breadth-first levels: the origin is at level 0, each link climbs one
/// level, and an edge between two vertices the search marked climbs at most
/// one level.
pub open spec fn bfs_levels(
    adj: Seq<Seq<usize>>,
    m1: Seq<bool>,
    m2: Seq<bool>,
    edge_to: Seq<usize>,
    origin: int,
    rank: Seq<int>,
) -> bool {
    &&& rank[origin] == 0
    &&& forall|v: int| 0 <= v < m1.len() && #[trigger] newly(m1, m2, v) && v != origin ==> rank[edge_to[v] as int] + 1 == rank[v]
    &&& forall|u: int, i: int|
        0 <= u < m1.len() && newly(m1, m2, u) && 0 <= i < adj[u].len() && newly(m1, m2, adj[u][i] as int) ==> rank[#[trigger] adj[u][i] as int]
            <= rank[u] + 1
}

/// Breadth-first search from `vertex_w`, over the vertices not yet marked:
/// each vertex it reaches records in `edge_to` the vertex it was reached from.
pub fn bfs<G: VertexInfo>(graph: &G, marked: &mut Vec<bool>, edge_to: &mut Vec<usize>, vertex_w: usize)
    requires
        graph.well_formed(),
        old(marked).len() == graph.adjacency().len(),
        old(edge_to).len() == graph.adjacency().len(),
        vertex_w < graph.adjacency().len(),
        !old(marked)@[vertex_w as int],
    ensures
        grows(old(marked)@, final(marked)@),
        final(marked)@[vertex_w as int],
        closed_under(graph.adjacency(), old(marked)@, final(marked)@),
        final(edge_to).len() == old(edge_to).len(),
        forall|v: int|
            0 <= v < old(marked).len() && !(newly(old(marked)@, final(marked)@, v) && v != vertex_w)
                ==> #[trigger] final(edge_to)@[v] == old(edge_to)@[v],
        exists|rank: Seq<int>|
            search_tree(graph.adjacency(), old(marked)@, final(marked)@, final(edge_to)@, vertex_w as int, rank)
                && bfs_levels(graph.adjacency(), old(marked)@, final(marked)@, final(edge_to)@, vertex_w as int, rank),
{
    let ghost adj = graph.adjacency();
    let ghost m0 = marked@;
    let ghost e0 = edge_to@;
    let ghost n = adj.len();
    proof {
        graph.lemma_adjacency_valid();
    }
    let mut queue: VecDeque<usize> = VecDeque::new();
    queue.push_back(vertex_w);
    marked.set(vertex_w, true);
    let ghost mut rank: Seq<int> = Seq::new(n as nat, |i: int| 0int);
    proof {
        assert(queue@[0] == vertex_w);
        assert(queue@.contains(vertex_w));
        assert forall|v: int| 0 <= v < n && newly(m0, marked@, v) implies v == vertex_w as int by {}
    }
    while queue.len() > 0
        invariant
            graph.well_formed(),
            adj == graph.adjacency(),
            valid_adjacency(adj),
            n == adj.len(),
            vertex_w < n,
            m0.len() == n,
            e0.len() == n,
            marked.len() == n,
            edge_to.len() == n,
            rank.len() == n,
            !m0[vertex_w as int],
            grows(m0, marked@),
            marked@[vertex_w as int],
            forall|i: int| 0 <= i < queue@.len() ==> (#[trigger] queue@[i]) < n && newly(m0, marked@, queue@[i] as int),
            forall|v: int, i: int|
                0 <= v < n && newly(m0, marked@, v) && !queue@.contains(v as usize) && 0 <= i < adj[v].len() ==> marked@[#[trigger] adj[v][i] as int],
            forall|v: int|
                0 <= v < n && !(newly(m0, marked@, v) && v != vertex_w) ==> #[trigger] edge_to@[v] == e0[v],
            search_tree(adj, m0, marked@, edge_to@, vertex_w as int, rank),
            rank[vertex_w as int] == 0,
            forall|v: int| 0 <= v < n && #[trigger] newly(m0, marked@, v) && v != vertex_w ==> rank[edge_to@[v] as int] + 1 == rank[v],
            forall|v: int| 0 <= v < n && #[trigger] newly(m0, marked@, v) ==> 0 <= rank[v],
            forall|i: int, j: int| 0 <= i < j < queue@.len() ==> rank[#[trigger] queue@[i] as int] <= rank[#[trigger] queue@[j] as int],
            queue@.len() > 0 ==> forall|v: int| 0 <= v < n && #[trigger] newly(m0, marked@, v) ==> rank[v] <= rank[queue@[0] as int] + 1,
            forall|u: int, i: int|
                0 <= u < n && newly(m0, marked@, u) && !queue@.contains(u as usize) && 0 <= i < adj[u].len() && newly(m0, marked@, adj[u][i] as int)
                    ==> rank[#[trigger] adj[u][i] as int] <= rank[u] + 1,
        decreases unmarked_count(marked@, n as int) + queue@.len(),
    {
        let ghost mq = marked@;
        let ghost q0 = queue@;
        let node = queue.pop_front().unwrap();
        let ghost d = rank[node as int];
        let adj_node = graph.vertex_edges(node);
        let mut j: usize = 0;
        proof {
            assert(q0[0] == node);
            assert(newly(m0, marked@, node as int));
            assert(queue@ =~= q0.drop_first());
            assert forall|i: int| 0 <= i < queue@.len() implies d <= rank[#[trigger] queue@[i] as int] <= d + 1 by {
                assert(queue@[i] == q0[i + 1]);
                assert(rank[q0[0] as int] <= rank[q0[i + 1] as int]);
                assert(newly(m0, marked@, q0[i + 1] as int));
            }
        }
        while j < adj_node.len()
            invariant
                graph.well_formed(),
                adj == graph.adjacency(),
                valid_adjacency(adj),
                n == adj.len(),
                vertex_w < n,
                node < n,
                adj_node@ == adj[node as int],
                j <= adj_node.len(),
                m0.len() == n,
                e0.len() == n,
                marked.len() == n,
                edge_to.len() == n,
                rank.len() == n,
                !m0[vertex_w as int],
                grows(m0, marked@),
                grows(mq, marked@),
                marked@[vertex_w as int],
                newly(m0, marked@, node as int),
                q0.len() > 0,
                q0[0] == node,
                d == rank[node as int],
                queue@.len() >= q0.len() - 1,
                queue@.subrange(0, q0.len() - 1) == q0.drop_first(),
                forall|i: int| 0 <= i < queue@.len() ==> (#[trigger] queue@[i]) < n && newly(m0, marked@, queue@[i] as int),
                forall|v: int| 0 <= v < n && newly(mq, marked@, v) ==> queue@.contains(v as usize),
                forall|v: int, i: int|
                    0 <= v < n && newly(m0, mq, v) && !q0.contains(v as usize) && 0 <= i < adj[v].len() ==> marked@[#[trigger] adj[v][i] as int],
                forall|k: int| 0 <= k < j ==> marked@[#[trigger] adj[node as int][k] as int],
                forall|v: int|
                    0 <= v < n && !(newly(m0, marked@, v) && v != vertex_w) ==> #[trigger] edge_to@[v] == e0[v],
                search_tree(adj, m0, marked@, edge_to@, vertex_w as int, rank),
                rank[vertex_w as int] == 0,
                forall|v: int| 0 <= v < n && #[trigger] newly(m0, marked@, v) && v != vertex_w ==> rank[edge_to@[v] as int] + 1 == rank[v],
                forall|v: int| 0 <= v < n && #[trigger] newly(m0, marked@, v) ==> 0 <= rank[v],
                forall|i: int, k: int| 0 <= i < k < queue@.len() ==> rank[#[trigger] queue@[i] as int] <= rank[#[trigger] queue@[k] as int],
                forall|i: int| 0 <= i < queue@.len() ==> d <= rank[#[trigger] queue@[i] as int] <= d + 1,
                forall|v: int| 0 <= v < n && #[trigger] newly(m0, marked@, v) ==> rank[v] <= d + 1,
                forall|v: int| 0 <= v < n && mq[v] ==> #[trigger] rank[v] == rank[v],
                forall|u: int, i: int|
                    0 <= u < n && newly(m0, mq, u) && !q0.contains(u as usize) && 0 <= i < adj[u].len() && newly(m0, marked@, adj[u][i] as int)
                        ==> rank[#[trigger] adj[u][i] as int] <= rank[u] + 1,
                unmarked_count(marked@, n as int) + queue@.len() + 1 <= unmarked_count(mq, n as int) + q0.len(),
            decreases adj_node.len() - j,
        {
            let v = adj_node[j];
            assert(adj[node as int][j as int] == v);
            if !marked[v] {
                let ghost m1 = marked@;
                let ghost qq = queue@;
                let ghost r1 = rank;
                queue.push_back(v);
                marked.set(v, true);
                edge_to.set(v, node);
                proof {
                    assert(newly(m1, marked@, v as int));
                    assert(exists|x: int| 0 <= x < n && newly(m1, marked@, x));
                    lemma_unmarked_count_mono(m1, marked@, n as int);
                    rank = rank.update(v as int, d + 1);
                    assert(queue@.subrange(0, q0.len() - 1) =~= qq.subrange(0, q0.len() - 1));
                    assert forall|x: int| 0 <= x < n && newly(mq, marked@, x) implies queue@.contains(x as usize) by {
                        if x == v as int {
                            assert(queue@[qq.len() as int] == v);
                        } else {
                            assert(newly(mq, m1, x));
                            let i = choose|i: int| 0 <= i < qq.len() && qq[i] == x as usize;
                            assert(queue@[i] == qq[i]);
                        }
                    }
                    assert forall|x: int| 0 <= x < n && #[trigger] newly(m0, marked@, x) && x != vertex_w implies {
                        &&& 0 <= edge_to@[x] < n
                        &&& newly(m0, marked@, edge_to@[x] as int)
                        &&& has_edge(adj, edge_to@[x] as int, x as usize)
                        &&& 0 <= rank[edge_to@[x] as int] < rank[x]
                    } by {
                        if x == v as int {
                            assert(adj[node as int].contains(v));
                        } else {
                            assert(newly(m0, m1, x));
                            assert(edge_to@[x] as int != v as int);
                        }
                    }
                    assert forall|x: int| 0 <= x < n && #[trigger] newly(m0, marked@, x) && x != vertex_w implies rank[edge_to@[x] as int] + 1 == rank[x] by {
                        if x != v as int {
                            assert(newly(m0, m1, x));
                            assert(newly(m0, m1, edge_to@[x] as int) || edge_to@[x] as int == vertex_w as int);
                        }
                    }
                    assert forall|i: int| 0 <= i < queue@.len() implies (#[trigger] queue@[i]) < n && newly(m0, marked@, queue@[i] as int) by {
                        if i < qq.len() {
                            assert(queue@[i] == qq[i]);
                        }
                    }
                    assert forall|i: int, k: int| 0 <= i < k < queue@.len() implies rank[#[trigger] queue@[i] as int] <= rank[#[trigger] queue@[k] as int] by {
                        assert(queue@[i] == qq[i]);
                        assert(newly(m0, m1, qq[i] as int));
                        if k < qq.len() {
                            assert(queue@[k] == qq[k]);
                            assert(newly(m0, m1, qq[k] as int));
                        }
                    }
                    assert forall|i: int| 0 <= i < queue@.len() implies d <= rank[#[trigger] queue@[i] as int] <= d + 1 by {
                        if i < qq.len() {
                            assert(queue@[i] == qq[i]);
                            assert(newly(m0, m1, qq[i] as int));
                        }
                    }
                    assert forall|x: int| 0 <= x < n && #[trigger] newly(m0, marked@, x) implies rank[x] <= d + 1 by {
                        if x != v as int {
                            assert(newly(m0, m1, x));
                        }
                    }
                    assert forall|u: int, i: int|
                        0 <= u < n && newly(m0, mq, u) && !q0.contains(u as usize) && 0 <= i < adj[u].len() && newly(m0, marked@, adj[u][i] as int)
                            implies rank[#[trigger] adj[u][i] as int] <= rank[u] + 1 by {
                        assert(marked@[adj[u][i] as int]);
                        assert(m1[adj[u][i] as int]);
                        assert(newly(m0, m1, adj[u][i] as int));
                        assert(u != v as int);
                    }
                }
            }
            j = j + 1;
        }
        proof {
            assert forall|v: int, i: int|
                0 <= v < n && newly(m0, marked@, v) && !queue@.contains(v as usize) && 0 <= i < adj[v].len() implies marked@[#[trigger] adj[v][i] as int] by {
                if v == node as int {
                } else if !mq[v] {
                    assert(newly(mq, marked@, v));
                } else {
                    assert(newly(m0, mq, v));
                    if q0.contains(v as usize) {
                        let k = choose|k: int| 0 <= k < q0.len() && q0[k] == v as usize;
                        assert(k != 0);
                        assert(q0.drop_first()[k - 1] == v as usize);
                        assert(queue@.subrange(0, q0.len() - 1)[k - 1] == v as usize);
                        assert(queue@[k - 1] == v as usize);
                    }
                }
            }
            assert forall|u: int, i: int|
                0 <= u < n && newly(m0, marked@, u) && !queue@.contains(u as usize) && 0 <= i < adj[u].len() && newly(m0, marked@, adj[u][i] as int)
                    implies rank[#[trigger] adj[u][i] as int] <= rank[u] + 1 by {
                if u == node as int {
                } else if !mq[u] {
                    assert(newly(mq, marked@, u));
                } else {
                    assert(newly(m0, mq, u));
                    if q0.contains(u as usize) {
                        let k = choose|k: int| 0 <= k < q0.len() && q0[k] == u as usize;
                        assert(k != 0);
                        assert(q0.drop_first()[k - 1] == u as usize);
                        assert(queue@.subrange(0, q0.len() - 1)[k - 1] == u as usize);
                        assert(queue@[k - 1] == u as usize);
                    }
                    assert(rank[u] >= 0);
                }
            }
            if queue@.len() > 0 {
                assert(d <= rank[queue@[0] as int]);
            }
        }
    }
    proof {
        assert forall|v: int, i: int|
            0 <= v < n && newly(m0, marked@, v) && 0 <= i < adj[v].len() implies marked@[#[trigger] adj[v][i] as int] by {
            assert(!queue@.contains(v as usize));
        }
        assert forall|u: int, i: int|
            0 <= u < n && newly(m0, marked@, u) && 0 <= i < adj[u].len() && newly(m0, marked@, adj[u][i] as int)
                implies rank[#[trigger] adj[u][i] as int] <= rank[u] + 1 by {
            assert(!queue@.contains(u as usize));
        }
        assert(search_tree(adj, m0, marked@, edge_to@, vertex_w as int, rank));
        assert(bfs_levels(adj, m0, marked@, edge_to@, vertex_w as int, rank));
    }
}

} // verus!
