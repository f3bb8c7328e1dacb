use std::collections::VecDeque;
use vstd::prelude::*;

use crate::graph::processing::sort::{acyclic, lemma_topological_order, TopologicalSort};
use crate::graph::{is_back_walk, EdgeWeightedDiGraph, WeightedDiEdge};

verus! {

/// Total weight of a sequence of edges.
pub open spec fn walk_weight(p: Seq<WeightedDiEdge>) -> int
    decreases p.len(),
{
    if p.len() == 0 {
        0
    } else {
        walk_weight(p.drop_last()) + p.last().cost()
    }
}

/// `p` is a walk of edges of `rows` from `s` to `v`.
pub open spec fn is_weighted_walk(rows: Seq<Seq<WeightedDiEdge>>, p: Seq<WeightedDiEdge>, s: usize, v: usize) -> bool {
    if p.len() == 0 {
        s == v
    } else {
        &&& p[0].origin() == s
        &&& p.last().destination() == v
        &&& forall|i: int| 0 <= i < p.len() ==> (#[trigger] p[i]).origin() < rows.len() && rows[p[i].origin() as int].contains(p[i])
        &&& forall|i: int| 0 <= i < p.len() - 1 ==> (#[trigger] p[i]).destination() == p[i + 1].origin()
    }
}

/// The link of `v` names an edge into `v` from a reached vertex, whose
/// distance plus the edge's weight is at most that of `v`.
pub open spec fn link_ok(rows: Seq<Seq<WeightedDiEdge>>, dist: Seq<i64>, edge_to: Seq<usize>, v: int) -> bool {
    let u = edge_to[v] as int;
    &&& 0 <= u < rows.len()
    &&& dist[u] < i64::MAX
    &&& exists|i: int|
        0 <= i < rows[u].len() && (#[trigger] rows[u][i]).destination() == v as usize && dist[u] + rows[u][i].cost() <= dist[v]
}

/// What every relaxation keeps: each reached vertex has a walk from the
/// source whose weight is its distance, and a valid link.
pub open spec fn relaxed_state(
    rows: Seq<Seq<WeightedDiEdge>>,
    source: usize,
    dist: Seq<i64>,
    edge_to: Seq<usize>,
    walks: Seq<Seq<WeightedDiEdge>>,
) -> bool {
    &&& dist.len() == rows.len()
    &&& edge_to.len() == rows.len()
    &&& walks.len() == rows.len()
    &&& source < rows.len()
    &&& forall|v: int|
        0 <= v < rows.len() && #[trigger] dist[v] < i64::MAX ==> is_weighted_walk(rows, walks[v], source, v as usize)
            && walk_weight(walks[v]) == dist[v]
    &&& forall|v: int| 0 <= v < rows.len() && v != source && #[trigger] dist[v] < i64::MAX ==> link_ok(rows, dist, edge_to, v)
}

/// Sum over the first `k` vertices of how far their distance is above the
/// smallest value: every relaxation lowers it.
pub open spec fn dist_measure(dist: Seq<i64>, k: int) -> nat
    decreases k,
{
    if k <= 0 {
        0
    } else {
        dist_measure(dist, k - 1) + (dist[k - 1] - i64::MIN) as nat
    }
}

proof fn lemma_dist_measure_lower(dist: Seq<i64>, v: int, d: i64, k: int)
    requires
        0 <= v < dist.len(),
        d < dist[v],
        0 <= k <= dist.len(),
    ensures
        dist_measure(dist.update(v, d), k) + if v < k {
            1int
        } else {
            0int
        } <= dist_measure(dist, k),
    decreases k,
{
    if k > 0 {
        lemma_dist_measure_lower(dist, v, d, k - 1);
    }
}

/// Sets the distance of `destination` to that of `origin` plus `dist`, and
/// its link to `origin`.
fn relax(dist_to: &mut Vec<i64>, edge_to: &mut Vec<usize>, origin: usize, destination: usize, dist: i64)
    requires
        origin < old(dist_to).len(),
        destination < old(dist_to).len(),
        destination < old(edge_to).len(),
        i64::MIN <= old(dist_to)@[origin as int] + dist <= i64::MAX,
    ensures
        final(dist_to)@ == old(dist_to)@.update(destination as int, (old(dist_to)@[origin as int] + dist) as i64),
        final(edge_to)@ == old(edge_to)@.update(destination as int, origin),
{
    dist_to[destination] = dist_to[origin] + dist;
    edge_to[destination] = origin;
}

/// Relaxing edge `i` of `u` keeps the state, with the walk of `u` extended
/// by that edge as the walk of its destination.
proof fn lemma_relax_keeps(
    graph: &EdgeWeightedDiGraph,
    source: usize,
    dist: Seq<i64>,
    edge_to: Seq<usize>,
    walks: Seq<Seq<WeightedDiEdge>>,
    u: usize,
    i: int,
) -> (walks2: Seq<Seq<WeightedDiEdge>>)
    requires
        graph.wf(),
        relaxed_state(graph.rows(), source, dist, edge_to, walks),
        u < graph.rows().len(),
        0 <= i < graph.rows()[u as int].len(),
        dist[u as int] < i64::MAX,
        dist[u as int] + graph.rows()[u as int][i].cost() < dist[graph.rows()[u as int][i].destination() as int],
        i64::MIN <= dist[u as int] + graph.rows()[u as int][i].cost(),
    ensures
        ({
            let e = graph.rows()[u as int][i];
            let v = e.destination() as int;
            relaxed_state(
                graph.rows(),
                source,
                dist.update(v, (dist[u as int] + e.cost()) as i64),
                edge_to.update(v, u),
                walks2,
            )
        }),
{
    let rows = graph.rows();
    graph.lemma_wf();
    let e = rows[u as int][i];
    let v = e.destination() as int;
    let d2 = dist.update(v, (dist[u as int] + e.cost()) as i64);
    let t2 = edge_to.update(v, u);
    let w = walks[u as int].push(e);
    let walks2 = walks.update(v, w);
    assert(e.origin() == u);
    assert(rows[u as int].contains(e));
    assert(w.drop_last() =~= walks[u as int]);
    assert(is_weighted_walk(rows, w, source, v as usize)) by {
        let p = walks[u as int];
        if p.len() > 0 {
            assert forall|k: int| 0 <= k < w.len() implies (#[trigger] w[k]).origin() < rows.len() && rows[w[k].origin() as int].contains(w[k]) by {
                if k < p.len() {
                    assert(w[k] == p[k]);
                }
            }
            assert forall|k: int| 0 <= k < w.len() - 1 implies (#[trigger] w[k]).destination() == w[k + 1].origin() by {
                if k < p.len() - 1 {
                    assert(w[k] == p[k] && w[k + 1] == p[k + 1]);
                } else {
                    assert(w[k] == p.last());
                }
            }
        } else {
            assert(w[0] == e);
        }
    }
    assert forall|x: int| 0 <= x < rows.len() && #[trigger] d2[x] < i64::MAX implies is_weighted_walk(rows, walks2[x], source, x as usize)
        && walk_weight(walks2[x]) == d2[x] by {
        if x != v {
            assert(dist[x] == d2[x]);
        }
    }
    assert forall|x: int| 0 <= x < rows.len() && x != source && #[trigger] d2[x] < i64::MAX implies link_ok(rows, d2, t2, x) by {
        if x == v {
            assert(t2[x] == u);
            assert(rows[u as int][i].destination() == x as usize);
            assert(d2[x] == dist[u as int] + rows[u as int][i].cost());
            if u as int == v {
                assert(d2[u as int] + rows[u as int][i].cost() <= d2[x]);
            } else {
                assert(d2[u as int] == dist[u as int]);
                assert(d2[u as int] + rows[u as int][i].cost() <= d2[x]);
            }
            assert(0 <= i < rows[u as int].len() && (#[trigger] rows[u as int][i]).destination() == x as usize && d2[u as int] + rows[u as int][i].cost() <= d2[x]);
        } else {
            assert(dist[x] == d2[x]);
            assert(link_ok(rows, dist, edge_to, x));
            let p = edge_to[x] as int;
            let k = choose|k: int| 0 <= k < rows[p].len() && (#[trigger] rows[p][k]).destination() == x as usize && dist[p] + rows[p][k].cost() <= dist[x];
            assert(d2[p] <= dist[p]);
            assert(d2[p] + rows[p][k].cost() <= d2[x]);
        }
    }
    walks2
}

/// The vertices met by following links from `v` to `source`, in at most
/// `fuel` steps.
pub open spec fn link_path(edge_to: Seq<usize>, source: usize, v: usize, fuel: nat) -> Option<Seq<usize>>
    decreases fuel,
{
    if v == source {
        Some(seq![source])
    } else if fuel == 0 || v >= edge_to.len() {
        None
    } else {
        match link_path(edge_to, source, edge_to[v as int], (fuel - 1) as nat) {
            Some(p) => Some(seq![v] + p),
            None => None,
        }
    }
}

proof fn lemma_link_path_walk(
    graph: &EdgeWeightedDiGraph,
    source: usize,
    dist: Seq<i64>,
    edge_to: Seq<usize>,
    walks: Seq<Seq<WeightedDiEdge>>,
    v: usize,
    fuel: nat,
)
    requires
        graph.wf(),
        relaxed_state(graph.rows(), source, dist, edge_to, walks),
        v < graph.rows().len(),
        dist[v as int] < i64::MAX,
        link_path(edge_to, source, v, fuel).is_some(),
    ensures
        is_back_walk(graph.adj(), link_path(edge_to, source, v, fuel).unwrap()),
        link_path(edge_to, source, v, fuel).unwrap()[0] == v,
    decreases fuel,
{
    graph.lemma_wf();
    if v != source {
        let u = edge_to[v as int];
        assert(link_ok(graph.rows(), dist, edge_to, v as int));
        lemma_link_path_walk(graph, source, dist, edge_to, walks, u, (fuel - 1) as nat);
        let q = link_path(edge_to, source, u, (fuel - 1) as nat).unwrap();
        let p = seq![v] + q;
        let k = choose|k: int| 0 <= k < graph.rows()[u as int].len() && (#[trigger] graph.rows()[u as int][k]).destination() == v && dist[u as int] + graph.rows()[u as int][k].cost() <= dist[v as int];
        assert(graph.adj()[u as int][k] == v);
        assert(crate::graph::has_edge(graph.adj(), u as int, v));
        assert forall|i: int| 0 <= i < p.len() - 1 implies #[trigger] crate::graph::has_edge(graph.adj(), p[i + 1] as int, p[i]) by {
            if i > 0 {
                assert(p[i] == q[i - 1] && p[i + 1] == q[i]);
                assert(crate::graph::has_edge(graph.adj(), q[(i - 1) + 1] as int, q[i - 1]));
            }
        }
    }
}


/// What every run guarantees: the source lies at distance at most zero,
/// each vertex reached has a walk from the source weighing its distance,
/// and its link names an edge into it from a reached vertex.
pub open spec fn paths_found(rows: Seq<Seq<WeightedDiEdge>>, source: usize, dist: Seq<i64>, edge_to: Seq<usize>) -> bool {
    &&& dist.len() == rows.len()
    &&& edge_to.len() == rows.len()
    &&& source < rows.len()
    &&& dist[source as int] <= 0
    &&& forall|v: int|
        0 <= v < rows.len() && #[trigger] dist[v] < i64::MAX ==> exists|p: Seq<WeightedDiEdge>|
            is_weighted_walk(rows, p, source, v as usize) && walk_weight(p) == dist[v]
    &&& forall|v: int| 0 <= v < rows.len() && v != source && #[trigger] dist[v] < i64::MAX ==> link_ok(rows, dist, edge_to, v)
}

proof fn lemma_paths_found(
    rows: Seq<Seq<WeightedDiEdge>>,
    source: usize,
    dist: Seq<i64>,
    edge_to: Seq<usize>,
    walks: Seq<Seq<WeightedDiEdge>>,
)
    requires
        relaxed_state(rows, source, dist, edge_to, walks),
        dist[source as int] <= 0,
    ensures
        paths_found(rows, source, dist, edge_to),
{
    assert forall|v: int| 0 <= v < rows.len() && #[trigger] dist[v] < i64::MAX implies exists|p: Seq<WeightedDiEdge>|
        is_weighted_walk(rows, p, source, v as usize) && walk_weight(p) == dist[v] by {
        assert(is_weighted_walk(rows, walks[v], source, v as usize));
    }
}

proof fn lemma_walks_of(rows: Seq<Seq<WeightedDiEdge>>, source: usize, dist: Seq<i64>, edge_to: Seq<usize>) -> (walks: Seq<Seq<WeightedDiEdge>>)
    requires
        paths_found(rows, source, dist, edge_to),
    ensures
        relaxed_state(rows, source, dist, edge_to, walks),
{
    let walks = Seq::new(
        rows.len(),
        |v: int| choose|p: Seq<WeightedDiEdge>| is_weighted_walk(rows, p, source, v as usize) && walk_weight(p) == dist[v],
    );
    assert forall|v: int| 0 <= v < rows.len() && #[trigger] dist[v] < i64::MAX implies is_weighted_walk(rows, walks[v], source, v as usize)
        && walk_weight(walks[v]) == dist[v] by {
        let p = choose|p: Seq<WeightedDiEdge>| is_weighted_walk(rows, p, source, v as usize) && walk_weight(p) == dist[v];
        assert(walks[v] == p);
    }
    walks
}

/// No edge weighs less than zero.
pub open spec fn non_negative(rows: Seq<Seq<WeightedDiEdge>>) -> bool {
    forall|u: int, i: int| 0 <= u < rows.len() && 0 <= i < rows[u].len() ==> (#[trigger] rows[u][i]).cost() >= 0
}

/// Edge `i` of `u` cannot lower the distance of its destination (or its
/// sum would fall below the range of `i64`).
pub open spec fn edge_relaxed(rows: Seq<Seq<WeightedDiEdge>>, dist: Seq<i64>, u: int, i: int) -> bool {
    dist[rows[u][i].destination() as int] <= dist[u] + rows[u][i].cost() || dist[u] + rows[u][i].cost() < i64::MIN
}

/// No edge of `u` can lower a distance.
pub open spec fn settled(rows: Seq<Seq<WeightedDiEdge>>, dist: Seq<i64>, u: int) -> bool {
    forall|i: int| 0 <= i < rows[u].len() ==> #[trigger] edge_relaxed(rows, dist, u, i)
}

/// No edge out of a reached vertex can lower a distance.
pub open spec fn all_relaxed(rows: Seq<Seq<WeightedDiEdge>>, dist: Seq<i64>) -> bool {
    forall|u: int| 0 <= u < rows.len() && dist[u] < i64::MAX ==> #[trigger] settled(rows, dist, u)
}

/// `u` waits in the queue with its current distance.
pub open spec fn pending(queue: Seq<(i64, usize)>, dist: Seq<i64>, u: int) -> bool {
    exists|k: int| 0 <= k < queue.len() && queue[k] == (dist[u], u as usize)
}

proof fn lemma_settled_lower(rows: Seq<Seq<WeightedDiEdge>>, d1: Seq<i64>, d2: Seq<i64>, u: int)
    requires
        settled(rows, d1, u),
        0 <= u < d1.len(),
        d1.len() == d2.len(),
        d2[u] == d1[u],
        forall|x: int| 0 <= x < d1.len() ==> #[trigger] d2[x] <= d1[x],
        forall|i: int| 0 <= i < rows[u].len() ==> (#[trigger] rows[u][i]).destination() < d1.len(),
    ensures
        settled(rows, d2, u),
{
    assert forall|i: int| 0 <= i < rows[u].len() implies #[trigger] edge_relaxed(rows, d2, u, i) by {
        assert(edge_relaxed(rows, d1, u, i));
        assert(d2[rows[u][i].destination() as int] <= d1[rows[u][i].destination() as int]);
    }
}

/// Along a walk from the source lighter than `i64::MAX`, with non-negative
/// weights and every edge relaxed, the distance found for its end is at
/// most its weight.
pub proof fn lemma_relaxed_bounds_walks(
    rows: Seq<Seq<WeightedDiEdge>>,
    source: usize,
    dist: Seq<i64>,
    p: Seq<WeightedDiEdge>,
    v: usize,
)
    requires
        non_negative(rows),
        all_relaxed(rows, dist),
        dist.len() == rows.len(),
        source < rows.len(),
        dist[source as int] <= 0,
        forall|u: int, i: int| 0 <= u < rows.len() && 0 <= i < rows[u].len() ==> (#[trigger] rows[u][i]).origin() == u && rows[u][i].destination() < rows.len(),
        is_weighted_walk(rows, p, source, v),
        walk_weight(p) < i64::MAX,
    ensures
        v < rows.len(),
        dist[v as int] <= walk_weight(p),
    decreases p.len(),
{
    if p.len() > 0 {
        let e = p.last();
        let q = p.drop_last();
        let u = e.origin();
        assert(p[p.len() - 1] == e);
        assert(u < rows.len() && rows[u as int].contains(e));
        let i = choose|i: int| 0 <= i < rows[u as int].len() && rows[u as int][i] == e;
        lemma_walk_weight_nonneg(rows, q);
        assert(is_weighted_walk(rows, q, source, u)) by {
            if q.len() > 0 {
                assert(q.last() == p[p.len() - 2]);
                assert(p[p.len() - 2].destination() == p[p.len() - 1].origin());
                assert forall|k: int| 0 <= k < q.len() implies (#[trigger] q[k]).origin() < rows.len() && rows[q[k].origin() as int].contains(q[k]) by {
                    assert(q[k] == p[k]);
                }
                assert forall|k: int| 0 <= k < q.len() - 1 implies (#[trigger] q[k]).destination() == q[k + 1].origin() by {
                    assert(q[k] == p[k] && q[k + 1] == p[k + 1]);
                }
                assert(q[0] == p[0]);
            }
        }
        assert(rows[u as int][i].cost() >= 0);
        lemma_relaxed_bounds_walks(rows, source, dist, q, u);
        assert(settled(rows, dist, u as int));
        assert(edge_relaxed(rows, dist, u as int, i));
    }
}

proof fn lemma_walk_weight_nonneg(rows: Seq<Seq<WeightedDiEdge>>, p: Seq<WeightedDiEdge>)
    requires
        non_negative(rows),
        forall|k: int| 0 <= k < p.len() ==> (#[trigger] p[k]).origin() < rows.len() && rows[p[k].origin() as int].contains(p[k]),
    ensures
        walk_weight(p) >= 0,
    decreases p.len(),
{
    if p.len() > 0 {
        let e = p.last();
        assert(p[p.len() - 1] == e);
        let i = choose|i: int| 0 <= i < rows[e.origin() as int].len() && rows[e.origin() as int][i] == e;
        assert(rows[e.origin() as int][i].cost() >= 0);
        assert forall|k: int| 0 <= k < p.drop_last().len() implies (#[trigger] p.drop_last()[k]).origin() < rows.len() && rows[p.drop_last()[k].origin() as int].contains(p.drop_last()[k]) by {
            assert(p.drop_last()[k] == p[k]);
        }
        lemma_walk_weight_nonneg(rows, p.drop_last());
    }
}

/// Two runs that found distances with walks behind them, and left no edge
/// that could lower one, found the same distances when no weight is
/// negative: each is the weight of the lightest walk from the source.
pub proof fn lemma_relaxed_runs_agree(
    graph: EdgeWeightedDiGraph,
    source: usize,
    d1: Seq<i64>,
    e1: Seq<usize>,
    d2: Seq<i64>,
    e2: Seq<usize>,
)
    requires
        graph.wf(),
        non_negative(graph.rows()),
        paths_found(graph.rows(), source, d1, e1),
        all_relaxed(graph.rows(), d1),
        paths_found(graph.rows(), source, d2, e2),
        all_relaxed(graph.rows(), d2),
    ensures
        d1 == d2,
{
    let rows = graph.rows();
    graph.lemma_wf();
    assert forall|v: int| 0 <= v < rows.len() implies d1[v] == d2[v] by {
        if d1[v] < i64::MAX {
            let p = choose|p: Seq<WeightedDiEdge>| is_weighted_walk(rows, p, source, v as usize) && walk_weight(p) == d1[v];
            lemma_relaxed_bounds_walks(rows, source, d2, p, v as usize);
        }
        if d2[v] < i64::MAX {
            let p = choose|p: Seq<WeightedDiEdge>| is_weighted_walk(rows, p, source, v as usize) && walk_weight(p) == d2[v];
            lemma_relaxed_bounds_walks(rows, source, d1, p, v as usize);
        }
    }
    assert(d1 =~= d2);
}

/// On a graph without cycles whose weights are not negative, what
/// Dijkstra's algorithm guarantees and what the relaxation in topological
/// order guarantees pin down the same distances: the two agree.
pub proof fn lemma_dijkstra_agrees_with_dag_relaxation(
    graph: EdgeWeightedDiGraph,
    source: usize,
    by_heap: Seq<i64>,
    heap_links: Seq<usize>,
    by_order: Seq<i64>,
    order_links: Seq<usize>,
)
    requires
        graph.wf(),
        acyclic(graph.adj()),
        non_negative(graph.rows()),
        paths_found(graph.rows(), source, by_heap, heap_links),
        all_relaxed(graph.rows(), by_heap),
        paths_found(graph.rows(), source, by_order, order_links),
        all_relaxed(graph.rows(), by_order),
    ensures
        by_heap == by_order,
{
    lemma_relaxed_runs_agree(graph, source, by_heap, heap_links, by_order, order_links);
}

/// Vertices still unreached keep the link they had in `old_links`.
pub open spec fn links_kept(dist: Seq<i64>, links: Seq<usize>, old_links: Seq<usize>) -> bool {
    forall|v: int| 0 <= v < dist.len() && #[trigger] dist[v] == i64::MAX ==> links[v] == old_links[v]
}

proof fn lemma_links_kept_trans(
    d0: Seq<i64>,
    d1: Seq<i64>,
    e_old: Seq<usize>,
    e_mid: Seq<usize>,
    e_new: Seq<usize>,
)
    requires
        d0.len() == d1.len(),
        links_kept(d0, e_mid, e_old),
        links_kept(d1, e_new, e_mid),
        forall|x: int| 0 <= x < d0.len() ==> #[trigger] d1[x] <= d0[x],
    ensures
        links_kept(d1, e_new, e_old),
{
    assert forall|v: int| 0 <= v < d1.len() && #[trigger] d1[v] == i64::MAX implies e_new[v] == e_old[v] by {
        assert(d0[v] >= d1[v]);
        assert(d0[v] == i64::MAX);
    }
}

/// Every walk from the source weighs at least `i64::MIN`: no sum of
/// weights along a walk from the source falls below the range.
pub open spec fn walks_bounded_below(rows: Seq<Seq<WeightedDiEdge>>, source: usize) -> bool {
    forall|p: Seq<WeightedDiEdge>, v: usize| #[trigger] is_weighted_walk(rows, p, source, v) ==> walk_weight(p) >= i64::MIN
}

/// Every prefix of `p` weighs less than `i64::MAX`.
pub open spec fn light_prefixes(p: Seq<WeightedDiEdge>) -> bool {
    forall|k: int| 0 <= k <= p.len() ==> #[trigger] walk_weight(p.subrange(0, k)) < i64::MAX
}

/// Each walk from the source with at most `r` edges, whose prefixes all
/// weigh less than `i64::MAX`, weighs at least the distance of its end.
pub open spec fn bounded_by_short_walks(rows: Seq<Seq<WeightedDiEdge>>, source: usize, dist: Seq<i64>, r: int) -> bool {
    forall|p: Seq<WeightedDiEdge>, v: usize|
        #[trigger] is_weighted_walk(rows, p, source, v) && p.len() <= r && light_prefixes(p) ==> v < dist.len() && dist[v as int] <= walk_weight(p)
}

/// A walk extended by an edge leaving its end is a walk.
proof fn lemma_walk_push(rows: Seq<Seq<WeightedDiEdge>>, p: Seq<WeightedDiEdge>, s: usize, u: usize, e: WeightedDiEdge)
    requires
        is_weighted_walk(rows, p, s, u),
        e.origin() == u,
        u < rows.len(),
        rows[u as int].contains(e),
    ensures
        is_weighted_walk(rows, p.push(e), s, e.destination()),
        walk_weight(p.push(e)) == walk_weight(p) + e.cost(),
{
    let w = p.push(e);
    assert(w.drop_last() =~= p);
    if p.len() > 0 {
        assert forall|k: int| 0 <= k < w.len() implies (#[trigger] w[k]).origin() < rows.len() && rows[w[k].origin() as int].contains(w[k]) by {
            if k < p.len() {
                assert(w[k] == p[k]);
            }
        }
        assert forall|k: int| 0 <= k < w.len() - 1 implies (#[trigger] w[k]).destination() == w[k + 1].origin() by {
            if k < p.len() - 1 {
                assert(w[k] == p[k] && w[k + 1] == p[k + 1]);
            } else {
                assert(w[k] == p.last());
            }
        }
    } else {
        assert(w[0] == e);
    }
}

/// A non-empty walk is a shorter walk followed by its last edge.
proof fn lemma_walk_split(rows: Seq<Seq<WeightedDiEdge>>, p: Seq<WeightedDiEdge>, s: usize, v: usize)
    requires
        is_weighted_walk(rows, p, s, v),
        p.len() > 0,
    ensures
        is_weighted_walk(rows, p.drop_last(), s, p.last().origin()),
        p.last().origin() < rows.len(),
        rows[p.last().origin() as int].contains(p.last()),
        p.last().destination() == v,
        walk_weight(p) == walk_weight(p.drop_last()) + p.last().cost(),
        light_prefixes(p) ==> light_prefixes(p.drop_last()),
{
    let q = p.drop_last();
    assert(p[p.len() - 1] == p.last());
    if q.len() > 0 {
        assert(q.last() == p[p.len() - 2]);
        assert(p[p.len() - 2].destination() == p[p.len() - 1].origin());
        assert forall|k: int| 0 <= k < q.len() implies (#[trigger] q[k]).origin() < rows.len() && rows[q[k].origin() as int].contains(q[k]) by {
            assert(q[k] == p[k]);
        }
        assert forall|k: int| 0 <= k < q.len() - 1 implies (#[trigger] q[k]).destination() == q[k + 1].origin() by {
            assert(q[k] == p[k] && q[k + 1] == p[k + 1]);
        }
        assert(q[0] == p[0]);
    }
    if light_prefixes(p) {
        assert forall|k: int| 0 <= k <= q.len() implies #[trigger] walk_weight(q.subrange(0, k)) < i64::MAX by {
            assert(q.subrange(0, k) =~= p.subrange(0, k));
        }
    }
}

/// The starting state: only the source is reached, at distance zero.
fn start(graph: &EdgeWeightedDiGraph, source: usize, edge_to: &Vec<usize>, dist_to: &mut Vec<i64>) -> (walks: Ghost<Seq<Seq<WeightedDiEdge>>>)
    requires
        graph.wf(),
        source < graph.rows().len(),
        old(dist_to).len() == graph.rows().len(),
        edge_to.len() == graph.rows().len(),
        forall|v: int| 0 <= v < old(dist_to).len() && v != source ==> #[trigger] old(dist_to)@[v] == i64::MAX,
    ensures
        relaxed_state(graph.rows(), source, final(dist_to)@, edge_to@, walks@),
        final(dist_to)@[source as int] == 0,
        final(dist_to)@ == old(dist_to)@.update(source as int, 0),
{
    dist_to[source] = 0;
    let ghost walks = Seq::new(graph.rows().len(), |i: int| Seq::<WeightedDiEdge>::empty());
    proof {
        assert forall|v: int| 0 <= v < graph.rows().len() && #[trigger] dist_to@[v] < i64::MAX implies is_weighted_walk(graph.rows(), walks[v], source, v as usize)
            && walk_weight(walks[v]) == dist_to@[v] by {
            assert(v == source as int);
        }
    }
    Ghost(walks)
}

/// Relaxes edge `i` of `u` when `bound` plus its weight, and the distance of
/// `u` plus its weight, lie below the distance of its destination.
fn try_relax(
    graph: &EdgeWeightedDiGraph,
    source: usize,
    dist_to: &mut Vec<i64>,
    edge_to: &mut Vec<usize>,
    u: usize,
    i: usize,
    bound: i64,
    walks: Ghost<Seq<Seq<WeightedDiEdge>>>,
) -> (r: (bool, Ghost<Seq<Seq<WeightedDiEdge>>>))
    requires
        graph.wf(),
        relaxed_state(graph.rows(), source, old(dist_to)@, old(edge_to)@, walks@),
        old(dist_to)@[source as int] <= 0,
        u < graph.rows().len(),
        i < graph.rows()[u as int].len(),
        old(dist_to)@[u as int] < i64::MAX,
        old(dist_to)@[u as int] <= bound,
    ensures
        relaxed_state(graph.rows(), source, final(dist_to)@, final(edge_to)@, r.1@),
        final(dist_to)@[source as int] <= 0,
        links_kept(final(dist_to)@, final(edge_to)@, old(edge_to)@),
        forall|x: int| 0 <= x < final(dist_to)@.len() ==> #[trigger] final(dist_to)@[x] <= old(dist_to)@[x],
        ({
            let e = graph.rows()[u as int][i as int];
            let v = e.destination() as int;
            if r.0 {
                &&& bound + e.cost() < old(dist_to)@[v]
                &&& final(dist_to)@ == old(dist_to)@.update(v, (old(dist_to)@[u as int] + e.cost()) as i64)
                &&& final(dist_to)@[v] <= bound + e.cost()
                &&& final(edge_to)@ == old(edge_to)@.update(v, u)
            } else {
                &&& final(dist_to)@ == old(dist_to)@
                &&& final(edge_to)@ == old(edge_to)@
                &&& (i64::MIN <= bound + e.cost() && i64::MIN <= old(dist_to)@[u as int] + e.cost()) ==> bound + e.cost() >= old(dist_to)@[v]
            }
        }),
{
    proof {
        graph.lemma_wf();
    }
    let edge = &graph.out_edges(&u)[i];
    let neighbor = *edge.to();
    let weight = *edge.weight();
    assert(graph.rows()[u as int][i as int] == *edge);
    let through_bound = bound.checked_add(weight);
    let through_u = dist_to[u].checked_add(weight);
    match (through_bound, through_u) {
        (Some(b), Some(d)) => {
            if b < dist_to[neighbor] {
                let ghost w2 = lemma_relax_keeps(graph, source, dist_to@, edge_to@, walks@, u, i as int);
                relax(dist_to, edge_to, u, neighbor, weight);
                (true, Ghost(w2))
            } else {
                (false, walks)
            }
        },
        _ => (false, walks),
    }
}

/// Index of the entry to take next: the smallest distance, and among equal
/// distances the largest vertex.
fn next_index(queue: &Vec<(i64, usize)>) -> (r: usize)
    requires
        queue.len() > 0,
    ensures
        r < queue.len(),
        forall|k: int| 0 <= k < queue.len() ==> queue@[r as int].0 < (#[trigger] queue@[k]).0 || (queue@[r as int].0 == queue@[k].0 && queue@[r as int].1 >= queue@[k].1),
{
    let mut best: usize = 0;
    let mut k: usize = 1;
    while k < queue.len()
        invariant
            best < k <= queue.len(),
            forall|j: int| 0 <= j < k ==> queue@[best as int].0 < (#[trigger] queue@[j]).0 || (queue@[best as int].0 == queue@[j].0 && queue@[best as int].1 >= queue@[j].1),
        decreases queue.len() - k,
    {
        if queue[k].0 < queue[best].0 || (queue[k].0 == queue[best].0 && queue[k].1 > queue[best].1) {
            best = k;
        }
        k = k + 1;
    }
    best
}

/// `u` comes before `v` in the order of (distance, time of last change).
pub open spec fn key_below(dist: Seq<i64>, time: Seq<int>, u: int, v: int) -> bool {
    dist[u] < dist[v] || (dist[u] == dist[v] && time[u] < time[v])
}

/// The link of every reached vertex but the source leads to a vertex that
/// comes before it in the order of (distance, time of last change).
pub open spec fn links_descend(dist: Seq<i64>, time: Seq<int>, edge_to: Seq<usize>, source: usize) -> bool {
    forall|v: int|
        0 <= v < dist.len() && v != source && #[trigger] dist[v] < i64::MAX ==> edge_to[v] < dist.len() && key_below(
            dist,
            time,
            edge_to[v] as int,
            v,
        )
}

/// From every reached vertex, the links lead back to the source.
pub open spec fn links_lead_back(dist: Seq<i64>, edge_to: Seq<usize>, source: usize) -> bool {
    forall|v: int| 0 <= v < dist.len() && #[trigger] dist[v] < i64::MAX ==> link_path(edge_to, source, v as usize, edge_to.len() as nat).is_some()
}

pub open spec fn below_set(dist: Seq<i64>, time: Seq<int>, v: int) -> Set<int> {
    Set::new(|y: int| 0 <= y < dist.len() && key_below(dist, time, y, v))
}

proof fn lemma_below_grow(dist: Seq<i64>, time: Seq<int>, u: int, v: int)
    requires
        0 <= u < dist.len(),
        0 <= v < dist.len(),
        time.len() == dist.len(),
        key_below(dist, time, u, v),
    ensures
        below_set(dist, time, u).finite(),
        below_set(dist, time, v).finite(),
        below_set(dist, time, u).len() < below_set(dist, time, v).len() < dist.len(),
{
    let n = dist.len() as int;
    vstd::set_lib::lemma_int_range(0, n);
    let all = vstd::set_lib::set_int_range(0, n);
    assert(below_set(dist, time, v).subset_of(all));
    assert(!below_set(dist, time, v).contains(v));
    below_set(dist, time, v).lemma_subset_not_in_lt(all, v);
    assert(below_set(dist, time, u).subset_of(below_set(dist, time, v)));
    assert(!below_set(dist, time, u).contains(u));
    below_set(dist, time, u).lemma_subset_not_in_lt(below_set(dist, time, v), u);
}

proof fn lemma_descend_lead(dist: Seq<i64>, time: Seq<int>, edge_to: Seq<usize>, source: usize, v: usize, fuel: nat)
    requires
        links_descend(dist, time, edge_to, source),
        time.len() == dist.len(),
        edge_to.len() == dist.len(),
        v < dist.len(),
        dist[v as int] < i64::MAX,
        below_set(dist, time, v as int).finite(),
        fuel >= below_set(dist, time, v as int).len() + 1,
    ensures
        link_path(edge_to, source, v, fuel).is_some(),
    decreases fuel,
{
    if v != source {
        let u = edge_to[v as int];
        lemma_below_grow(dist, time, u as int, v as int);
        lemma_descend_lead(dist, time, edge_to, source, u, (fuel - 1) as nat);
    }
}

proof fn lemma_descend_leads_back(dist: Seq<i64>, time: Seq<int>, edge_to: Seq<usize>, source: usize)
    requires
        links_descend(dist, time, edge_to, source),
        time.len() == dist.len(),
        edge_to.len() == dist.len(),
        dist.len() <= usize::MAX,
    ensures
        links_lead_back(dist, edge_to, source),
{
    assert forall|v: int| 0 <= v < dist.len() && #[trigger] dist[v] < i64::MAX implies link_path(edge_to, source, v as usize, edge_to.len() as nat).is_some() by {
        let n = dist.len() as int;
        vstd::set_lib::lemma_int_range(0, n);
        let all = vstd::set_lib::set_int_range(0, n);
        assert(below_set(dist, time, v).subset_of(all));
        assert(!below_set(dist, time, v).contains(v));
        below_set(dist, time, v).lemma_subset_not_in_lt(all, v);
        lemma_descend_lead(dist, time, edge_to, source, v as usize, edge_to.len() as nat);
    }
}

/// A relaxation with non-negative weights, stamped with a new time, keeps
/// the links descending.
proof fn lemma_descend_relax(
    rows: Seq<Seq<WeightedDiEdge>>,
    source: usize,
    d0: Seq<i64>,
    e0: Seq<usize>,
    t0: Seq<int>,
    walks: Seq<Seq<WeightedDiEdge>>,
    u: int,
    v: int,
    cost: int,
    clock: int,
)
    requires
        relaxed_state(rows, source, d0, e0, walks),
        links_descend(d0, t0, e0, source),
        non_negative(rows),
        t0.len() == d0.len(),
        forall|x: int| 0 <= x < t0.len() ==> #[trigger] t0[x] < clock,
        0 <= u < d0.len(),
        0 <= v < d0.len(),
        u != v,
        cost >= 0,
        d0[u] + cost < d0[v],
        d0[u] < i64::MAX,
        d0.len() <= usize::MAX,
    ensures
        links_descend(d0.update(v, (d0[u] + cost) as i64), t0.update(v, clock), e0.update(v, u as usize), source),
{
    let d1 = d0.update(v, (d0[u] + cost) as i64);
    let t1 = t0.update(v, clock);
    let e1 = e0.update(v, u as usize);
    assert forall|x: int| 0 <= x < d1.len() && x != source && #[trigger] d1[x] < i64::MAX implies e1[x] < d1.len() && key_below(d1, t1, e1[x] as int, x) by {
        if x != v {
            assert(d0[x] == d1[x]);
            assert(link_ok(rows, d0, e0, x));
            let p = e0[x] as int;
            let k = choose|k: int| 0 <= k < rows[p].len() && (#[trigger] rows[p][k]).destination() == x as usize && d0[p] + rows[p][k].cost() <= d0[x];
            assert(rows[p][k].cost() >= 0);
            assert(links_descend(d0, t0, e0, source));
            assert(e0[x] < d0.len() && key_below(d0, t0, e0[x] as int, x));
            if p == v {
                assert(d1[p] < d0[p]);
            } else {
                assert(d1[p] == d0[p] && t1[p] == t0[p]);
            }
        } else {
            assert(e1[x] == u as usize);
            assert((u as usize) as int == u);
            assert(d1[u] == d0[u]);
            assert(t1[u] == t0[u]);
            assert(t0[u] < clock);
        }
    }
}

/// Relaxing all edges of `vertex` with non-negative weights, stamping the
/// vertices whose distance dropped with a new time, keeps the links
/// descending.
proof fn lemma_descend_relax_all(
    rows: Seq<Seq<WeightedDiEdge>>,
    source: usize,
    d0: Seq<i64>,
    e0: Seq<usize>,
    t0: Seq<int>,
    d1: Seq<i64>,
    e1: Seq<usize>,
    vertex: int,
    clock: int,
)
    requires
        links_descend(d0, t0, e0, source),
        t0.len() == d0.len(),
        d1.len() == d0.len(),
        e1.len() == e0.len(),
        0 <= vertex < d0.len(),
        forall|x: int| 0 <= x < t0.len() ==> #[trigger] t0[x] < clock,
        forall|x: int| 0 <= x < d0.len() ==> #[trigger] d1[x] <= d0[x],
        forall|x: int| 0 <= x < d0.len() && #[trigger] d1[x] == d0[x] ==> e1[x] == e0[x],
        d1[vertex] == d0[vertex],
        forall|x: int| 0 <= x < d0.len() && #[trigger] d1[x] != d0[x] ==> e1[x] == vertex && d1[x] >= d0[vertex],
    ensures
        links_descend(d1, Seq::new(d0.len(), |x: int| if d1[x] != d0[x] { clock } else { t0[x] }), e1, source),
{
    let t1 = Seq::new(d0.len(), |x: int| if d1[x] != d0[x] { clock } else { t0[x] });
    assert forall|x: int| 0 <= x < d1.len() && x != source && #[trigger] d1[x] < i64::MAX implies e1[x] < d1.len() && key_below(d1, t1, e1[x] as int, x) by {
        if d1[x] != d0[x] {
            assert(t1[vertex] == t0[vertex]);
        } else {
            assert(d0[x] < i64::MAX);
            let p = e0[x] as int;
            assert(key_below(d0, t0, p, x));
        }
    }
}

/// Dijkstra's algorithm: repeatedly takes the queued vertex of smallest
/// tentative distance and relaxes its edges, queueing each vertex whose
/// distance dropped. With non-negative weights, no edge is left that could
/// lower a distance.
#[verifier::rlimit(100)]
#[verifier::spinoff_prover]
pub fn dijkstra(graph: &EdgeWeightedDiGraph, source: usize, edge_to: &mut Vec<usize>, dist_to: &mut Vec<i64>)
    requires
        graph.wf(),
        source < graph.rows().len(),
        old(dist_to).len() == graph.rows().len(),
        old(edge_to).len() == graph.rows().len(),
        forall|v: int| 0 <= v < old(dist_to).len() && v != source ==> #[trigger] old(dist_to)@[v] == i64::MAX,
    ensures
        paths_found(graph.rows(), source, final(dist_to)@, final(edge_to)@),
        forall|v: int| 0 <= v < graph.rows().len() && #[trigger] final(dist_to)@[v] == i64::MAX ==> final(edge_to)@[v] == old(edge_to)@[v],
        non_negative(graph.rows()) ==> all_relaxed(graph.rows(), final(dist_to)@),
        non_negative(graph.rows()) ==> links_lead_back(final(dist_to)@, final(edge_to)@, source),
{
    let ghost rows = graph.rows();
    let ghost n = rows.len();
    let Ghost(mut walks) = start(graph, source, edge_to, dist_to);
    let ghost mut time: Seq<int> = Seq::new(n, |i: int| 0int);
    let ghost mut clock: int = 1;
    let mut queue: Vec<(i64, usize)> = Vec::new();
    queue.push((0, source));
    proof {
        assert forall|v: int| 0 <= v < n && v != source && #[trigger] dist_to@[v] < i64::MAX implies edge_to@[v] < n && key_below(dist_to@, time, edge_to@[v] as int, v) by {
            assert(old(dist_to)@[v] == i64::MAX);
        }
    }
    proof {
        assert forall|u: int| 0 <= u < n && dist_to@[u] < i64::MAX implies #[trigger] pending(queue@, dist_to@, u) || settled(rows, dist_to@, u) by {
            if u != source as int {
                assert(old(dist_to)@[u] == i64::MAX);
            }
            assert(u == source as int);
            assert(queue@[0] == (dist_to@[u], u as usize));
        }
    }
    while queue.len() > 0
        invariant
            graph.wf(),
            rows == graph.rows(),
            n == rows.len(),
            relaxed_state(rows, source, dist_to@, edge_to@, walks),
            links_kept(dist_to@, edge_to@, old(edge_to)@),
            dist_to@[source as int] <= 0,
            forall|k: int| 0 <= k < queue.len() ==> (#[trigger] queue@[k]).1 < n && dist_to@[queue@[k].1 as int] <= queue@[k].0 && queue@[k].0 < i64::MAX,
            non_negative(rows) ==> forall|u: int| 0 <= u < n && dist_to@[u] < i64::MAX ==> #[trigger] pending(queue@, dist_to@, u) || settled(rows, dist_to@, u),
            time.len() == n,
            forall|x: int| 0 <= x < n ==> #[trigger] time[x] < clock,
            non_negative(rows) ==> links_descend(dist_to@, time, edge_to@, source),
        decreases dist_measure(dist_to@, n as int), queue.len(),
    {
        let ghost q0 = queue@;
        let idx = next_index(&queue);
        let (distance, vertex) = queue.swap_remove(idx);
        let ghost m0 = dist_measure(dist_to@, n as int);
        let ghost len0 = queue.len();
        let ghost dv = dist_to@[vertex as int];
        proof {
            graph.lemma_wf();
            assert(q0[idx as int] == (distance, vertex));
            assert forall|k: int| 0 <= k < q0.len() && k != idx implies queue@.contains(#[trigger] q0[k]) by {
                if k < q0.len() - 1 {
                    assert(queue@[k] == q0[k]);
                } else {
                    assert(queue@[idx as int] == q0[k]);
                }
            }
            if non_negative(rows) {
                assert(distance == dv || settled(rows, dist_to@, vertex as int)) by {
                    if pending(q0, dist_to@, vertex as int) {
                        let k = choose|k: int| 0 <= k < q0.len() && q0[k] == (dist_to@[vertex as int], vertex);
                        assert(q0[idx as int].0 <= q0[k].0);
                    }
                }
                assert forall|u: int| 0 <= u < n && u != vertex as int && dist_to@[u] < i64::MAX implies #[trigger] pending(queue@, dist_to@, u) || settled(rows, dist_to@, u) by {
                    if pending(q0, dist_to@, u) {
                        let k = choose|k: int| 0 <= k < q0.len() && q0[k] == (dist_to@[u], u as usize);
                        assert(k != idx);
                        assert(queue@.contains(q0[k]));
                        let k2 = choose|k2: int| 0 <= k2 < queue@.len() && queue@[k2] == q0[k];
                    }
                }
            }
        }
        let out_degree = graph.out_edges(&vertex).len();
        let mut j: usize = 0;
        while j < out_degree
            invariant
                graph.wf(),
                rows == graph.rows(),
                n == rows.len(),
                vertex < n,
                out_degree == rows[vertex as int].len(),
                j <= out_degree,
                relaxed_state(rows, source, dist_to@, edge_to@, walks),
                links_kept(dist_to@, edge_to@, old(edge_to)@),
                dist_to@[source as int] <= 0,
                dist_to@[vertex as int] <= distance,
                distance < i64::MAX,
                forall|k: int| 0 <= k < queue.len() ==> (#[trigger] queue@[k]).1 < n && dist_to@[queue@[k].1 as int] <= queue@[k].0 && queue@[k].0 < i64::MAX,
                dist_measure(dist_to@, n as int) <= m0,
                dist_measure(dist_to@, n as int) == m0 ==> queue.len() == len0,
                non_negative(rows) ==> dist_to@[vertex as int] == dv,
                non_negative(rows) ==> (distance == dv || settled(rows, dist_to@, vertex as int)),
                non_negative(rows) ==> forall|k: int| 0 <= k < j ==> #[trigger] edge_relaxed(rows, dist_to@, vertex as int, k),
                non_negative(rows) ==> forall|u: int| 0 <= u < n && u != vertex as int && dist_to@[u] < i64::MAX ==> #[trigger] pending(queue@, dist_to@, u) || settled(rows, dist_to@, u),
                time.len() == n,
                forall|x: int| 0 <= x < n ==> #[trigger] time[x] < clock,
                non_negative(rows) ==> links_descend(dist_to@, time, edge_to@, source),
            decreases out_degree - j,
        {
            let ghost d0 = dist_to@;
            let ghost q1 = queue@;
            proof {
                graph.lemma_wf();
            }
            let ghost (dk0, ek0) = (dist_to@, edge_to@);
            let ghost wb = walks;
            let (relaxed, Ghost(w2)) = try_relax(graph, source, dist_to, edge_to, vertex, j, distance, Ghost(walks));
            proof {
                lemma_links_kept_trans(dk0, dist_to@, old(edge_to)@, ek0, edge_to@);
            }
            proof {
                walks = w2;
            }
            if relaxed {
                let neighbor = *graph.out_edges(&vertex)[j].to();
                let weight = *graph.out_edges(&vertex)[j].weight();
                proof {
                    lemma_dist_measure_lower(d0, neighbor as int, dist_to@[neighbor as int], n as int);
                }
                queue.push((distance + weight, neighbor));
                proof {
                    assert forall|k: int| 0 <= k < queue.len() implies (#[trigger] queue@[k]).1 < n && dist_to@[queue@[k].1 as int] <= queue@[k].0 && queue@[k].0 < i64::MAX by {
                        if k < queue.len() - 1 {
                            assert(queue@[k] == q1[k]);
                            assert(dist_to@[queue@[k].1 as int] <= d0[queue@[k].1 as int]);
                        }
                    }
                    if non_negative(rows) {
                        let e = rows[vertex as int][j as int];
                        assert(e.cost() >= 0);
                        assert(distance == dv) by {
                            if distance != dv {
                                assert(settled(rows, d0, vertex as int));
                                assert(edge_relaxed(rows, d0, vertex as int, j as int));
                            }
                        }
                        assert(neighbor != vertex);
                        assert(queue@[q1.len() as int] == (dist_to@[neighbor as int], neighbor));
                        assert forall|x: int| 0 <= x < n implies #[trigger] dist_to@[x] <= d0[x] by {}
                        assert forall|k: int| 0 <= k < j + 1 implies #[trigger] edge_relaxed(rows, dist_to@, vertex as int, k) by {
                            if k < j {
                                assert(edge_relaxed(rows, d0, vertex as int, k));
                                assert(dist_to@[rows[vertex as int][k].destination() as int] <= d0[rows[vertex as int][k].destination() as int]);
                            }
                        }
                        assert forall|u: int| 0 <= u < n && u != vertex as int && dist_to@[u] < i64::MAX implies #[trigger] pending(queue@, dist_to@, u) || settled(rows, dist_to@, u) by {
                            if u == neighbor as int {
                                assert(queue@[q1.len() as int] == (dist_to@[u], u as usize));
                            } else {
                                assert(d0[u] == dist_to@[u]);
                                if pending(q1, d0, u) {
                                    let k = choose|k: int| 0 <= k < q1.len() && q1[k] == (d0[u], u as usize);
                                    assert(queue@[k] == q1[k]);
                                } else {
                                    lemma_settled_lower(rows, d0, dist_to@, u);
                                }
                            }
                        }
                        if distance != dv {
                            lemma_settled_lower(rows, d0, dist_to@, vertex as int);
                        }
                        graph.lemma_wf();
                        lemma_descend_relax(rows, source, d0, ek0, time, wb, vertex as int, neighbor as int, e.cost() as int, clock);
                    }
                    time = time.update(neighbor as int, clock);
                    clock = clock + 1;
                }
            } else {
                proof {
                    if non_negative(rows) {
                        let e = rows[vertex as int][j as int];
                        assert(e.cost() >= 0);
                        assert forall|k: int| 0 <= k < j + 1 implies #[trigger] edge_relaxed(rows, dist_to@, vertex as int, k) by {
                            if k == j {
                                if distance != dv {
                                    assert(settled(rows, dist_to@, vertex as int));
                                }
                            }
                        }
                    }
                }
            }
            j = j + 1;
        }
        proof {
            if non_negative(rows) {
                assert(settled(rows, dist_to@, vertex as int)) by {
                    assert forall|i: int| 0 <= i < rows[vertex as int].len() implies #[trigger] edge_relaxed(rows, dist_to@, vertex as int, i) by {}
                }
            }
        }
    }
    proof {
        lemma_paths_found(rows, source, dist_to@, edge_to@, walks);
        graph.lemma_wf();
        if non_negative(rows) {
            lemma_descend_leads_back(dist_to@, time, edge_to@, source);
            assert forall|u: int| 0 <= u < rows.len() && dist_to@[u] < i64::MAX implies #[trigger] settled(rows, dist_to@, u) by {
                assert(!pending(queue@, dist_to@, u));
            }
        }
    }
}

/// Relaxes every edge leaving `vertex`, if it was reached.
fn relax_all(
    graph: &EdgeWeightedDiGraph,
    source: usize,
    dist_to: &mut Vec<i64>,
    edge_to: &mut Vec<usize>,
    vertex: usize,
    walks: Ghost<Seq<Seq<WeightedDiEdge>>>,
) -> (r: Ghost<Seq<Seq<WeightedDiEdge>>>)
    requires
        graph.wf(),
        relaxed_state(graph.rows(), source, old(dist_to)@, old(edge_to)@, walks@),
        old(dist_to)@[source as int] <= 0,
        vertex < graph.rows().len(),
    ensures
        relaxed_state(graph.rows(), source, final(dist_to)@, final(edge_to)@, r@),
        forall|x: int| 0 <= x < graph.rows().len() && #[trigger] final(dist_to)@[x] == old(dist_to)@[x] ==> final(edge_to)@[x] == old(edge_to)@[x],
        non_negative(graph.rows()) ==> final(dist_to)@[vertex as int] == old(dist_to)@[vertex as int],
        non_negative(graph.rows()) ==> forall|x: int|
            0 <= x < graph.rows().len() && #[trigger] final(dist_to)@[x] != old(dist_to)@[x] ==> final(edge_to)@[x] == vertex && final(dist_to)@[x]
                >= old(dist_to)@[vertex as int],
        links_kept(final(dist_to)@, final(edge_to)@, old(edge_to)@),
        final(dist_to)@[source as int] <= 0,
        forall|x: int| 0 <= x < graph.rows().len() ==> #[trigger] final(dist_to)@[x] <= old(dist_to)@[x],
        forall|x: int|
            0 <= x < graph.rows().len() && #[trigger] final(dist_to)@[x] != old(dist_to)@[x] ==> graph.adj()[vertex as int].contains(x as usize),
        old(dist_to)@[vertex as int] < i64::MAX && !graph.adj()[vertex as int].contains(vertex) ==> settled(
            graph.rows(),
            final(dist_to)@,
            vertex as int,
        ),
        old(dist_to)@[vertex as int] < i64::MAX && walks_bounded_below(graph.rows(), source) ==> forall|i: int|
            0 <= i < graph.rows()[vertex as int].len() ==> final(dist_to)@[(#[trigger] graph.rows()[vertex as int][i]).destination() as int]
                <= old(dist_to)@[vertex as int] + graph.rows()[vertex as int][i].cost(),
{
    let ghost rows = graph.rows();
    let Ghost(mut w) = walks;
    if dist_to[vertex] == i64::MAX {
        return Ghost(w);
    }
    proof {
        graph.lemma_wf();
    }
    let out_degree = graph.out_edges(&vertex).len();
    let mut j: usize = 0;
    while j < out_degree
        invariant
            graph.wf(),
            rows == graph.rows(),
            vertex < rows.len(),
            out_degree == rows[vertex as int].len(),
            j <= out_degree,
            relaxed_state(rows, source, dist_to@, edge_to@, w),
            links_kept(dist_to@, edge_to@, old(edge_to)@),
            dist_to@[source as int] <= 0,
            dist_to@[vertex as int] < i64::MAX,
            forall|x: int| 0 <= x < rows.len() ==> #[trigger] dist_to@[x] <= old(dist_to)@[x],
            dist_to.len() == rows.len(),
            forall|x: int| 0 <= x < rows.len() && #[trigger] dist_to@[x] == old(dist_to)@[x] ==> edge_to@[x] == old(edge_to)@[x],
            non_negative(rows) ==> dist_to@[vertex as int] == old(dist_to)@[vertex as int],
            non_negative(rows) ==> forall|x: int|
                0 <= x < rows.len() && #[trigger] dist_to@[x] != old(dist_to)@[x] ==> edge_to@[x] == vertex && dist_to@[x] >= old(dist_to)@[vertex as int],
            forall|x: int|
                0 <= x < rows.len() && #[trigger] dist_to@[x] != old(dist_to)@[x] ==> graph.adj()[vertex as int].contains(x as usize),
            !graph.adj()[vertex as int].contains(vertex) ==> dist_to@[vertex as int] == old(dist_to)@[vertex as int],
            !graph.adj()[vertex as int].contains(vertex) ==> forall|k: int| 0 <= k < j ==> #[trigger] edge_relaxed(rows, dist_to@, vertex as int, k),
            walks_bounded_below(rows, source) ==> forall|k: int|
                0 <= k < j ==> dist_to@[(#[trigger] rows[vertex as int][k]).destination() as int] <= old(dist_to)@[vertex as int] + rows[vertex as int][k].cost(),
        decreases out_degree - j,
    {
        let ghost d0 = dist_to@;
        proof {
            graph.lemma_wf();
        }
        let bound = dist_to[vertex];
        let ghost (dk0, ek0) = (dist_to@, edge_to@);
        let ghost w_before = w;
        let (_, Ghost(w2)) = try_relax(graph, source, dist_to, edge_to, vertex, j, bound, Ghost(w));
        proof {
            lemma_links_kept_trans(dk0, dist_to@, old(edge_to)@, ek0, edge_to@);
        }
        proof {
            w = w2;
            let e = rows[vertex as int][j as int];
            assert(graph.adj()[vertex as int][j as int] == e.destination());
            assert forall|x: int| 0 <= x < rows.len() implies #[trigger] dist_to@[x] <= old(dist_to)@[x] by {
                assert(dist_to@[x] <= d0[x]);
            }
            assert forall|x: int|
                0 <= x < rows.len() && #[trigger] dist_to@[x] != old(dist_to)@[x] implies graph.adj()[vertex as int].contains(x as usize) by {
                if dist_to@[x] == d0[x] {
                } else {
                    assert(x == e.destination() as int);
                }
            }
            assert forall|x: int| 0 <= x < rows.len() && #[trigger] dist_to@[x] == old(dist_to)@[x] implies edge_to@[x] == old(edge_to)@[x] by {
                if x == e.destination() as int && dist_to@[x] != d0[x] {
                    assert(dist_to@[x] < d0[x]);
                }
            }
            if non_negative(rows) {
                assert(e.cost() >= 0);
                if dist_to@ != d0 {
                    assert(e.destination() != vertex);
                }
                assert(dist_to@[vertex as int] == d0[vertex as int]);
                assert forall|x: int|
                    0 <= x < rows.len() && #[trigger] dist_to@[x] != old(dist_to)@[x] implies edge_to@[x] == vertex && dist_to@[x] >= old(dist_to)@[vertex as int] by {
                    if dist_to@[x] != d0[x] {
                        assert(x == e.destination() as int);
                    }
                }
            }
            if walks_bounded_below(rows, source) {
                assert(d0[vertex as int] < i64::MAX);
                assert(is_weighted_walk(rows, w_before[vertex as int], source, vertex));
                assert(e.origin() == vertex);
                assert(rows[vertex as int].contains(e));
                lemma_walk_push(rows, w_before[vertex as int], source, vertex, e);
                assert(walk_weight(w_before[vertex as int].push(e)) >= i64::MIN);
                assert forall|k: int|
                    0 <= k < j + 1 implies dist_to@[(#[trigger] rows[vertex as int][k]).destination() as int] <= old(dist_to)@[vertex as int] + rows[vertex as int][k].cost() by {
                    if k < j {
                        assert(dist_to@[rows[vertex as int][k].destination() as int] <= d0[rows[vertex as int][k].destination() as int]);
                    }
                }
            }
            if !graph.adj()[vertex as int].contains(vertex) {
                assert(e.destination() != vertex);
                assert forall|k: int| 0 <= k < j + 1 implies #[trigger] edge_relaxed(rows, dist_to@, vertex as int, k) by {
                    if k < j {
                        assert(edge_relaxed(rows, d0, vertex as int, k));
                        assert(dist_to@[rows[vertex as int][k].destination() as int] <= d0[rows[vertex as int][k].destination() as int]);
                    }
                }
            }
        }
        j = j + 1;
    }
    proof {
        if !graph.adj()[vertex as int].contains(vertex) {
            assert forall|i: int| 0 <= i < rows[vertex as int].len() implies #[trigger] edge_relaxed(rows, dist_to@, vertex as int, i) by {}
        }
    }
    Ghost(w)
}

/// Shortest paths in a graph without cycles: relaxes the edges of each
/// vertex in topological order, from the source on. On a graph without
/// cycles, no edge is left that could lower a distance.
pub fn shortest_path_ewdag(graph: &EdgeWeightedDiGraph, source: usize, edge_to: &mut Vec<usize>, dist_to: &mut Vec<i64>)
    requires
        graph.wf(),
        source < graph.rows().len(),
        old(dist_to).len() == graph.rows().len(),
        old(edge_to).len() == graph.rows().len(),
        forall|v: int| 0 <= v < old(dist_to).len() && v != source ==> #[trigger] old(dist_to)@[v] == i64::MAX,
    ensures
        paths_found(graph.rows(), source, final(dist_to)@, final(edge_to)@),
        forall|v: int| 0 <= v < graph.rows().len() && #[trigger] final(dist_to)@[v] == i64::MAX ==> final(edge_to)@[v] == old(edge_to)@[v],
        acyclic(graph.adj()) ==> all_relaxed(graph.rows(), final(dist_to)@),
{
    let ghost rows = graph.rows();
    let ghost adj = graph.adj();
    let nb = graph.nb_vertices();
    let mut topo = TopologicalSort::init(nb);
    topo.depth_first_order(graph);
    let Ghost(mut walks) = start(graph, source, edge_to, dist_to);
    let ghost d_start = dist_to@;
    let order = topo.order();
    let ghost post = topo.postorder();
    proof {
        graph.lemma_wf();
        assert(order@ == post.reverse());
        assert forall|i: int, j: int| 0 <= i < order@.len() && 0 <= j < order@.len() && i != j implies order@[i] != order@[j] by {
            assert(order@[i] == post[post.len() - 1 - i]);
            assert(order@[j] == post[post.len() - 1 - j]);
        }
        assert forall|x: usize| x < nb implies #[trigger] order@.contains(x) by {
            assert(post.contains(x));
            let i = choose|i: int| 0 <= i < post.len() && post[i] == x;
            assert(order@[post.len() - 1 - i] == x);
        }
        if acyclic(adj) {
            assert forall|i: int, j: int| 0 <= i < order@.len() && 0 <= j < order@.len() && #[trigger] crate::graph::has_edge(adj, order@[i] as int, order@[j]) implies i < j by {
                lemma_topological_order(adj, post, i, j);
            }
        }
    }
    let mut flag_source = false;
    let ghost mut ps: int = 0;
    let mut k: usize = 0;
    while k < order.len()
        invariant
            graph.wf(),
            rows == graph.rows(),
            adj == graph.adj(),
            nb == rows.len(),
            k <= order.len(),
            order@.no_duplicates(),
            forall|i: int| 0 <= i < order.len() ==> (#[trigger] order@[i]) < nb,
            forall|x: usize| x < nb ==> #[trigger] order@.contains(x),
            acyclic(adj) ==> forall|i: int, j: int|
                0 <= i < order@.len() && 0 <= j < order@.len() && #[trigger] crate::graph::has_edge(adj, order@[i] as int, order@[j]) ==> i < j,
            relaxed_state(rows, source, dist_to@, edge_to@, walks),
            links_kept(dist_to@, edge_to@, old(edge_to)@),
            dist_to@[source as int] <= 0,
            d_start.len() == nb,
            forall|x: int| 0 <= x < nb && x != source ==> #[trigger] d_start[x] == i64::MAX,
            !flag_source ==> dist_to@ == d_start,
            !flag_source ==> forall|j: int| 0 <= j < k ==> #[trigger] order@[j] != source,
            flag_source ==> 0 <= ps < k && order@[ps] == source,
            acyclic(adj) && flag_source ==> forall|i: int| 0 <= i < ps ==> #[trigger] dist_to@[order@[i] as int] == i64::MAX,
            acyclic(adj) ==> forall|j: int| 0 <= j < k && dist_to@[order@[j] as int] < i64::MAX ==> #[trigger] settled(rows, dist_to@, order@[j] as int),
        decreases order.len() - k,
    {
        let vertex = order[k];
        if vertex == source {
            flag_source = true;
            proof {
                ps = k as int;
            }
        }
        let ghost was_flagged = flag_source;
        if flag_source {
            let ghost d0 = dist_to@;
            let ghost (dk0, ek0) = (dist_to@, edge_to@);
            let Ghost(w2) = relax_all(graph, source, dist_to, edge_to, vertex, Ghost(walks));
            proof {
                lemma_links_kept_trans(dk0, dist_to@, old(edge_to)@, ek0, edge_to@);
            }
            proof {
                walks = w2;
                graph.lemma_wf();
                if acyclic(adj) {
                    assert(!adj[vertex as int].contains(vertex)) by {
                        if adj[vertex as int].contains(vertex) {
                            assert(crate::graph::has_edge(adj, vertex as int, vertex));
                            crate::graph::lemma_reachable_self(adj, vertex);
                        }
                    }
                    assert forall|x: int| 0 <= x < nb && #[trigger] dist_to@[x] != d0[x] implies exists|m: int| k < m < order@.len() && order@[m] == x as usize by {
                        assert(adj[vertex as int].contains(x as usize));
                        assert(order@.contains(x as usize));
                        let m = choose|m: int| 0 <= m < order@.len() && order@[m] == x as usize;
                        assert(crate::graph::has_edge(adj, order@[k as int] as int, order@[m]));
                    }
                    assert forall|i: int| 0 <= i < ps implies #[trigger] dist_to@[order@[i] as int] == i64::MAX by {
                        let x = order@[i] as int;
                        if dist_to@[x] != d0[x] {
                            let m = choose|m: int| k < m < order@.len() && order@[m] == x as usize;
                            assert(order@[m] == order@[i]);
                        }
                        if was_flagged {
                            assert(d0[x] == i64::MAX);
                        } else {
                            assert(order@[i] != source);
                            assert(d0[x] == d_start[x]);
                        }
                    }
                    assert forall|j: int| 0 <= j < k + 1 && dist_to@[order@[j] as int] < i64::MAX implies #[trigger] settled(rows, dist_to@, order@[j] as int) by {
                        let x = order@[j] as int;
                        if j < k {
                            if dist_to@[x] != d0[x] {
                                let m = choose|m: int| k < m < order@.len() && order@[m] == x as usize;
                                assert(order@[m] == order@[j]);
                            }
                            assert(dist_to@[x] == d0[x]);
                            assert(settled(rows, d0, x));
                            assert forall|xx: int| 0 <= xx < d0.len() implies #[trigger] dist_to@[xx] <= d0[xx] by {}
                            lemma_settled_lower(rows, d0, dist_to@, x);
                        }
                    }
                }
            }
        } else {
            proof {
                assert(vertex != source);
            }
        }
        k = k + 1;
    }
    proof {
        lemma_paths_found(rows, source, dist_to@, edge_to@, walks);
        if acyclic(adj) {
            assert forall|u: int| 0 <= u < rows.len() && dist_to@[u] < i64::MAX implies #[trigger] settled(rows, dist_to@, u) by {
                assert(order@.contains(u as usize));
                let j = choose|j: int| 0 <= j < order@.len() && order@[j] == u as usize;
            }
        }
    }
}

/// Bellman-Ford: relaxes every edge, in storage order, once per round,
/// for as many rounds as there are vertices less one. When no walk from
/// the source weighs less than `i64::MIN`, each walk from the source with
/// fewer edges than there are vertices weighs at least the distance found
/// for its end.
pub fn bellman_ford(graph: &EdgeWeightedDiGraph, source: usize, edge_to: &mut Vec<usize>, dist_to: &mut Vec<i64>)
    requires
        graph.wf(),
        source < graph.rows().len(),
        old(dist_to).len() == graph.rows().len(),
        old(edge_to).len() == graph.rows().len(),
        forall|v: int| 0 <= v < old(dist_to).len() && v != source ==> #[trigger] old(dist_to)@[v] == i64::MAX,
    ensures
        paths_found(graph.rows(), source, final(dist_to)@, final(edge_to)@),
        forall|v: int| 0 <= v < graph.rows().len() && #[trigger] final(dist_to)@[v] == i64::MAX ==> final(edge_to)@[v] == old(edge_to)@[v],
        walks_bounded_below(graph.rows(), source) ==> bounded_by_short_walks(
            graph.rows(),
            source,
            final(dist_to)@,
            graph.rows().len() - 1,
        ),
        non_negative(graph.rows()) ==> links_lead_back(final(dist_to)@, final(edge_to)@, source),
{
    let ghost rows = graph.rows();
    let nb = graph.nb_vertices();
    let Ghost(mut walks) = start(graph, source, edge_to, dist_to);
    proof {
        if walks_bounded_below(rows, source) {
            assert forall|p: Seq<WeightedDiEdge>, y: usize|
                #[trigger] is_weighted_walk(rows, p, source, y) && p.len() <= 0 && light_prefixes(p) implies y < dist_to@.len() && dist_to@[y as int] <= walk_weight(p) by {
                assert(y == source);
            }
        }
    }
    let ghost mut time: Seq<int> = Seq::new(rows.len(), |i: int| 0int);
    let ghost mut clock: int = 1;
    proof {
        assert forall|v: int| 0 <= v < rows.len() && v != source && #[trigger] dist_to@[v] < i64::MAX implies edge_to@[v] < rows.len() && key_below(dist_to@, time, edge_to@[v] as int, v) by {
            assert(old(dist_to)@[v] == i64::MAX);
        }
    }
    let mut round: usize = 1;
    while round < nb
        invariant
            graph.wf(),
            rows == graph.rows(),
            nb == rows.len(),
            1 <= round <= nb,
            relaxed_state(rows, source, dist_to@, edge_to@, walks),
            time.len() == nb,
            forall|x: int| 0 <= x < nb ==> #[trigger] time[x] < clock,
            non_negative(rows) ==> links_descend(dist_to@, time, edge_to@, source),
            links_kept(dist_to@, edge_to@, old(edge_to)@),
            dist_to@[source as int] <= 0,
            walks_bounded_below(rows, source) ==> bounded_by_short_walks(rows, source, dist_to@, round - 1),
        decreases nb - round,
    {
        let mut v: usize = 0;
        while v < nb
            invariant
                graph.wf(),
                rows == graph.rows(),
                nb == rows.len(),
                1 <= round < nb,
                v <= nb,
                relaxed_state(rows, source, dist_to@, edge_to@, walks),
                time.len() == nb,
                forall|x: int| 0 <= x < nb ==> #[trigger] time[x] < clock,
                non_negative(rows) ==> links_descend(dist_to@, time, edge_to@, source),
                links_kept(dist_to@, edge_to@, old(edge_to)@),
                dist_to@[source as int] <= 0,
                walks_bounded_below(rows, source) ==> bounded_by_short_walks(rows, source, dist_to@, round - 1),
                walks_bounded_below(rows, source) ==> forall|p: Seq<WeightedDiEdge>, y: usize|
                    #[trigger] is_weighted_walk(rows, p, source, y) && p.len() == round && light_prefixes(p) && p.last().origin() < v
                        ==> dist_to@[y as int] <= walk_weight(p),
            decreases nb - v,
        {
            let ghost (dk0, ek0) = (dist_to@, edge_to@);
            let Ghost(w2) = relax_all(graph, source, dist_to, edge_to, v, Ghost(walks));
            proof {
                lemma_links_kept_trans(dk0, dist_to@, old(edge_to)@, ek0, edge_to@);
            }
            proof {
                if non_negative(rows) {
                    lemma_descend_relax_all(rows, source, dk0, ek0, time, dist_to@, edge_to@, v as int, clock);
                }
                time = Seq::new(dk0.len(), |x: int| if dist_to@[x] != dk0[x] { clock } else { time[x] });
                clock = clock + 1;
            }
            proof {
                walks = w2;
                graph.lemma_wf();
                if walks_bounded_below(rows, source) {
                    assert forall|p: Seq<WeightedDiEdge>, y: usize|
                        #[trigger] is_weighted_walk(rows, p, source, y) && p.len() <= round - 1 && light_prefixes(p) implies y < dist_to@.len() && dist_to@[y as int] <= walk_weight(p) by {
                        assert(dk0[y as int] <= walk_weight(p));
                    }
                    assert forall|p: Seq<WeightedDiEdge>, y: usize|
                        #[trigger] is_weighted_walk(rows, p, source, y) && p.len() == round && light_prefixes(p) && p.last().origin() < v + 1
                            implies dist_to@[y as int] <= walk_weight(p) by {
                        lemma_walk_split(rows, p, source, y);
                        if p.last().origin() < v {
                            assert(dk0[y as int] <= walk_weight(p));
                        } else {
                            let q = p.drop_last();
                            let e = p.last();
                            assert(is_weighted_walk(rows, q, source, v));
                            assert(q.subrange(0, q.len() as int) =~= q);
                            assert(walk_weight(q.subrange(0, q.len() as int)) < i64::MAX);
                            assert(dk0[v as int] <= walk_weight(q));
                            let i = choose|i: int| 0 <= i < rows[v as int].len() && rows[v as int][i] == e;
                            assert(dist_to@[(rows[v as int][i]).destination() as int] <= dk0[v as int] + rows[v as int][i].cost());
                        }
                    }
                }
            }
            v = v + 1;
        }
        proof {
            if walks_bounded_below(rows, source) {
                assert forall|p: Seq<WeightedDiEdge>, y: usize|
                    #[trigger] is_weighted_walk(rows, p, source, y) && p.len() <= round && light_prefixes(p) implies y < dist_to@.len() && dist_to@[y as int] <= walk_weight(p) by {
                    if p.len() == round {
                        graph.lemma_wf();
                        lemma_walk_split(rows, p, source, y);
                        let u = p.last().origin();
                        let i = choose|i: int| 0 <= i < rows[u as int].len() && rows[u as int][i] == p.last();
                        assert(rows[u as int][i].destination() < rows.len());
                    }
                }
            }
        }
        round = round + 1;
    }
    proof {
        lemma_paths_found(rows, source, dist_to@, edge_to@, walks);
        graph.lemma_wf();
        if non_negative(rows) {
            lemma_descend_leads_back(dist_to@, time, edge_to@, source);
        }
    }
}

fn queue_contains(queue: &VecDeque<usize>, x: usize) -> (r: bool)
    ensures
        r == queue@.contains(x),
{
    let mut i: usize = 0;
    while i < queue.len()
        invariant
            i <= queue.len(),
            forall|j: int| 0 <= j < i ==> queue@[j] != x,
        decreases queue.len() - i,
    {
        if queue[i] == x {
            return true;
        }
        i = i + 1;
    }
    false
}

/// Shortest Path Faster Algorithm: a queue of vertices whose distance
/// dropped; a vertex not already queued goes to the front when its new
/// distance is below that of the front vertex, else to the back. When the
/// queue runs empty, no edge is left that could lower a distance.
pub fn shortest_path_faster_algorithm(graph: &EdgeWeightedDiGraph, source: usize, edge_to: &mut Vec<usize>, dist_to: &mut Vec<i64>)
    requires
        graph.wf(),
        source < graph.rows().len(),
        old(dist_to).len() == graph.rows().len(),
        old(edge_to).len() == graph.rows().len(),
        forall|v: int| 0 <= v < old(dist_to).len() && v != source ==> #[trigger] old(dist_to)@[v] == i64::MAX,
    ensures
        paths_found(graph.rows(), source, final(dist_to)@, final(edge_to)@),
        forall|v: int| 0 <= v < graph.rows().len() && #[trigger] final(dist_to)@[v] == i64::MAX ==> final(edge_to)@[v] == old(edge_to)@[v],
        all_relaxed(graph.rows(), final(dist_to)@),
        non_negative(graph.rows()) ==> links_lead_back(final(dist_to)@, final(edge_to)@, source),
{
    let ghost rows = graph.rows();
    let ghost n = rows.len();
    let Ghost(mut walks) = start(graph, source, edge_to, dist_to);
    let ghost mut time: Seq<int> = Seq::new(n, |i: int| 0int);
    let ghost mut clock: int = 1;
    let mut deque: VecDeque<usize> = VecDeque::new();
    deque.push_back(source);
    proof {
        assert forall|v: int| 0 <= v < n && v != source && #[trigger] dist_to@[v] < i64::MAX implies edge_to@[v] < n && key_below(dist_to@, time, edge_to@[v] as int, v) by {
            assert(old(dist_to)@[v] == i64::MAX);
        }
        assert forall|u: int| 0 <= u < n && dist_to@[u] < i64::MAX implies #[trigger] settled(rows, dist_to@, u) || deque@.contains(u as usize) by {
            if u != source as int {
                assert(old(dist_to)@[u] == i64::MAX);
            }
            assert(deque@[0] == source);
        }
    }
    while deque.len() > 0
        invariant
            graph.wf(),
            rows == graph.rows(),
            n == rows.len(),
            relaxed_state(rows, source, dist_to@, edge_to@, walks),
            time.len() == n,
            forall|x: int| 0 <= x < n ==> #[trigger] time[x] < clock,
            non_negative(rows) ==> links_descend(dist_to@, time, edge_to@, source),
            links_kept(dist_to@, edge_to@, old(edge_to)@),
            dist_to@[source as int] <= 0,
            forall|k: int| 0 <= k < deque@.len() ==> (#[trigger] deque@[k]) < n && dist_to@[deque@[k] as int] < i64::MAX,
            forall|u: int| 0 <= u < n && dist_to@[u] < i64::MAX ==> #[trigger] settled(rows, dist_to@, u) || deque@.contains(u as usize),
        decreases dist_measure(dist_to@, n as int), deque@.len(),
    {
        let ghost dq = deque@;
        let vertex = deque.pop_front().unwrap();
        proof {
            graph.lemma_wf();
            assert forall|u: int| 0 <= u < n && u != vertex as int && dist_to@[u] < i64::MAX implies #[trigger] settled(rows, dist_to@, u) || deque@.contains(u as usize) by {
                assert(dq[0] == vertex);
                if dq.contains(u as usize) {
                    let k = choose|k: int| 0 <= k < dq.len() && dq[k] == u as usize;
                    assert(k != 0);
                    assert(deque@[k - 1] == dq[k]);
                }
            }
        }
        let ghost m0 = dist_measure(dist_to@, n as int);
        let ghost len0 = deque@.len();
        proof {
            graph.lemma_wf();
        }
        let out_degree = graph.out_edges(&vertex).len();
        let mut j: usize = 0;
        while j < out_degree
            invariant
                graph.wf(),
                rows == graph.rows(),
                n == rows.len(),
                vertex < n,
                out_degree == rows[vertex as int].len(),
                j <= out_degree,
                relaxed_state(rows, source, dist_to@, edge_to@, walks),
                time.len() == n,
                forall|x: int| 0 <= x < n ==> #[trigger] time[x] < clock,
                non_negative(rows) ==> links_descend(dist_to@, time, edge_to@, source),
                links_kept(dist_to@, edge_to@, old(edge_to)@),
                dist_to@[source as int] <= 0,
                dist_to@[vertex as int] < i64::MAX,
                forall|k: int| 0 <= k < deque@.len() ==> (#[trigger] deque@[k]) < n && dist_to@[deque@[k] as int] < i64::MAX,
                dist_measure(dist_to@, n as int) <= m0,
                dist_measure(dist_to@, n as int) == m0 ==> deque@.len() == len0,
                forall|u: int| 0 <= u < n && u != vertex as int && dist_to@[u] < i64::MAX ==> #[trigger] settled(rows, dist_to@, u) || deque@.contains(u as usize),
                deque@.contains(vertex) || forall|k: int| 0 <= k < j ==> #[trigger] edge_relaxed(rows, dist_to@, vertex as int, k),
            decreases out_degree - j,
        {
            let ghost d0 = dist_to@;
            let ghost q0 = deque@;
            proof {
                graph.lemma_wf();
            }
            let bound = dist_to[vertex];
            let ghost (dk0, ek0) = (dist_to@, edge_to@);
            let ghost wb = walks;
            let (relaxed, Ghost(w2)) = try_relax(graph, source, dist_to, edge_to, vertex, j, bound, Ghost(walks));
            proof {
                lemma_links_kept_trans(dk0, dist_to@, old(edge_to)@, ek0, edge_to@);
            }
            proof {
                walks = w2;
            }
            let ghost d1 = dist_to@;
            if relaxed {
                let neighbor = *graph.out_edges(&vertex)[j].to();
                proof {
                    if non_negative(rows) {
                        let e = rows[vertex as int][j as int];
                        assert(e.cost() >= 0);
                        assert(e.destination() == neighbor);
                        assert(neighbor != vertex);
                        lemma_descend_relax(rows, source, d0, ek0, time, wb, vertex as int, neighbor as int, e.cost() as int, clock);
                    }
                    time = time.update(neighbor as int, clock);
                    clock = clock + 1;
                    lemma_dist_measure_lower(d0, neighbor as int, dist_to@[neighbor as int], n as int);
                    assert forall|k: int| 0 <= k < deque@.len() implies dist_to@[deque@[k] as int] < i64::MAX by {
                        assert(dist_to@[deque@[k] as int] <= d0[deque@[k] as int]);
                    }
                }
                if !queue_contains(&deque, neighbor) {
                    if deque.len() > 0 && dist_to[neighbor] < dist_to[deque[0]] {
                        deque.push_front(neighbor);
                        proof {
                            assert forall|k: int| 0 <= k < deque@.len() implies (#[trigger] deque@[k]) < n && dist_to@[deque@[k] as int] < i64::MAX by {
                                if k > 0 {
                                    assert(deque@[k] == q0[k - 1]);
                                    assert(dist_to@[q0[k - 1] as int] <= d0[q0[k - 1] as int]);
                                }
                            }
                            assert forall|x: usize| q0.contains(x) implies deque@.contains(x) by {
                                let k = choose|k: int| 0 <= k < q0.len() && q0[k] == x;
                                assert(deque@[k + 1] == x);
                            }
                            assert(deque@[0] == neighbor);
                        }
                    } else {
                        deque.push_back(neighbor);
                        proof {
                            assert forall|k: int| 0 <= k < deque@.len() implies (#[trigger] deque@[k]) < n && dist_to@[deque@[k] as int] < i64::MAX by {
                                if k < q0.len() {
                                    assert(deque@[k] == q0[k]);
                                    assert(dist_to@[q0[k] as int] <= d0[q0[k] as int]);
                                }
                            }
                            assert forall|x: usize| q0.contains(x) implies deque@.contains(x) by {
                                let k = choose|k: int| 0 <= k < q0.len() && q0[k] == x;
                                assert(deque@[k] == x);
                            }
                            assert(deque@[q0.len() as int] == neighbor);
                        }
                    }
                }
            }
            proof {
                let e = rows[vertex as int][j as int];
                let v = e.destination() as int;
                assert(graph.adj()[vertex as int][j as int] == e.destination());
                assert(forall|x: usize| q0.contains(x) ==> deque@.contains(x));
                if relaxed {
                    assert(deque@.contains(v as usize));
                }
                assert forall|x: int| 0 <= x < n implies #[trigger] dist_to@[x] <= d0[x] by {}
                assert forall|u: int| 0 <= u < n && u != vertex as int && dist_to@[u] < i64::MAX implies #[trigger] settled(rows, dist_to@, u) || deque@.contains(u as usize) by {
                    if relaxed && u == v {
                        assert(deque@.contains(u as usize));
                    } else {
                        assert(dist_to@[u] == d0[u]);
                        if !q0.contains(u as usize) {
                            assert(settled(rows, d0, u));
                            lemma_settled_lower(rows, d0, dist_to@, u);
                        }
                    }
                }
                if !deque@.contains(vertex) {
                    assert(!q0.contains(vertex));
                    if relaxed {
                        assert(v != vertex as int);
                    }
                    assert(dist_to@[vertex as int] == d0[vertex as int]);
                    assert forall|k: int| 0 <= k < j + 1 implies #[trigger] edge_relaxed(rows, dist_to@, vertex as int, k) by {
                        if k < j {
                            assert(edge_relaxed(rows, d0, vertex as int, k));
                            assert(dist_to@[rows[vertex as int][k].destination() as int] <= d0[rows[vertex as int][k].destination() as int]);
                        }
                    }
                }
            }
            j = j + 1;
        }
        proof {
            if !deque@.contains(vertex) {
                assert forall|i: int| 0 <= i < rows[vertex as int].len() implies #[trigger] edge_relaxed(rows, dist_to@, vertex as int, i) by {}
                assert(settled(rows, dist_to@, vertex as int));
            }
        }
    }
    proof {
        lemma_paths_found(rows, source, dist_to@, edge_to@, walks);
        graph.lemma_wf();
        if non_negative(rows) {
            lemma_descend_leads_back(dist_to@, time, edge_to@, source);
        }
        assert forall|u: int| 0 <= u < rows.len() && dist_to@[u] < i64::MAX implies #[trigger] settled(rows, dist_to@, u) by {
            assert(!deque@.contains(u as usize));
        }
    }
}

/// The vertices (as integers) that reach `x`.
pub open spec fn ancestors(adj: Seq<Seq<usize>>, x: usize) -> Set<int> {
    Set::new(|y: int| 0 <= y < adj.len() && crate::graph::reachable(adj, y as usize, x))
}

/// In a graph without cycles, the head of an edge has more ancestors than
/// its tail, and at most as many as there are vertices.
proof fn lemma_ancestors_grow(adj: Seq<Seq<usize>>, u: usize, v: usize)
    requires
        acyclic(adj),
        adj.len() <= usize::MAX,
        u < adj.len(),
        v < adj.len(),
        crate::graph::has_edge(adj, u as int, v),
    ensures
        ancestors(adj, u).finite(),
        ancestors(adj, v).finite(),
        ancestors(adj, u).len() < ancestors(adj, v).len() <= adj.len(),
{
    let n = adj.len() as int;
    vstd::set_lib::lemma_int_range(0, n);
    let all = vstd::set_lib::set_int_range(0, n);
    assert(ancestors(adj, v).subset_of(all));
    vstd::set_lib::lemma_len_subset(ancestors(adj, v), all);
    assert forall|y: int| ancestors(adj, u).contains(y) implies ancestors(adj, v).contains(y) by {
        crate::graph::lemma_reachable_step(adj, y as usize, u, v);
    }
    assert(ancestors(adj, u).subset_of(ancestors(adj, v)));
    vstd::set_lib::lemma_len_subset(ancestors(adj, u), ancestors(adj, v));
    crate::graph::lemma_reachable_self(adj, v);
    assert(ancestors(adj, v).contains(v as int));
    assert(!ancestors(adj, u).contains(v as int));
    ancestors(adj, u).lemma_subset_not_in_lt(ancestors(adj, v), v as int);
}

/// On a graph without cycles, the links of a reached vertex lead back to
/// the source within as many steps as it has ancestors.
proof fn lemma_links_reach_source(
    graph: &EdgeWeightedDiGraph,
    source: usize,
    dist: Seq<i64>,
    edge_to: Seq<usize>,
    walks: Seq<Seq<WeightedDiEdge>>,
    v: usize,
    fuel: nat,
)
    requires
        graph.wf(),
        acyclic(graph.adj()),
        relaxed_state(graph.rows(), source, dist, edge_to, walks),
        v < graph.rows().len(),
        dist[v as int] < i64::MAX,
        ancestors(graph.adj(), v).finite(),
        fuel >= ancestors(graph.adj(), v).len(),
    ensures
        link_path(edge_to, source, v, fuel).is_some(),
    decreases fuel,
{
    graph.lemma_wf();
    if v != source {
        let u = edge_to[v as int];
        assert(link_ok(graph.rows(), dist, edge_to, v as int));
        let k = choose|k: int|
            0 <= k < graph.rows()[u as int].len() && (#[trigger] graph.rows()[u as int][k]).destination() == v && dist[u as int]
                + graph.rows()[u as int][k].cost() <= dist[v as int];
        assert(graph.adj()[u as int][k] == v);
        assert(crate::graph::has_edge(graph.adj(), u as int, v));
        lemma_ancestors_grow(graph.adj(), u, v);
        assert(ancestors(graph.adj(), u).len() >= 0);
        lemma_links_reach_source(graph, source, dist, edge_to, walks, u, (fuel - 1) as nat);
    }
}

/// Shortest paths from one vertex of an edge-weighted directed graph.
pub struct ShortestPath {
    source: usize,
    dist_to: Vec<i64>,
    edge_to: Vec<usize>,
    graph: Ghost<EdgeWeightedDiGraph>,
    walks: Ghost<Seq<Seq<WeightedDiEdge>>>,
}

impl ShortestPath {
    pub closed spec fn source_vertex(&self) -> usize {
        self.source
    }

    /// The distance found for each vertex; `i64::MAX` where none was.
    pub closed spec fn distances(&self) -> Seq<i64> {
        self.dist_to@
    }

    /// The vertex each reached vertex was last reached from; `usize::MAX`
    /// where none was.
    pub closed spec fn links(&self) -> Seq<usize> {
        self.edge_to@
    }

    /// The graph last processed.
    pub closed spec fn searched_graph(&self) -> EdgeWeightedDiGraph {
        self.graph@
    }

    pub closed spec fn wf(&self) -> bool {
        &&& self.graph@.wf()
        &&& relaxed_state(self.graph@.rows(), self.source, self.dist_to@, self.edge_to@, self.walks@)
    }

    /// Only the source is reached, at distance zero, and no vertex has a link.
    pub open spec fn is_fresh(&self) -> bool {
        &&& self.distances()[self.source_vertex() as int] == 0
        &&& forall|v: int| 0 <= v < self.distances().len() && v != self.source_vertex() ==> #[trigger] self.distances()[v] == i64::MAX
        &&& forall|v: int| 0 <= v < self.links().len() ==> #[trigger] self.links()[v] == usize::MAX
    }

    /// What every run guarantees, on the graph last processed.
    pub open spec fn sound(&self) -> bool {
        paths_found(self.searched_graph().rows(), self.source_vertex(), self.distances(), self.links())
    }

    /// Prepares the search from `from` in a graph with `nb_vertices` vertices.
    pub fn init(from: usize, nb_vertices: usize) -> (s: Self)
        requires
            from < nb_vertices < usize::MAX,
        ensures
            s.wf(),
            s.is_fresh(),
            s.source_vertex() == from,
            s.distances().len() == nb_vertices,
            s.links().len() == nb_vertices,
            s.searched_graph().vertex_count() == nb_vertices,
    {
        let g = EdgeWeightedDiGraph::init(nb_vertices);
        let mut s = ShortestPath {
            source: from,
            dist_to: vec![i64::MAX; nb_vertices],
            edge_to: vec![usize::MAX; nb_vertices],
            graph: Ghost(g),
            walks: Ghost(Seq::new(nb_vertices as nat, |i: int| Seq::<WeightedDiEdge>::empty())),
        };
        s.dist_to.set(from, 0);
        s
    }

    /// The distance found for `vertex`.
    pub fn dist_to(&self, vertex: &usize) -> (r: &i64)
        requires
            *vertex < self.distances().len(),
        ensures
            *r == self.distances()[*vertex as int],
    {
        let vertex = *vertex;
        &self.dist_to[vertex]
    }

    /// The vertex `vertex` was last reached from.
    pub fn edge_to(&self, vertex: &usize) -> (r: &usize)
        requires
            *vertex < self.links().len(),
        ensures
            *r == self.links()[*vertex as int],
    {
        let vertex = *vertex;
        &self.edge_to[vertex]
    }

    /// The path from `vertex` back to the source, following the links, if
    /// `vertex` was reached and its links lead to the source.
    pub fn path_to(&self, vertex: &usize) -> (r: Option<Vec<usize>>)
        requires
            self.wf(),
            *vertex < self.distances().len(),
        ensures
            r.is_some() == (self.distances()[*vertex as int] < i64::MAX && link_path(
                self.links(),
                self.source_vertex(),
                *vertex,
                self.links().len() as nat,
            ).is_some()),
            r.is_some() ==> r.unwrap()@ == link_path(self.links(), self.source_vertex(), *vertex, self.links().len() as nat).unwrap(),
            r.is_some() ==> is_back_walk(self.searched_graph().adj(), r.unwrap()@),
            acyclic(self.searched_graph().adj()) ==> (r.is_some() == (self.distances()[*vertex as int] < i64::MAX)),
            links_lead_back(self.distances(), self.links(), self.source_vertex()) ==> (r.is_some() == (self.distances()[*vertex as int] < i64::MAX)),
    {
        let target = *vertex;
        assert(target == *vertex);
        proof {
            if acyclic(self.graph@.adj()) && self.dist_to@[target as int] < i64::MAX {
                self.graph@.lemma_wf();
                vstd::set_lib::lemma_int_range(0, self.graph@.adj().len() as int);
                assert(ancestors(self.graph@.adj(), target).subset_of(vstd::set_lib::set_int_range(0, self.graph@.adj().len() as int)));
                vstd::set_lib::lemma_len_subset(ancestors(self.graph@.adj(), target), vstd::set_lib::set_int_range(0, self.graph@.adj().len() as int));
                lemma_links_reach_source(&self.graph@, self.source, self.dist_to@, self.edge_to@, self.walks@, target, self.edge_to@.len() as nat);
            }
        }
        if self.dist_to[target] == i64::MAX {
            return None;
        }
        let n = self.edge_to.len();
        let mut path: Vec<usize> = Vec::new();
        let mut x = target;
        let mut fuel: usize = n;
        while x != self.source
            invariant
                n == self.edge_to.len(),
                fuel <= n,
                target == *vertex,
                self.dist_to@[target as int] < i64::MAX,
                acyclic(self.graph@.adj()) || links_lead_back(self.dist_to@, self.edge_to@, self.source) ==> link_path(self.edge_to@, self.source, target, n as nat).is_some(),
                link_path(self.edge_to@, self.source, target, n as nat) == match link_path(self.edge_to@, self.source, x, fuel as nat) {
                    Some(q) => Some(path@ + q),
                    None => None::<Seq<usize>>,
                },
            decreases fuel,
        {
            if fuel == 0 || x >= n {
                assert(link_path(self.edge_to@, self.source, x, fuel as nat).is_none());
                assert(link_path(self.edge_to@, self.source, target, n as nat).is_none());
                return None;
            }
            path.push(x);
            proof {
                let ghost q = link_path(self.edge_to@, self.source, self.edge_to@[x as int], (fuel - 1) as nat);
                if q.is_some() {
                    assert(path@ + q.unwrap() =~= (path@.drop_last()) + (seq![x] + q.unwrap()));
                }
            }
            x = self.edge_to[x];
            fuel = fuel - 1;
        }
        let ghost prev = path@;
        path.push(self.source);
        proof {
            assert(link_path(self.edge_to@, self.source, x, fuel as nat) == Some(seq![self.source]));
            assert(path@ =~= prev + seq![self.source]);
            lemma_link_path_walk(&self.graph@, self.source, self.dist_to@, self.edge_to@, self.walks@, target, n as nat);
        }
        Some(path)
    }

    /// Runs Dijkstra's algorithm on `graph` (meant for non-negative weights).
    pub fn dijkstra(&mut self, graph: &EdgeWeightedDiGraph)
        requires
            old(self).wf(),
            old(self).is_fresh(),
            graph.wf(),
            graph.vertex_count() == old(self).distances().len(),
        ensures
            final(self).wf(),
            final(self).source_vertex() == old(self).source_vertex(),
            final(self).searched_graph() == *graph,
            final(self).sound(),
            forall|v: int| 0 <= v < final(self).distances().len() && #[trigger] final(self).distances()[v] == i64::MAX ==> final(self).links()[v] == usize::MAX,
            non_negative(graph.rows()) ==> all_relaxed(graph.rows(), final(self).distances()),
            non_negative(graph.rows()) ==> links_lead_back(final(self).distances(), final(self).links(), final(self).source_vertex()),
    {
        dijkstra(graph, self.source, &mut self.edge_to, &mut self.dist_to);
        proof {
            self.graph = Ghost(*graph);
            let w = lemma_walks_of(graph.rows(), self.source, self.dist_to@, self.edge_to@);
            self.walks = Ghost(w);
            assert forall|v: int| 0 <= v < self.dist_to@.len() && #[trigger] self.dist_to@[v] == i64::MAX implies self.edge_to@[v] == usize::MAX by {
                assert(old(self).links()[v] == usize::MAX);
            }
        }
    }

    /// Runs the relaxation in topological order on `graph` (meant for graphs
    /// without cycles).
    pub fn ewdag(&mut self, graph: &EdgeWeightedDiGraph)
        requires
            old(self).wf(),
            old(self).is_fresh(),
            graph.wf(),
            graph.vertex_count() == old(self).distances().len(),
        ensures
            final(self).wf(),
            final(self).source_vertex() == old(self).source_vertex(),
            final(self).searched_graph() == *graph,
            final(self).sound(),
            forall|v: int| 0 <= v < final(self).distances().len() && #[trigger] final(self).distances()[v] == i64::MAX ==> final(self).links()[v] == usize::MAX,
            acyclic(graph.adj()) ==> all_relaxed(graph.rows(), final(self).distances()),
            acyclic(graph.adj()) ==> links_lead_back(final(self).distances(), final(self).links(), final(self).source_vertex()),
    {
        shortest_path_ewdag(graph, self.source, &mut self.edge_to, &mut self.dist_to);
        proof {
            self.graph = Ghost(*graph);
            let w = lemma_walks_of(graph.rows(), self.source, self.dist_to@, self.edge_to@);
            self.walks = Ghost(w);
            if acyclic(graph.adj()) {
                graph.lemma_wf();
                assert forall|v: int| 0 <= v < self.dist_to@.len() && #[trigger] self.dist_to@[v] < i64::MAX implies link_path(self.edge_to@, self.source, v as usize, self.edge_to@.len() as nat).is_some() by {
                    vstd::set_lib::lemma_int_range(0, graph.adj().len() as int);
                    assert(ancestors(graph.adj(), v as usize).subset_of(vstd::set_lib::set_int_range(0, graph.adj().len() as int)));
                    vstd::set_lib::lemma_len_subset(ancestors(graph.adj(), v as usize), vstd::set_lib::set_int_range(0, graph.adj().len() as int));
                    lemma_links_reach_source(graph, self.source, self.dist_to@, self.edge_to@, w, v as usize, self.edge_to@.len() as nat);
                }
            }
            assert forall|v: int| 0 <= v < self.dist_to@.len() && #[trigger] self.dist_to@[v] == i64::MAX implies self.edge_to@[v] == usize::MAX by {
                assert(old(self).links()[v] == usize::MAX);
            }
        }
    }

    /// Runs Bellman-Ford on `graph`.
    pub fn bellman_ford(&mut self, graph: &EdgeWeightedDiGraph)
        requires
            old(self).wf(),
            old(self).is_fresh(),
            graph.wf(),
            graph.vertex_count() == old(self).distances().len(),
        ensures
            final(self).wf(),
            final(self).source_vertex() == old(self).source_vertex(),
            final(self).searched_graph() == *graph,
            final(self).sound(),
            forall|v: int| 0 <= v < final(self).distances().len() && #[trigger] final(self).distances()[v] == i64::MAX ==> final(self).links()[v] == usize::MAX,
            walks_bounded_below(graph.rows(), final(self).source_vertex()) ==> bounded_by_short_walks(
                graph.rows(),
                final(self).source_vertex(),
                final(self).distances(),
                graph.rows().len() - 1,
            ),
            non_negative(graph.rows()) ==> links_lead_back(final(self).distances(), final(self).links(), final(self).source_vertex()),
    {
        bellman_ford(graph, self.source, &mut self.edge_to, &mut self.dist_to);
        proof {
            self.graph = Ghost(*graph);
            let w = lemma_walks_of(graph.rows(), self.source, self.dist_to@, self.edge_to@);
            self.walks = Ghost(w);
            assert forall|v: int| 0 <= v < self.dist_to@.len() && #[trigger] self.dist_to@[v] == i64::MAX implies self.edge_to@[v] == usize::MAX by {
                assert(old(self).links()[v] == usize::MAX);
            }
        }
    }

    /// Runs the Shortest Path Faster Algorithm on `graph`.
    pub fn spfa(&mut self, graph: &EdgeWeightedDiGraph)
        requires
            old(self).wf(),
            old(self).is_fresh(),
            graph.wf(),
            graph.vertex_count() == old(self).distances().len(),
        ensures
            final(self).wf(),
            final(self).source_vertex() == old(self).source_vertex(),
            final(self).searched_graph() == *graph,
            final(self).sound(),
            forall|v: int| 0 <= v < final(self).distances().len() && #[trigger] final(self).distances()[v] == i64::MAX ==> final(self).links()[v] == usize::MAX,
            all_relaxed(graph.rows(), final(self).distances()),
            non_negative(graph.rows()) ==> links_lead_back(final(self).distances(), final(self).links(), final(self).source_vertex()),
    {
        shortest_path_faster_algorithm(graph, self.source, &mut self.edge_to, &mut self.dist_to);
        proof {
            self.graph = Ghost(*graph);
            let w = lemma_walks_of(graph.rows(), self.source, self.dist_to@, self.edge_to@);
            self.walks = Ghost(w);
            assert forall|v: int| 0 <= v < self.dist_to@.len() && #[trigger] self.dist_to@[v] == i64::MAX implies self.edge_to@[v] == usize::MAX by {
                assert(old(self).links()[v] == usize::MAX);
            }
        }
    }
}

} // verus!
