use std::collections::VecDeque;
use vstd::prelude::*;

use crate::graph::processing::search::first_search::unmarked_count;
use crate::graph::processing::search::first_search::lemma_unmarked_count_mono;
use crate::graph::{FlowEdge, FlowNetwork};

verus! {

/// Some edge from `u` to `v` can take more flow.
pub open spec fn residual_step(rows: Seq<Seq<FlowEdge>>, u: usize, v: usize) -> bool {
    &&& u < rows.len()
    &&& exists|i: int|
        0 <= i < rows[u as int].len() && (#[trigger] rows[u as int][i]).destination() == v && rows[u as int][i].flow_value()
            < rows[u as int][i].capacity_value()
}

/// `p` is a walk along edges that can take more flow.
pub open spec fn residual_walk(rows: Seq<Seq<FlowEdge>>, p: Seq<usize>) -> bool {
    &&& p.len() > 0
    &&& forall|k: int| 0 <= k < p.len() - 1 ==> #[trigger] residual_step(rows, p[k], p[k + 1])
}

/// Some walk from `s` to `t` can take more flow.
pub open spec fn augmentable(rows: Seq<Seq<FlowEdge>>, s: usize, t: usize) -> bool {
    exists|p: Seq<usize>| residual_walk(rows, p) && p[0] == s && p.last() == t
}

/// Total flow on a list of edges.
pub open spec fn row_flow(row: Seq<FlowEdge>) -> int
    decreases row.len(),
{
    if row.len() == 0 {
        0
    } else {
        row_flow(row.drop_last()) + row.last().flow_value()
    }
}

/// Total capacity of a list of edges.
pub open spec fn row_capacity(row: Seq<FlowEdge>) -> int
    decreases row.len(),
{
    if row.len() == 0 {
        0
    } else {
        row_capacity(row.drop_last()) + row.last().capacity_value()
    }
}

proof fn lemma_row_flow_bound(row: Seq<FlowEdge>)
    requires
        forall|i: int| 0 <= i < row.len() ==> (#[trigger] row[i]).flow_value() <= row[i].capacity_value(),
    ensures
        0 <= row_flow(row) <= row_capacity(row),
    decreases row.len(),
{
    if row.len() > 0 {
        assert(row[row.len() - 1] == row.last());
        lemma_row_flow_bound(row.drop_last());
    }
}

proof fn lemma_row_flow_add(row: Seq<FlowEdge>, i: int, d: u64)
    requires
        0 <= i < row.len(),
        row[i].flow_value() + d <= u64::MAX,
    ensures
        row_flow(row.update(i, FlowNetwork::with_more_flow(row[i], d))) == row_flow(row) + d,
        row_capacity(row.update(i, FlowNetwork::with_more_flow(row[i], d))) == row_capacity(row),
    decreases row.len(),
{
    FlowNetwork::lemma_more_flow(row[i], d);
    let r2 = row.update(i, FlowNetwork::with_more_flow(row[i], d));
    if i == row.len() - 1 {
        assert(r2.drop_last() =~= row.drop_last());
    } else {
        lemma_row_flow_add(row.drop_last(), i, d);
        assert(r2.drop_last() =~= row.drop_last().update(i, FlowNetwork::with_more_flow(row[i], d)));
    }
}


/// Total flow on the edges of `row` that end at `v`.
pub open spec fn row_inflow(row: Seq<FlowEdge>, v: usize) -> int
    decreases row.len(),
{
    if row.len() == 0 {
        0
    } else {
        row_inflow(row.drop_last(), v) + if row.last().destination() == v {
            row.last().flow_value() as int
        } else {
            0int
        }
    }
}

/// Total flow into `v` on the edges leaving the first `k` vertices.
pub open spec fn inflow(rows: Seq<Seq<FlowEdge>>, v: usize, k: int) -> int
    decreases k,
{
    if k <= 0 {
        0
    } else {
        inflow(rows, v, k - 1) + row_inflow(rows[k - 1], v)
    }
}

/// Flow out of `v` less flow into `v`.
pub open spec fn balance(rows: Seq<Seq<FlowEdge>>, v: usize) -> int {
    row_flow(rows[v as int]) - inflow(rows, v, rows.len() as int)
}

/// Every vertex but `s` and `t` lets out as much flow as comes in.
pub open spec fn conserved(rows: Seq<Seq<FlowEdge>>, s: usize, t: usize) -> bool {
    forall|v: usize| v < rows.len() && v != s && v != t ==> #[trigger] balance(rows, v) == 0
}

proof fn lemma_row_inflow_add(row: Seq<FlowEdge>, i: int, d: u64, v: usize)
    requires
        0 <= i < row.len(),
        row[i].flow_value() + d <= u64::MAX,
    ensures
        row_inflow(row.update(i, FlowNetwork::with_more_flow(row[i], d)), v) == row_inflow(row, v) + if row[i].destination() == v {
            d as int
        } else {
            0int
        },
    decreases row.len(),
{
    FlowNetwork::lemma_more_flow(row[i], d);
    let r2 = row.update(i, FlowNetwork::with_more_flow(row[i], d));
    if i == row.len() - 1 {
        assert(r2.drop_last() =~= row.drop_last());
    } else {
        lemma_row_inflow_add(row.drop_last(), i, d, v);
        assert(r2.drop_last() =~= row.drop_last().update(i, FlowNetwork::with_more_flow(row[i], d)));
    }
}

proof fn lemma_inflow_add(rows: Seq<Seq<FlowEdge>>, p: int, i: int, d: u64, v: usize, k: int)
    requires
        0 <= p < rows.len(),
        0 <= i < rows[p].len(),
        rows[p][i].flow_value() + d <= u64::MAX,
        k <= rows.len(),
    ensures
        inflow(rows.update(p, rows[p].update(i, FlowNetwork::with_more_flow(rows[p][i], d))), v, k) == inflow(rows, v, k) + if p < k
            && rows[p][i].destination() == v {
            d as int
        } else {
            0int
        },
    decreases k,
{
    if k > 0 {
        lemma_inflow_add(rows, p, i, d, v, k - 1);
        if k - 1 == p {
            lemma_row_inflow_add(rows[p], i, d, v);
        }
    }
}

proof fn lemma_balance_add(rows: Seq<Seq<FlowEdge>>, p: int, i: int, d: u64, v: usize)
    requires
        0 <= p < rows.len(),
        0 <= i < rows[p].len(),
        v < rows.len(),
        rows[p][i].flow_value() + d <= u64::MAX,
    ensures
        balance(rows.update(p, rows[p].update(i, FlowNetwork::with_more_flow(rows[p][i], d))), v) == balance(rows, v) + (if v == p {
            d as int
        } else {
            0int
        }) - (if rows[p][i].destination() == v {
            d as int
        } else {
            0int
        }),
{
    let r2 = rows.update(p, rows[p].update(i, FlowNetwork::with_more_flow(rows[p][i], d)));
    lemma_inflow_add(rows, p, i, d, v, rows.len() as int);
    if v == p {
        lemma_row_flow_add(rows[p], i, d);
    } else {
        assert(r2[v as int] == rows[v as int]);
    }
}

/// The links of the vertices found by a search of edges that can take more
/// flow: each names such an edge into the vertex, from a vertex found before.
pub open spec fn augmenting_tree(
    rows: Seq<Seq<FlowEdge>>,
    source: usize,
    marked: Seq<bool>,
    edge_to: Seq<Option<(usize, usize)>>,
    rank: Seq<int>,
) -> bool {
    &&& marked.len() == rows.len()
    &&& edge_to.len() == rows.len()
    &&& rank.len() == rows.len()
    &&& source < rows.len()
    &&& marked[source as int]
    &&& edge_to[source as int].is_none()
    &&& rank[source as int] == 0
    &&& forall|x: int| 0 <= x < rows.len() && !#[trigger] marked[x] ==> edge_to[x].is_none()
    &&& forall|x: int|
        0 <= x < rows.len() && #[trigger] marked[x] && x != source ==> {
            &&& edge_to[x].is_some()
            &&& edge_to[x].unwrap().0 < rows.len()
            &&& edge_to[x].unwrap().1 < rows[edge_to[x].unwrap().0 as int].len()
            &&& marked[edge_to[x].unwrap().0 as int]
            &&& rows[edge_to[x].unwrap().0 as int][edge_to[x].unwrap().1 as int].destination() == x as usize
            &&& rows[edge_to[x].unwrap().0 as int][edge_to[x].unwrap().1 as int].flow_value() < rows[edge_to[x].unwrap().0 as int][edge_to[x].unwrap().1 as int].capacity_value()
            &&& 0 <= rank[edge_to[x].unwrap().0 as int] < rank[x]
        }
}

proof fn lemma_closed_blocks(rows: Seq<Seq<FlowEdge>>, marked: Seq<bool>, p: Seq<usize>, k: int)
    requires
        marked.len() == rows.len(),
        residual_walk(rows, p),
        p[0] < rows.len(),
        marked[p[0] as int],
        forall|x: int, i: int|
            0 <= x < rows.len() && marked[x] && 0 <= i < rows[x].len() && (#[trigger] rows[x][i]).flow_value() < rows[x][i].capacity_value()
                ==> rows[x][i].destination() < rows.len() && marked[rows[x][i].destination() as int],
        0 <= k < p.len(),
    ensures
        p[k] < rows.len(),
        marked[p[k] as int],
    decreases k,
{
    if k > 0 {
        lemma_closed_blocks(rows, marked, p, k - 1);
        let h = k - 1;
        assert(residual_step(rows, p[h], p[h + 1]));
        let i = choose|i: int|
            0 <= i < rows[p[h] as int].len() && (#[trigger] rows[p[h] as int][i]).destination() == p[h + 1] && rows[p[h] as int][i].flow_value()
                < rows[p[h] as int][i].capacity_value();
        assert(marked[rows[p[h] as int][i].destination() as int]);
    }
}


/// The edges of `r2` are those of `r1`, with the same ends and capacities;
/// only flows may differ.
pub open spec fn same_edges(r1: Seq<Seq<FlowEdge>>, r2: Seq<Seq<FlowEdge>>) -> bool {
    &&& r1.len() == r2.len()
    &&& forall|u: int| 0 <= u < r1.len() ==> (#[trigger] r1[u]).len() == r2[u].len()
    &&& forall|u: int, i: int|
        0 <= u < r1.len() && 0 <= i < r1[u].len() ==> (#[trigger] r2[u][i]).origin() == r1[u][i].origin()
            && r2[u][i].destination() == r1[u][i].destination() && r2[u][i].capacity_value() == r1[u][i].capacity_value()
}

proof fn lemma_row_capacity_same(a: Seq<FlowEdge>, b: Seq<FlowEdge>)
    requires
        a.len() == b.len(),
        forall|i: int| 0 <= i < a.len() ==> (#[trigger] a[i]).capacity_value() == b[i].capacity_value(),
    ensures
        row_capacity(a) == row_capacity(b),
    decreases a.len(),
{
    if a.len() > 0 {
        assert(a[a.len() - 1] == a.last() && b[b.len() - 1] == b.last());
        lemma_row_capacity_same(a.drop_last(), b.drop_last());
    }
}

/// Maximum flow by augmenting paths found breadth-first (Edmonds-Karp),
/// along edges that can take more flow.
pub struct FordFulkerson {
    max_flow: Option<u64>,
}

impl FordFulkerson {
    pub closed spec fn flow_found(&self) -> Option<u64> {
        self.max_flow
    }

    /// Creates a search that has not run yet.
    pub fn new() -> (s: Self)
        ensures
            s.flow_found().is_none(),
    {
        FordFulkerson { max_flow: None }
    }

    /// Breadth-first search from `source` along edges that can take more
    /// flow; tells whether it reached `destination`, with the links found.
    fn has_augmenting_path(&self, network: &FlowNetwork, source: usize, destination: usize) -> (r: (
        bool,
        Vec<Option<(usize, usize)>>,
        Ghost<Seq<bool>>,
        Ghost<Seq<int>>,
    ))
        requires
            network.wf(),
            source < network.vertex_count(),
            destination < network.vertex_count(),
        ensures
            augmenting_tree(network.rows(), source, r.2@, r.1@, r.3@),
            r.0 ==> r.2@[destination as int] && destination != source,
            !r.0 ==> source == destination || !augmentable(network.rows(), source, destination),
    {
        let ghost rows = network.rows();
        let n = network.nb_vertices();
        proof {
            network.lemma_wf();
        }
        let mut edge_to: Vec<Option<(usize, usize)>> = vec![None; n];
        let mut marked: Vec<bool> = vec![false; n];
        let mut queue: VecDeque<usize> = VecDeque::new();
        marked.set(source, true);
        queue.push_back(source);
        let ghost mut rank: Seq<int> = Seq::new(n as nat, |i: int| 0int);
        let ghost mut t: int = 1;
        proof {
            assert(queue@[0] == source);
        }
        while queue.len() > 0
            invariant
                network.wf(),
                rows == network.rows(),
                n == rows.len(),
                source < n,
                destination < n,
                augmenting_tree(rows, source, marked@, edge_to@, rank),
                source == destination || !marked@[destination as int],
                forall|k: int| 0 <= k < queue@.len() ==> (#[trigger] queue@[k]) < n && marked@[queue@[k] as int],
                forall|x: int, i: int|
                    0 <= x < n && marked@[x] && !queue@.contains(x as usize) && 0 <= i < rows[x].len() && (#[trigger] rows[x][i]).flow_value() < rows[x][i].capacity_value()
                        ==> rows[x][i].destination() < n && marked@[rows[x][i].destination() as int],
                forall|x: int| 0 <= x < n && #[trigger] marked@[x] ==> 0 <= rank[x] < t,
            decreases unmarked_count(marked@, n as int) + queue@.len(),
        {
            let ghost mq = marked@;
            let ghost q0 = queue@;
            let vertex = queue.pop_front().unwrap();
            proof {
                assert(q0[0] == vertex);
                assert(queue@ =~= q0.drop_first());
                assert(queue@.subrange(0, q0.len() - 1) =~= q0.drop_first());
                network.lemma_wf();
            }
            let edges = network.out_edges(&vertex);
            let mut j: usize = 0;
            while j < edges.len()
                invariant
                    network.wf(),
                    rows == network.rows(),
                    n == rows.len(),
                    source < n,
                    destination < n,
                    vertex < n,
                    marked@[vertex as int],
                    edges@ == rows[vertex as int],
                    j <= edges.len(),
                    augmenting_tree(rows, source, marked@, edge_to@, rank),
                    source == destination || !marked@[destination as int],
                    crate::graph::processing::search::first_search::grows(mq, marked@),
                    q0.len() > 0,
                    q0[0] == vertex,
                    queue@.len() >= q0.len() - 1,
                    queue@.subrange(0, q0.len() - 1) == q0.drop_first(),
                    forall|k: int| 0 <= k < queue@.len() ==> (#[trigger] queue@[k]) < n && marked@[queue@[k] as int],
                    forall|x: int| 0 <= x < n && marked@[x] && !mq[x] ==> queue@.contains(x as usize),
                    forall|x: int, i: int|
                        0 <= x < n && mq[x] && !q0.contains(x as usize) && 0 <= i < rows[x].len() && (#[trigger] rows[x][i]).flow_value() < rows[x][i].capacity_value()
                            ==> rows[x][i].destination() < n && marked@[rows[x][i].destination() as int],
                    forall|i: int| 0 <= i < j && (#[trigger] rows[vertex as int][i]).flow_value() < rows[vertex as int][i].capacity_value()
                        ==> marked@[rows[vertex as int][i].destination() as int],
                    forall|x: int| 0 <= x < n && #[trigger] marked@[x] ==> 0 <= rank[x] < t,
                    unmarked_count(marked@, n as int) + queue@.len() + 1 <= unmarked_count(mq, n as int) + q0.len(),
                decreases edges.len() - j,
            {
                proof {
                    network.lemma_wf();
                }
                let edge = &edges[j];
                let next_vertex = *edge.to();
                proof {
                    assert(rows[vertex as int][j as int] == *edge);
                }
                if !marked[next_vertex] && edge.residual_capacity() > 0 {
                    let ghost m1 = marked@;
                    let ghost qq = queue@;
                    marked.set(next_vertex, true);
                    edge_to.set(next_vertex, Some((vertex, j)));
                    proof {
                        rank = rank.update(next_vertex as int, t);
                        t = t + 1;
                        assert(crate::graph::processing::search::first_search::newly(m1, marked@, next_vertex as int));
                        assert(exists|x: int| 0 <= x < n && crate::graph::processing::search::first_search::newly(m1, marked@, x));
                        lemma_unmarked_count_mono(m1, marked@, n as int);
                        assert forall|x: int|
                            0 <= x < rows.len() && #[trigger] marked@[x] && x != source implies {
                                &&& edge_to@[x].is_some()
                                &&& edge_to@[x].unwrap().0 < rows.len()
                                &&& edge_to@[x].unwrap().1 < rows[edge_to@[x].unwrap().0 as int].len()
                                &&& marked@[edge_to@[x].unwrap().0 as int]
                                &&& rows[edge_to@[x].unwrap().0 as int][edge_to@[x].unwrap().1 as int].destination() == x as usize
                                &&& rows[edge_to@[x].unwrap().0 as int][edge_to@[x].unwrap().1 as int].flow_value() < rows[edge_to@[x].unwrap().0 as int][edge_to@[x].unwrap().1 as int].capacity_value()
                                &&& 0 <= rank[edge_to@[x].unwrap().0 as int] < rank[x]
                            } by {
                            if x != next_vertex as int {
                                assert(m1[x]);
                            }
                        }
                    }
                    if next_vertex == destination {
                        assert(m1[source as int]);
                        return (true, edge_to, Ghost(marked@), Ghost(rank));
                    }
                    queue.push_back(next_vertex);
                    proof {
                        assert(queue@.subrange(0, q0.len() - 1) =~= qq.subrange(0, q0.len() - 1));
                        assert forall|k: int| 0 <= k < queue@.len() implies (#[trigger] queue@[k]) < n && marked@[queue@[k] as int] by {
                            if k < qq.len() {
                                assert(queue@[k] == qq[k]);
                            }
                        }
                        assert forall|x: int| 0 <= x < n && marked@[x] && !mq[x] implies queue@.contains(x as usize) by {
                            if x == next_vertex as int {
                                assert(queue@[qq.len() as int] == next_vertex);
                            } else {
                                assert(m1[x]);
                                let k = choose|k: int| 0 <= k < qq.len() && qq[k] == x as usize;
                                assert(queue@[k] == qq[k]);
                            }
                        }
                    }
                }
                j = j + 1;
            }
            proof {
                assert forall|x: int, i: int|
                    0 <= x < n && marked@[x] && !queue@.contains(x as usize) && 0 <= i < rows[x].len() && (#[trigger] rows[x][i]).flow_value() < rows[x][i].capacity_value()
                        implies rows[x][i].destination() < n && marked@[rows[x][i].destination() as int] by {
                    if x == vertex as int {
                    } else if !mq[x] {
                    } else {
                        if q0.contains(x as usize) {
                            let k = choose|k: int| 0 <= k < q0.len() && q0[k] == x as usize;
                            assert(k != 0);
                            assert(q0.drop_first()[k - 1] == x as usize);
                            assert(queue@.subrange(0, q0.len() - 1)[k - 1] == x as usize);
                            assert(queue@[k - 1] == x as usize);
                        }
                    }
                }
            }
        }
        proof {
            if source != destination && augmentable(rows, source, destination) {
                let p = choose|p: Seq<usize>| residual_walk(rows, p) && p[0] == source && p.last() == destination;
                assert forall|x: int, i: int|
                    0 <= x < rows.len() && marked@[x] && 0 <= i < rows[x].len() && (#[trigger] rows[x][i]).flow_value() < rows[x][i].capacity_value()
                        implies rows[x][i].destination() < rows.len() && marked@[rows[x][i].destination() as int] by {
                    assert(!queue@.contains(x as usize));
                }
                lemma_closed_blocks(rows, marked@, p, p.len() - 1);
            }
        }
        (false, edge_to, Ghost(marked@), Ghost(rank))
    }

    /// The total flow pushed by the last run, if any.
    pub fn max_flow(&self) -> (r: Option<u64>)
        ensures
            r == self.flow_found(),
    {
        self.max_flow
    }

    /// Pushes flow from `source` to `destination` along augmenting paths,
    /// each time as much as its tightest edge can take, until no walk from
    /// `source` to `destination` can take more; records the total pushed.
    pub fn find_flows(&mut self, network: &mut FlowNetwork, source: &usize, destination: &usize)
        requires
            old(network).wf(),
            *source < old(network).vertex_count(),
            *destination < old(network).vertex_count(),
            row_capacity(old(network).rows()[*source as int]) <= u64::MAX,
        ensures
            final(network).wf(),
            same_edges(old(network).rows(), final(network).rows()),
            final(network).adj() == old(network).adj(),
            final(self).flow_found() == Some(
                (row_flow(final(network).rows()[*source as int]) - row_flow(old(network).rows()[*source as int])) as u64,
            ),
            *source == *destination || !augmentable(final(network).rows(), *source, *destination),
            conserved(old(network).rows(), *source, *destination) ==> conserved(final(network).rows(), *source, *destination),
            final(self).flow_found().is_some(),
            final(self).flow_found().unwrap() as int == balance(final(network).rows(), *source) - balance(old(network).rows(), *source),
    {
        let source = *source;
        let destination = *destination;
        let ghost rows_start = network.rows();
        let ghost adj_start = network.adj();
        let ghost n = rows_start.len();
        let mut max_flow: u64 = 0;
        let (mut found, mut edge_to, Ghost(mut marked), Ghost(mut rank)) = self.has_augmenting_path(network, source, destination);
        proof {
            network.lemma_wf();
            lemma_row_flow_bound(rows_start[source as int]);
            assert(same_edges(rows_start, network.rows()));
        }
        while found
            invariant
                network.wf(),
                n == network.rows().len(),
                source < n,
                destination < n,
                same_edges(rows_start, network.rows()),
                network.adj() == adj_start,
                row_capacity(rows_start[source as int]) <= u64::MAX,
                max_flow == row_flow(network.rows()[source as int]) - row_flow(rows_start[source as int]),
                0 <= row_flow(rows_start[source as int]) <= row_flow(network.rows()[source as int]) <= row_capacity(rows_start[source as int]),
                augmenting_tree(network.rows(), source, marked, edge_to@, rank),
                found ==> marked[destination as int] && destination != source,
                !found ==> source == destination || !augmentable(network.rows(), source, destination),
                conserved(rows_start, source, destination) ==> conserved(network.rows(), source, destination),
                max_flow == balance(network.rows(), source) - balance(rows_start, source),
            decreases row_capacity(rows_start[source as int]) - row_flow(network.rows()[source as int]),
        {
            let ghost rows = network.rows();
            let mut path: Vec<(usize, usize)> = Vec::new();
            let mut vertex = destination;
            while vertex != source
                invariant
                    network.wf(),
                    rows == network.rows(),
                    n == rows.len(),
                    source < n,
                    vertex < n,
                    augmenting_tree(rows, source, marked, edge_to@, rank),
                    marked[vertex as int],
                    vertex != destination ==> path@.len() > 0,
                    path@.len() == 0 ==> vertex == destination,
                    path@.len() > 0 ==> path@.last().0 == vertex,
                    forall|k: int| 0 <= k < path@.len() ==> {
                        &&& (#[trigger] path@[k]).0 < n
                        &&& path@[k].1 < rows[path@[k].0 as int].len()
                        &&& rows[path@[k].0 as int][path@[k].1 as int].flow_value() < rows[path@[k].0 as int][path@[k].1 as int].capacity_value()
                        &&& rank[rows[path@[k].0 as int][path@[k].1 as int].destination() as int] > rank[vertex as int]
                    },
                    forall|k1: int, k2: int| 0 <= k1 < k2 < path@.len() ==> rank[rows[(#[trigger] path@[k1]).0 as int][path@[k1].1 as int].destination() as int]
                        > rank[rows[(#[trigger] path@[k2]).0 as int][path@[k2].1 as int].destination() as int],
                    forall|k: int| 0 <= k < path@.len() - 1 ==> (#[trigger] path@[k]).0 != source,
                    path@.len() > 0 ==> rows[path@[0].0 as int][path@[0].1 as int].destination() == destination,
                    forall|k: int| 0 <= k < path@.len() - 1 ==> (#[trigger] path@[k]).0 == rows[path@[k + 1].0 as int][path@[k + 1].1 as int].destination(),
                decreases rank[vertex as int],
            {
                let (p, i) = edge_to[vertex].unwrap();
                let ghost prev = path@;
                path.push((p, i));
                proof {
                    assert forall|k: int| 0 <= k < path@.len() implies {
                        &&& (#[trigger] path@[k]).0 < n
                        &&& path@[k].1 < rows[path@[k].0 as int].len()
                        &&& rows[path@[k].0 as int][path@[k].1 as int].flow_value() < rows[path@[k].0 as int][path@[k].1 as int].capacity_value()
                        &&& rank[rows[path@[k].0 as int][path@[k].1 as int].destination() as int] > rank[p as int]
                    } by {
                        if k < prev.len() {
                            assert(path@[k] == prev[k]);
                        }
                    }
                    assert forall|k1: int, k2: int| 0 <= k1 < k2 < path@.len() implies rank[rows[(#[trigger] path@[k1]).0 as int][path@[k1].1 as int].destination() as int]
                        > rank[rows[(#[trigger] path@[k2]).0 as int][path@[k2].1 as int].destination() as int] by {
                        assert(path@[k1] == prev[k1]);
                        if k2 < prev.len() {
                            assert(path@[k2] == prev[k2]);
                        }
                    }
                    assert forall|k: int| 0 <= k < path@.len() - 1 implies (#[trigger] path@[k]).0 != source by {
                        assert(path@[k] == prev[k]);
                        if k == prev.len() - 1 {
                            assert(prev.last().0 == vertex);
                        }
                    }
                    assert forall|k: int| 0 <= k < path@.len() - 1 implies (#[trigger] path@[k]).0 == rows[path@[k + 1].0 as int][path@[k + 1].1 as int].destination() by {
                        assert(path@[k] == prev[k]);
                        if k == prev.len() - 1 {
                            assert(prev.last().0 == vertex);
                        } else {
                            assert(path@[k + 1] == prev[k + 1]);
                        }
                    }
                    if prev.len() > 0 {
                        assert(path@[0] == prev[0]);
                    }
                }
                vertex = p;
            }
            let mut path_flow: u64 = u64::MAX;
            let mut k: usize = 0;
            proof {
                network.lemma_wf();
            }
            while k < path.len()
                invariant
                    network.wf(),
                    rows == network.rows(),
                    k <= path.len(),
                    path_flow >= 1,
                    forall|kk: int| 0 <= kk < path@.len() ==> {
                        &&& (#[trigger] path@[kk]).0 < n
                        &&& path@[kk].1 < rows[path@[kk].0 as int].len()
                        &&& rows[path@[kk].0 as int][path@[kk].1 as int].flow_value() < rows[path@[kk].0 as int][path@[kk].1 as int].capacity_value()
                    },
                    n == rows.len(),
                    forall|kk: int| 0 <= kk < k ==> path_flow <= rows[(#[trigger] path@[kk]).0 as int][path@[kk].1 as int].capacity_value()
                        - rows[path@[kk].0 as int][path@[kk].1 as int].flow_value(),
                decreases path.len() - k,
            {
                let (p, i) = path[k];
                let res_cap = network.out_edges(&p)[i].residual_capacity();
                if res_cap < path_flow {
                    path_flow = res_cap;
                }
                k = k + 1;
            }
            let ghost before = network.rows();
            let ghost flow0 = row_flow(before[source as int]);
            assert(max_flow == flow0 - row_flow(rows_start[source as int]));
            let mut k: usize = 0;
            while k < path.len()
                invariant
                    network.wf(),
                    n == network.rows().len(),
                    source < n,
                    rows == before,
                    k <= path.len(),
                    path@.len() > 0,
                    path@.last().0 == source,
                    path_flow >= 1,
                    same_edges(before, network.rows()),
                    network.adj() == adj_start,
                    forall|kk: int| 0 <= kk < path@.len() ==> {
                        &&& (#[trigger] path@[kk]).0 < n
                        &&& path@[kk].1 < before[path@[kk].0 as int].len()
                        &&& path_flow <= before[path@[kk].0 as int][path@[kk].1 as int].capacity_value() - before[path@[kk].0 as int][path@[kk].1 as int].flow_value()
                    },
                    forall|k1: int, k2: int| 0 <= k1 < k2 < path@.len() ==> rank[before[(#[trigger] path@[k1]).0 as int][path@[k1].1 as int].destination() as int]
                        > rank[before[(#[trigger] path@[k2]).0 as int][path@[k2].1 as int].destination() as int],
                    forall|kk: int| 0 <= kk < path@.len() - 1 ==> (#[trigger] path@[kk]).0 != source,
                    forall|kk: int| k <= kk < path@.len() ==> network.rows()[(#[trigger] path@[kk]).0 as int][path@[kk].1 as int] == before[path@[kk].0 as int][path@[kk].1 as int],
                    row_flow(network.rows()[source as int]) == flow0 + if k == path@.len() {
                        path_flow as int
                    } else {
                        0int
                    },
                    rows[path@[0].0 as int][path@[0].1 as int].destination() == destination,
                    forall|kk: int| 0 <= kk < path@.len() - 1 ==> (#[trigger] path@[kk]).0 == rows[path@[kk + 1].0 as int][path@[kk + 1].1 as int].destination(),
                    forall|v: usize| v < n ==> #[trigger] balance(network.rows(), v) == balance(before, v) + (if k > 0 && v == path@[k - 1].0 {
                        path_flow as int
                    } else {
                        0int
                    }) - (if k > 0 && v == destination {
                        path_flow as int
                    } else {
                        0int
                    }),
                decreases path.len() - k,
            {
                let (p, i) = path[k];
                let ghost r0 = network.rows();
                proof {
                    assert(path@[k as int] == (p, i));
                }
                network.add_flow(p, i, path_flow);
                proof {
                    let r1 = network.rows();
                    assert(r0[p as int][i as int] == before[p as int][i as int]);
                    assert forall|v: usize| v < n implies #[trigger] balance(r1, v) == balance(before, v) + (if k + 1 > 0 && v == path@[k as int].0 {
                        path_flow as int
                    } else {
                        0int
                    }) - (if k + 1 > 0 && v == destination {
                        path_flow as int
                    } else {
                        0int
                    }) by {
                        lemma_balance_add(r0, p as int, i as int, path_flow, v);
                        assert(balance(r0, v) == balance(before, v) + (if k > 0 && v == path@[k - 1].0 {
                            path_flow as int
                        } else {
                            0int
                        }) - (if k > 0 && v == destination {
                            path_flow as int
                        } else {
                            0int
                        }));
                        if k > 0 {
                            assert(path@[k - 1].0 == before[p as int][i as int].destination());
                        }
                    }
                    assert forall|kk: int| k + 1 <= kk < path@.len() implies r1[(#[trigger] path@[kk]).0 as int][path@[kk].1 as int] == before[path@[kk].0 as int][path@[kk].1 as int] by {
                        let q = path@[kk];
                        if q.0 == p && q.1 == i {
                            assert(rank[before[p as int][i as int].destination() as int] > rank[before[q.0 as int][q.1 as int].destination() as int]);
                        }
                        assert(r0[q.0 as int][q.1 as int] == before[q.0 as int][q.1 as int]);
                    }
                    if p == source {
                        assert(k == path@.len() - 1);
                        lemma_row_flow_add(r0[source as int], i as int, path_flow);
                    } else {
                        assert(r1[source as int] == r0[source as int]);
                        if k == path@.len() - 1 {
                            assert(path@.last().0 == source);
                        }
                    }
                    assert forall|u: int, j: int| 0 <= u < before.len() && 0 <= j < before[u].len() implies (#[trigger] r1[u][j]).origin() == before[u][j].origin()
                        && r1[u][j].destination() == before[u][j].destination() && r1[u][j].capacity_value() == before[u][j].capacity_value() by {
                        assert(r0[u][j].origin() == before[u][j].origin());
                        if u == p as int && j == i as int {
                        } else {
                            assert(r1[u][j] == r0[u][j]);
                        }
                    }
                }
                k = k + 1;
            }
            proof {
                assert(path@[path@.len() - 1].0 == source);
                assert(balance(network.rows(), source) == balance(before, source) + path_flow);
                if conserved(rows_start, source, destination) {
                    assert(conserved(before, source, destination));
                    assert forall|v: usize| v < n && v != source && v != destination implies #[trigger] balance(network.rows(), v) == 0 by {
                        assert(path@[path@.len() - 1].0 == source);
                        assert(balance(before, v) == 0);
                    }
                }
                network.lemma_wf();
                lemma_row_flow_bound(network.rows()[source as int]);
                assert forall|i: int| 0 <= i < rows_start[source as int].len() implies (#[trigger] rows_start[source as int][i]).capacity_value() == network.rows()[source as int][i].capacity_value() by {
                    assert(rows_start[source as int][i].capacity_value() == before[source as int][i].capacity_value());
                }
                lemma_row_capacity_same(rows_start[source as int], network.rows()[source as int]);
                assert forall|u: int, j: int| 0 <= u < rows_start.len() && 0 <= j < rows_start[u].len() implies (#[trigger] network.rows()[u][j]).origin() == rows_start[u][j].origin()
                    && network.rows()[u][j].destination() == rows_start[u][j].destination() && network.rows()[u][j].capacity_value() == rows_start[u][j].capacity_value() by {
                    assert(before[u][j].origin() == rows_start[u][j].origin());
                }
            }
            assert(row_flow(network.rows()[source as int]) == flow0 + path_flow);
            assert(row_flow(network.rows()[source as int]) <= row_capacity(rows_start[source as int]));
            max_flow = max_flow + path_flow;
            let r = self.has_augmenting_path(network, source, destination);
            found = r.0;
            edge_to = r.1;
            proof {
                marked = r.2@;
                rank = r.3@;
            }
        }
        self.max_flow = Some(max_flow);
    }
}

} // verus!
