use vstd::prelude::*;

use crate::graph::{
    ends_of, span,
    add_to_row, contains_vertex, edge_set, flipped, has_edge, lemma_flipped_len, in_count, lemma_edge_set_add, lemma_edge_set_extend,
    lemma_in_count_add, lemma_in_count_bound, lemma_in_count_zero, lemma_in_count_extend,
    lemma_seq_sum_bump, lemma_seq_sum_extend, loop_count, seq_sum,
    valid_adjacency, VertexInfo,
};

verus! {

/// The edges that leave a vertex before `v`, and the first `j` of those leaving `v`.
pub open spec fn done_edges(adj: Seq<Seq<usize>>, v: int, j: int) -> Set<(usize, usize)> {
    Set::new(
        |e: (usize, usize)|
            (e.0 < v && has_edge(adj, e.0 as int, e.1)) || (e.0 == v && adj[v].subrange(0, j).contains(e.1)),
    )
}

proof fn lemma_done_edges_step(adj: Seq<Seq<usize>>, v: usize, j: int)
    requires
        v < adj.len(),
        0 <= j < adj[v as int].len(),
    ensures
        done_edges(adj, v as int, j + 1) == done_edges(adj, v as int, j).insert((v, adj[v as int][j])),
        flipped(done_edges(adj, v as int, j).insert((v, adj[v as int][j]))) == flipped(
            done_edges(adj, v as int, j),
        ).insert((adj[v as int][j], v)),
{
    let row = adj[v as int];
    assert(row.subrange(0, j + 1) =~= row.subrange(0, j).push(row[j]));
    assert forall|x: usize| row.subrange(0, j + 1).contains(x) <==> (row.subrange(0, j).contains(x) || x == row[j]) by {
        crate::graph::lemma_push_contains(row.subrange(0, j), row[j], x);
    }
    assert forall|e: (usize, usize)| #[trigger] done_edges(adj, v as int, j + 1).contains(e) <==> done_edges(adj, v as int, j).insert((v, row[j])).contains(e) by {
        if e.0 == v {
            assert(row.subrange(0, j + 1).contains(e.1) <==> (row.subrange(0, j).contains(e.1) || e.1 == row[j]));
        }
    }
    assert(done_edges(adj, v as int, j + 1) =~= done_edges(adj, v as int, j).insert((v, row[j])));
    assert(flipped(done_edges(adj, v as int, j).insert((v, row[j]))) =~= flipped(done_edges(adj, v as int, j)).insert((row[j], v)));
}

/// Directed graph based on adjacency lists: vertices are the positions
/// `0..nb_vertices`, and each vertex keeps the distinct vertices it points to.
pub struct DiGraph {
    out_edges: Vec<Vec<usize>>,
    nb_edges: usize,
    nb_vertices: usize,
    in_degree: Vec<usize>,
}

impl DiGraph {
    /// For each vertex, the vertices it points to, in insertion order.
    pub closed spec fn adj(&self) -> Seq<Seq<usize>> {
        self.out_edges@.map_values(|r: Vec<usize>| r@)
    }

    /// The set of edges, as (origin, destination) pairs.
    pub open spec fn edges(&self) -> Set<(usize, usize)> {
        edge_set(self.adj())
    }

    pub open spec fn vertex_count(&self) -> nat {
        self.adj().len()
    }

    /// Number of vertices pointing to `v`.
    pub open spec fn in_degree_of(&self, v: usize) -> nat {
        in_count(self.adj(), v, self.adj().len() as int)
    }

    pub closed spec fn edge_count(&self) -> nat {
        self.nb_edges as nat
    }

    pub closed spec fn wf(&self) -> bool {
        let adj = self.adj();
        &&& self.out_edges.len() == self.nb_vertices
        &&& self.in_degree.len() == self.nb_vertices
        &&& self.nb_vertices < usize::MAX
        &&& valid_adjacency(adj)
        &&& forall|u: int| 0 <= u < adj.len() ==> (#[trigger] adj[u]).no_duplicates()
        &&& edge_set(adj).finite()
        &&& self.nb_edges == edge_set(adj).len()
        &&& forall|v: int|
            0 <= v < adj.len() ==> #[trigger] self.in_degree@[v] == in_count(
                adj,
                v as usize,
                adj.len() as int,
            )
        &&& seq_sum(self.in_degree@, adj.len() as int) == self.nb_edges
    }

    /// Well-formedness gives the edge count as the number of distinct edges.
    pub proof fn lemma_wf(&self)
        requires
            self.wf(),
        ensures
            valid_adjacency(self.adj()),
            self.edges().finite(),
            self.edge_count() == self.edges().len(),
            forall|u: int| 0 <= u < self.adj().len() ==> (#[trigger] self.adj()[u]).no_duplicates(),
    {
    }

    /// Creates an empty graph.
    pub fn new() -> (g: Self)
        ensures
            g.wf(),
            g.vertex_count() == 0,
            g.edges() == Set::<(usize, usize)>::empty(),
    {
        let g = DiGraph { out_edges: Vec::new(), nb_edges: 0, nb_vertices: 0, in_degree: Vec::new() };
        assert(g.edges() =~= Set::<(usize, usize)>::empty());
        g
    }

    /// Creates a graph with `nb_vertices` vertices and no edge.
    pub fn init(nb_vertices: usize) -> (g: Self)
        requires
            nb_vertices < usize::MAX,
        ensures
            g.wf(),
            g.vertex_count() == nb_vertices,
            g.adj() == Seq::new(nb_vertices as nat, |i: int| Seq::<usize>::empty()),
            g.edges() == Set::<(usize, usize)>::empty(),
    {
        let mut g = Self::new();
        g.add_vertices(nb_vertices);
        assert(g.adj() =~= Seq::new(nb_vertices as nat, |i: int| Seq::<usize>::empty()));
        g
    }

    /// Creates a graph from a list of edges: the graph grows to hold the
    /// largest vertex named, and each edge is added in turn.
    pub fn from_vec(edges: Vec<(usize, usize)>) -> (g: Self)
        requires
            forall|i: int| 0 <= i < edges.len() ==> (#[trigger] edges@[i]).0 < usize::MAX - 1 && edges@[i].1 < usize::MAX - 1,
            edges.len() < usize::MAX,
        ensures
            g.wf(),
            g.edges() == Set::new(|e: (usize, usize)| edges@.contains(e)),
            g.vertex_count() == span(edges@, edges.len() as int),
    {
        let mut graph = Self::new();
        let mut i: usize = 0;
        while i < edges.len()
            invariant
                i <= edges.len(),
                edges.len() < usize::MAX,
                forall|j: int| 0 <= j < edges.len() ==> (#[trigger] edges@[j]).0 < usize::MAX - 1 && edges@[j].1 < usize::MAX - 1,
                graph.wf(),
                graph.edges().len() <= i,
                graph.edges() == Set::new(|e: (usize, usize)| edges@.subrange(0, i as int).contains(e)),
                graph.vertex_count() == span(edges@, i as int),
            decreases edges.len() - i,
        {
            let (source, target) = edges[i];
            let max_vertex = if source > target { source } else { target };
            if max_vertex >= graph.nb_vertices {
                graph.add_vertices(max_vertex - graph.nb_vertices + 1);
            }
            proof { graph.lemma_wf(); }
            graph.add_edge(source, target);
            proof {
                let s1 = edges@.subrange(0, i as int + 1);
                let s0 = edges@.subrange(0, i as int);
                assert forall|e: (usize, usize)| s1.contains(e) <==> (s0.contains(e) || e == edges@[i as int]) by {
                    if s1.contains(e) {
                        let k = choose|k: int| 0 <= k < s1.len() && s1[k] == e;
                        if k < i {
                            assert(s0[k] == e);
                        }
                    }
                    if s0.contains(e) {
                        let k = choose|k: int| 0 <= k < s0.len() && s0[k] == e;
                        assert(s1[k] == e);
                    }
                    assert(s1[i as int] == edges@[i as int]);
                }
                assert(graph.edges() =~= Set::new(|e: (usize, usize)| edges@.subrange(0, i as int + 1).contains(e)));
            }
            i = i + 1;
        }
        assert(edges@.subrange(0, edges.len() as int) =~= edges@);
        graph
    }

    /// The graph with the same vertices and every edge reversed.
    pub fn reverse(&self) -> (r: Self)
        requires
            self.wf(),
        ensures
            r.wf(),
            r.vertex_count() == self.vertex_count(),
            r.edges() == flipped(self.edges()),
    {
        let ghost adj = self.adj();
        let ghost all = self.edges();
        let n = self.nb_vertices;
        let mut rev = Self::init(n);
        let mut v: usize = 0;
        while v < n
            invariant
                self.wf(),
                adj == self.adj(),
                all == self.edges(),
                n == self.vertex_count(),
                v <= n,
                rev.wf(),
                rev.vertex_count() == n,
                rev.edges() == flipped(done_edges(adj, v as int, 0)),
            decreases n - v,
        {
            let row = &self.out_edges[v];
            let mut j: usize = 0;
            while j < row.len()
                invariant
                    self.wf(),
                    adj == self.adj(),
                    all == self.edges(),
                    n == self.vertex_count(),
                    v < n,
                    row@ == adj[v as int],
                    j <= row.len(),
                    rev.wf(),
                    rev.vertex_count() == n,
                    rev.edges() == flipped(done_edges(adj, v as int, j as int)),
                decreases row.len() - j,
            {
                let w = row[j];
                proof {
                    self.lemma_wf();
                    let done = done_edges(adj, v as int, j as int);
                    let x = (v, w);
                    assert(adj[v as int][j as int] == w);
                    assert(all.contains(x));
                    assert(!adj[v as int].subrange(0, j as int).contains(w)) by {
                        if adj[v as int].subrange(0, j as int).contains(w) {
                            let k = choose|k: int| 0 <= k < j && #[trigger] adj[v as int].subrange(0, j as int)[k] == w;
                            assert(adj[v as int][k] == adj[v as int][j as int]);
                        }
                    }
                    assert(done.subset_of(all.remove(x)));
                    vstd::set_lib::lemma_len_subset(done, all.remove(x));
                    lemma_flipped_len(done);
                    lemma_done_edges_step(adj, v, j as int);
                }
                rev.add_edge(w, v);
                j = j + 1;
            }
            proof {
                assert(adj[v as int].subrange(0, adj[v as int].len() as int) =~= adj[v as int]);
                assert(done_edges(adj, v as int, adj[v as int].len() as int) =~= done_edges(adj, v as int + 1, 0));
            }
            v = v + 1;
        }
        proof {
            assert(done_edges(adj, n as int, 0) =~= all);
        }
        rev
    }

    /// Returns the number of edges.
    pub fn nb_edges(&self) -> (r: usize)
        requires
            self.wf(),
        ensures
            r == self.edges().len(),
    {
        self.nb_edges
    }

    /// Returns the number of vertices.
    pub fn nb_vertices(&self) -> (r: usize)
        requires
            self.wf(),
        ensures
            r == self.vertex_count(),
    {
        self.nb_vertices
    }

    /// Adds an edge from `source` to `target`; adding an edge that is already
    /// there changes nothing.
    pub fn add_edge(&mut self, source: usize, target: usize)
        requires
            old(self).wf(),
            source < old(self).vertex_count(),
            target < old(self).vertex_count(),
            old(self).edges().len() < usize::MAX,
        ensures
            final(self).wf(),
            final(self).edges() == old(self).edges().insert((source, target)),
            final(self).adj() == if old(self).adj()[source as int].contains(target) {
                old(self).adj()
            } else {
                add_to_row(old(self).adj(), source as int, target)
            },
    {
        let ghost adj0 = self.adj();
        if !contains_vertex(&self.out_edges[source], target) {
            let ghost deg0 = self.in_degree@;
            self.out_edges[source].push(target);
            proof {
                let adj1 = add_to_row(adj0, source as int, target);
                assert(self.adj() =~= adj1);
                lemma_edge_set_add(adj0, source, target);
                assert(!edge_set(adj0).contains((source, target)));
                lemma_in_count_bound(adj0, target, adj0.len() as int);
                assert forall|v: int| 0 <= v < adj1.len() implies (#[trigger] adj1[v]).no_duplicates() by {
                    if v == source as int {
                        let r = adj0[v];
                        assert forall|a: int, b: int| 0 <= a < r.push(target).len() && 0 <= b < r.push(target).len() && a != b
                            implies r.push(target)[a] != r.push(target)[b] by {
                            if a < r.len() && b == r.len() {
                                assert(r.contains(r[a]));
                            }
                            if b < r.len() && a == r.len() {
                                assert(r.contains(r[b]));
                            }
                        }
                    }
                }
                assert forall|u: int, j: int| 0 <= u < adj1.len() && 0 <= j < adj1[u].len() implies #[trigger] adj1[u][j] < adj1.len() by {
                    if u == source as int && j < adj0[u].len() {
                        assert(adj1[u][j] == adj0[u][j]);
                    }
                }
            }
            self.in_degree[target] = self.in_degree[target] + 1;
            self.nb_edges = self.nb_edges + 1;
            proof {
                let adj1 = self.adj();
                assert forall|v: int| 0 <= v < adj1.len() implies #[trigger] self.in_degree@[v] == in_count(
                    adj1,
                    v as usize,
                    adj1.len() as int,
                ) by {
                    lemma_in_count_add(adj0, source as int, target, v as usize, adj0.len() as int);
                }
                lemma_seq_sum_bump(deg0, target as int, adj0.len() as int);
            }
        } else {
            proof {
                assert(edge_set(adj0).contains((source, target)));
                assert(edge_set(adj0).insert((source, target)) =~= edge_set(adj0));
            }
        }
    }

    /// Adds one vertex without edges.
    pub fn add_vertex(&mut self)
        requires
            old(self).wf(),
            old(self).vertex_count() + 1 < usize::MAX,
        ensures
            final(self).wf(),
            final(self).adj() == old(self).adj().push(Seq::<usize>::empty()),
    {
        self.add_vertices(1);
        assert(self.adj() =~= old(self).adj().push(Seq::<usize>::empty()));
    }

    /// Adds `nb` vertices without edges.
    pub fn add_vertices(&mut self, nb: usize)
        requires
            old(self).wf(),
            old(self).vertex_count() + nb < usize::MAX,
        ensures
            final(self).wf(),
            final(self).adj() == old(self).adj() + Seq::new(nb as nat, |i: int| Seq::<usize>::empty()),
            final(self).edges() == old(self).edges(),
    {
        let ghost adj0 = self.adj();
        let ghost deg0 = self.in_degree@;
        let n0 = self.nb_vertices;
        let mut k: usize = 0;
        while k < nb
            invariant
                k <= nb,
                n0 == adj0.len(),
                n0 + nb < usize::MAX,
                self.out_edges.len() == n0 + k,
                self.in_degree.len() == n0 + k,
                self.adj() == adj0 + Seq::new(k as nat, |i: int| Seq::<usize>::empty()),
                self.in_degree@ == deg0 + Seq::new(k as nat, |i: int| 0usize),
                self.nb_edges == old(self).nb_edges,
            decreases nb - k,
        {
            let ghost out0 = self.out_edges@;
            self.out_edges.push(Vec::new());
            self.in_degree.push(0);
            k = k + 1;
            proof {
                let target = adj0 + Seq::new(k as nat, |i: int| Seq::<usize>::empty());
                assert forall|i: int| 0 <= i < target.len() implies #[trigger] self.adj()[i] == target[i] by {
                    if i < out0.len() {
                        assert(self.out_edges@[i] == out0[i]);
                        assert(out0.map_values(|r: Vec<usize>| r@)[i] == out0[i]@);
                    }
                }
                assert(self.adj() =~= target);
            }
            assert(self.in_degree@ =~= deg0 + Seq::new(k as nat, |i: int| 0usize));
        }
        self.nb_vertices = n0 + nb;
        proof {
            let adj1 = self.adj();
            lemma_edge_set_extend(adj0, adj1);
            assert forall|u: int, j: int| 0 <= u < adj1.len() && 0 <= j < adj1[u].len() implies #[trigger] adj1[u][j] < adj1.len() by {
                assert(adj1[u] == adj0[u]);
            }
            assert forall|u: int| 0 <= u < adj1.len() implies (#[trigger] adj1[u]).no_duplicates() by {
                if u < adj0.len() {
                    assert(adj1[u] == adj0[u]);
                }
            }
            assert forall|v: int| 0 <= v < adj1.len() implies #[trigger] self.in_degree@[v] == in_count(
                adj1,
                v as usize,
                adj1.len() as int,
            ) by {
                lemma_in_count_extend(adj0, adj1, v as usize, adj0.len() as int, adj1.len() as int);
                if v >= adj0.len() {
                    assert(in_count(adj0, v as usize, adj0.len() as int) == 0) by {
                        lemma_in_count_zero(adj0, v as usize, adj0.len() as int);
                    }
                }
            }
            lemma_seq_sum_extend(deg0, self.in_degree@, adj0.len() as int, adj1.len() as int);
        }
    }

    /// The vertices that `vertex` points to.
    pub fn out_edges(&self, vertex: &usize) -> (r: &Vec<usize>)
        requires
            self.wf(),
            *vertex < self.vertex_count(),
        ensures
            r@ == self.adj()[*vertex as int],
    {
        let vertex = *vertex;
        &self.out_edges[vertex]
    }

    /// The vertices pointing to `vertex`, in increasing order.
    pub fn in_edges(&self, vertex: &usize) -> (r: Vec<usize>)
        requires
            self.wf(),
        ensures
            forall|u: usize| r@.contains(u) <==> self.edges().contains((u, *vertex)),
            forall|i: int, j: int| 0 <= i < j < r.len() ==> r@[i] < r@[j],
    {
        let vertex = *vertex;
        let mut r: Vec<usize> = Vec::new();
        let mut u: usize = 0;
        while u < self.nb_vertices
            invariant
                self.wf(),
                u <= self.nb_vertices,
                forall|w: usize| r@.contains(w) <==> (w < u && self.edges().contains((w, vertex))),
                forall|i: int, j: int| 0 <= i < j < r.len() ==> r@[i] < r@[j],
                forall|i: int| 0 <= i < r.len() ==> r@[i] < u,
            decreases self.nb_vertices - u,
        {
            assert(self.adj()[u as int] == self.out_edges@[u as int]@);
            if contains_vertex(&self.out_edges[u], vertex) {
                let ghost r0 = r@;
                r.push(u);
                proof {
                    assert forall|w: usize| r@.contains(w) <==> (w < u + 1 && self.edges().contains((w, vertex))) by {
                        crate::graph::lemma_push_contains(r0, u, w);
                    }
                }
            } else {
                assert forall|w: usize| r@.contains(w) <==> (w < u + 1 && self.edges().contains((w, vertex))) by {
                    if w == u {
                        assert(!self.edges().contains((w, vertex)));
                    }
                }
            }
            u = u + 1;
        }
        r
    }

    /// Number of vertices `vertex` points to.
    pub fn out_degree(&self, vertex: &usize) -> (r: usize)
        requires
            self.wf(),
            *vertex < self.vertex_count(),
        ensures
            r == self.adj()[*vertex as int].len(),
    {
        let vertex = *vertex;
        self.out_edges[vertex].len()
    }

    /// Number of vertices pointing to `vertex`.
    pub fn in_degree(&self, vertex: &usize) -> (r: usize)
        requires
            self.wf(),
            *vertex < self.vertex_count(),
        ensures
            r == self.in_degree_of(*vertex),
    {
        let vertex = *vertex;
        self.in_degree[vertex]
    }

    /// Integer part of the number of edges per vertex.
    pub fn average_degree(&self) -> (r: usize)
        requires
            self.wf(),
            self.vertex_count() > 0,
        ensures
            r == self.edges().len() / self.vertex_count(),
    {
        self.nb_edges / self.nb_vertices
    }

    /// Number of vertices with an edge to themselves.
    pub fn self_loop_number(&self) -> (r: usize)
        requires
            self.wf(),
        ensures
            r == loop_count(self.adj(), self.vertex_count() as int),
    {
        let mut count: usize = 0;
        let mut v: usize = 0;
        while v < self.nb_vertices
            invariant
                self.wf(),
                v <= self.nb_vertices,
                count == loop_count(self.adj(), v as int),
                count <= v,
            decreases self.nb_vertices - v,
        {
            assert(self.adj()[v as int] == self.out_edges@[v as int]@);
            if contains_vertex(&self.out_edges[v], v) {
                count = count + 1;
            }
            v = v + 1;
        }
        count
    }
}

/// Sum of the in-degrees of the first `k` vertices.
pub open spec fn in_degree_sum(g: DiGraph, k: int) -> int
    decreases k,
{
    if k <= 0 {
        0
    } else {
        in_degree_sum(g, k - 1) + g.in_degree_of((k - 1) as usize)
    }
}

proof fn lemma_in_degree_sum(g: DiGraph, k: int)
    requires
        g.wf(),
        0 <= k <= g.vertex_count(),
    ensures
        in_degree_sum(g, k) == seq_sum(g.in_degree@, k),
    decreases k,
{
    if k > 0 {
        lemma_in_degree_sum(g, k - 1);
    }
}

/// However often an edge is added, it is counted once: the edge count is
/// the number of distinct (origin, destination) pairs that were added.
pub proof fn lemma_edge_count_is_distinct_pairs(g: DiGraph, added: Seq<(usize, usize)>)
    requires
        g.wf(),
        g.edges() == added.to_set(),
    ensures
        g.edge_count() == added.to_set().len(),
{
}

/// The in-degrees of all vertices add up to the number of edges.
pub proof fn lemma_in_degrees_sum_to_edges(g: DiGraph)
    requires
        g.wf(),
    ensures
        in_degree_sum(g, g.vertex_count() as int) == g.edges().len(),
{
    lemma_in_degree_sum(g, g.vertex_count() as int);
}

/// Reversing a graph twice gives back its vertices and its edges.
pub proof fn lemma_reverse_twice(g: DiGraph, once: DiGraph, twice: DiGraph)
    requires
        g.wf(),
        once.vertex_count() == g.vertex_count(),
        once.edges() == flipped(g.edges()),
        twice.vertex_count() == once.vertex_count(),
        twice.edges() == flipped(once.edges()),
    ensures
        twice.vertex_count() == g.vertex_count(),
        twice.edges() == g.edges(),
{
    crate::graph::lemma_flipped_twice(g.edges());
}

impl VertexInfo for DiGraph {
    open spec fn adjacency(&self) -> Seq<Seq<usize>> {
        self.adj()
    }

    open spec fn well_formed(&self) -> bool {
        self.wf()
    }

    proof fn lemma_adjacency_valid(&self) {
    }

    fn vertex_edges(&self, vertex: usize) -> (r: Vec<usize>) {
        self.out_edges[vertex].clone()
    }

    fn nb_vertices(&self) -> (r: usize) {
        self.nb_vertices
    }
}


/// Number of entries of `row` equal to `v`.
pub open spec fn occurrences(row: Seq<usize>, v: usize) -> nat
    decreases row.len(),
{
    if row.len() == 0 {
        0
    } else {
        occurrences(row.drop_last(), v) + if row.last() == v {
            1nat
        } else {
            0nat
        }
    }
}

/// Number of edges into `v` from the first `k` vertices, parallel edges included.
pub open spec fn in_multi_count(adj: Seq<Seq<usize>>, v: usize, k: int) -> nat
    decreases k,
{
    if k <= 0 {
        0
    } else {
        in_multi_count(adj, v, k - 1) + occurrences(adj[k - 1], v)
    }
}

proof fn lemma_in_multi_add(adj: Seq<Seq<usize>>, s: int, t: usize, v: usize, k: int)
    requires
        0 <= s < adj.len(),
        k <= adj.len(),
    ensures
        in_multi_count(add_to_row(adj, s, t), v, k) == in_multi_count(adj, v, k) + if v == t && s < k {
            1nat
        } else {
            0nat
        },
    decreases k,
{
    if k > 0 {
        lemma_in_multi_add(adj, s, t, v, k - 1);
        assert(adj[s].push(t).drop_last() =~= adj[s]);
    }
}

proof fn lemma_occurrences_bound(row: Seq<usize>, v: usize)
    ensures
        occurrences(row, v) <= row.len(),
    decreases row.len(),
{
    if row.len() > 0 {
        lemma_occurrences_bound(row.drop_last(), v);
    }
}

proof fn lemma_occurrences_none(row: Seq<usize>, v: usize)
    requires
        !row.contains(v),
    ensures
        occurrences(row, v) == 0,
    decreases row.len(),
{
    if row.len() > 0 {
        assert(!row.drop_last().contains(v)) by {
            if row.drop_last().contains(v) {
                let i = choose|i: int| 0 <= i < row.drop_last().len() && #[trigger] row.drop_last()[i] == v;
                assert(row[i] == v);
            }
        }
        lemma_occurrences_none(row.drop_last(), v);
        assert(row[row.len() - 1] == row.last());
    }
}

proof fn lemma_in_multi_extend(adj: Seq<Seq<usize>>, adj2: Seq<Seq<usize>>, v: usize, n: int, k: int)
    requires
        0 <= n <= k <= adj2.len(),
        n == adj.len(),
        forall|i: int| 0 <= i < n ==> adj2[i] == adj[i],
        forall|i: int| n <= i < adj2.len() ==> adj2[i].len() == 0,
    ensures
        in_multi_count(adj2, v, k) == in_multi_count(adj, v, n),
    decreases k,
{
    if k > n {
        lemma_in_multi_extend(adj, adj2, v, n, k - 1);
    } else {
        lemma_in_multi_prefix(adj, adj2, v, k);
    }
}

proof fn lemma_in_multi_prefix(adj: Seq<Seq<usize>>, adj2: Seq<Seq<usize>>, v: usize, k: int)
    requires
        0 <= k <= adj.len(),
        k <= adj2.len(),
        forall|i: int| 0 <= i < k ==> adj2[i] == adj[i],
    ensures
        in_multi_count(adj2, v, k) == in_multi_count(adj, v, k),
    decreases k,
{
    if k > 0 {
        lemma_in_multi_prefix(adj, adj2, v, k - 1);
    }
}

proof fn lemma_in_multi_zero(adj: Seq<Seq<usize>>, v: usize, k: int)
    requires
        valid_adjacency(adj),
        v >= adj.len(),
        k <= adj.len(),
    ensures
        in_multi_count(adj, v, k) == 0,
    decreases k,
{
    if k > 0 {
        lemma_in_multi_zero(adj, v, k - 1);
        assert(!adj[k - 1].contains(v)) by {
            if adj[k - 1].contains(v) {
                let i = choose|i: int| 0 <= i < adj[k - 1].len() && #[trigger] adj[k - 1][i] == v;
                assert(adj[k - 1][i] < adj.len());
            }
        }
        lemma_occurrences_none(adj[k - 1], v);
    }
}

proof fn lemma_in_multi_bound(adj: Seq<Seq<usize>>, v: usize, k: int, total: int)
    requires
        0 <= k <= adj.len(),
        total == row_len_sum(adj, k),
    ensures
        in_multi_count(adj, v, k) <= total,
    decreases k,
{
    if k > 0 {
        lemma_in_multi_bound(adj, v, k - 1, row_len_sum(adj, k - 1));
        lemma_occurrences_bound(adj[k - 1], v);
    }
}

/// Total length of the first `k` rows.
pub open spec fn row_len_sum(adj: Seq<Seq<usize>>, k: int) -> int
    decreases k,
{
    if k <= 0 {
        0
    } else {
        row_len_sum(adj, k - 1) + adj[k - 1].len()
    }
}

/// A directed edge carrying a weight.
#[derive(Clone, Copy, PartialEq, Eq, Structural, Debug, Hash)]
pub struct WeightedDiEdge {
    from: usize,
    to: usize,
    weight: i64,
}

impl WeightedDiEdge {
    pub closed spec fn origin(&self) -> usize {
        self.from
    }

    pub closed spec fn destination(&self) -> usize {
        self.to
    }

    pub closed spec fn cost(&self) -> i64 {
        self.weight
    }

    /// The edge with these ends and weight.
    pub closed spec fn make(origin: usize, destination: usize, weight: i64) -> Self {
        WeightedDiEdge { from: origin, to: destination, weight }
    }

    /// Creates an edge from `origin` to `destination` with the given weight.
    pub fn init(origin: usize, destination: usize, weight: i64) -> (e: Self)
        ensures
            e == Self::make(origin, destination, weight),
            e.origin() == origin,
            e.destination() == destination,
            e.cost() == weight,
    {
        WeightedDiEdge { from: origin, to: destination, weight }
    }

    /// The destination of the edge.
    pub fn to(&self) -> (r: &usize)
        ensures
            *r == self.destination(),
    {
        &self.to
    }

    /// The origin of the edge.
    pub fn from(&self) -> (r: &usize)
        ensures
            *r == self.origin(),
    {
        &self.from
    }

    /// The weight of the edge.
    pub fn weight(&self) -> (r: &i64)
        ensures
            *r == self.cost(),
    {
        &self.weight
    }
}

fn contains_edge(row: &Vec<WeightedDiEdge>, e: WeightedDiEdge) -> (r: bool)
    ensures
        r == row@.contains(e),
{
    let mut i: usize = 0;
    while i < row.len()
        invariant
            i <= row.len(),
            forall|j: int| 0 <= j < i ==> row@[j] != e,
        decreases row.len() - i,
    {
        if row[i] == e {
            return true;
        }
        i = i + 1;
    }
    false
}

/// The destinations of the edges of each row.
pub open spec fn destinations(rows: Seq<Seq<WeightedDiEdge>>) -> Seq<Seq<usize>> {
    rows.map_values(|r: Seq<WeightedDiEdge>| r.map_values(|e: WeightedDiEdge| e.destination()))
}

/// Directed graph whose edges carry weights. Two edges between the same
/// vertices with different weights are distinct and both kept.
pub struct EdgeWeightedDiGraph {
    out_edges: Vec<Vec<WeightedDiEdge>>,
    nb_edges: usize,
    nb_vertices: usize,
    in_degree: Vec<usize>,
}

impl EdgeWeightedDiGraph {
    /// For each vertex, the edges leaving it, in insertion order.
    pub closed spec fn rows(&self) -> Seq<Seq<WeightedDiEdge>> {
        self.out_edges@.map_values(|r: Vec<WeightedDiEdge>| r@)
    }

    /// For each vertex, the destinations of the edges leaving it.
    pub open spec fn adj(&self) -> Seq<Seq<usize>> {
        destinations(self.rows())
    }

    /// The edges, as (origin, destination, weight) triples.
    pub closed spec fn edges(&self) -> Set<(usize, usize, i64)> {
        Set::new(
            |e: (usize, usize, i64)|
                e.0 < self.rows().len() && self.rows()[e.0 as int].contains(
                    WeightedDiEdge { from: e.0, to: e.1, weight: e.2 },
                ),
        )
    }

    /// An edge is a triple of the set exactly when the list of its origin
    /// holds the edge with that destination and weight.
    pub proof fn lemma_edges_rows(&self, u: usize, v: usize, w: i64)
        ensures
            self.edges().contains((u, v, w)) <==> (u < self.rows().len() && self.rows()[u as int].contains(
                WeightedDiEdge::make(u, v, w),
            )),
            WeightedDiEdge::make(u, v, w).origin() == u,
            WeightedDiEdge::make(u, v, w).destination() == v,
            WeightedDiEdge::make(u, v, w).cost() == w,
    {
    }

    pub open spec fn vertex_count(&self) -> nat {
        self.rows().len()
    }

    /// Some edge leads from `u` to `v`.
    pub open spec fn points_to(&self, u: usize, v: usize) -> bool {
        exists|w: i64| self.edges().contains((u, v, w))
    }

    /// Number of edges into `v`, parallel edges included.
    pub open spec fn in_degree_of(&self, v: usize) -> nat {
        in_multi_count(self.adj(), v, self.adj().len() as int)
    }

    pub closed spec fn wf(&self) -> bool {
        let rows = self.rows();
        &&& self.out_edges.len() == self.nb_vertices
        &&& self.in_degree.len() == self.nb_vertices
        &&& self.nb_vertices < usize::MAX
        &&& forall|u: int, i: int|
            0 <= u < rows.len() && 0 <= i < rows[u].len() ==> (#[trigger] rows[u][i]).from == u
                && rows[u][i].to < rows.len()
        &&& forall|u: int| 0 <= u < rows.len() ==> (#[trigger] rows[u]).no_duplicates()
        &&& self.edges().finite()
        &&& self.nb_edges == self.edges().len()
        &&& row_len_sum(self.adj(), rows.len() as int) == self.nb_edges
        &&& seq_sum(self.in_degree@, rows.len() as int) == self.nb_edges
        &&& forall|v: int|
            0 <= v < rows.len() ==> #[trigger] self.in_degree@[v] == in_multi_count(
                self.adj(),
                v as usize,
                rows.len() as int,
            )
    }

    pub proof fn lemma_wf(&self)
        requires
            self.wf(),
        ensures
            valid_adjacency(self.adj()),
            self.adj().len() == self.rows().len(),
            forall|u: int| 0 <= u < self.rows().len() ==> (#[trigger] self.adj()[u]).len() == self.rows()[u].len(),
            forall|u: int, i: int|
                0 <= u < self.rows().len() && 0 <= i < self.rows()[u].len() ==> (#[trigger] self.rows()[u][i]).origin() == u
                    && self.rows()[u][i].destination() == self.adj()[u][i],
            self.edges().finite(),
            self.rows().len() < usize::MAX,
    {
        let rows = self.rows();
        let adj = self.adj();
        assert forall|u: int, i: int| 0 <= u < adj.len() && 0 <= i < adj[u].len() implies #[trigger] adj[u][i] < adj.len() by {
            assert(adj[u][i] == rows[u][i].to);
        }
    }

    /// Creates an empty graph.
    pub fn new() -> (g: Self)
        ensures
            g.wf(),
            g.vertex_count() == 0,
            g.edges() == Set::<(usize, usize, i64)>::empty(),
    {
        let g = EdgeWeightedDiGraph { out_edges: Vec::new(), nb_edges: 0, nb_vertices: 0, in_degree: Vec::new() };
        assert(g.edges() =~= Set::<(usize, usize, i64)>::empty());
        g
    }

    /// Creates a graph with `nb_vertices` vertices and no edge.
    pub fn init(nb_vertices: usize) -> (g: Self)
        requires
            nb_vertices < usize::MAX,
        ensures
            g.wf(),
            g.vertex_count() == nb_vertices,
            g.rows() == Seq::new(nb_vertices as nat, |i: int| Seq::<WeightedDiEdge>::empty()),
            g.edges() == Set::<(usize, usize, i64)>::empty(),
    {
        let mut g = Self::new();
        g.add_vertices(nb_vertices);
        assert(g.rows() =~= Seq::new(nb_vertices as nat, |i: int| Seq::<WeightedDiEdge>::empty()));
        g
    }

    /// Creates a graph from a list of (origin, destination, weight) triples:
    /// the graph grows to hold the largest vertex named, and each edge is
    /// added in turn.
    pub fn from_vec(edges: Vec<(usize, usize, i64)>) -> (g: Self)
        requires
            forall|i: int| 0 <= i < edges.len() ==> (#[trigger] edges@[i]).0 < usize::MAX - 1 && edges@[i].1 < usize::MAX - 1,
            edges.len() < usize::MAX,
        ensures
            g.wf(),
            g.edges() == edges@.to_set(),
            g.vertex_count() == span(ends_of(edges@), edges.len() as int),
    {
        let mut graph = Self::new();
        let mut i: usize = 0;
        while i < edges.len()
            invariant
                i <= edges.len(),
                edges.len() < usize::MAX,
                forall|j: int| 0 <= j < edges.len() ==> (#[trigger] edges@[j]).0 < usize::MAX - 1 && edges@[j].1 < usize::MAX - 1,
                graph.wf(),
                graph.edges().len() <= i,
                graph.edges() == edges@.subrange(0, i as int).to_set(),
                graph.vertex_count() == span(ends_of(edges@), i as int),
            decreases edges.len() - i,
        {
            let (source, target, weight) = edges[i];
            let max_vertex = if source > target { source } else { target };
            if max_vertex >= graph.nb_vertices {
                graph.add_vertices(max_vertex - graph.nb_vertices + 1);
            }
            proof {
                graph.lemma_wf();
                vstd::set_lib::lemma_len_subset(graph.edges(), graph.edges());
            }
            graph.add_edge(source, target, weight);
            proof {
                let s1 = edges@.subrange(0, i as int + 1);
                let s0 = edges@.subrange(0, i as int);
                assert(s1 =~= s0.push(edges@[i as int]));
                assert(s1.to_set() =~= s0.to_set().insert(edges@[i as int])) by {
                    assert forall|e: (usize, usize, i64)| s1.to_set().contains(e) <==> s0.to_set().insert(edges@[i as int]).contains(e) by {
                        if s1.contains(e) {
                            let k = choose|k: int| 0 <= k < s1.len() && s1[k] == e;
                            if k < i {
                                assert(s0[k] == e);
                            }
                        }
                        if s0.contains(e) {
                            let k = choose|k: int| 0 <= k < s0.len() && s0[k] == e;
                            assert(s1[k] == e);
                        }
                        assert(s1[i as int] == edges@[i as int]);
                    }
                }
            }
            i = i + 1;
        }
        assert(edges@.subrange(0, edges.len() as int) =~= edges@);
        graph
    }

    /// Returns the number of edges.
    pub fn nb_edges(&self) -> (r: usize)
        requires
            self.wf(),
        ensures
            r == self.edges().len(),
    {
        self.nb_edges
    }

    /// Returns the number of vertices.
    pub fn nb_vertices(&self) -> (r: usize)
        requires
            self.wf(),
        ensures
            r == self.vertex_count(),
    {
        self.nb_vertices
    }

    /// Adds an edge from `source` to `target` with the given weight; adding
    /// an edge with the same ends and weight again changes nothing.
    pub fn add_edge(&mut self, source: usize, target: usize, weight: i64)
        requires
            old(self).wf(),
            source < old(self).vertex_count(),
            target < old(self).vertex_count(),
            old(self).edges().len() < usize::MAX,
        ensures
            final(self).wf(),
            final(self).edges() == old(self).edges().insert((source, target, weight)),
            final(self).rows() == if old(self).edges().contains((source, target, weight)) {
                old(self).rows()
            } else {
                old(self).rows().update(
                    source as int,
                    old(self).rows()[source as int].push(WeightedDiEdge::make(source, target, weight)),
                )
            },
    {
        let ghost rows0 = self.rows();
        let ghost adj0 = self.adj();
        let edge = WeightedDiEdge::init(source, target, weight);
        if !contains_edge(&self.out_edges[source], edge) {
            let ghost deg0 = self.in_degree@;
            self.out_edges[source].push(edge);
            proof {
                let rows1 = rows0.update(source as int, rows0[source as int].push(edge));
                assert(self.rows() =~= rows1);
                let adj1 = add_to_row(adj0, source as int, target);
                assert(rows0[source as int].push(edge).map_values(|e: WeightedDiEdge| e.destination()) =~= adj0[source as int].push(target));
                assert(self.adj() =~= adj1);
                assert forall|e: (usize, usize, i64)| #[trigger] self.edges().contains(e) <==> old(self).edges().insert((source, target, weight)).contains(e) by {
                    if e.0 == source {
                        let we = WeightedDiEdge { from: e.0, to: e.1, weight: e.2 };
                        if rows1[source as int].contains(we) && we != edge {
                            let k = choose|k: int| 0 <= k < rows1[source as int].len() && rows1[source as int][k] == we;
                            assert(rows0[source as int][k] == we);
                        }
                        if rows0[source as int].contains(we) {
                            let k = choose|k: int| 0 <= k < rows0[source as int].len() && rows0[source as int][k] == we;
                            assert(rows1[source as int][k] == we);
                        }
                        assert(rows1[source as int][rows0[source as int].len() as int] == edge);
                    }
                }
                assert(self.edges() =~= old(self).edges().insert((source, target, weight)));
                assert(!old(self).edges().contains((source, target, weight)));
                lemma_row_len_sum_add(adj0, source as int, target, adj0.len() as int);
                lemma_in_multi_bound(adj0, target, adj0.len() as int, row_len_sum(adj0, adj0.len() as int));
                assert forall|u: int| 0 <= u < rows1.len() implies (#[trigger] rows1[u]).no_duplicates() by {
                    if u == source as int {
                        let r = rows0[u];
                        assert forall|a: int, b: int| 0 <= a < r.push(edge).len() && 0 <= b < r.push(edge).len() && a != b
                            implies r.push(edge)[a] != r.push(edge)[b] by {
                            if a < r.len() && b == r.len() {
                                assert(r.contains(r[a]));
                            }
                            if b < r.len() && a == r.len() {
                                assert(r.contains(r[b]));
                            }
                        }
                    }
                }
                assert forall|u: int, i: int| 0 <= u < rows1.len() && 0 <= i < rows1[u].len() implies (#[trigger] rows1[u][i]).from == u
                    && rows1[u][i].to < rows1.len() by {
                    if u == source as int && i < rows0[u].len() {
                        assert(rows1[u][i] == rows0[u][i]);
                    }
                }
            }
            self.in_degree[target] = self.in_degree[target] + 1;
            self.nb_edges = self.nb_edges + 1;
            proof {
                let adj1 = self.adj();
                assert forall|v: int| 0 <= v < adj1.len() implies #[trigger] self.in_degree@[v] == in_multi_count(
                    adj1,
                    v as usize,
                    adj1.len() as int,
                ) by {
                    lemma_in_multi_add(adj0, source as int, target, v as usize, adj0.len() as int);
                }
                lemma_seq_sum_bump(deg0, target as int, adj0.len() as int);
            }
        } else {
            proof {
                assert(self.edges().contains((source, target, weight)));
                assert(self.edges().insert((source, target, weight)) =~= self.edges());
            }
        }
    }

    /// Adds `nb` vertices without edges.
    pub fn add_vertices(&mut self, nb: usize)
        requires
            old(self).wf(),
            old(self).vertex_count() + nb < usize::MAX,
        ensures
            final(self).wf(),
            final(self).rows() == old(self).rows() + Seq::new(nb as nat, |i: int| Seq::<WeightedDiEdge>::empty()),
            final(self).edges() == old(self).edges(),
    {
        let ghost rows0 = self.rows();
        let ghost adj0 = self.adj();
        let ghost deg0 = self.in_degree@;
        let n0 = self.nb_vertices;
        let mut k: usize = 0;
        while k < nb
            invariant
                k <= nb,
                n0 == rows0.len(),
                n0 + nb < usize::MAX,
                self.out_edges.len() == n0 + k,
                self.in_degree.len() == n0 + k,
                self.rows() == rows0 + Seq::new(k as nat, |i: int| Seq::<WeightedDiEdge>::empty()),
                self.in_degree@ == deg0 + Seq::new(k as nat, |i: int| 0usize),
                self.nb_edges == old(self).nb_edges,
            decreases nb - k,
        {
            let ghost out0 = self.out_edges@;
            self.out_edges.push(Vec::new());
            self.in_degree.push(0);
            k = k + 1;
            proof {
                let target = rows0 + Seq::new(k as nat, |i: int| Seq::<WeightedDiEdge>::empty());
                assert forall|i: int| 0 <= i < target.len() implies #[trigger] self.rows()[i] == target[i] by {
                    if i < out0.len() {
                        assert(self.out_edges@[i] == out0[i]);
                        assert(out0.map_values(|r: Vec<WeightedDiEdge>| r@)[i] == out0[i]@);
                    }
                }
                assert(self.rows() =~= target);
                assert(self.in_degree@ =~= deg0 + Seq::new(k as nat, |i: int| 0usize));
            }
        }
        self.nb_vertices = n0 + nb;
        proof {
            old(self).lemma_wf();
            let rows1 = self.rows();
            let adj1 = self.adj();
            assert(self.edges() =~= old(self).edges());
            assert forall|u: int, i: int| 0 <= u < rows1.len() && 0 <= i < rows1[u].len() implies (#[trigger] rows1[u][i]).from == u
                && rows1[u][i].to < rows1.len() by {
                assert(rows1[u] == rows0[u]);
            }
            assert forall|u: int| 0 <= u < rows1.len() implies (#[trigger] rows1[u]).no_duplicates() by {
                if u < rows0.len() {
                    assert(rows1[u] == rows0[u]);
                }
            }
            assert forall|i: int| 0 <= i < adj0.len() implies adj1[i] == adj0[i] by {
                assert(rows1[i] == rows0[i]);
            }
            assert forall|i: int| adj0.len() <= i < adj1.len() implies adj1[i].len() == 0 by {
                assert(rows1[i].len() == 0);
            }
            lemma_row_len_sum_extend(adj0, adj1, adj0.len() as int, adj1.len() as int);
            lemma_seq_sum_extend(deg0, self.in_degree@, adj0.len() as int, adj1.len() as int);
            assert forall|v: int| 0 <= v < adj1.len() implies #[trigger] self.in_degree@[v] == in_multi_count(
                adj1,
                v as usize,
                adj1.len() as int,
            ) by {
                lemma_in_multi_extend(adj0, adj1, v as usize, adj0.len() as int, adj1.len() as int);
                if v >= adj0.len() {
                    lemma_in_multi_zero(adj0, v as usize, adj0.len() as int);
                }
            }
        }
    }

    /// Adds one vertex without edges.
    pub fn add_vertex(&mut self)
        requires
            old(self).wf(),
            old(self).vertex_count() + 1 < usize::MAX,
        ensures
            final(self).wf(),
            final(self).rows() == old(self).rows().push(Seq::<WeightedDiEdge>::empty()),
    {
        self.add_vertices(1);
        assert(self.rows() =~= old(self).rows().push(Seq::<WeightedDiEdge>::empty()));
    }

    /// The edges leaving `vertex`.
    pub fn out_edges(&self, vertex: &usize) -> (r: &Vec<WeightedDiEdge>)
        requires
            self.wf(),
            *vertex < self.vertex_count(),
        ensures
            r@ == self.rows()[*vertex as int],
    {
        let vertex = *vertex;
        &self.out_edges[vertex]
    }

    /// For each vertex with an edge into `vertex`, one such edge, by
    /// increasing origin.
    pub fn in_edges(&self, vertex: &usize) -> (r: Vec<WeightedDiEdge>)
        requires
            self.wf(),
        ensures
            forall|i: int| 0 <= i < r.len() ==> self.edges().contains(((#[trigger] r@[i]).origin(), r@[i].destination(), r@[i].cost())) && r@[i].destination() == *vertex,
            forall|i: int, j: int| 0 <= i < j < r.len() ==> r@[i].origin() < r@[j].origin(),
            forall|u: usize| #[trigger] self.points_to(u, *vertex) <==> (exists|i: int| 0 <= i < r.len() && (#[trigger] r@[i]).origin() == u),
    {
        let vertex = *vertex;
        let mut r: Vec<WeightedDiEdge> = Vec::new();
        let mut u: usize = 0;
        while u < self.nb_vertices
            invariant
                self.wf(),
                u <= self.nb_vertices,
                forall|i: int| 0 <= i < r.len() ==> self.edges().contains(((#[trigger] r@[i]).origin(), r@[i].destination(), r@[i].cost())) && r@[i].destination() == vertex,
                forall|i: int, j: int| 0 <= i < j < r.len() ==> r@[i].origin() < r@[j].origin(),
                forall|i: int| 0 <= i < r.len() ==> (#[trigger] r@[i]).origin() < u,
                forall|x: usize| x < u ==> (#[trigger] self.points_to(x, vertex) <==> (exists|i: int| 0 <= i < r.len() && (#[trigger] r@[i]).origin() == x)),
            decreases self.nb_vertices - u,
        {
            let row = &self.out_edges[u];
            assert(row@ == self.rows()[u as int]);
            let mut j: usize = 0;
            while j < row.len() && row[j].to != vertex
                invariant
                    self.wf(),
                    u < self.nb_vertices,
                    row@ == self.rows()[u as int],
                    j <= row.len(),
                    forall|k: int| 0 <= k < j ==> (#[trigger] row@[k]).to != vertex,
                decreases row.len() - j,
            {
                j = j + 1;
            }
            proof {
                self.lemma_wf();
            }
            if j < row.len() {
                let e = row[j];
                proof {
                    assert(self.rows()[u as int][j as int] == e);
                    assert(e.from == u);
                    assert(self.edges().contains((e.from, e.to, e.weight)));
                }
                let ghost r0 = r@;
                r.push(e);
                proof {
                    assert(self.points_to(u, vertex));
                    assert forall|i: int| 0 <= i < r0.len() implies r@[i] == r0[i] by {}
                    assert(r@[r0.len() as int] == e);
                    assert forall|x: usize| x < u + 1 implies (#[trigger] self.points_to(x, vertex) <==> (exists|i: int| 0 <= i < r.len() && (#[trigger] r@[i]).origin() == x)) by {
                        if x < u {
                            if exists|i: int| 0 <= i < r0.len() && (#[trigger] r0[i]).origin() == x {
                                let i = choose|i: int| 0 <= i < r0.len() && (#[trigger] r0[i]).origin() == x;
                                assert(r@[i] == r0[i]);
                            }
                            if exists|i: int| 0 <= i < r.len() && (#[trigger] r@[i]).origin() == x {
                                let i = choose|i: int| 0 <= i < r.len() && (#[trigger] r@[i]).origin() == x;
                                if i < r0.len() {
                                    assert(r0[i] == r@[i]);
                                }
                            }
                        } else {
                            assert(r@[r0.len() as int].origin() == x);
                        }
                    }
                }
            } else {
                proof {
                    assert forall|x: usize| x < u + 1 implies (#[trigger] self.points_to(x, vertex) <==> (exists|i: int| 0 <= i < r.len() && (#[trigger] r@[i]).origin() == x)) by {
                        if x == u {
                            if exists|w: i64| self.edges().contains((x, vertex, w)) {
                                let w = choose|w: i64| self.edges().contains((x, vertex, w));
                                let we = WeightedDiEdge { from: x, to: vertex, weight: w };
                                let k = choose|k: int| 0 <= k < row@.len() && row@[k] == we;
                                assert(row@[k].to == vertex);
                            }
                        }
                    }
                }
            }
            u = u + 1;
        }
        r
    }

    /// Number of edges leaving `vertex`.
    pub fn out_degree(&self, vertex: &usize) -> (r: usize)
        requires
            self.wf(),
            *vertex < self.vertex_count(),
        ensures
            r == self.rows()[*vertex as int].len(),
    {
        let vertex = *vertex;
        self.out_edges[vertex].len()
    }

    /// Number of edges into `vertex`.
    pub fn in_degree(&self, vertex: &usize) -> (r: usize)
        requires
            self.wf(),
            *vertex < self.vertex_count(),
        ensures
            r == self.in_degree_of(*vertex),
    {
        let vertex = *vertex;
        self.in_degree[vertex]
    }

    /// Integer part of the number of edges per vertex.
    pub fn average_degree(&self) -> (r: usize)
        requires
            self.wf(),
            self.vertex_count() > 0,
        ensures
            r == self.edges().len() / self.vertex_count(),
    {
        self.nb_edges / self.nb_vertices
    }

    /// Number of vertices with an edge to themselves.
    pub fn self_loop_number(&self) -> (r: usize)
        requires
            self.wf(),
        ensures
            r == loop_count(self.adj(), self.vertex_count() as int),
    {
        let mut count: usize = 0;
        let mut v: usize = 0;
        while v < self.nb_vertices
            invariant
                self.wf(),
                v <= self.nb_vertices,
                count == loop_count(self.adj(), v as int),
                count <= v,
            decreases self.nb_vertices - v,
        {
            let row = &self.out_edges[v];
            let mut j: usize = 0;
            let mut has_loop = false;
            while j < row.len()
                invariant
                    self.wf(),
                    v < self.nb_vertices,
                    row@ == self.rows()[v as int],
                    j <= row.len(),
                    has_loop == exists|k: int| 0 <= k < j && (#[trigger] row@[k]).to == v,
                decreases row.len() - j,
            {
                if row[j].to == v {
                    has_loop = true;
                }
                j = j + 1;
            }
            proof {
                let d = self.adj()[v as int];
                assert(d == row@.map_values(|e: WeightedDiEdge| e.to));
                if has_loop {
                    let k = choose|k: int| 0 <= k < j && (#[trigger] row@[k]).to == v;
                    assert(d[k] == v);
                }
                if d.contains(v) {
                    let k = choose|k: int| 0 <= k < d.len() && d[k] == v;
                    assert(row@[k].to == v);
                }
            }
            if has_loop {
                count = count + 1;
            }
            v = v + 1;
        }
        count
    }
}

proof fn lemma_row_len_sum_add(adj: Seq<Seq<usize>>, s: int, t: usize, k: int)
    requires
        0 <= s < adj.len(),
        k <= adj.len(),
    ensures
        row_len_sum(add_to_row(adj, s, t), k) == row_len_sum(adj, k) + if s < k {
            1int
        } else {
            0int
        },
    decreases k,
{
    if k > 0 {
        lemma_row_len_sum_add(adj, s, t, k - 1);
    }
}

proof fn lemma_row_len_sum_extend(adj: Seq<Seq<usize>>, adj2: Seq<Seq<usize>>, n: int, k: int)
    requires
        0 <= n <= k <= adj2.len(),
        n == adj.len(),
        forall|i: int| 0 <= i < n ==> adj2[i] == adj[i],
        forall|i: int| n <= i < adj2.len() ==> adj2[i].len() == 0,
    ensures
        row_len_sum(adj2, k) == row_len_sum(adj, n),
    decreases k,
{
    if k > n {
        lemma_row_len_sum_extend(adj, adj2, n, k - 1);
    } else {
        lemma_row_len_sum_prefix(adj, adj2, k);
    }
}

proof fn lemma_row_len_sum_prefix(adj: Seq<Seq<usize>>, adj2: Seq<Seq<usize>>, k: int)
    requires
        0 <= k <= adj.len(),
        k <= adj2.len(),
        forall|i: int| 0 <= i < k ==> adj2[i] == adj[i],
    ensures
        row_len_sum(adj2, k) == row_len_sum(adj, k),
    decreases k,
{
    if k > 0 {
        lemma_row_len_sum_prefix(adj, adj2, k - 1);
    }
}

/// Sum of the in-degrees of the first `k` vertices of a weighted graph.
pub open spec fn weighted_in_degree_sum(g: EdgeWeightedDiGraph, k: int) -> int
    decreases k,
{
    if k <= 0 {
        0
    } else {
        weighted_in_degree_sum(g, k - 1) + g.in_degree_of((k - 1) as usize)
    }
}

proof fn lemma_weighted_in_degree_sum(g: EdgeWeightedDiGraph, k: int)
    requires
        g.wf(),
        0 <= k <= g.vertex_count(),
    ensures
        weighted_in_degree_sum(g, k) == seq_sum(g.in_degree@, k),
    decreases k,
{
    if k > 0 {
        lemma_weighted_in_degree_sum(g, k - 1);
    }
}

/// The in-degrees of all vertices of a weighted graph, parallel edges
/// included, add up to the number of edges.
pub proof fn lemma_weighted_in_degrees_sum_to_edges(g: EdgeWeightedDiGraph)
    requires
        g.wf(),
    ensures
        weighted_in_degree_sum(g, g.vertex_count() as int) == g.edges().len(),
{
    lemma_weighted_in_degree_sum(g, g.vertex_count() as int);
}

impl VertexInfo for EdgeWeightedDiGraph {
    open spec fn adjacency(&self) -> Seq<Seq<usize>> {
        self.adj()
    }

    open spec fn well_formed(&self) -> bool {
        self.wf()
    }

    proof fn lemma_adjacency_valid(&self) {
        self.lemma_wf();
    }

    fn vertex_edges(&self, vertex: usize) -> (r: Vec<usize>) {
        let row = &self.out_edges[vertex];
        let mut r: Vec<usize> = Vec::new();
        let mut j: usize = 0;
        while j < row.len()
            invariant
                j <= row.len(),
                r@ == row@.subrange(0, j as int).map_values(|e: WeightedDiEdge| e.to),
            decreases row.len() - j,
        {
            r.push(row[j].to);
            j = j + 1;
            assert(r@ =~= row@.subrange(0, j as int).map_values(|e: WeightedDiEdge| e.to));
        }
        assert(row@.subrange(0, j as int) =~= row@);
        r
    }

    fn nb_vertices(&self) -> (r: usize) {
        self.nb_vertices
    }
}


/// An edge of a flow network: the flow it carries and its capacity.
#[derive(Clone, Copy, PartialEq, Eq, Structural, Debug, Hash)]
pub struct FlowEdge {
    from: usize,
    to: usize,
    flow: u64,
    capacity: u64,
}

impl FlowEdge {
    pub closed spec fn origin(&self) -> usize {
        self.from
    }

    pub closed spec fn destination(&self) -> usize {
        self.to
    }

    pub closed spec fn flow_value(&self) -> u64 {
        self.flow
    }

    pub closed spec fn capacity_value(&self) -> u64 {
        self.capacity
    }

    /// The edge with these ends, flow and capacity.
    pub closed spec fn make(from: usize, to: usize, flow: u64, capacity: u64) -> Self {
        FlowEdge { from, to, flow, capacity }
    }

    /// Creates an edge from `from` to `to` carrying `flow` out of `capacity`.
    pub fn init(from: usize, to: usize, flow: u64, capacity: u64) -> (e: Self)
        requires
            flow <= capacity,
        ensures
            e == Self::make(from, to, flow, capacity),
            e.origin() == from,
            e.destination() == to,
            e.flow_value() == flow,
            e.capacity_value() == capacity,
    {
        FlowEdge { from, to, flow, capacity }
    }

    /// The origin of the edge.
    pub fn from(&self) -> (r: &usize)
        ensures
            *r == self.origin(),
    {
        &self.from
    }

    /// The destination of the edge.
    pub fn to(&self) -> (r: &usize)
        ensures
            *r == self.destination(),
    {
        &self.to
    }

    /// The flow the edge carries.
    pub fn flow(&self) -> (r: &u64)
        ensures
            *r == self.flow_value(),
    {
        &self.flow
    }

    /// Gives write access to the flow the edge carries; the ends and the
    /// capacity stay.
    pub fn flow_mut(&mut self) -> (r: &mut u64)
        ensures
            *r == old(self).flow_value(),
            final(self).flow_value() == *final(r),
            final(self).origin() == old(self).origin(),
            final(self).destination() == old(self).destination(),
            final(self).capacity_value() == old(self).capacity_value(),
    {
        &mut self.flow
    }

    /// The capacity of the edge.
    pub fn capacity(&self) -> (r: &u64)
        ensures
            *r == self.capacity_value(),
    {
        &self.capacity
    }

    /// How much more flow the edge can take.
    pub fn residual_capacity(&self) -> (r: u64)
        requires
            self.flow_value() <= self.capacity_value(),
        ensures
            r == self.capacity_value() - self.flow_value(),
    {
        self.capacity - self.flow
    }

    /// Pushes `delta` more flow towards `vertex`: the flow grows when
    /// `vertex` is the destination and shrinks when it is the origin.
    pub fn add_residual_flow_to(&mut self, vertex: usize, delta: u64)
        requires
            vertex == old(self).origin() || vertex == old(self).destination(),
            vertex == old(self).origin() ==> delta <= old(self).flow_value(),
            vertex != old(self).origin() ==> old(self).flow_value() + delta <= u64::MAX,
        ensures
            final(self).origin() == old(self).origin(),
            final(self).destination() == old(self).destination(),
            final(self).capacity_value() == old(self).capacity_value(),
            final(self).flow_value() == if vertex == old(self).origin() {
                old(self).flow_value() - delta
            } else {
                old(self).flow_value() + delta
            },
    {
        if vertex == self.from {
            self.flow = self.flow - delta;
        } else {
            self.flow = self.flow + delta;
        }
    }
}

/// The destinations of the edges of each row.
pub open spec fn flow_destinations(rows: Seq<Seq<FlowEdge>>) -> Seq<Seq<usize>> {
    rows.map_values(|r: Seq<FlowEdge>| r.map_values(|e: FlowEdge| e.destination()))
}

/// A flow network: each vertex keeps the edges leaving it, and each edge is
/// paired with a backward record, kept at its destination, that points back
/// to its origin and carries the same flow.
pub struct FlowNetwork {
    out_edges: Vec<Vec<FlowEdge>>,
    back_edges: Vec<Vec<FlowEdge>>,
    back_index: Vec<Vec<usize>>,
    back_pos: Ghost<Seq<Seq<int>>>,
    nb_edges: usize,
    nb_vertices: usize,
    in_degree: Vec<usize>,
}

impl FlowNetwork {
    /// For each vertex, the edges leaving it, in insertion order.
    pub closed spec fn rows(&self) -> Seq<Seq<FlowEdge>> {
        self.out_edges@.map_values(|r: Vec<FlowEdge>| r@)
    }

    /// For each vertex, the backward records kept there.
    pub closed spec fn back_rows(&self) -> Seq<Seq<FlowEdge>> {
        self.back_edges@.map_values(|r: Vec<FlowEdge>| r@)
    }

    /// Where the backward record of each edge stands in its destination's list.
    pub closed spec fn pairing(&self) -> Seq<Seq<usize>> {
        self.back_index@.map_values(|r: Vec<usize>| r@)
    }

    /// For each vertex, the destinations of the edges leaving it.
    pub open spec fn adj(&self) -> Seq<Seq<usize>> {
        flow_destinations(self.rows())
    }

    pub open spec fn vertex_count(&self) -> nat {
        self.rows().len()
    }

    /// Number of edges into `v`, parallel edges included.
    pub open spec fn in_degree_of(&self, v: usize) -> nat {
        in_multi_count(self.adj(), v, self.adj().len() as int)
    }

    /// Some edge leads from `u` to `v`.
    pub open spec fn points_to(&self, u: usize, v: usize) -> bool {
        0 <= u < self.rows().len() && exists|k: int|
            0 <= k < self.rows()[u as int].len() && (#[trigger] self.rows()[u as int][k]).destination() == v
    }

    /// Number of edges.
    pub open spec fn edge_total(&self) -> int {
        row_len_sum(self.adj(), self.adj().len() as int)
    }

    /// The backward record of edge `i` of `u` carries its flow and points back.
    pub open spec fn paired(&self, u: int, i: int) -> bool {
        let e = self.rows()[u][i];
        let k = self.pairing()[u][i] as int;
        &&& k < self.back_rows()[e.destination() as int].len()
        &&& self.back_rows()[e.destination() as int][k].origin() == e.destination()
        &&& self.back_rows()[e.destination() as int][k].destination() == u
        &&& self.back_rows()[e.destination() as int][k].flow_value() == e.flow_value()
    }

    pub closed spec fn wf(&self) -> bool {
        let rows = self.rows();
        let back = self.back_rows();
        let pairing = self.pairing();
        let pos = self.back_pos@;
        &&& self.out_edges.len() == self.nb_vertices
        &&& self.back_edges.len() == self.nb_vertices
        &&& self.back_index.len() == self.nb_vertices
        &&& pos.len() == self.nb_vertices
        &&& self.in_degree.len() == self.nb_vertices
        &&& self.nb_vertices < usize::MAX
        &&& forall|u: int| 0 <= u < rows.len() ==> (#[trigger] pairing[u]).len() == rows[u].len()
        &&& forall|v: int| 0 <= v < rows.len() ==> (#[trigger] pos[v]).len() == back[v].len()
        &&& forall|u: int, i: int|
            0 <= u < rows.len() && 0 <= i < rows[u].len() ==> {
                &&& (#[trigger] rows[u][i]).from == u
                &&& rows[u][i].to < rows.len()
                &&& rows[u][i].flow <= rows[u][i].capacity
                &&& self.paired(u, i)
                &&& pos[rows[u][i].to as int][pairing[u][i] as int] == i
            }
        &&& forall|v: int, k: int| 0 <= v < rows.len() && 0 <= k < back[v].len() ==> (#[trigger] back[v][k]).to < rows.len()
        &&& self.nb_edges == row_len_sum(self.adj(), rows.len() as int)
        &&& forall|v: int|
            0 <= v < rows.len() ==> #[trigger] self.in_degree@[v] == in_multi_count(
                self.adj(),
                v as usize,
                rows.len() as int,
            )
    }

    pub proof fn lemma_wf(&self)
        requires
            self.wf(),
        ensures
            valid_adjacency(self.adj()),
            self.adj().len() == self.rows().len(),
            forall|u: int| 0 <= u < self.rows().len() ==> (#[trigger] self.adj()[u]).len() == self.rows()[u].len(),
            forall|u: int, i: int|
                0 <= u < self.rows().len() && 0 <= i < self.rows()[u].len() ==> {
                    &&& (#[trigger] self.rows()[u][i]).origin() == u
                    &&& self.rows()[u][i].destination() == self.adj()[u][i]
                    &&& self.rows()[u][i].flow_value() <= self.rows()[u][i].capacity_value()
                },
    {
        let rows = self.rows();
        let adj = self.adj();
        assert forall|u: int, i: int| 0 <= u < adj.len() && 0 <= i < adj[u].len() implies #[trigger] adj[u][i] < adj.len() by {
            assert(adj[u][i] == rows[u][i].to);
        }
    }

    /// Creates an empty network.
    pub fn new() -> (g: Self)
        ensures
            g.wf(),
            g.vertex_count() == 0,
    {
        FlowNetwork {
            out_edges: Vec::new(),
            back_edges: Vec::new(),
            back_index: Vec::new(),
            back_pos: Ghost(Seq::empty()),
            nb_edges: 0,
            nb_vertices: 0,
            in_degree: Vec::new(),
        }
    }

    /// Creates a network with `nb_vertices` vertices and no edge.
    pub fn init(nb_vertices: usize) -> (g: Self)
        requires
            nb_vertices < usize::MAX,
        ensures
            g.wf(),
            g.vertex_count() == nb_vertices,
            g.rows() == Seq::new(nb_vertices as nat, |i: int| Seq::<FlowEdge>::empty()),
    {
        let mut g = Self::new();
        g.add_vertices(nb_vertices);
        assert(g.rows() =~= Seq::new(nb_vertices as nat, |i: int| Seq::<FlowEdge>::empty()));
        g
    }

    /// Returns the number of edges.
    pub fn nb_edges(&self) -> (r: usize)
        requires
            self.wf(),
        ensures
            r == self.edge_total(),
    {
        self.nb_edges
    }

    /// Returns the number of vertices.
    pub fn nb_vertices(&self) -> (r: usize)
        requires
            self.wf(),
        ensures
            r == self.vertex_count(),
    {
        self.nb_vertices
    }

    /// Adds an edge from `from` to `to` carrying `flow` out of `cap`, with
    /// its backward record; an identical edge already leaving `from` is not
    /// added again.
    pub fn add_edge(&mut self, from: usize, to: usize, flow: u64, cap: u64)
        requires
            old(self).wf(),
            flow <= cap,
            from < old(self).vertex_count(),
            to < old(self).vertex_count(),
            old(self).edge_total() < usize::MAX,
        ensures
            final(self).wf(),
            final(self).rows() == if old(self).rows()[from as int].contains(FlowEdge::make(from, to, flow, cap)) {
                old(self).rows()
            } else {
                old(self).rows().update(
                    from as int,
                    old(self).rows()[from as int].push(FlowEdge::make(from, to, flow, cap)),
                )
            },
    {
        let forward_edge = FlowEdge::init(from, to, flow, cap);
        let backward_edge = FlowEdge::init(to, from, flow, flow);
        if !contains_flow_edge(&self.out_edges[from], forward_edge) {
            let ghost rows0 = self.rows();
            let ghost back0 = self.back_rows();
            let ghost pairing0 = self.pairing();
            let ghost pos0 = self.back_pos@;
            let ghost adj0 = self.adj();
            let k = self.back_edges[to].len();
            let i = self.out_edges[from].len();
            self.out_edges[from].push(forward_edge);
            self.back_edges[to].push(backward_edge);
            self.back_index[from].push(k);
            self.back_pos = Ghost(pos0.update(to as int, pos0[to as int].push(i as int)));
            proof {
                let rows1 = rows0.update(from as int, rows0[from as int].push(forward_edge));
                let back1 = back0.update(to as int, back0[to as int].push(backward_edge));
                let pairing1 = pairing0.update(from as int, pairing0[from as int].push(k));
                assert(self.rows() =~= rows1);
                assert(self.back_rows() =~= back1);
                assert(self.pairing() =~= pairing1);
                let adj1 = add_to_row(adj0, from as int, to);
                assert(rows0[from as int].push(forward_edge).map_values(|e: FlowEdge| e.destination()) =~= adj0[from as int].push(to));
                assert(self.adj() =~= adj1);
                old(self).lemma_wf();
                lemma_row_len_sum_add(adj0, from as int, to, adj0.len() as int);
                lemma_in_multi_bound(adj0, to, adj0.len() as int, row_len_sum(adj0, adj0.len() as int));
                assert forall|u: int, j: int| 0 <= u < rows1.len() && 0 <= j < rows1[u].len() implies {
                    &&& (#[trigger] rows1[u][j]).from == u
                    &&& rows1[u][j].to < rows1.len()
                    &&& rows1[u][j].flow <= rows1[u][j].capacity
                    &&& self.paired(u, j)
                    &&& self.back_pos@[rows1[u][j].to as int][pairing1[u][j] as int] == j
                } by {
                    if u == from as int && j == i as int {
                        assert(rows1[u][j] == forward_edge);
                        assert(pairing1[u][j] == k);
                        assert(back1[to as int][k as int] == backward_edge);
                    } else {
                        assert(rows1[u][j] == rows0[u][j]);
                        assert(pairing1[u][j] == pairing0[u][j]);
                        assert(old(self).paired(u, j));
                        let d = rows0[u][j].to as int;
                        assert(back1[d][pairing0[u][j] as int] == back0[d][pairing0[u][j] as int]);
                    }
                }
                assert forall|v: int, m: int| 0 <= v < rows1.len() && 0 <= m < back1[v].len() implies (#[trigger] back1[v][m]).to < rows1.len() by {
                    if v == to as int && m == k as int {
                    } else {
                        assert(back1[v][m] == back0[v][m]);
                    }
                }
            }
            self.in_degree[to] = self.in_degree[to] + 1;
            self.nb_edges = self.nb_edges + 1;
            proof {
                let adj1 = self.adj();
                assert forall|v: int| 0 <= v < adj1.len() implies #[trigger] self.in_degree@[v] == in_multi_count(
                    adj1,
                    v as usize,
                    adj1.len() as int,
                ) by {
                    lemma_in_multi_add(adj0, from as int, to, v as usize, adj0.len() as int);
                }
            }
        }
    }

    /// Adds `nb` vertices without edges.
    pub fn add_vertices(&mut self, nb: usize)
        requires
            old(self).wf(),
            old(self).vertex_count() + nb < usize::MAX,
        ensures
            final(self).wf(),
            final(self).rows() == old(self).rows() + Seq::new(nb as nat, |i: int| Seq::<FlowEdge>::empty()),
    {
        let ghost rows0 = self.rows();
        let ghost back0 = self.back_rows();
        let ghost pairing0 = self.pairing();
        let ghost pos0 = self.back_pos@;
        let ghost adj0 = self.adj();
        let ghost deg0 = self.in_degree@;
        let n0 = self.nb_vertices;
        let mut k: usize = 0;
        proof {
            assert(back0.len() == self.back_edges.len());
            assert(pairing0.len() == self.back_index.len());
        }
        while k < nb
            invariant
                k <= nb,
                n0 == rows0.len(),
                n0 == back0.len(),
                n0 == pairing0.len(),
                n0 + nb < usize::MAX,
                self.out_edges.len() == n0 + k,
                self.back_edges.len() == n0 + k,
                self.back_index.len() == n0 + k,
                self.in_degree.len() == n0 + k,
                self.rows() == rows0 + Seq::new(k as nat, |i: int| Seq::<FlowEdge>::empty()),
                self.back_rows() == back0 + Seq::new(k as nat, |i: int| Seq::<FlowEdge>::empty()),
                self.pairing() == pairing0 + Seq::new(k as nat, |i: int| Seq::<usize>::empty()),
                self.back_pos@ == pos0 + Seq::new(k as nat, |i: int| Seq::<int>::empty()),
                self.in_degree@ == deg0 + Seq::new(k as nat, |i: int| 0usize),
                self.nb_edges == old(self).nb_edges,
            decreases nb - k,
        {
            let ghost out0 = self.out_edges@;
            let ghost bk0 = self.back_edges@;
            let ghost bi0 = self.back_index@;
            self.out_edges.push(Vec::new());
            self.back_edges.push(Vec::new());
            self.back_index.push(Vec::new());
            self.in_degree.push(0);
            self.back_pos = Ghost(self.back_pos@.push(Seq::empty()));
            k = k + 1;
            proof {
                let t1 = rows0 + Seq::new(k as nat, |i: int| Seq::<FlowEdge>::empty());
                assert forall|i: int| 0 <= i < t1.len() implies #[trigger] self.rows()[i] == t1[i] by {
                    if i < out0.len() {
                        assert(self.out_edges@[i] == out0[i]);
                        assert(out0.map_values(|r: Vec<FlowEdge>| r@)[i] == out0[i]@);
                    }
                }
                assert(self.rows() =~= t1);
                let t2 = back0 + Seq::new(k as nat, |i: int| Seq::<FlowEdge>::empty());
                assert forall|i: int| 0 <= i < t2.len() implies #[trigger] self.back_rows()[i] == t2[i] by {
                    if i < bk0.len() {
                        assert(self.back_edges@[i] == bk0[i]);
                        assert(bk0.map_values(|r: Vec<FlowEdge>| r@)[i] == bk0[i]@);
                    }
                }
                assert(self.back_rows() =~= t2);
                let t3 = pairing0 + Seq::new(k as nat, |i: int| Seq::<usize>::empty());
                assert forall|i: int| 0 <= i < t3.len() implies #[trigger] self.pairing()[i] == t3[i] by {
                    if i < bi0.len() {
                        assert(self.back_index@[i] == bi0[i]);
                        assert(bi0.map_values(|r: Vec<usize>| r@)[i] == bi0[i]@);
                    }
                }
                assert(self.pairing() =~= t3);
                assert(self.back_pos@ =~= pos0 + Seq::new(k as nat, |i: int| Seq::<int>::empty()));
                assert(self.in_degree@ =~= deg0 + Seq::new(k as nat, |i: int| 0usize));
            }
        }
        self.nb_vertices = n0 + nb;
        proof {
            old(self).lemma_wf();
            let rows1 = self.rows();
            let back1 = self.back_rows();
            let adj1 = self.adj();
            assert forall|u: int, i: int| 0 <= u < rows1.len() && 0 <= i < rows1[u].len() implies {
                &&& (#[trigger] rows1[u][i]).from == u
                &&& rows1[u][i].to < rows1.len()
                &&& rows1[u][i].flow <= rows1[u][i].capacity
                &&& self.paired(u, i)
                &&& self.back_pos@[rows1[u][i].to as int][self.pairing()[u][i] as int] == i
            } by {
                assert(rows1[u] == rows0[u]);
                assert(self.pairing()[u] == pairing0[u]);
                assert(old(self).paired(u, i));
                let d = rows0[u][i].to as int;
                assert(back1[d] == back0[d]);
                assert(self.back_pos@[d] == pos0[d]);
            }
            assert forall|v: int, m: int| 0 <= v < rows1.len() && 0 <= m < back1[v].len() implies (#[trigger] back1[v][m]).to < rows1.len() by {
                assert(back1[v] == back0[v]);
            }
            assert forall|i: int| 0 <= i < adj0.len() implies adj1[i] == adj0[i] by {
                assert(rows1[i] == rows0[i]);
            }
            assert forall|i: int| adj0.len() <= i < adj1.len() implies adj1[i].len() == 0 by {
                assert(rows1[i].len() == 0);
            }
            lemma_row_len_sum_extend(adj0, adj1, adj0.len() as int, adj1.len() as int);
            assert forall|v: int| 0 <= v < adj1.len() implies #[trigger] self.in_degree@[v] == in_multi_count(
                adj1,
                v as usize,
                adj1.len() as int,
            ) by {
                lemma_in_multi_extend(adj0, adj1, v as usize, adj0.len() as int, adj1.len() as int);
                if v >= adj0.len() {
                    lemma_in_multi_zero(adj0, v as usize, adj0.len() as int);
                }
            }
        }
    }

    /// Adds one vertex without edges.
    pub fn add_vertex(&mut self)
        requires
            old(self).wf(),
            old(self).vertex_count() + 1 < usize::MAX,
        ensures
            final(self).wf(),
            final(self).rows() == old(self).rows().push(Seq::<FlowEdge>::empty()),
    {
        self.add_vertices(1);
        assert(self.rows() =~= old(self).rows().push(Seq::<FlowEdge>::empty()));
    }

    /// The edges leaving `vertex`.
    pub fn out_edges(&self, vertex: &usize) -> (r: &Vec<FlowEdge>)
        requires
            self.wf(),
            *vertex < self.vertex_count(),
        ensures
            r@ == self.rows()[*vertex as int],
    {
        let vertex = *vertex;
        &self.out_edges[vertex]
    }

    /// The same edge carrying `delta` more flow.
    pub closed spec fn with_more_flow(e: FlowEdge, delta: u64) -> FlowEdge {
        FlowEdge { flow: (e.flow + delta) as u64, ..e }
    }

    pub proof fn lemma_more_flow(e: FlowEdge, delta: u64)
        requires
            e.flow_value() + delta <= u64::MAX,
        ensures
            Self::with_more_flow(e, delta).flow_value() == e.flow_value() + delta,
            Self::with_more_flow(e, delta).capacity_value() == e.capacity_value(),
            Self::with_more_flow(e, delta).origin() == e.origin(),
            Self::with_more_flow(e, delta).destination() == e.destination(),
    {
    }

    /// Pushes `delta` more flow along edge `i` of `u`; its backward record
    /// follows.
    pub fn add_flow(&mut self, u: usize, i: usize, delta: u64)
        requires
            old(self).wf(),
            u < old(self).vertex_count(),
            i < old(self).rows()[u as int].len(),
            old(self).rows()[u as int][i as int].flow_value() + delta <= old(self).rows()[u as int][i as int].capacity_value(),
        ensures
            final(self).wf(),
            final(self).rows() == old(self).rows().update(
                u as int,
                old(self).rows()[u as int].update(i as int, Self::with_more_flow(old(self).rows()[u as int][i as int], delta)),
            ),
            final(self).rows()[u as int][i as int].flow_value() == old(self).rows()[u as int][i as int].flow_value() + delta,
            final(self).rows()[u as int][i as int].capacity_value() == old(self).rows()[u as int][i as int].capacity_value(),
            final(self).rows()[u as int][i as int].origin() == old(self).rows()[u as int][i as int].origin(),
            final(self).rows()[u as int][i as int].destination() == old(self).rows()[u as int][i as int].destination(),
            final(self).adj() == old(self).adj(),
            final(self).edge_total() == old(self).edge_total(),
    {
        let ghost rows0 = self.rows();
        let ghost back0 = self.back_rows();
        let ghost adj0 = self.adj();
        proof {
            assert(self.paired(u as int, i as int));
        }
        let v = self.out_edges[u][i].to;
        let k = self.back_index[u][i];
        assert(self.pairing()[u as int][i as int] == k);
        assert(self.back_rows()[v as int] == self.back_edges@[v as int]@);
        let old_edge = self.out_edges[u][i];
        let e = FlowEdge { flow: old_edge.flow + delta, ..old_edge };
        self.out_edges[u].set(i, e);
        let old_back = self.back_edges[v][k];
        let b = FlowEdge { flow: old_back.flow + delta, ..old_back };
        self.back_edges[v].set(k, b);
        proof {
            let rows1 = self.rows();
            let back1 = self.back_rows();
            assert(e == Self::with_more_flow(rows0[u as int][i as int], delta));
            assert(rows1 =~= rows0.update(u as int, rows0[u as int].update(i as int, e)));
            assert(back1 =~= back0.update(v as int, back0[v as int].update(k as int, b)));
            assert(self.adj() =~= adj0) by {
                assert forall|x: int| 0 <= x < adj0.len() implies self.adj()[x] =~= adj0[x] by {}
            }
            assert forall|x: int, j: int| 0 <= x < rows1.len() && 0 <= j < rows1[x].len() implies {
                &&& (#[trigger] rows1[x][j]).from == x
                &&& rows1[x][j].to < rows1.len()
                &&& rows1[x][j].flow <= rows1[x][j].capacity
                &&& self.paired(x, j)
                &&& self.back_pos@[rows1[x][j].to as int][self.pairing()[x][j] as int] == j
            } by {
                assert(old(self).paired(x, j));
                let d = rows0[x][j].to as int;
                let kk = self.pairing()[x][j] as int;
                if x == u as int && j == i as int {
                } else {
                    assert(rows1[x][j] == rows0[x][j]);
                    if d == v as int && kk == k as int {
                        assert(self.back_pos@[d][kk] == j);
                        assert(self.back_pos@[v as int][k as int] == i);
                        assert(back0[d][kk].destination() == x);
                        assert(back0[v as int][k as int].destination() == u);
                    }
                }
            }
            assert forall|x: int, m: int| 0 <= x < rows1.len() && 0 <= m < back1[x].len() implies (#[trigger] back1[x][m]).to < rows1.len() by {
                if !(x == v as int && m == k as int) {
                    assert(back1[x][m] == back0[x][m]);
                }
            }
        }
    }

    /// Number of edges leaving `vertex`.
    pub fn out_degree(&self, vertex: &usize) -> (r: usize)
        requires
            self.wf(),
            *vertex < self.vertex_count(),
        ensures
            r == self.rows()[*vertex as int].len(),
    {
        let vertex = *vertex;
        self.out_edges[vertex].len()
    }

    /// Number of edges into `vertex`.
    pub fn in_degree(&self, vertex: &usize) -> (r: usize)
        requires
            self.wf(),
            *vertex < self.vertex_count(),
        ensures
            r == self.in_degree_of(*vertex),
    {
        let vertex = *vertex;
        self.in_degree[vertex]
    }

    /// Integer part of the number of edges per vertex.
    pub fn average_degree(&self) -> (r: usize)
        requires
            self.wf(),
            self.vertex_count() > 0,
        ensures
            r == self.edge_total() / self.vertex_count() as int,
    {
        self.nb_edges / self.nb_vertices
    }

    /// For each vertex with an edge into `vertex`, one such edge, by
    /// increasing origin.
    pub fn in_edges(&self, vertex: &usize) -> (r: Vec<FlowEdge>)
        requires
            self.wf(),
        ensures
            forall|i: int| 0 <= i < r.len() ==> self.rows()[(#[trigger] r@[i]).origin() as int].contains(r@[i]) && r@[i].destination() == *vertex,
            forall|i: int, j: int| 0 <= i < j < r.len() ==> r@[i].origin() < r@[j].origin(),
            forall|u: usize| #[trigger] self.points_to(u, *vertex) <==> (exists|i: int| 0 <= i < r.len() && (#[trigger] r@[i]).origin() == u),
    {
        let vertex = *vertex;
        let mut r: Vec<FlowEdge> = Vec::new();
        let mut u: usize = 0;
        while u < self.nb_vertices
            invariant
                self.wf(),
                u <= self.nb_vertices,
                forall|i: int| 0 <= i < r.len() ==> self.rows()[(#[trigger] r@[i]).origin() as int].contains(r@[i]) && r@[i].destination() == vertex,
                forall|i: int, j: int| 0 <= i < j < r.len() ==> r@[i].origin() < r@[j].origin(),
                forall|i: int| 0 <= i < r.len() ==> (#[trigger] r@[i]).origin() < u,
                forall|x: usize| x < u ==> (#[trigger] self.points_to(x, vertex) <==> (exists|i: int| 0 <= i < r.len() && (#[trigger] r@[i]).origin() == x)),
            decreases self.nb_vertices - u,
        {
            let row = &self.out_edges[u];
            assert(row@ == self.rows()[u as int]);
            let mut j: usize = 0;
            while j < row.len() && row[j].to != vertex
                invariant
                    self.wf(),
                    u < self.nb_vertices,
                    row@ == self.rows()[u as int],
                    j <= row.len(),
                    forall|k: int| 0 <= k < j ==> (#[trigger] row@[k]).to != vertex,
                decreases row.len() - j,
            {
                j = j + 1;
            }
            proof {
                self.lemma_wf();
            }
            if j < row.len() {
                let e = row[j];
                proof {
                    assert(self.rows()[u as int][j as int] == e);
                    assert(e.from == u);
                    assert(self.rows()[u as int].contains(e));
                }
                let ghost r0 = r@;
                r.push(e);
                proof {
                    assert(self.points_to(u, vertex));
                    assert forall|i: int| 0 <= i < r0.len() implies r@[i] == r0[i] by {}
                    assert(r@[r0.len() as int] == e);
                    assert forall|x: usize| x < u + 1 implies (#[trigger] self.points_to(x, vertex) <==> (exists|i: int| 0 <= i < r.len() && (#[trigger] r@[i]).origin() == x)) by {
                        if x < u {
                            if exists|i: int| 0 <= i < r0.len() && (#[trigger] r0[i]).origin() == x {
                                let i = choose|i: int| 0 <= i < r0.len() && (#[trigger] r0[i]).origin() == x;
                                assert(r@[i] == r0[i]);
                            }
                            if exists|i: int| 0 <= i < r.len() && (#[trigger] r@[i]).origin() == x {
                                let i = choose|i: int| 0 <= i < r.len() && (#[trigger] r@[i]).origin() == x;
                                if i < r0.len() {
                                    assert(r0[i] == r@[i]);
                                }
                            }
                        } else {
                            assert(r@[r0.len() as int].origin() == x);
                        }
                    }
                }
            } else {
                proof {
                    assert forall|x: usize| x < u + 1 implies (#[trigger] self.points_to(x, vertex) <==> (exists|i: int| 0 <= i < r.len() && (#[trigger] r@[i]).origin() == x)) by {
                        if x == u {
                            if self.points_to(x, vertex) {
                                let k = choose|k: int| 0 <= k < self.rows()[x as int].len() && (#[trigger] self.rows()[x as int][k]).destination() == vertex;
                                assert(row@[k].to == vertex);
                            }
                        }
                    }
                }
            }
            u = u + 1;
        }
        r
    }

    /// Number of vertices with an edge to themselves.
    pub fn self_loop_number(&self) -> (r: usize)
        requires
            self.wf(),
        ensures
            r == loop_count(self.adj(), self.vertex_count() as int),
    {
        let mut count: usize = 0;
        let mut v: usize = 0;
        while v < self.nb_vertices
            invariant
                self.wf(),
                v <= self.nb_vertices,
                count == loop_count(self.adj(), v as int),
                count <= v,
            decreases self.nb_vertices - v,
        {
            let row = &self.out_edges[v];
            let mut j: usize = 0;
            let mut has_loop = false;
            while j < row.len()
                invariant
                    self.wf(),
                    v < self.nb_vertices,
                    row@ == self.rows()[v as int],
                    j <= row.len(),
                    has_loop == exists|k: int| 0 <= k < j && (#[trigger] row@[k]).to == v,
                decreases row.len() - j,
            {
                if row[j].to == v {
                    has_loop = true;
                }
                j = j + 1;
            }
            proof {
                let d = self.adj()[v as int];
                assert(d == row@.map_values(|e: FlowEdge| e.to));
                if has_loop {
                    let k = choose|k: int| 0 <= k < j && (#[trigger] row@[k]).to == v;
                    assert(d[k] == v);
                }
                if d.contains(v) {
                    let k = choose|k: int| 0 <= k < d.len() && d[k] == v;
                    assert(row@[k].to == v);
                }
            }
            if has_loop {
                count = count + 1;
            }
            v = v + 1;
        }
        count
    }
}

fn contains_flow_edge(row: &Vec<FlowEdge>, e: FlowEdge) -> (r: bool)
    ensures
        r == row@.contains(e),
{
    let mut i: usize = 0;
    while i < row.len()
        invariant
            i <= row.len(),
            forall|j: int| 0 <= j < i ==> row@[j] != e,
        decreases row.len() - i,
    {
        if row[i] == e {
            return true;
        }
        i = i + 1;
    }
    false
}

impl VertexInfo for FlowNetwork {
    open spec fn adjacency(&self) -> Seq<Seq<usize>> {
        self.adj()
    }

    open spec fn well_formed(&self) -> bool {
        self.wf()
    }

    proof fn lemma_adjacency_valid(&self) {
        self.lemma_wf();
    }

    fn vertex_edges(&self, vertex: usize) -> (r: Vec<usize>) {
        let row = &self.out_edges[vertex];
        let mut r: Vec<usize> = Vec::new();
        let mut j: usize = 0;
        while j < row.len()
            invariant
                j <= row.len(),
                r@ == row@.subrange(0, j as int).map_values(|e: FlowEdge| e.to),
            decreases row.len() - j,
        {
            r.push(row[j].to);
            j = j + 1;
            assert(r@ =~= row@.subrange(0, j as int).map_values(|e: FlowEdge| e.to));
        }
        assert(row@.subrange(0, j as int) =~= row@);
        r
    }

    fn nb_vertices(&self) -> (r: usize) {
        self.nb_vertices
    }
}

} // verus!
