use vstd::prelude::*;

use crate::graph::{
    span,
    add_to_row, contains_vertex, edge_set, has_edge, lemma_edge_set_add, lemma_edge_set_extend,
    loop_count, valid_adjacency, VertexInfo,
};

verus! {

/// An edge between `v` and `w` is recorded in both lists, once in the list
/// of a vertex with a loop.
pub open spec fn link(adj: Seq<Seq<usize>>, v: usize, w: usize) -> Seq<Seq<usize>> {
    let a1 = if adj[v as int].contains(w) {
        adj
    } else {
        add_to_row(adj, v as int, w)
    };
    if a1[w as int].contains(v) {
        a1
    } else {
        add_to_row(a1, w as int, v)
    }
}

/// Each edge once, as the pair (smaller end, larger end).
pub open spec fn undirected_edges(adj: Seq<Seq<usize>>) -> Set<(usize, usize)> {
    Set::new(|e: (usize, usize)| e.0 <= e.1 && edge_set(adj).contains(e))
}

/// The pair that names the edge between `v` and `w`.
pub open spec fn ordered_pair(v: usize, w: usize) -> (usize, usize) {
    if v <= w {
        (v, w)
    } else {
        (w, v)
    }
}

/// The edges named by the first `i` pairs of `edges`.
pub open spec fn pairs_upto(edges: Seq<(usize, usize)>, i: int) -> Set<(usize, usize)> {
    Set::new(|e: (usize, usize)| exists|k: int| 0 <= k < i && e == ordered_pair(#[trigger] edges[k].0, edges[k].1))
}

proof fn lemma_pairs_upto_step(edges: Seq<(usize, usize)>, i: int)
    requires
        0 <= i < edges.len(),
    ensures
        pairs_upto(edges, i + 1) == pairs_upto(edges, i).insert(ordered_pair(edges[i].0, edges[i].1)),
{
    assert forall|e: (usize, usize)| #[trigger] pairs_upto(edges, i + 1).contains(e) <==> pairs_upto(edges, i).insert(
        ordered_pair(edges[i].0, edges[i].1),
    ).contains(e) by {
        if pairs_upto(edges, i + 1).contains(e) {
            let k = choose|k: int| 0 <= k < i + 1 && e == ordered_pair(#[trigger] edges[k].0, edges[k].1);
            if k < i {
                assert(pairs_upto(edges, i).contains(e));
            }
        }
    }
    assert(pairs_upto(edges, i + 1) =~= pairs_upto(edges, i).insert(ordered_pair(edges[i].0, edges[i].1)));
}

/// Undirected graph based on adjacency lists: vertices are the positions
/// `0..nb_vertices`, and each vertex keeps its distinct neighbours.
pub struct Graph {
    data: Vec<Vec<usize>>,
    nb_edges: usize,
    nb_vertices: usize,
}

impl Graph {
    /// For each vertex, its neighbours in insertion order.
    pub closed spec fn adj(&self) -> Seq<Seq<usize>> {
        self.data@.map_values(|r: Vec<usize>| r@)
    }

    /// The edges, each once as (smaller end, larger end).
    pub open spec fn edges(&self) -> Set<(usize, usize)> {
        undirected_edges(self.adj())
    }

    pub open spec fn vertex_count(&self) -> nat {
        self.adj().len()
    }

    pub closed spec fn edge_count(&self) -> nat {
        self.nb_edges as nat
    }

    pub closed spec fn wf(&self) -> bool {
        let adj = self.adj();
        &&& self.data.len() == self.nb_vertices
        &&& self.nb_vertices < usize::MAX
        &&& valid_adjacency(adj)
        &&& forall|u: int| 0 <= u < adj.len() ==> (#[trigger] adj[u]).no_duplicates()
        &&& forall|u: usize, v: usize| #[trigger] has_edge(adj, u as int, v) ==> has_edge(adj, v as int, u)
        &&& undirected_edges(adj).finite()
        &&& self.nb_edges == undirected_edges(adj).len()
    }

    /// Well-formedness gives the edge count as the number of distinct edges,
    /// and each edge is seen from both ends.
    pub proof fn lemma_wf(&self)
        requires
            self.wf(),
        ensures
            valid_adjacency(self.adj()),
            self.edges().finite(),
            self.edge_count() == self.edges().len(),
            forall|u: usize, v: usize| #[trigger] has_edge(self.adj(), u as int, v) ==> has_edge(self.adj(), v as int, u),
    {
    }

    /// Creates an empty graph.
    pub fn new() -> (g: Self)
        ensures
            g.wf(),
            g.vertex_count() == 0,
            g.edges() == Set::<(usize, usize)>::empty(),
    {
        let g = Graph { data: Vec::new(), nb_edges: 0, nb_vertices: 0 };
        assert(g.edges() =~= Set::<(usize, usize)>::empty());
        g
    }

    /// Creates a graph with `nb_vertices` vertices and no edge.
    pub fn init(nb_vertices: usize) -> (g: Self)
        requires
            nb_vertices < usize::MAX,
        ensures
            g.wf(),
            g.vertex_count() == nb_vertices,
            g.adj() == Seq::new(nb_vertices as nat, |i: int| Seq::<usize>::empty()),
            g.edges() == Set::<(usize, usize)>::empty(),
    {
        let mut g = Self::new();
        g.add_vertices(nb_vertices);
        assert(g.adj() =~= Seq::new(nb_vertices as nat, |i: int| Seq::<usize>::empty()));
        g
    }

    /// Creates a graph from a list of edges: the graph grows to hold the
    /// largest vertex named, and each edge is added in turn.
    pub fn from_vec(edges: Vec<(usize, usize)>) -> (g: Self)
        requires
            forall|i: int| 0 <= i < edges.len() ==> (#[trigger] edges@[i]).0 < usize::MAX - 1 && edges@[i].1 < usize::MAX - 1,
            edges.len() < usize::MAX,
        ensures
            g.wf(),
            g.edges() == pairs_upto(edges@, edges.len() as int),
            g.vertex_count() == span(edges@, edges.len() as int),
    {
        let mut graph = Self::new();
        let mut i: usize = 0;
        while i < edges.len()
            invariant
                i <= edges.len(),
                edges.len() < usize::MAX,
                forall|j: int| 0 <= j < edges.len() ==> (#[trigger] edges@[j]).0 < usize::MAX - 1 && edges@[j].1 < usize::MAX - 1,
                graph.wf(),
                graph.edges().len() <= i,
                graph.edges() == pairs_upto(edges@, i as int),
                graph.vertex_count() == span(edges@, i as int),
            decreases edges.len() - i,
        {
            let (v, w) = edges[i];
            let max_vertex = if v > w { v } else { w };
            if max_vertex >= graph.nb_vertices {
                graph.add_vertices(max_vertex - graph.nb_vertices + 1);
            }
            proof { graph.lemma_wf(); }
            graph.add_edge(v, w);
            proof {
                lemma_pairs_upto_step(edges@, i as int);
            }
            i = i + 1;
        }
        graph
    }

    /// Returns the number of edges.
    pub fn nb_edges(&self) -> (r: usize)
        requires
            self.wf(),
        ensures
            r == self.edges().len(),
    {
        self.nb_edges
    }

    /// Returns the number of vertices.
    pub fn nb_vertices(&self) -> (r: usize)
        requires
            self.wf(),
        ensures
            r == self.vertex_count(),
    {
        self.nb_vertices
    }

    fn insert_neighbour(&mut self, v: usize, w: usize) -> (added: bool)
        requires
            v < old(self).adj().len(),
            w < old(self).adj().len(),
            old(self).data.len() == old(self).nb_vertices,
        ensures
            added == !old(self).adj()[v as int].contains(w),
            final(self).adj() == if added {
                add_to_row(old(self).adj(), v as int, w)
            } else {
                old(self).adj()
            },
            final(self).nb_edges == old(self).nb_edges,
            final(self).nb_vertices == old(self).nb_vertices,
            final(self).data.len() == old(self).data.len(),
    {
        if contains_vertex(&self.data[v], w) {
            false
        } else {
            self.data[v].push(w);
            assert(self.adj() =~= add_to_row(old(self).adj(), v as int, w));
            true
        }
    }

    /// Adds an edge between `vertex_v` and `vertex_w`; adding an edge that is
    /// already there changes nothing.
    pub fn add_edge(&mut self, vertex_v: usize, vertex_w: usize)
        requires
            old(self).wf(),
            vertex_v < old(self).vertex_count(),
            vertex_w < old(self).vertex_count(),
            old(self).edges().len() < usize::MAX,
        ensures
            final(self).wf(),
            final(self).edges() == old(self).edges().insert(ordered_pair(vertex_v, vertex_w)),
            final(self).adj() == link(old(self).adj(), vertex_v, vertex_w),
    {
        let ghost adj0 = self.adj();
        let w_is_new = self.insert_neighbour(vertex_v, vertex_w);
        let ghost adj1 = self.adj();
        let v_is_new = self.insert_neighbour(vertex_w, vertex_v);
        let ghost adj2 = self.adj();
        proof {
            let e0 = edge_set(adj0);
            let e2 = edge_set(adj2);
            if w_is_new {
                lemma_edge_set_add(adj0, vertex_v, vertex_w);
            }
            if v_is_new {
                lemma_edge_set_add(adj1, vertex_w, vertex_v);
            }
            assert(e2 =~= e0.insert((vertex_v, vertex_w)).insert((vertex_w, vertex_v)));
            let p = ordered_pair(vertex_v, vertex_w);
            assert(undirected_edges(adj2) =~= undirected_edges(adj0).insert(p));
            assert(w_is_new || v_is_new ==> !undirected_edges(adj0).contains(p));
            assert(!(w_is_new || v_is_new) ==> undirected_edges(adj0).contains(p));
            assert forall|u: int| 0 <= u < adj2.len() implies (#[trigger] adj2[u]).no_duplicates() by {
                lemma_row_no_dup(adj0, vertex_v, vertex_w, u);
                lemma_row_no_dup(adj1, vertex_w, vertex_v, u);
            }
            assert forall|u: int, j: int| 0 <= u < adj2.len() && 0 <= j < adj2[u].len() implies #[trigger] adj2[u][j] < adj2.len() by {
                if 0 <= j < adj0[u].len() {
                    assert(adj2[u][j] == adj0[u][j]);
                } else if 0 <= j < adj1[u].len() {
                    assert(adj2[u][j] == adj1[u][j]);
                }
            }
            assert forall|u: usize, v: usize| #[trigger] has_edge(adj2, u as int, v) implies has_edge(adj2, v as int, u) by {
                assert(e2.contains((u, v)));
                assert(e2.contains((v, u)));
            }
        }
        if w_is_new || v_is_new {
            self.nb_edges = self.nb_edges + 1;
        }
    }

    /// Adds one vertex without edges.
    pub fn add_vertex(&mut self)
        requires
            old(self).wf(),
            old(self).vertex_count() + 1 < usize::MAX,
        ensures
            final(self).wf(),
            final(self).adj() == old(self).adj().push(Seq::<usize>::empty()),
    {
        self.add_vertices(1);
        assert(self.adj() =~= old(self).adj().push(Seq::<usize>::empty()));
    }

    /// Adds `nb` vertices without edges.
    pub fn add_vertices(&mut self, nb: usize)
        requires
            old(self).wf(),
            old(self).vertex_count() + nb < usize::MAX,
        ensures
            final(self).wf(),
            final(self).adj() == old(self).adj() + Seq::new(nb as nat, |i: int| Seq::<usize>::empty()),
            final(self).edges() == old(self).edges(),
    {
        let ghost adj0 = self.adj();
        let n0 = self.nb_vertices;
        let mut k: usize = 0;
        while k < nb
            invariant
                k <= nb,
                n0 == adj0.len(),
                n0 + nb < usize::MAX,
                self.data.len() == n0 + k,
                self.adj() == adj0 + Seq::new(k as nat, |i: int| Seq::<usize>::empty()),
                self.nb_edges == old(self).nb_edges,
            decreases nb - k,
        {
            let ghost out0 = self.data@;
            self.data.push(Vec::new());
            k = k + 1;
            proof {
                let target = adj0 + Seq::new(k as nat, |i: int| Seq::<usize>::empty());
                assert forall|i: int| 0 <= i < target.len() implies #[trigger] self.adj()[i] == target[i] by {
                    if i < out0.len() {
                        assert(self.data@[i] == out0[i]);
                        assert(out0.map_values(|r: Vec<usize>| r@)[i] == out0[i]@);
                    }
                }
                assert(self.adj() =~= target);
            }
        }
        self.nb_vertices = n0 + nb;
        proof {
            let adj1 = self.adj();
            lemma_edge_set_extend(adj0, adj1);
            assert(undirected_edges(adj1) =~= undirected_edges(adj0));
            assert forall|u: int, j: int| 0 <= u < adj1.len() && 0 <= j < adj1[u].len() implies #[trigger] adj1[u][j] < adj1.len() by {
                assert(adj1[u] == adj0[u]);
            }
            assert forall|u: int| 0 <= u < adj1.len() implies (#[trigger] adj1[u]).no_duplicates() by {
                if u < adj0.len() {
                    assert(adj1[u] == adj0[u]);
                }
            }
            assert forall|u: usize, v: usize| #[trigger] has_edge(adj1, u as int, v) implies has_edge(adj1, v as int, u) by {
                assert(edge_set(adj1).contains((u, v)));
                assert(edge_set(adj0).contains((u, v)));
                assert(edge_set(adj0).contains((v, u)));
                assert(edge_set(adj1).contains((v, u)));
            }
        }
    }

    /// Number of neighbours of `vertex` other than itself.
    pub fn degree(&self, vertex: &usize) -> (r: usize)
        requires
            self.wf(),
            *vertex < self.vertex_count(),
        ensures
            r == self.adj()[*vertex as int].len() - if self.adj()[*vertex as int].contains(*vertex) {
                1int
            } else {
                0int
            },
    {
        let vertex = *vertex;
        let row = &self.data[vertex];
        if contains_vertex(row, vertex) {
            row.len() - 1
        } else {
            row.len()
        }
    }

    /// Integer part of the number of edges per vertex.
    pub fn average_degree(&self) -> (r: usize)
        requires
            self.wf(),
            self.vertex_count() > 0,
        ensures
            r == self.edges().len() / self.vertex_count(),
    {
        self.nb_edges / self.nb_vertices
    }

    /// Number of vertices with an edge to themselves.
    pub fn self_loop_number(&self) -> (r: usize)
        requires
            self.wf(),
        ensures
            r == loop_count(self.adj(), self.vertex_count() as int),
    {
        let mut count: usize = 0;
        let mut v: usize = 0;
        while v < self.nb_vertices
            invariant
                self.wf(),
                v <= self.nb_vertices,
                count == loop_count(self.adj(), v as int),
                count <= v,
            decreases self.nb_vertices - v,
        {
            assert(self.adj()[v as int] == self.data@[v as int]@);
            if contains_vertex(&self.data[v], v) {
                count = count + 1;
            }
            v = v + 1;
        }
        count
    }
}

proof fn lemma_row_no_dup(adj: Seq<Seq<usize>>, v: usize, w: usize, u: int)
    requires
        v < adj.len(),
        0 <= u < adj.len(),
        adj[u].no_duplicates(),
    ensures
        (if adj[v as int].contains(w) {
            adj
        } else {
            add_to_row(adj, v as int, w)
        })[u].no_duplicates(),
{
    if !adj[v as int].contains(w) && u == v as int {
        let r = adj[u];
        assert forall|a: int, b: int| 0 <= a < r.push(w).len() && 0 <= b < r.push(w).len() && a != b
            implies r.push(w)[a] != r.push(w)[b] by {
            if a < r.len() && b == r.len() {
                assert(r.contains(r[a]));
            }
            if b < r.len() && a == r.len() {
                assert(r.contains(r[b]));
            }
        }
    }
}

/// However often an edge is added, in either direction, it is counted once:
/// the edge count is the number of distinct unordered pairs that were added.
pub proof fn lemma_edge_count_is_distinct_pairs(g: Graph, added: Seq<(usize, usize)>)
    requires
        g.wf(),
        g.edges() == pairs_upto(added, added.len() as int),
    ensures
        g.edge_count() == pairs_upto(added, added.len() as int).len(),
{
}

impl VertexInfo for Graph {
    open spec fn adjacency(&self) -> Seq<Seq<usize>> {
        self.adj()
    }

    open spec fn well_formed(&self) -> bool {
        self.wf()
    }

    proof fn lemma_adjacency_valid(&self) {
    }

    fn vertex_edges(&self, vertex: usize) -> (r: Vec<usize>) {
        self.data[vertex].clone()
    }

    fn nb_vertices(&self) -> (r: usize) {
        self.nb_vertices
    }
}

} // verus!
