use vstd::prelude::*;

pub mod first_search;
pub mod shortest_path;

pub use first_search::{bfs, dfs, finished_after_successors};
pub use shortest_path::ShortestPath;

use crate::graph::{is_back_walk, reachable, valid_adjacency, VertexInfo};
use first_search::{bfs_levels, closed_under, lemma_search_marks_reachable, newly, search_tree};

verus! {

/// No vertex is marked.
pub open spec fn none_marked(n: nat) -> Seq<bool> {
    Seq::new(n, |i: int| false)
}

/// `p` follows the predecessor links from `p[0]` until it first meets
/// `source`, its last vertex.
pub open spec fn follows_links(edge_to: Seq<usize>, source: usize, p: Seq<usize>) -> bool {
    &&& p.len() >= 1
    &&& p.last() == source
    &&& forall|i: int| 0 <= i < p.len() - 1 ==> #[trigger] p[i] != source && p[i + 1] == edge_to[p[i] as int]
}

/// Walks the predecessor links from `target` back to `source`.
fn walk_links(edge_to: &Vec<usize>, source: usize, target: usize, graph: Ghost<Seq<Seq<usize>>>, marked: Ghost<Seq<bool>>, rank: Ghost<Seq<int>>) -> (path: Vec<usize>)
    requires
        edge_to.len() == graph@.len(),
        marked@.len() == graph@.len(),
        source < graph@.len(),
        target < graph@.len(),
        marked@[target as int],
        search_tree(graph@, none_marked(graph@.len()), marked@, edge_to@, source as int, rank@),
    ensures
        path@[0] == target,
        follows_links(edge_to@, source, path@),
        is_back_walk(graph@, path@),
{
    let mut path: Vec<usize> = Vec::new();
    let mut x = target;
    let ghost n = graph@.len();
    proof {
        if x != source {
            assert(first_search::newly(none_marked(n), marked@, x as int));
        }
    }
    while x != source
        invariant
            edge_to.len() == n,
            marked@.len() == n,
            source < n,
            x < n,
            marked@[x as int],
            search_tree(graph@, none_marked(n), marked@, edge_to@, source as int, rank@),
            path@.len() == 0 ==> x == target,
            path@.len() > 0 ==> path@[0] == target && x == edge_to@[path@.last() as int] && crate::graph::has_edge(graph@, x as int, path@.last()),
            forall|i: int| 0 <= i < path@.len() ==> #[trigger] path@[i] != source,
            forall|i: int| 0 <= i < path@.len() - 1 ==> path@[i + 1] == edge_to@[#[trigger] path@[i] as int],
            is_back_walk(graph@, path@) || path@.len() == 0,
            x == source || rank@[x as int] > 0,
        decreases (if x == source { 0 } else { rank@[x as int] }),
    {
        assert(first_search::newly(none_marked(n), marked@, x as int));
        let ghost prev = path@;
        path.push(x);
        proof {
            assert forall|i: int| 0 <= i < path@.len() - 1 implies #[trigger] crate::graph::has_edge(graph@, path@[i + 1] as int, path@[i]) by {
                if i < prev.len() - 1 {
                    assert(path@[i] == prev[i] && path@[i + 1] == prev[i + 1]);
                }
            }
        }
        x = edge_to[x];
        proof {
            assert(first_search::newly(none_marked(n), marked@, x as int));
        }
    }
    let ghost prev = path@;
    path.push(source);
    proof {
        assert forall|i: int| 0 <= i < path@.len() - 1 implies #[trigger] crate::graph::has_edge(graph@, path@[i + 1] as int, path@[i]) by {
            if i < prev.len() - 1 {
                assert(path@[i] == prev[i] && path@[i + 1] == prev[i + 1]);
            }
        }
        assert forall|i: int| 0 <= i < path@.len() - 1 implies #[trigger] path@[i] != source && path@[i + 1] == edge_to@[path@[i] as int] by {
            assert(path@[i] == prev[i]);
        }
    }
    path
}

/// Along any walk from the origin, the breadth-first level of the `k`-th
/// vertex is at most `k`.
proof fn lemma_levels_bound(
    adj: Seq<Seq<usize>>,
    marked: Seq<bool>,
    edge_to: Seq<usize>,
    source: usize,
    rank: Seq<int>,
    q: Seq<usize>,
    k: int,
)
    requires
        valid_adjacency(adj),
        marked.len() == adj.len(),
        source < adj.len(),
        marked[source as int],
        closed_under(adj, none_marked(adj.len()), marked),
        bfs_levels(adj, none_marked(adj.len()), marked, edge_to, source as int, rank),
        crate::graph::is_walk(adj, q),
        q[0] == source,
        0 <= k < q.len(),
    ensures
        q[k] < adj.len(),
        marked[q[k] as int],
        rank[q[k] as int] <= k,
    decreases k,
{
    let m0 = none_marked(adj.len());
    if k > 0 {
        lemma_levels_bound(adj, marked, edge_to, source, rank, q, k - 1);
        let h = k - 1;
        assert(crate::graph::has_edge(adj, q[h] as int, q[h + 1]));
        let i = choose|i: int| 0 <= i < adj[q[h] as int].len() && #[trigger] adj[q[h] as int][i] == q[h + 1];
        assert(newly(m0, marked, q[h] as int));
        assert(marked[adj[q[h] as int][i] as int]);
        assert(newly(m0, marked, adj[q[h] as int][i] as int));
    }
}

/// Following links from `p[0]` climbs down one level at each step.
proof fn lemma_chain_levels(
    adj: Seq<Seq<usize>>,
    marked: Seq<bool>,
    edge_to: Seq<usize>,
    source: usize,
    rank: Seq<int>,
    p: Seq<usize>,
    i: int,
)
    requires
        marked.len() == adj.len(),
        edge_to.len() == adj.len(),
        source < adj.len(),
        search_tree(adj, none_marked(adj.len()), marked, edge_to, source as int, rank),
        bfs_levels(adj, none_marked(adj.len()), marked, edge_to, source as int, rank),
        follows_links(edge_to, source, p),
        p[0] < adj.len(),
        marked[p[0] as int],
        0 <= i < p.len(),
    ensures
        p[i] < adj.len(),
        marked[p[i] as int],
        rank[p[i] as int] == rank[p[0] as int] - i,
    decreases i,
{
    if i > 0 {
        lemma_chain_levels(adj, marked, edge_to, source, rank, p, i - 1);
        let h = i - 1;
        assert(p[h] != source && p[h + 1] == edge_to[p[h] as int]);
        assert(newly(none_marked(adj.len()), marked, p[h] as int));
    }
}

/// Depth-first search of the paths from one vertex.
pub struct DepthFirstSearch {
    marked: Vec<bool>,
    edge_to: Vec<usize>,
    v: usize,
    graph: Ghost<Seq<Seq<usize>>>,
    rank: Ghost<Seq<int>>,
}

impl DepthFirstSearch {
    /// The vertex the paths start from.
    pub closed spec fn source(&self) -> usize {
        self.v
    }

    /// The graph last searched.
    pub closed spec fn searched_graph(&self) -> Seq<Seq<usize>> {
        self.graph@
    }

    /// Which vertices the search reached.
    pub closed spec fn marked_view(&self) -> Seq<bool> {
        self.marked@
    }

    /// For each vertex reached, the vertex it was reached from.
    pub closed spec fn links(&self) -> Seq<usize> {
        self.edge_to@
    }

    pub closed spec fn wf(&self) -> bool {
        &&& self.edge_to.len() == self.marked.len()
        &&& self.graph@.len() == self.marked.len()
        &&& self.v < self.marked.len()
        &&& search_tree(self.graph@, none_marked(self.graph@.len()), self.marked@, self.edge_to@, self.v as int, self.rank@)
    }

    /// Prepares a search from `origin` in a graph with `nb_vertices` vertices.
    pub fn init(nb_vertices: usize, origin: usize) -> (s: Self)
        requires
            origin < nb_vertices,
        ensures
            s.wf(),
            s.source() == origin,
            s.marked_view() == none_marked(nb_vertices as nat),
    {
        let mut edge_to: Vec<usize> = Vec::new();
        let mut k: usize = 0;
        while k < nb_vertices
            invariant
                k <= nb_vertices,
                edge_to@ == Seq::new(k as nat, |i: int| i as usize),
            decreases nb_vertices - k,
        {
            edge_to.push(k);
            k = k + 1;
            assert(edge_to@ =~= Seq::new(k as nat, |i: int| i as usize));
        }
        let s = DepthFirstSearch {
            marked: vec![false; nb_vertices],
            edge_to,
            v: origin,
            graph: Ghost(Seq::new(nb_vertices as nat, |i: int| Seq::<usize>::empty())),
            rank: Ghost(Seq::new(nb_vertices as nat, |i: int| 0int)),
        };
        assert(s.marked@ =~= none_marked(nb_vertices as nat));
        s
    }

    /// Finds every vertex reachable from the source in `graph`.
    pub fn find_paths<G: VertexInfo>(&mut self, graph: &G)
        requires
            old(self).wf(),
            graph.well_formed(),
            graph.adjacency().len() == old(self).marked_view().len(),
            old(self).marked_view() == none_marked(old(self).marked_view().len()),
        ensures
            final(self).wf(),
            final(self).source() == old(self).source(),
            final(self).searched_graph() == graph.adjacency(),
            final(self).marked_view().len() == old(self).marked_view().len(),
            forall|x: usize| x < graph.adjacency().len() ==> (#[trigger] final(self).marked_view()[x as int] <==> reachable(graph.adjacency(), final(self).source(), x)),
    {
        let ghost m0 = self.marked@;
        proof {
            graph.lemma_adjacency_valid();
        }
        dfs(graph, &mut self.marked, &mut self.edge_to, self.v, self.v, true, false);
        proof {
            let rank = choose|rank: Seq<int>| search_tree(graph.adjacency(), m0, self.marked@, self.edge_to@, self.v as int, rank);
            self.rank = Ghost(rank);
            self.graph = Ghost(graph.adjacency());
            assert forall|x: usize| x < graph.adjacency().len() implies (#[trigger] self.marked@[x as int] <==> reachable(graph.adjacency(), self.v, x)) by {
                lemma_search_marks_reachable(graph.adjacency(), m0, self.marked@, self.edge_to@, self.v, rank, x);
            }
        }
    }

    /// The path from `target` back to the source, if the search reached it.
    pub fn path_to(&self, target: &usize) -> (r: Option<Vec<usize>>)
        requires
            self.wf(),
            *target < self.marked_view().len(),
        ensures
            r.is_some() == self.marked_view()[*target as int],
            r.is_some() ==> {
                let p = r.unwrap()@;
                &&& p[0] == *target
                &&& follows_links(self.links(), self.source(), p)
                &&& is_back_walk(self.searched_graph(), p)
            },
    {
        let target = *target;
        if !self.marked[target] {
            return None;
        }
        Some(walk_links(&self.edge_to, self.v, target, self.graph, Ghost(self.marked@), self.rank))
    }
}

/// Breadth-first search of the paths from one vertex.
pub struct BreadthFirstSearch {
    marked: Vec<bool>,
    edge_to: Vec<usize>,
    v: usize,
    graph: Ghost<Seq<Seq<usize>>>,
    rank: Ghost<Seq<int>>,
}

impl BreadthFirstSearch {
    /// The vertex the paths start from.
    pub closed spec fn source(&self) -> usize {
        self.v
    }

    /// The graph last searched.
    pub closed spec fn searched_graph(&self) -> Seq<Seq<usize>> {
        self.graph@
    }

    /// Which vertices the search reached.
    pub closed spec fn marked_view(&self) -> Seq<bool> {
        self.marked@
    }

    /// For each vertex reached, the vertex it was reached from.
    pub closed spec fn links(&self) -> Seq<usize> {
        self.edge_to@
    }

    pub closed spec fn wf(&self) -> bool {
        &&& self.edge_to.len() == self.marked.len()
        &&& self.graph@.len() == self.marked.len()
        &&& self.v < self.marked.len()
        &&& search_tree(self.graph@, none_marked(self.graph@.len()), self.marked@, self.edge_to@, self.v as int, self.rank@)
        &&& bfs_levels(self.graph@, none_marked(self.graph@.len()), self.marked@, self.edge_to@, self.v as int, self.rank@)
        &&& closed_under(self.graph@, none_marked(self.graph@.len()), self.marked@)
        &&& valid_adjacency(self.graph@)
        &&& (self.marked@.contains(true) ==> self.marked@[self.v as int])
    }

    /// Prepares a search from `origin` in a graph with `nb_vertices` vertices.
    pub fn init(nb_vertices: usize, origin: usize) -> (s: Self)
        requires
            origin < nb_vertices,
        ensures
            s.wf(),
            s.source() == origin,
            s.marked_view() == none_marked(nb_vertices as nat),
    {
        let mut edge_to: Vec<usize> = Vec::new();
        let mut k: usize = 0;
        while k < nb_vertices
            invariant
                k <= nb_vertices,
                edge_to@ == Seq::new(k as nat, |i: int| i as usize),
            decreases nb_vertices - k,
        {
            edge_to.push(k);
            k = k + 1;
            assert(edge_to@ =~= Seq::new(k as nat, |i: int| i as usize));
        }
        let s = BreadthFirstSearch {
            marked: vec![false; nb_vertices],
            edge_to,
            v: origin,
            graph: Ghost(Seq::new(nb_vertices as nat, |i: int| Seq::<usize>::empty())),
            rank: Ghost(Seq::new(nb_vertices as nat, |i: int| 0int)),
        };
        assert(s.marked@ =~= none_marked(nb_vertices as nat));
        s
    }

    /// Finds every vertex reachable from the source in `graph`.
    pub fn find_paths<G: VertexInfo>(&mut self, graph: &G)
        requires
            old(self).wf(),
            graph.well_formed(),
            graph.adjacency().len() == old(self).marked_view().len(),
            old(self).marked_view() == none_marked(old(self).marked_view().len()),
        ensures
            final(self).wf(),
            final(self).source() == old(self).source(),
            final(self).searched_graph() == graph.adjacency(),
            final(self).marked_view().len() == old(self).marked_view().len(),
            forall|x: usize| x < graph.adjacency().len() ==> (#[trigger] final(self).marked_view()[x as int] <==> reachable(graph.adjacency(), final(self).source(), x)),
    {
        let ghost m0 = self.marked@;
        proof {
            graph.lemma_adjacency_valid();
        }
        bfs(graph, &mut self.marked, &mut self.edge_to, self.v);
        proof {
            let rank = choose|rank: Seq<int>|
                search_tree(graph.adjacency(), m0, self.marked@, self.edge_to@, self.v as int, rank)
                    && bfs_levels(graph.adjacency(), m0, self.marked@, self.edge_to@, self.v as int, rank);
            self.rank = Ghost(rank);
            self.graph = Ghost(graph.adjacency());
            assert forall|x: usize| x < graph.adjacency().len() implies (#[trigger] self.marked@[x as int] <==> reachable(graph.adjacency(), self.v, x)) by {
                lemma_search_marks_reachable(graph.adjacency(), m0, self.marked@, self.edge_to@, self.v, rank, x);
            }
        }
    }

    /// The path from `target` back to the source, if the search reached it.
    pub fn path_to(&self, target: &usize) -> (r: Option<Vec<usize>>)
        requires
            self.wf(),
            *target < self.marked_view().len(),
        ensures
            r.is_some() == self.marked_view()[*target as int],
            r.is_some() ==> {
                let p = r.unwrap()@;
                &&& p[0] == *target
                &&& follows_links(self.links(), self.source(), p)
                &&& is_back_walk(self.searched_graph(), p)
                &&& forall|q: Seq<usize>|
                    crate::graph::is_walk(self.searched_graph(), q) && q[0] == self.source() && q.last() == *target ==> p.len() <= q.len()
            },
    {
        let target = *target;
        if !self.marked[target] {
            return None;
        }
        let path = walk_links(&self.edge_to, self.v, target, self.graph, Ghost(self.marked@), self.rank);
        proof {
            let adj = self.graph@;
            assert(self.marked@.contains(true)) by {
                assert(self.marked@[target as int]);
            }
            lemma_chain_levels(adj, self.marked@, self.edge_to@, self.v, self.rank@, path@, path@.len() - 1);
            assert forall|q: Seq<usize>|
                crate::graph::is_walk(adj, q) && q[0] == self.v && q.last() == target implies path@.len() <= q.len() by {
                lemma_levels_bound(adj, self.marked@, self.edge_to@, self.v, self.rank@, q, q.len() - 1);
            }
        }
        Some(path)
    }
}

} // verus!
