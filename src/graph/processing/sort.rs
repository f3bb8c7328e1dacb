use vstd::prelude::*;

use crate::graph::processing::search::first_search::{finished_before_unreached, list_closed};
use crate::graph::processing::search::{dfs, finished_after_successors, none_marked};
use crate::graph::{has_edge, reachable, VertexInfo};

verus! {

/// No edge closes a cycle: the destination of an edge never reaches back
/// to its origin.
pub open spec fn acyclic(adj: Seq<Seq<usize>>) -> bool {
    forall|u: usize, v: usize| #[trigger] has_edge(adj, u as int, v) ==> !reachable(adj, v, u)
}

/// `order` holds each vertex `0..n` exactly once.
pub open spec fn is_permutation(order: Seq<usize>, n: nat) -> bool {
    &&& order.no_duplicates()
    &&& forall|i: int| 0 <= i < order.len() ==> #[trigger] order[i] < n
    &&& forall|v: usize| v < n ==> #[trigger] order.contains(v)
}

/// Depth-first order of the vertices of a graph: on a graph without cycles,
/// the reverse of the postorder is a topological order.
pub struct TopologicalSort {
    reverse_postorder: Vec<usize>,
    marked: Vec<bool>,
}

impl TopologicalSort {
    /// The vertices in the order their search finished.
    pub closed spec fn postorder(&self) -> Seq<usize> {
        self.reverse_postorder@
    }

    pub closed spec fn marked_view(&self) -> Seq<bool> {
        self.marked@
    }

    /// Prepares a sort for a graph with `nb_vertices` vertices.
    pub fn init(nb_vertices: usize) -> (s: Self)
        ensures
            s.postorder() == Seq::<usize>::empty(),
            s.marked_view() == none_marked(nb_vertices as nat),
    {
        let s = TopologicalSort { reverse_postorder: Vec::new(), marked: vec![false; nb_vertices] };
        assert(s.marked@ =~= none_marked(nb_vertices as nat));
        s
    }

    /// The vertices in the order their search finished (the postorder;
    /// reversed, it is the topological order).
    pub fn reverse_postorder(&self) -> (r: &Vec<usize>)
        ensures
            r@ == self.postorder(),
    {
        &self.reverse_postorder
    }

    /// The vertices in reverse postorder: on a graph without cycles, every
    /// edge goes from an earlier to a later vertex of this order.
    pub fn order(&self) -> (r: Vec<usize>)
        ensures
            r@ == self.postorder().reverse(),
    {
        let n = self.reverse_postorder.len();
        let mut r: Vec<usize> = Vec::new();
        let mut k: usize = 0;
        while k < n
            invariant
                n == self.reverse_postorder.len(),
                k <= n,
                r@ == self.postorder().reverse().subrange(0, k as int),
            decreases n - k,
        {
            r.push(self.reverse_postorder[n - 1 - k]);
            k = k + 1;
            assert(r@ =~= self.postorder().reverse().subrange(0, k as int));
        }
        assert(self.postorder().reverse().subrange(0, n as int) =~= self.postorder().reverse());
        r
    }

    /// Runs a depth-first search from each vertex not yet reached, in
    /// increasing order, and records the postorder.
    pub fn depth_first_order<G: VertexInfo>(&mut self, graph: &G)
        requires
            graph.well_formed(),
            old(self).postorder() == Seq::<usize>::empty(),
            old(self).marked_view() == none_marked(graph.adjacency().len()),
        ensures
            is_permutation(final(self).postorder(), graph.adjacency().len()),
            forall|i: int| 0 <= i < final(self).postorder().len() ==> #[trigger] finished_after_successors(graph.adjacency(), final(self).postorder(), i),
            forall|i: int| 0 <= i < final(self).postorder().len() ==> #[trigger] finished_before_unreached(graph.adjacency(), final(self).postorder(), i),
    {
        let ghost adj = graph.adjacency();
        let nb = graph.nb_vertices();
        let mut v: usize = 0;
        while v < nb
            invariant
                graph.well_formed(),
                adj == graph.adjacency(),
                nb == adj.len(),
                v <= nb,
                self.marked.len() == nb,
                self.reverse_postorder@.no_duplicates(),
                forall|i: int| 0 <= i < self.reverse_postorder.len() ==> (#[trigger] self.reverse_postorder@[i]) < nb && self.marked@[self.reverse_postorder@[i] as int],
                forall|x: int| 0 <= x < nb && #[trigger] self.marked@[x] ==> self.reverse_postorder@.contains(x as usize),
                forall|x: int| 0 <= x < v ==> #[trigger] self.marked@[x],
                forall|i: int| 0 <= i < self.reverse_postorder.len() ==> #[trigger] finished_after_successors(adj, self.reverse_postorder@, i),
                list_closed(adj, self.marked@, self.reverse_postorder@),
                forall|i: int| 0 <= i < self.reverse_postorder.len() ==> #[trigger] finished_before_unreached(adj, self.reverse_postorder@, i),
            decreases nb - v,
        {
            if !self.marked[v] {
                let ghost o0 = self.reverse_postorder@;
                let ghost mb = self.marked@;
                dfs(graph, &mut self.marked, &mut self.reverse_postorder, v, v, false, false);
                proof {
                    let o1 = self.reverse_postorder@;
                    assert forall|i: int| 0 <= i < o1.len() implies #[trigger] finished_after_successors(adj, o1, i) by {
                        if i < o0.len() {
                            assert(finished_after_successors(adj, o0, i));
                            assert forall|k: int| 0 <= k < o0.len() implies o1[k] == o0[k] by {
                                assert(o1.subrange(0, o0.len() as int)[k] == o0[k]);
                            }
                            let x = o1[i] as int;
                            assert forall|k: int| 0 <= k < adj[x].len() implies (exists|jj: int| 0 <= jj < i && o1[jj] == #[trigger] adj[x][k])
                                || reachable(adj, adj[x][k], o1[i]) by {
                                if exists|jj: int| 0 <= jj < i && o0[jj] == adj[x][k] {
                                    let jj = choose|jj: int| 0 <= jj < i && o0[jj] == adj[x][k];
                                    assert(o1[jj] == o0[jj]);
                                }
                            }
                        }
                    }
                    let o1 = self.reverse_postorder@;
                    assert forall|i: int| 0 <= i < o1.len() implies #[trigger] finished_before_unreached(adj, o1, i) by {
                        if i < o0.len() {
                            assert(finished_before_unreached(adj, o0, i));
                            assert forall|k: int| 0 <= k < o0.len() implies o1[k] == o0[k] by {
                                assert(o1.subrange(0, o0.len() as int)[k] == o0[k]);
                            }
                            assert(o1[i] == o0[i]);
                            assert forall|p: Seq<usize>|
                                #[trigger] crate::graph::is_walk(adj, p) && p[0] == o1[i] && (forall|k: int| 1 <= k < p.len() ==> !reachable(adj, #[trigger] p[k], o1[i]))
                                    implies forall|k: int| 1 <= k < p.len() ==> #[trigger] crate::graph::processing::search::first_search::listed_before(o1, i, p[k]) by {
                                assert forall|k: int| 1 <= k < p.len() implies #[trigger] crate::graph::processing::search::first_search::listed_before(o1, i, p[k]) by {
                                    assert(crate::graph::processing::search::first_search::listed_before(o0, i, p[k]));
                                    let j = choose|j: int| 0 <= j < i && o0[j] == p[k];
                                    assert(o1[j] == o0[j]);
                                }
                            }
                        }
                    }
                    assert forall|x: int| 0 <= x < v + 1 implies #[trigger] self.marked@[x] by {
                        if x < v {
                            assert(mb[x]);
                        }
                    }
                }
            }
            v = v + 1;
        }
        proof {
            assert forall|x: usize| x < nb implies #[trigger] self.reverse_postorder@.contains(x) by {
                assert(self.marked@[x as int]);
            }
        }
    }
}

/// On a graph without cycles, every edge leads from a vertex to one that
/// comes later in reverse postorder: the reverse postorder is a
/// topological order.
pub proof fn lemma_topological_order(adj: Seq<Seq<usize>>, postorder: Seq<usize>, i: int, j: int)
    requires
        acyclic(adj),
        is_permutation(postorder, adj.len()),
        forall|k: int| 0 <= k < postorder.len() ==> #[trigger] finished_after_successors(adj, postorder, k),
        0 <= i < postorder.len(),
        0 <= j < postorder.len(),
        has_edge(adj, postorder.reverse()[i] as int, postorder.reverse()[j]),
    ensures
        i < j,
{
    let n = postorder.len();
    let a = n - 1 - i;
    let b = n - 1 - j;
    let x = postorder[a];
    let y = postorder[b];
    assert(postorder.reverse()[i] == x);
    assert(postorder.reverse()[j] == y);
    assert(finished_after_successors(adj, postorder, a));
    let k = choose|k: int| 0 <= k < adj[x as int].len() && adj[x as int][k] == y;
    assert(adj[postorder[a] as int][k] == y);
    assert(!reachable(adj, y, x));
    let jj = choose|jj: int| 0 <= jj < a && postorder[jj] == #[trigger] adj[postorder[a] as int][k];
    assert(postorder[jj] == postorder[b]);
}

} // verus!
