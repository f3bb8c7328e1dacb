use vstd::prelude::*;

use crate::graph::processing::search::first_search::{finished_before_unreached, reachable_avoiding};
use crate::graph::processing::search::{dfs, none_marked};
use crate::graph::processing::sort::TopologicalSort;
use crate::graph::{
    has_edge, is_walk, lemma_reachable_symmetric, lemma_reachable_trans, reachable, valid_adjacency, DiGraph,
    Graph,
};

verus! {

/// Number of vertices among the first `k` that are marked and labelled by
/// themselves: the representatives of the components found.
pub open spec fn root_count(marked: Seq<bool>, id: Seq<usize>, k: int) -> nat
    decreases k,
{
    if k <= 0 {
        0
    } else {
        root_count(marked, id, k - 1) + if is_root(marked, id, k - 1) {
            1nat
        } else {
            0nat
        }
    }
}

/// Vertex `x` is marked and labelled by itself.
pub open spec fn is_root(marked: Seq<bool>, id: Seq<usize>, x: int) -> bool {
    marked[x] && id[x] == x as usize
}

/// Outside `r`, the same vertices are representatives.
pub open spec fn same_roots_except(m1: Seq<bool>, id1: Seq<usize>, m2: Seq<bool>, id2: Seq<usize>, r: int) -> bool {
    forall|x: int| 0 <= x < m1.len() && x != r ==> is_root(m1, id1, x) == #[trigger] is_root(m2, id2, x)
}

proof fn lemma_root_count_one_more(m1: Seq<bool>, id1: Seq<usize>, m2: Seq<bool>, id2: Seq<usize>, r: int, k: int)
    requires
        0 <= r < m1.len(),
        m1.len() <= usize::MAX,
        m1.len() == m2.len(),
        id1.len() == m1.len(),
        id2.len() == m1.len(),
        0 <= k <= m1.len(),
        same_roots_except(m1, id1, m2, id2, r),
        !is_root(m1, id1, r),
        is_root(m2, id2, r),
    ensures
        root_count(m2, id2, k) == root_count(m1, id1, k) + if r < k {
            1nat
        } else {
            0nat
        },
    decreases k,
{
    if k > 0 {
        lemma_root_count_one_more(m1, id1, m2, id2, r, k - 1);
        let x = k - 1;
        if x != r {
            assert(0 <= x < m1.len());
            assert(is_root(m1, id1, x) == is_root(m2, id2, x));
        }
    }
}

proof fn lemma_root_count_bound(m: Seq<bool>, id: Seq<usize>, k: int)
    requires
        0 <= k,
    ensures
        root_count(m, id, k) <= k,
    decreases k,
{
    if k > 0 {
        lemma_root_count_bound(m, id, k - 1);
    }
}

/// Each vertex carries the label of a vertex that reaches it and labels
/// itself; unmarked vertices label themselves.
pub open spec fn labelled(adj: Seq<Seq<usize>>, marked: Seq<bool>, id: Seq<usize>) -> bool {
    &&& marked.len() == adj.len()
    &&& id.len() == adj.len()
    &&& forall|x: int|
        0 <= x < adj.len() && #[trigger] marked[x] ==> {
            &&& id[x] < adj.len()
            &&& marked[id[x] as int]
            &&& id[id[x] as int] == id[x]
            &&& reachable(adj, id[x], x as usize)
        }
    &&& forall|x: int| 0 <= x < adj.len() && !#[trigger] marked[x] ==> id[x] == x as usize
}

/// One more search, from the unmarked vertex `r` with label `r`, keeps the
/// labelling and adds one representative.
proof fn lemma_labelled_step(
    adj: Seq<Seq<usize>>,
    m1: Seq<bool>,
    id1: Seq<usize>,
    m2: Seq<bool>,
    id2: Seq<usize>,
    r: usize,
)
    requires
        labelled(adj, m1, id1),
        r < adj.len(),
        adj.len() <= usize::MAX,
        !m1[r as int],
        m2.len() == adj.len(),
        id2.len() == adj.len(),
        crate::graph::processing::search::first_search::grows(m1, m2),
        m2[r as int],
        forall|v: int|
            0 <= v < adj.len() && !(crate::graph::processing::search::first_search::newly(m1, m2, v) && v != r)
                ==> #[trigger] id2[v] == id1[v],
        forall|v: int|
            0 <= v < adj.len() && #[trigger] crate::graph::processing::search::first_search::newly(m1, m2, v) && v != r
                ==> id2[v] == r,
        forall|v: int| 0 <= v < adj.len() && #[trigger] crate::graph::processing::search::first_search::newly(m1, m2, v) ==> reachable(adj, r, v as usize),
    ensures
        labelled(adj, m2, id2),
        root_count(m2, id2, adj.len() as int) == root_count(m1, id1, adj.len() as int) + 1,
{
    assert(id1[r as int] == r);
    assert forall|x: int| 0 <= x < adj.len() && #[trigger] m2[x] implies {
        &&& id2[x] < adj.len()
        &&& m2[id2[x] as int]
        &&& id2[id2[x] as int] == id2[x]
        &&& reachable(adj, id2[x], x as usize)
    } by {
        if m1[x] {
            assert(!crate::graph::processing::search::first_search::newly(m1, m2, x));
            assert(id2[x] == id1[x]);
            assert(m1[id1[x] as int]);
            assert(!crate::graph::processing::search::first_search::newly(m1, m2, id1[x] as int));
            assert(id2[id1[x] as int] == id1[id1[x] as int]);
        } else {
            assert(crate::graph::processing::search::first_search::newly(m1, m2, x));
            if x == r as int {
                crate::graph::lemma_reachable_self(adj, r);
            }
        }
    }
    assert forall|x: int| 0 <= x < adj.len() && !#[trigger] m2[x] implies id2[x] == x as usize by {
        assert(!m1[x]);
        assert(!crate::graph::processing::search::first_search::newly(m1, m2, x));
    }
    assert forall|x: int| 0 <= x < adj.len() && x != r as int implies is_root(m1, id1, x) == #[trigger] is_root(m2, id2, x) by {
        if m1[x] {
            assert(m2[x]);
            assert(!crate::graph::processing::search::first_search::newly(m1, m2, x));
            assert(id2[x] == id1[x]);
        } else if m2[x] {
            assert(crate::graph::processing::search::first_search::newly(m1, m2, x));
            assert(id2[x] == r);
            assert(id2[x] != x as usize);
        }
    }
    lemma_root_count_one_more(m1, id1, m2, id2, r as int, adj.len() as int);
}

/// Every edge out of a marked vertex leads to a marked vertex whose label
/// is at most its own.
pub open spec fn labels_descend(adj: Seq<Seq<usize>>, marked: Seq<bool>, id: Seq<usize>) -> bool {
    forall|x: int, i: int|
        0 <= x < adj.len() && marked[x] && 0 <= i < adj[x].len() ==> marked[#[trigger] adj[x][i] as int] && id[adj[x][i] as int]
            <= id[x]
}

proof fn lemma_walk_labels(adj: Seq<Seq<usize>>, marked: Seq<bool>, id: Seq<usize>, p: Seq<usize>, k: int)
    requires
        valid_adjacency(adj),
        marked.len() == adj.len(),
        labels_descend(adj, marked, id),
        is_walk(adj, p),
        p[0] < adj.len(),
        marked[p[0] as int],
        0 <= k < p.len(),
    ensures
        p[k] < adj.len(),
        marked[p[k] as int],
        id[p[k] as int] <= id[p[0] as int],
    decreases k,
{
    if k > 0 {
        lemma_walk_labels(adj, marked, id, p, k - 1);
        let h = k - 1;
        assert(has_edge(adj, p[h] as int, p[h + 1]));
        let i = choose|i: int| 0 <= i < adj[p[h] as int].len() && #[trigger] adj[p[h] as int][i] == p[h + 1];
        assert(marked[adj[p[h] as int][i] as int]);
    }
}

/// In a graph where every edge has its reverse, once every vertex is
/// labelled and labels never rise along edges, two vertices share a label
/// exactly when one reaches the other.
pub proof fn lemma_same_label_iff_reachable(adj: Seq<Seq<usize>>, marked: Seq<bool>, id: Seq<usize>, v: usize, w: usize)
    requires
        valid_adjacency(adj),
        forall|u: usize, x: usize| #[trigger] has_edge(adj, u as int, x) ==> has_edge(adj, x as int, u),
        labelled(adj, marked, id),
        labels_descend(adj, marked, id),
        forall|x: int| 0 <= x < adj.len() ==> #[trigger] marked[x],
        v < adj.len(),
        w < adj.len(),
    ensures
        id[v as int] == id[w as int] <==> reachable(adj, v, w),
{
    if reachable(adj, v, w) {
        let p = choose|p: Seq<usize>| is_walk(adj, p) && p[0] == v && p.last() == w;
        lemma_walk_labels(adj, marked, id, p, p.len() - 1);
        lemma_reachable_symmetric(adj, v, w);
        let q = choose|q: Seq<usize>| is_walk(adj, q) && q[0] == w && q.last() == v;
        lemma_walk_labels(adj, marked, id, q, q.len() - 1);
    }
    if id[v as int] == id[w as int] {
        assert(marked[v as int] && marked[w as int]);
        let r = id[v as int];
        lemma_reachable_symmetric(adj, r, v);
        lemma_reachable_trans(adj, v, r, w);
    }
}

/// Every edge out of a marked vertex leads to a marked vertex found in the
/// same search or an earlier one.
pub open spec fn runs_descend(adj: Seq<Seq<usize>>, marked: Seq<bool>, run: Seq<int>) -> bool {
    forall|x: int, i: int|
        0 <= x < adj.len() && marked[x] && 0 <= i < adj[x].len() ==> marked[#[trigger] adj[x][i] as int] && run[adj[x][i] as int]
            <= run[x]
}

proof fn lemma_walk_runs(adj: Seq<Seq<usize>>, marked: Seq<bool>, run: Seq<int>, p: Seq<usize>, k: int)
    requires
        valid_adjacency(adj),
        marked.len() == adj.len(),
        runs_descend(adj, marked, run),
        is_walk(adj, p),
        p[0] < adj.len(),
        marked[p[0] as int],
        0 <= k < p.len(),
    ensures
        p[k] < adj.len(),
        marked[p[k] as int],
        run[p[k] as int] <= run[p[0] as int],
    decreases k,
{
    if k > 0 {
        lemma_walk_runs(adj, marked, run, p, k - 1);
        let h = k - 1;
        assert(has_edge(adj, p[h] as int, p[h + 1]));
        let i = choose|i: int| 0 <= i < adj[p[h] as int].len() && #[trigger] adj[p[h] as int][i] == p[h + 1];
        assert(marked[adj[p[h] as int][i] as int]);
    }
}

/// The edges of `radj` are those of `adj` reversed.
pub open spec fn reversed_of(adj: Seq<Seq<usize>>, radj: Seq<Seq<usize>>) -> bool {
    &&& radj.len() == adj.len()
    &&& forall|a: usize, b: usize| #[trigger] has_edge(radj, a as int, b) <==> has_edge(adj, b as int, a)
}

proof fn lemma_reachable_reversed(adj: Seq<Seq<usize>>, radj: Seq<Seq<usize>>, a: usize, b: usize)
    requires
        reversed_of(adj, radj),
        reachable(radj, a, b),
    ensures
        reachable(adj, b, a),
{
    let p = choose|p: Seq<usize>| is_walk(radj, p) && p[0] == a && p.last() == b;
    let q = p.reverse();
    assert forall|i: int| 0 <= i < q.len() - 1 implies #[trigger] has_edge(adj, q[i] as int, q[i + 1]) by {
        let j = p.len() - 2 - i;
        assert(q[i] == p[j + 1] && q[i + 1] == p[j]);
        assert(has_edge(radj, p[j] as int, p[j + 1]));
    }
    assert(is_walk(adj, q) && q[0] == b && q.last() == a);
}

proof fn lemma_last_reaching(radj: Seq<Seq<usize>>, p: Seq<usize>, x: usize, k: int) -> (r: int)
    requires
        0 <= k < p.len(),
        reachable(radj, p[k], x),
    ensures
        k <= r < p.len(),
        reachable(radj, p[r], x),
        forall|j: int| r < j < p.len() ==> !reachable(radj, #[trigger] p[j], x),
    decreases p.len() - k,
{
    if exists|j: int| k < j < p.len() && reachable(radj, #[trigger] p[j], x) {
        let j = choose|j: int| k < j < p.len() && reachable(radj, #[trigger] p[j], x);
        lemma_last_reaching(radj, p, x, j)
    } else {
        k
    }
}

/// Kosaraju's step: when the search in `adj` starts from `r`, the unmarked
/// vertex that finished last in the search of the reversed graph, every
/// vertex it reaches through unmarked vertices reaches `r` back.
proof fn lemma_kosaraju_step(
    adj: Seq<Seq<usize>>,
    radj: Seq<Seq<usize>>,
    post: Seq<usize>,
    m: Seq<bool>,
    pr: int,
    x: usize,
)
    requires
        reversed_of(adj, radj),
        m.len() == adj.len(),
        post.no_duplicates(),
        forall|v: usize| v < adj.len() ==> #[trigger] post.contains(v),
        forall|i: int| 0 <= i < post.len() ==> #[trigger] finished_before_unreached(radj, post, i),
        0 <= pr < post.len(),
        post[pr] < adj.len(),
        !m[post[pr] as int],
        forall|j: int| pr < j < post.len() ==> post[j] < adj.len() && m[#[trigger] post[j] as int],
        reachable_avoiding(adj, m, post[pr], x),
    ensures
        reachable(adj, x, post[pr]),
{
    let r = post[pr];
    let q = choose|q: Seq<usize>|
        is_walk(adj, q) && q[0] == r && q.last() == x && forall|k: int| 0 <= k < q.len() ==> #[trigger] q[k] < m.len() && !m[q[k] as int];
    let p = q.reverse();
    assert forall|i: int| 0 <= i < p.len() - 1 implies #[trigger] has_edge(radj, p[i] as int, p[i + 1]) by {
        let j = q.len() - 2 - i;
        assert(p[i] == q[j + 1] && p[i + 1] == q[j]);
        assert(has_edge(adj, q[j] as int, q[j + 1]));
    }
    assert(is_walk(radj, p) && p[0] == x && p.last() == r);
    assert forall|k: int| 0 <= k < p.len() implies #[trigger] p[k] < m.len() && !m[p[k] as int] by {
        assert(p[k] == q[q.len() - 1 - k]);
    }
    crate::graph::lemma_reachable_self(radj, x);
    let ks = lemma_last_reaching(radj, p, x, 0);
    if ks == p.len() - 1 {
        lemma_reachable_reversed(adj, radj, r, x);
    } else {
        let w = p[ks];
        let p2 = p.subrange(ks, p.len() as int);
        assert forall|i: int| 0 <= i < p2.len() - 1 implies #[trigger] has_edge(radj, p2[i] as int, p2[i + 1]) by {
            assert(p2[i] == p[ks + i] && p2[i + 1] == p[ks + i + 1]);
            assert(has_edge(radj, p[ks + i] as int, p[(ks + i) + 1]));
        }
        assert(w < adj.len());
        assert(post.contains(w));
        let iw = choose|iw: int| 0 <= iw < post.len() && post[iw] == w;
        assert forall|k: int| 1 <= k < p2.len() implies !reachable(radj, #[trigger] p2[k], post[iw]) by {
            assert(p2[k] == p[ks + k]);
            if reachable(radj, p2[k], w) {
                crate::graph::lemma_reachable_trans(radj, p2[k], w, x);
            }
        }
        assert(finished_before_unreached(radj, post, iw));
        assert(is_walk(radj, p2) && p2[0] == post[iw]);
        let last = p2.len() - 1;
        assert(p2[last] == r);
        assert(crate::graph::processing::search::first_search::listed_before(post, iw, p2[last]));
        let j = choose|j: int| 0 <= j < iw && post[j] == p2[last];
        assert(j == pr);
        if iw > pr {
            assert(m[post[iw] as int]);
        }
        assert(iw != pr);
    }
}

/// Connected components of an undirected graph.
pub struct ConnectedComponent {
    id: Vec<usize>,
    marked: Vec<bool>,
    nb_cc: usize,
    ran: bool,
    graph: Ghost<Seq<Seq<usize>>>,
}

impl ConnectedComponent {
    /// Which vertices were reached.
    pub closed spec fn marked_view(&self) -> Seq<bool> {
        self.marked@
    }

    /// The label of each vertex: the vertex its component was found from.
    pub closed spec fn labels(&self) -> Seq<usize> {
        self.id@
    }

    pub closed spec fn component_count(&self) -> nat {
        self.nb_cc as nat
    }

    /// The graph last processed.
    pub closed spec fn searched_graph(&self) -> Seq<Seq<usize>> {
        self.graph@
    }

    pub closed spec fn wf(&self) -> bool {
        &&& labelled(self.graph@, self.marked@, self.id@)
        &&& self.nb_cc == root_count(self.marked@, self.id@, self.marked@.len() as int)
    }

    /// Prepares the search for a graph with `nb_vertices` vertices.
    pub fn init(nb_vertices: usize) -> (s: Self)
        ensures
            s.wf(),
            s.marked_view() == none_marked(nb_vertices as nat),
            s.searched_graph().len() == nb_vertices,
            s.component_count() == 0,
    {
        let mut id: Vec<usize> = Vec::new();
        let mut k: usize = 0;
        while k < nb_vertices
            invariant
                k <= nb_vertices,
                id@ == Seq::new(k as nat, |i: int| i as usize),
            decreases nb_vertices - k,
        {
            id.push(k);
            k = k + 1;
            assert(id@ =~= Seq::new(k as nat, |i: int| i as usize));
        }
        let s = ConnectedComponent {
            id,
            marked: vec![false; nb_vertices],
            nb_cc: 0,
            ran: false,
            graph: Ghost(Seq::new(nb_vertices as nat, |i: int| Seq::<usize>::empty())),
        };
        assert(s.marked@ =~= none_marked(nb_vertices as nat));
        proof {
            lemma_root_count_zero(s.marked@, s.id@, nb_vertices as int);
        }
        s
    }

    /// Finds the components of `graph`: every vertex gets the label of the
    /// first vertex, in increasing order, from which it was reached.
    pub fn find(&mut self, graph: &Graph)
        requires
            old(self).wf(),
            graph.wf(),
            graph.vertex_count() == old(self).marked_view().len(),
            old(self).marked_view() == none_marked(old(self).marked_view().len()),
        ensures
            final(self).wf(),
            final(self).searched_graph() == graph.adj(),
            forall|x: int| 0 <= x < graph.vertex_count() ==> #[trigger] final(self).marked_view()[x],
            forall|v: usize, w: usize|
                v < graph.vertex_count() && w < graph.vertex_count() ==> (final(self).labels()[v as int] == final(self).labels()[w as int]
                    <==> #[trigger] reachable(graph.adj(), v, w)),
            labelled(graph.adj(), final(self).marked_view(), final(self).labels()),
            final(self).component_count() == root_count(final(self).marked_view(), final(self).labels(), graph.vertex_count() as int),
    {
        let ghost adj = graph.adj();
        proof {
            assert(labelled(adj, self.marked@, self.id@));
            assert(root_count(self.marked@, self.id@, self.marked@.len() as int) == 0) by {
                lemma_root_count_zero(self.marked@, self.id@, self.marked@.len() as int);
            }
            graph.lemma_wf();
        }
        self.graph = Ghost(adj);
        self.nb_cc = 0;
        let nb = graph.nb_vertices();
        let mut v: usize = 0;
        while v < nb
            invariant
                graph.wf(),
                adj == graph.adj(),
                nb == adj.len(),
                v <= nb,
                self.graph@ == adj,
                labelled(adj, self.marked@, self.id@),
                self.nb_cc == root_count(self.marked@, self.id@, nb as int),
                forall|x: int| 0 <= x < v ==> #[trigger] self.marked@[x],
                valid_adjacency(adj),
                forall|x: int| 0 <= x < nb && #[trigger] self.marked@[x] ==> self.id@[x] < v,
                labels_descend(adj, self.marked@, self.id@),
            decreases nb - v,
        {
            if !self.marked[v] {
                let ghost m1 = self.marked@;
                let ghost id1 = self.id@;
                dfs(graph, &mut self.marked, &mut self.id, v, v, true, true);
                proof {
                    lemma_labelled_step(adj, m1, id1, self.marked@, self.id@, v);
                    let m2 = self.marked@;
                    let id2 = self.id@;
                    assert forall|x: int| 0 <= x < nb && #[trigger] m2[x] implies id2[x] < v + 1 by {
                        if m1[x] {
                            assert(!crate::graph::processing::search::first_search::newly(m1, m2, x));
                        } else if x != v as int {
                            assert(crate::graph::processing::search::first_search::newly(m1, m2, x));
                        }
                    }
                    assert forall|x: int, i: int|
                        0 <= x < adj.len() && m2[x] && 0 <= i < adj[x].len() implies m2[#[trigger] adj[x][i] as int] && id2[adj[x][i] as int] <= id2[x] by {
                        let y = adj[x][i] as int;
                        if m1[x] {
                            assert(!crate::graph::processing::search::first_search::newly(m1, m2, x));
                            assert(m1[y]);
                            assert(!crate::graph::processing::search::first_search::newly(m1, m2, y));
                        } else {
                            assert(crate::graph::processing::search::first_search::newly(m1, m2, x));
                            assert(m2[y]);
                            if m1[y] {
                                assert(!crate::graph::processing::search::first_search::newly(m1, m2, y));
                                assert(id1[y] < v);
                            } else {
                                assert(crate::graph::processing::search::first_search::newly(m1, m2, y));
                            }
                            if x != v as int {
                                assert(id2[x] == v);
                            } else {
                                assert(id2[x] == id1[x]);
                            }
                        }
                    }
                    lemma_root_count_bound(self.marked@, self.id@, nb as int);
                    assert forall|x: int| 0 <= x < v + 1 implies #[trigger] self.marked@[x] by {
                        if x < v {
                            assert(m1[x]);
                        }
                    }
                }
                self.nb_cc = self.nb_cc + 1;
            }
            v = v + 1;
        }
        self.ran = true;
        proof {
            assert forall|a: usize, b: usize|
                a < nb && b < nb implies (self.id@[a as int] == self.id@[b as int] <==> #[trigger] reachable(adj, a, b)) by {
                lemma_same_label_iff_reachable(adj, self.marked@, self.id@, a, b);
            }
        }
    }

    /// Whether two vertices carry the same label, once both were reached.
    pub fn connected(&self, vertex_v: &usize, vertex_w: &usize) -> (r: Option<bool>)
        requires
            self.wf(),
            *vertex_v < self.marked_view().len(),
            *vertex_w < self.marked_view().len(),
        ensures
            r == if self.marked_view()[*vertex_v as int] && self.marked_view()[*vertex_w as int] {
                Some(self.labels()[*vertex_v as int] == self.labels()[*vertex_w as int])
            } else {
                None::<bool>
            },
    {
        let vertex_v = *vertex_v;
        let vertex_w = *vertex_w;
        if !self.marked[vertex_v] || !self.marked[vertex_w] {
            return None;
        }
        Some(self.id[vertex_v] == self.id[vertex_w])
    }

    /// Number of components found: the number of vertices that label
    /// themselves, each the representative of one component.
    pub fn count(&self) -> (r: usize)
        ensures
            r == self.component_count(),
            self.wf() ==> r == root_count(self.marked_view(), self.labels(), self.marked_view().len() as int),
    {
        self.nb_cc
    }
}

proof fn lemma_root_count_zero(m: Seq<bool>, id: Seq<usize>, k: int)
    requires
        k <= m.len(),
        forall|x: int| 0 <= x < m.len() ==> !#[trigger] m[x],
    ensures
        root_count(m, id, k) == 0,
    decreases k,
{
    if k > 0 {
        lemma_root_count_zero(m, id, k - 1);
    }
}

/// Strongly connected components of a directed graph (Kosaraju's two-pass
/// algorithm).
pub struct StrongConnectedComponent {
    id: Vec<usize>,
    marked: Vec<bool>,
    nb_scc: usize,
    ran: bool,
    graph: Ghost<Seq<Seq<usize>>>,
}

impl StrongConnectedComponent {
    /// Which vertices were reached.
    pub closed spec fn marked_view(&self) -> Seq<bool> {
        self.marked@
    }

    /// The label of each vertex: the vertex its component was found from.
    pub closed spec fn labels(&self) -> Seq<usize> {
        self.id@
    }

    pub closed spec fn component_count(&self) -> nat {
        self.nb_scc as nat
    }

    /// The graph last processed.
    pub closed spec fn searched_graph(&self) -> Seq<Seq<usize>> {
        self.graph@
    }

    pub closed spec fn wf(&self) -> bool {
        &&& labelled(self.graph@, self.marked@, self.id@)
        &&& self.nb_scc == root_count(self.marked@, self.id@, self.marked@.len() as int)
    }

    /// Prepares the search for a graph with `nb_vertices` vertices.
    pub fn init(nb_vertices: usize) -> (s: Self)
        ensures
            s.wf(),
            s.marked_view() == none_marked(nb_vertices as nat),
            s.searched_graph().len() == nb_vertices,
            s.component_count() == 0,
    {
        let mut id: Vec<usize> = Vec::new();
        let mut k: usize = 0;
        while k < nb_vertices
            invariant
                k <= nb_vertices,
                id@ == Seq::new(k as nat, |i: int| i as usize),
            decreases nb_vertices - k,
        {
            id.push(k);
            k = k + 1;
            assert(id@ =~= Seq::new(k as nat, |i: int| i as usize));
        }
        let s = StrongConnectedComponent {
            id,
            marked: vec![false; nb_vertices],
            nb_scc: 0,
            ran: false,
            graph: Ghost(Seq::new(nb_vertices as nat, |i: int| Seq::<usize>::empty())),
        };
        assert(s.marked@ =~= none_marked(nb_vertices as nat));
        proof {
            lemma_root_count_zero(s.marked@, s.id@, nb_vertices as int);
        }
        s
    }

    /// Finds the strongly connected components of `graph`: the reverse
    /// postorder of the reversed graph orders the searches in `graph`, and
    /// every vertex gets the label of the search that reached it.
    pub fn find(&mut self, graph: &DiGraph)
        requires
            old(self).wf(),
            graph.wf(),
            graph.vertex_count() == old(self).marked_view().len(),
            old(self).marked_view() == none_marked(old(self).marked_view().len()),
        ensures
            final(self).wf(),
            final(self).searched_graph() == graph.adj(),
            forall|x: int| 0 <= x < graph.vertex_count() ==> #[trigger] final(self).marked_view()[x],
            labelled(graph.adj(), final(self).marked_view(), final(self).labels()),
            final(self).component_count() == root_count(final(self).marked_view(), final(self).labels(), graph.vertex_count() as int),
            forall|v: usize, w: usize|
                v < graph.vertex_count() && w < graph.vertex_count() ==> (final(self).labels()[v as int] == final(self).labels()[w as int]
                    <==> (#[trigger] reachable(graph.adj(), v, w) && reachable(graph.adj(), w, v))),
    {
        let ghost adj = graph.adj();
        let ghost mut run: Seq<int> = Seq::new(adj.len(), |i: int| 0int);
        proof {
            assert(labelled(adj, self.marked@, self.id@));
            assert(root_count(self.marked@, self.id@, self.marked@.len() as int) == 0) by {
                lemma_root_count_zero(self.marked@, self.id@, self.marked@.len() as int);
            }
            graph.lemma_wf();
        }
        self.graph = Ghost(adj);
        self.nb_scc = 0;
        let nb = graph.nb_vertices();
        let reversed = graph.reverse();
        let mut topo = TopologicalSort::init(nb);
        topo.depth_first_order(&reversed);
        let order_second_dfs = topo.reverse_postorder();
        let len = order_second_dfs.len();
        let ghost radj = reversed.adj();
        proof {
            reversed.lemma_wf();
            assert forall|a: usize, b: usize| #[trigger] has_edge(radj, a as int, b) <==> has_edge(adj, b as int, a) by {
                assert(has_edge(radj, a as int, b) <==> crate::graph::edge_set(radj).contains((a, b)));
                assert(has_edge(adj, b as int, a) <==> crate::graph::edge_set(adj).contains((b, a)));
            }
        }
        let mut v: usize = 0;
        while v < len
            invariant
                graph.wf(),
                adj == graph.adj(),
                nb == adj.len(),
                len == order_second_dfs.len(),
                v <= len,
                crate::graph::processing::sort::is_permutation(order_second_dfs@, nb as nat),
                self.graph@ == adj,
                labelled(adj, self.marked@, self.id@),
                self.nb_scc == root_count(self.marked@, self.id@, nb as int),
                forall|k: int| len - v <= k < len ==> #[trigger] self.marked@[order_second_dfs@[k] as int],
                valid_adjacency(adj),
                run.len() == nb,
                forall|x: int| 0 <= x < nb && #[trigger] self.marked@[x] ==> 0 <= run[x] < self.nb_scc,
                runs_descend(adj, self.marked@, run),
                reversed_of(adj, radj),
                forall|i: int| 0 <= i < len ==> #[trigger] finished_before_unreached(radj, order_second_dfs@, i),
                forall|x: int| 0 <= x < nb && #[trigger] self.marked@[x] ==> reachable(adj, x as usize, self.id@[x]),
                forall|x: int, y: int|
                    0 <= x < nb && 0 <= y < nb && self.marked@[x] && self.marked@[y] ==> (#[trigger] self.id@[x] == #[trigger] self.id@[y]
                        <==> run[x] == run[y]),
            decreases len - v,
        {
            let vertex = order_second_dfs[len - 1 - v];
            if !self.marked[vertex] {
                let ghost m1 = self.marked@;
                let ghost id1 = self.id@;
                dfs(graph, &mut self.marked, &mut self.id, vertex, vertex, true, true);
                proof {
                    assert forall|x: int| 0 <= x < nb && #[trigger] self.marked@[x] implies reachable(adj, x as usize, self.id@[x]) by {
                        if m1[x] {
                            assert(!crate::graph::processing::search::first_search::newly(m1, self.marked@, x));
                        } else {
                            assert(crate::graph::processing::search::first_search::newly(m1, self.marked@, x));
                            let pr = len - 1 - v;
                            assert forall|j: int| pr < j < len implies order_second_dfs@[j] < adj.len() && m1[#[trigger] order_second_dfs@[j] as int] by {}
                            lemma_kosaraju_step(adj, radj, order_second_dfs@, m1, pr as int, x as usize);
                            if x != vertex as int {
                                assert(self.id@[x] == vertex);
                            } else {
                                assert(self.id@[x] == id1[x]);
                                crate::graph::lemma_reachable_self(adj, vertex);
                            }
                        }
                    }
                    lemma_labelled_step(adj, m1, id1, self.marked@, self.id@, vertex);
                    lemma_root_count_bound(self.marked@, self.id@, nb as int);
                    let m2 = self.marked@;
                    let id2 = self.id@;
                    let t = self.nb_scc as int;
                    let run1 = run;
                    run = Seq::new(nb as nat, |x: int| if m1[x] { run1[x] } else { t });
                    assert forall|x: int| 0 <= x < nb && #[trigger] m2[x] implies 0 <= run[x] < t + 1 by {}
                    assert forall|x: int, i: int|
                        0 <= x < adj.len() && m2[x] && 0 <= i < adj[x].len() implies m2[#[trigger] adj[x][i] as int] && run[adj[x][i] as int] <= run[x] by {
                        let y = adj[x][i] as int;
                        if m1[x] {
                            assert(m1[y]);
                        } else {
                            assert(crate::graph::processing::search::first_search::newly(m1, m2, x));
                        }
                    }
                    assert forall|x: int, y: int|
                        0 <= x < nb && 0 <= y < nb && m2[x] && m2[y] implies (#[trigger] id2[x] == #[trigger] id2[y] <==> run[x] == run[y]) by {
                        if m1[x] {
                            assert(!crate::graph::processing::search::first_search::newly(m1, m2, x));
                        } else {
                            assert(crate::graph::processing::search::first_search::newly(m1, m2, x));
                        }
                        if m1[y] {
                            assert(!crate::graph::processing::search::first_search::newly(m1, m2, y));
                        } else {
                            assert(crate::graph::processing::search::first_search::newly(m1, m2, y));
                        }
                        if m1[x] && !m1[y] {
                            assert(m1[id1[x] as int]);
                            assert(id2[y] == vertex);
                        }
                        if !m1[x] && m1[y] {
                            assert(m1[id1[y] as int]);
                            assert(id2[x] == vertex);
                        }
                        if !m1[x] && !m1[y] {
                            assert(id2[x] == vertex && id2[y] == vertex);
                        }
                    }
                    assert forall|k: int| len - (v + 1) <= k < len implies #[trigger] self.marked@[order_second_dfs@[k] as int] by {
                        if k > len - 1 - v {
                            assert(m1[order_second_dfs@[k] as int]);
                        }
                    }
                }
                self.nb_scc = self.nb_scc + 1;
            }
            v = v + 1;
        }
        proof {
            assert forall|x: int| 0 <= x < nb implies #[trigger] self.marked@[x] by {
                assert(order_second_dfs@.contains(x as usize));
                let k = choose|k: int| 0 <= k < len && order_second_dfs@[k] == x as usize;
                assert(self.marked@[order_second_dfs@[k] as int]);
            }
            assert forall|a: usize, b: usize|
                a < nb && b < nb && #[trigger] reachable(adj, a, b) && reachable(adj, b, a) implies self.id@[a as int] == self.id@[b as int] by {
                let p = choose|p: Seq<usize>| is_walk(adj, p) && p[0] == a && p.last() == b;
                lemma_walk_runs(adj, self.marked@, run, p, p.len() - 1);
                let q = choose|q: Seq<usize>| is_walk(adj, q) && q[0] == b && q.last() == a;
                lemma_walk_runs(adj, self.marked@, run, q, q.len() - 1);
                assert(self.id@[a as int] == self.id@[b as int]);
            }
            assert forall|a: usize, b: usize|
                a < nb && b < nb && self.id@[a as int] == self.id@[b as int] implies #[trigger] reachable(adj, a, b) && reachable(adj, b, a) by {
                assert(self.marked@[a as int] && self.marked@[b as int]);
                let l = self.id@[a as int];
                crate::graph::lemma_reachable_trans(adj, a, l, b);
                crate::graph::lemma_reachable_trans(adj, b, l, a);
            }
        }
        self.ran = true;
    }

    /// Whether two vertices carry the same label, once both were reached.
    pub fn connected(&self, vertex_v: &usize, vertex_w: &usize) -> (r: Option<bool>)
        requires
            self.wf(),
            *vertex_v < self.marked_view().len(),
            *vertex_w < self.marked_view().len(),
        ensures
            r == if self.marked_view()[*vertex_v as int] && self.marked_view()[*vertex_w as int] {
                Some(self.labels()[*vertex_v as int] == self.labels()[*vertex_w as int])
            } else {
                None::<bool>
            },
    {
        let vertex_v = *vertex_v;
        let vertex_w = *vertex_w;
        if !self.marked[vertex_v] || !self.marked[vertex_w] {
            return None;
        }
        Some(self.id[vertex_v] == self.id[vertex_w])
    }

    /// Number of components found: the number of vertices that label
    /// themselves, each the representative of one component.
    pub fn count(&self) -> (r: usize)
        ensures
            r == self.component_count(),
            self.wf() ==> r == root_count(self.marked_view(), self.labels(), self.marked_view().len() as int),
    {
        self.nb_scc
    }
}

} // verus!
