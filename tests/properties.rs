use algods::graph::processing::{
    bfs, dfs, BreadthFirstSearch, ConnectedComponent, DepthFirstSearch, FordFulkerson,
    ShortestPath, TopologicalSort,
};
use algods::graph::{DiGraph, EdgeWeightedDiGraph, FlowEdge, FlowNetwork, Graph, WeightedDiEdge};

fn example_digraph() -> DiGraph {
    let mut graph = DiGraph::init(9);
    for (u, v) in [(0, 1), (0, 2), (0, 6), (0, 5), (6, 4), (4, 3), (5, 4), (5, 3)] {
        graph.add_edge(u, v);
    }
    graph
}

fn example_dag() -> EdgeWeightedDiGraph {
    EdgeWeightedDiGraph::from_vec(vec![
        (0, 1, 5),
        (0, 4, 9),
        (0, 7, 8),
        (1, 2, 12),
        (1, 3, 15),
        (1, 7, 4),
        (2, 3, 3),
        (2, 6, 11),
        (3, 6, 9),
        (4, 5, 4),
        (4, 6, 20),
        (4, 7, 5),
        (5, 2, 1),
        (5, 6, 13),
        (7, 2, 7),
        (7, 5, 6),
    ])
}

#[test]
fn duplicate_edges_are_counted_once() {
    let mut graph = DiGraph::init(3);
    graph.add_edge(0, 1);
    graph.add_edge(0, 1);
    graph.add_edge(1, 0);
    graph.add_edge(2, 2);
    graph.add_edge(2, 2);
    assert_eq!(graph.nb_edges(), 3);
    assert_eq!(graph.in_degree(&1), 1);
    assert_eq!(graph.in_degree(&0), 1);

    let mut undirected = Graph::init(3);
    undirected.add_edge(0, 1);
    undirected.add_edge(1, 0);
    undirected.add_edge(2, 2);
    undirected.add_edge(2, 2);
    assert_eq!(undirected.nb_edges(), 2);
    assert_eq!(undirected.degree(&0), 1);
    assert_eq!(undirected.degree(&2), 0);
    assert_eq!(undirected.self_loop_number(), 1);
}

#[test]
fn in_degrees_sum_to_edge_count() {
    let graph = DiGraph::from_vec(vec![(0, 0), (1, 0), (0, 2), (3, 1), (2, 3), (2, 0), (1, 0)]);
    let total: usize = (0..graph.nb_vertices()).map(|v| graph.in_degree(&v)).sum();
    assert_eq!(graph.nb_edges(), 6);
    assert_eq!(total, graph.nb_edges());
}

#[test]
fn reversing_twice_gives_back_the_edges() {
    let graph = DiGraph::from_vec(vec![(0, 0), (0, 1), (0, 2), (1, 3), (3, 2)]);
    let reversed = graph.reverse();
    assert_eq!(reversed.nb_edges(), graph.nb_edges());
    let mut in_zero = reversed.out_edges(&0).clone();
    in_zero.sort();
    assert_eq!(in_zero, vec![0]);
    let mut in_two = reversed.out_edges(&2).clone();
    in_two.sort();
    assert_eq!(in_two, vec![0, 3]);
    assert_eq!(reversed.in_degree(&0), 3);
    let twice = reversed.reverse();
    assert_eq!(twice.nb_vertices(), graph.nb_vertices());
    for v in 0..graph.nb_vertices() {
        let mut a = graph.out_edges(&v).clone();
        let mut b = twice.out_edges(&v).clone();
        a.sort();
        b.sort();
        assert_eq!(a, b);
    }
}

#[test]
fn search_paths_follow_edges_back_to_the_source() {
    let graph = example_digraph();
    let mut dfs = DepthFirstSearch::init(graph.nb_vertices(), 0);
    dfs.find_paths(&graph);
    let mut bfs = BreadthFirstSearch::init(graph.nb_vertices(), 0);
    bfs.find_paths(&graph);
    for v in 0..graph.nb_vertices() {
        for path in [dfs.path_to(&v), bfs.path_to(&v)] {
            match path {
                Some(p) => {
                    assert_eq!(p[0], v);
                    assert_eq!(*p.last().unwrap(), 0);
                    for w in p.windows(2) {
                        assert!(graph.out_edges(&w[1]).contains(&w[0]));
                    }
                }
                None => assert!(v == 7 || v == 8),
            }
        }
    }
    assert_eq!(dfs.path_to(&7), None);
    assert_eq!(bfs.path_to(&8), None);
}

#[test]
fn breadth_first_paths_are_no_longer_than_depth_first_ones() {
    let graph = example_digraph();
    let mut dfs = DepthFirstSearch::init(graph.nb_vertices(), 0);
    dfs.find_paths(&graph);
    let mut bfs = BreadthFirstSearch::init(graph.nb_vertices(), 0);
    bfs.find_paths(&graph);
    for v in 0..graph.nb_vertices() {
        if let (Some(b), Some(d)) = (bfs.path_to(&v), dfs.path_to(&v)) {
            assert!(b.len() <= d.len());
        }
    }
    assert_eq!(bfs.path_to(&3).unwrap().len(), 3);
}

#[test]
fn reverse_postorder_regression() {
    let graph = DiGraph::from_vec(vec![(1, 0), (0, 2), (3, 4), (2, 3)]);
    let mut topo = TopologicalSort::init(graph.nb_vertices());
    topo.depth_first_order(&graph);
    assert_eq!(topo.reverse_postorder(), &vec![4, 3, 2, 0, 1]);
    assert_eq!(topo.order(), vec![1, 0, 2, 3, 4]);
}

#[test]
fn topological_order_puts_origins_first() {
    let graph = example_dag();
    let mut topo = TopologicalSort::init(graph.nb_vertices());
    topo.depth_first_order(&graph);
    let order = topo.order();
    assert_eq!(order.len(), graph.nb_vertices());
    let position = |x: usize| order.iter().position(|&y| y == x).unwrap();
    for u in 0..graph.nb_vertices() {
        for e in graph.out_edges(&u) {
            assert!(position(u) < position(*e.to()));
        }
    }
}

#[test]
fn dijkstra_and_dag_relaxation_agree() {
    let graph = example_dag();
    for source in 0..graph.nb_vertices() {
        let mut by_heap = ShortestPath::init(source, graph.nb_vertices());
        by_heap.dijkstra(&graph);
        let mut by_order = ShortestPath::init(source, graph.nb_vertices());
        by_order.ewdag(&graph);
        for v in 0..graph.nb_vertices() {
            assert_eq!(by_heap.dist_to(&v), by_order.dist_to(&v));
            assert_eq!(by_heap.path_to(&v), by_order.path_to(&v));
        }
    }
}

#[test]
fn all_algorithms_agree_with_negative_weights_on_a_dag() {
    let graph = EdgeWeightedDiGraph::from_vec(vec![
        (0, 1, 4),
        (0, 2, 2),
        (2, 1, -3),
        (1, 3, 2),
        (2, 3, 5),
        (3, 4, -1),
    ]);
    let mut dag = ShortestPath::init(0, graph.nb_vertices());
    dag.ewdag(&graph);
    let mut bellman = ShortestPath::init(0, graph.nb_vertices());
    bellman.bellman_ford(&graph);
    let mut faster = ShortestPath::init(0, graph.nb_vertices());
    faster.spfa(&graph);
    let expected = [0i64, -1, 2, 1, 0];
    for v in 0..graph.nb_vertices() {
        assert_eq!(*dag.dist_to(&v), expected[v]);
        assert_eq!(*bellman.dist_to(&v), expected[v]);
        assert_eq!(*faster.dist_to(&v), expected[v]);
    }
    assert_eq!(dag.path_to(&4), Some(vec![4, 3, 1, 2, 0]));
    assert_eq!(*dag.edge_to(&1), 2);
    assert_eq!(*dag.edge_to(&0), usize::MAX);
}

#[test]
fn unreached_vertices_keep_the_sentinels() {
    let graph = EdgeWeightedDiGraph::from_vec(vec![(0, 1, 3), (2, 0, 1)]);
    let mut sp = ShortestPath::init(0, graph.nb_vertices());
    sp.bellman_ford(&graph);
    assert_eq!(*sp.dist_to(&1), 3);
    assert_eq!(*sp.dist_to(&2), i64::MAX);
    assert_eq!(*sp.edge_to(&2), usize::MAX);
    assert_eq!(sp.path_to(&2), None);
}

#[test]
fn ford_fulkerson_keeps_flows_conserved_and_bounded() {
    let mut network = FlowNetwork::init(6);
    for (u, v, c) in [
        (0, 1, 16),
        (0, 2, 13),
        (1, 3, 12),
        (2, 1, 4),
        (2, 4, 14),
        (3, 2, 9),
        (3, 5, 20),
        (4, 3, 7),
        (4, 5, 4),
    ] {
        network.add_edge(u, v, 0, c);
    }
    let mut ff = FordFulkerson::new();
    assert_eq!(ff.max_flow(), None);
    ff.find_flows(&mut network, &0, &5);
    let mut inflow = vec![0u64; 6];
    let mut outflow = vec![0u64; 6];
    for u in 0..6 {
        for e in network.out_edges(&u) {
            assert!(e.flow() <= e.capacity());
            outflow[u] += *e.flow();
            inflow[*e.to()] += *e.flow();
        }
    }
    for v in 1..5 {
        assert_eq!(inflow[v], outflow[v]);
    }
    assert_eq!(outflow[0], 23);
    assert_eq!(inflow[5], 23);
    assert_eq!(ff.max_flow(), Some(23));
}

#[test]
fn max_flow_from_a_vertex_to_itself_is_zero() {
    let mut network = FlowNetwork::init(2);
    network.add_edge(0, 1, 0, 5);
    let mut ff = FordFulkerson::new();
    ff.find_flows(&mut network, &0, &0);
    assert_eq!(ff.max_flow(), Some(0));
}

#[test]
fn queries_repeat_the_same_answers() {
    let graph = example_dag();
    let mut sp = ShortestPath::init(0, graph.nb_vertices());
    sp.dijkstra(&graph);
    assert_eq!(sp.path_to(&6), sp.path_to(&6));
    assert_eq!(sp.dist_to(&6), sp.dist_to(&6));
    assert_eq!(*sp.dist_to(&6), 25);

    let undirected = Graph::from_vec(vec![(0, 1), (1, 2), (3, 4)]);
    let mut cc = ConnectedComponent::init(undirected.nb_vertices());
    cc.find(&undirected);
    assert_eq!(cc.connected(&0, &2), cc.connected(&0, &2));
    assert_eq!(cc.connected(&0, &2), Some(true));
    assert_eq!(cc.connected(&0, &3), Some(false));
    assert_eq!(cc.count(), 2);
}

#[test]
fn connectivity_before_search_is_unknown() {
    let cc = ConnectedComponent::init(3);
    assert_eq!(cc.connected(&0, &1), None);
    assert_eq!(cc.count(), 0);
}

#[test]
fn graphs_grow_to_fit_their_edges() {
    let graph = DiGraph::from_vec(vec![(0, 0), (1, 0), (0, 2), (3, 1), (2, 3)]);
    assert_eq!(graph.nb_vertices(), 4);
    assert_eq!(graph.nb_edges(), 5);
    assert_eq!(graph.in_edges(&0), vec![0, 1]);
    assert_eq!(graph.average_degree(), 1);
    let mut grown = DiGraph::new();
    grown.add_vertices(4);
    grown.add_vertex();
    grown.add_vertex();
    grown.add_edge(0, 1);
    grown.add_edge(2, 1);
    grown.add_edge(1, 1);
    assert_eq!(grown.nb_vertices(), 6);
    assert_eq!(grown.nb_edges(), 3);
    assert_eq!(grown.average_degree(), 0);
    let undirected = Graph::from_vec(vec![(0, 3), (3, 0), (1, 1)]);
    assert_eq!(undirected.nb_vertices(), 4);
    assert_eq!(undirected.nb_edges(), 2);
}

#[test]
fn parallel_weighted_edges_are_both_kept() {
    let mut graph = EdgeWeightedDiGraph::init(2);
    graph.add_edge(0, 1, 3);
    graph.add_edge(0, 1, 5);
    graph.add_edge(0, 1, 3);
    assert_eq!(graph.nb_edges(), 2);
    assert_eq!(graph.out_degree(&0), 2);
    assert_eq!(graph.in_degree(&1), 2);
    let into_one = graph.in_edges(&1);
    assert_eq!(into_one.len(), 1);
    assert_eq!(*into_one[0].from(), 0);
    let edge = WeightedDiEdge::init(1, 1, -4);
    assert_eq!(edge.from(), &1);
    assert_eq!(edge.to(), &1);
    assert_eq!(edge.weight(), &-4);
}

#[test]
fn flow_edges_move_flow_towards_an_end() {
    let mut edge = FlowEdge::init(0, 1, 2, 7);
    assert_eq!(edge.residual_capacity(), 5);
    edge.add_residual_flow_to(1, 3);
    assert_eq!(edge.flow(), &5);
    edge.add_residual_flow_to(0, 4);
    assert_eq!(edge.flow(), &1);
    *edge.flow_mut() = 6;
    assert_eq!(edge.residual_capacity(), 1);
    assert_eq!(edge.capacity(), &7);
    assert_eq!((edge.from(), edge.to()), (&0, &1));
}

#[test]
fn flow_network_counts_edges() {
    let mut network = FlowNetwork::new();
    network.add_vertices(3);
    network.add_vertex();
    network.add_edge(0, 1, 0, 4);
    network.add_edge(0, 1, 0, 4);
    network.add_edge(1, 1, 0, 2);
    network.add_edge(2, 1, 1, 2);
    assert_eq!(network.nb_vertices(), 4);
    assert_eq!(network.nb_edges(), 3);
    assert_eq!(network.in_degree(&1), 3);
    assert_eq!(network.out_degree(&0), 1);
    assert_eq!(network.self_loop_number(), 1);
    assert_eq!(network.average_degree(), 0);
    assert_eq!(network.in_edges(&1).len(), 3);
}

#[test]
fn depth_first_search_records_postorder_or_links() {
    let graph = DiGraph::from_vec(vec![(0, 1), (1, 2), (0, 3)]);
    let mut marked = vec![false; 4];
    let mut order: Vec<usize> = Vec::new();
    dfs(&graph, &mut marked, &mut order, 0, 0, false, false);
    assert_eq!(order, vec![2, 1, 3, 0]);
    assert_eq!(marked, vec![true; 4]);

    let mut marked = vec![false; 4];
    let mut links: Vec<usize> = vec![0, 1, 2, 3];
    dfs(&graph, &mut marked, &mut links, 0, 0, true, false);
    assert_eq!(links, vec![0, 0, 1, 0]);

    let mut marked = vec![false; 4];
    let mut labels: Vec<usize> = vec![0, 1, 2, 3];
    dfs(&graph, &mut marked, &mut labels, 1, 1, true, true);
    assert_eq!(labels, vec![0, 1, 1, 3]);
    assert_eq!(marked, vec![false, true, true, false]);

    let mut marked = vec![false; 4];
    let mut links: Vec<usize> = vec![0, 1, 2, 3];
    bfs(&graph, &mut marked, &mut links, 0);
    assert_eq!(links, vec![0, 0, 1, 0]);
}

#[test]
fn undirected_components_follow_connectivity() {
    let graph = Graph::from_vec(vec![(0, 1), (2, 1), (3, 4), (5, 5)]);
    let mut cc = ConnectedComponent::init(graph.nb_vertices());
    cc.find(&graph);
    assert_eq!(cc.count(), 3);
    assert_eq!(cc.connected(&0, &2), Some(true));
    assert_eq!(cc.connected(&2, &0), Some(true));
    assert_eq!(cc.connected(&1, &3), Some(false));
    assert_eq!(cc.connected(&4, &3), Some(true));
    assert_eq!(cc.connected(&5, &5), Some(true));
    assert_eq!(graph.average_degree(), 0);
    assert_eq!(graph.degree(&1), 2);
}

#[test]
fn faster_algorithm_moves_smaller_distances_to_the_front() {
    let graph = EdgeWeightedDiGraph::from_vec(vec![
        (0, 1, 10),
        (0, 2, 1),
        (2, 1, 2),
        (1, 3, 1),
        (2, 3, 20),
    ]);
    let mut sp = ShortestPath::init(0, graph.nb_vertices());
    sp.spfa(&graph);
    assert_eq!(*sp.dist_to(&1), 3);
    assert_eq!(*sp.dist_to(&3), 4);
    assert_eq!(sp.path_to(&3), Some(vec![3, 1, 2, 0]));
    let mut heap = ShortestPath::init(0, graph.nb_vertices());
    heap.dijkstra(&graph);
    for v in 0..graph.nb_vertices() {
        assert_eq!(sp.dist_to(&v), heap.dist_to(&v));
    }
}

#[test]
fn postorder_search_accepts_any_list() {
    let graph = DiGraph::from_vec(vec![(0, 1), (1, 2), (0, 3)]);
    let mut marked = vec![false, false, false, true];
    let mut order: Vec<usize> = vec![7];
    dfs(&graph, &mut marked, &mut order, 0, 0, false, false);
    assert_eq!(order, vec![7, 2, 1, 0]);
    assert_eq!(marked, vec![true; 4]);
}

#[test]
fn strong_components_are_counted() {
    let graph = DiGraph::from_vec(vec![(0, 1), (1, 0), (1, 2), (2, 3), (3, 2), (4, 4)]);
    let mut scc = algods::graph::processing::StrongConnectedComponent::init(graph.nb_vertices());
    scc.find(&graph);
    assert_eq!(scc.count(), 3);
    assert_eq!(scc.connected(&0, &1), Some(true));
    assert_eq!(scc.connected(&1, &2), Some(false));
    assert_eq!(scc.connected(&2, &3), Some(true));
    assert_eq!(scc.connected(&4, &3), Some(false));
}
