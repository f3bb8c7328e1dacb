//! Graph processing: searches, topological sort, connectivity, shortest
//! paths and maximum flow.
use vstd::prelude::*;

pub mod connection;
pub mod maxflow_mincut;
pub mod search;
pub mod sort;

pub use search::{bfs, dfs, BreadthFirstSearch, DepthFirstSearch, ShortestPath};
pub use connection::{ConnectedComponent, StrongConnectedComponent};
pub use maxflow_mincut::FordFulkerson;
pub use sort::TopologicalSort;



verus! {

} // verus!
