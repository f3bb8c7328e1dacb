//! Classic algorithms and data structures: a graph library with traversal,
//! connectivity, shortest-path and max-flow algorithms, and a FIFO queue.
use vstd::prelude::*;

pub mod data_structure;
pub mod graph;

verus! {

} // verus!
