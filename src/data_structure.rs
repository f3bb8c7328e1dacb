use vstd::prelude::*;

mod queue;

pub use queue::Queue;

verus! {

} // verus!
