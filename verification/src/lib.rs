pub mod queue;
pub mod search;
pub mod ternary;
pub mod tree;

pub use search::{is_all_worker_waiting, Job, Searcher, Step};
pub use queue::{FIFOQueue, Queue};
pub use tree::{BranchIterator, Bounds, Node, VoidBounds};
