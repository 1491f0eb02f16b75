//! A generational graph store with handle-based access to nodes and
//! directed edges, a depth-first traversal over it, and a reader for the
//! trivial graph format.
pub mod dfs;
pub mod edge;
pub mod error;
pub mod graph;
pub mod laws;
pub mod node;
pub mod prelude;
pub mod slots;
pub mod storage;
pub mod tgf;

pub use tgf::SimpleGraph;
