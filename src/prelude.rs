//! The items most users of the store need.
pub use crate::dfs::{depth_first_search, DfsEvent, Direction};
pub use crate::graph::Graph;
pub use crate::storage::GraphStorage;
