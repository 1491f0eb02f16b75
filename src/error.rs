use vstd::prelude::*;

verus! {

/// What can go wrong when the graph is changed.
#[derive(Debug, Clone, Copy, PartialEq, Eq, Structural)]
pub enum NoodlezError {
    /// An edge was asked for between handles of which one or both are not live.
    InvalidEdgeEndpoints,
    /// An edge between the same two nodes, in the same direction, already exists.
    DuplicateEdge,
}

impl NoodlezError {
    /// A short text that describes the error.
    pub fn message(&self) -> (r: &'static str) {
        match self {
            NoodlezError::InvalidEdgeEndpoints => "an edge endpoint is not a live node",
            NoodlezError::DuplicateEdge => "an edge with these endpoints already exists",
        }
    }
}

} // verus!
