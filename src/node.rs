use std::marker::PhantomData;
use vstd::prelude::*;

verus! {

/// Handle of a node. The type parameter ties it to the graph type that
/// handed it out, so that a handle of one graph type cannot be used with
/// another one.
pub struct NodeId<G> {
    id: u64,
    _pd: PhantomData<G>,
}

impl<G> View for NodeId<G> {
    type V = u64;

    closed spec fn view(&self) -> u64 {
        self.id
    }
}

impl<G> NodeId<G> {
    /// Wraps a raw slot key.
    #[inline]
    pub fn new(id: u64) -> (r: Self)
        ensures
            r@ == id,
    {
        NodeId { id, _pd: PhantomData }
    }

    /// The raw slot key of this handle.
    #[inline]
    pub fn get(self) -> (r: u64)
        ensures
            r == self@,
    {
        self.id
    }
}

impl<G> Clone for NodeId<G> {
    fn clone(&self) -> (r: Self)
        ensures
            r@ == self@,
    {
        NodeId { id: self.id, _pd: PhantomData }
    }
}

impl<G> Copy for NodeId<G> {
}

impl<G> PartialEq for NodeId<G> {
    fn eq(&self, other: &Self) -> (r: bool) {
        self.id == other.id
    }
}

impl<G> vstd::std_specs::cmp::PartialEqSpecImpl for NodeId<G> {
    open spec fn obeys_eq_spec() -> bool {
        true
    }

    open spec fn eq_spec(&self, other: &Self) -> bool {
        self@ == other@
    }
}

impl<G> Eq for NodeId<G> {
}

} // verus!
