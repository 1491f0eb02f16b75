use std::marker::PhantomData;
use crate::node::NodeId;
use vstd::prelude::*;

verus! {

/// Handle of an edge. The type parameter ties it to the graph type that
/// handed it out, so that a handle of one graph type cannot be used with
/// another one.
pub struct EdgeId<G> {
    id: u64,
    _pd: PhantomData<G>,
}

impl<G> View for EdgeId<G> {
    type V = u64;

    closed spec fn view(&self) -> u64 {
        self.id
    }
}

impl<G> EdgeId<G> {
    /// Wraps a raw slot key.
    #[inline]
    pub fn new(id: u64) -> (r: Self)
        ensures
            r@ == id,
    {
        EdgeId { id, _pd: PhantomData }
    }

    /// The raw slot key of this handle.
    #[inline]
    pub fn get(self) -> (r: u64)
        ensures
            r == self@,
    {
        self.id
    }
}

impl<G> Clone for EdgeId<G> {
    fn clone(&self) -> (r: Self)
        ensures
            r@ == self@,
    {
        EdgeId { id: self.id, _pd: PhantomData }
    }
}

impl<G> Copy for EdgeId<G> {
}

impl<G> PartialEq for EdgeId<G> {
    fn eq(&self, other: &Self) -> (r: bool) {
        self.id == other.id
    }
}

impl<G> vstd::std_specs::cmp::PartialEqSpecImpl for EdgeId<G> {
    open spec fn obeys_eq_spec() -> bool {
        true
    }

    open spec fn eq_spec(&self, other: &Self) -> bool {
        self@ == other@
    }
}

impl<G> Eq for EdgeId<G> {
}

} // verus!

verus! {

/// The two endpoints of a directed edge, from `from` to `to`.
pub struct EdgeEnds<G> {
    pub(crate) from: NodeId<G>,
    pub(crate) to: NodeId<G>,
}

impl<G> EdgeEnds<G> {
    /// The pair of raw keys (from, to).
    pub closed spec fn view_pair(self) -> (u64, u64) {
        (self.from@, self.to@)
    }

    /// The endpoints of an edge from `from` to `to`.
    pub fn new(from: NodeId<G>, to: NodeId<G>) -> (r: Self)
        ensures
            r.view_pair() == (from@, to@),
    {
        EdgeEnds { from, to }
    }

    /// The node the edge leaves.
    pub fn from(&self) -> (r: NodeId<G>)
        ensures
            r@ == self.view_pair().0,
    {
        self.from
    }

    /// The node the edge enters.
    pub fn to(&self) -> (r: NodeId<G>)
        ensures
            r@ == self.view_pair().1,
    {
        self.to
    }
}

impl<G> Clone for EdgeEnds<G> {
    fn clone(&self) -> (r: Self)
        ensures
            r.view_pair() == self.view_pair(),
    {
        EdgeEnds { from: self.from, to: self.to }
    }
}

impl<G> Copy for EdgeEnds<G> {
}

impl<G> PartialEq for EdgeEnds<G> {
    fn eq(&self, other: &Self) -> (r: bool) {
        self.from.get() == other.from.get() && self.to.get() == other.to.get()
    }
}

impl<G> vstd::std_specs::cmp::PartialEqSpecImpl for EdgeEnds<G> {
    open spec fn obeys_eq_spec() -> bool {
        true
    }

    open spec fn eq_spec(&self, other: &Self) -> bool {
        self.view_pair() == other.view_pair()
    }
}

impl<G> Eq for EdgeEnds<G> {
}

} // verus!
