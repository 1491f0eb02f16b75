//! The operations that a graph store offers, independent of how it keeps
//! its data, and the slot-based graph as one such store.
use crate::edge::{EdgeEnds, EdgeId};
use crate::error::NoodlezError;
use crate::graph::{edge_keys_of, keys_of, without, Graph, MAX_ALLOCS};
use crate::node::NodeId;
use vstd::prelude::*;

verus! {

/// A store of nodes with payloads of type `N` and directed edges with
/// payloads of type `E`, reached through handles. At most one edge runs
/// from a node to another node.
pub trait GraphStorage<N, E>: Sized {
    /// The store is well formed.
    spec fn storage_wf(&self) -> bool;

    /// Room is left for one more node.
    spec fn node_room(&self) -> bool;

    /// Room is left for one more edge.
    spec fn edge_room(&self) -> bool;

    /// Live node keys and their payloads.
    spec fn live_nodes(&self) -> Map<u64, N>;

    /// Live edge keys and their payloads.
    spec fn live_edges(&self) -> Map<u64, E>;

    /// For each live edge, its (from, to) node keys.
    spec fn endpoints(&self) -> Map<u64, (u64, u64)>;

    /// The edge, if any, for each ordered pair of node keys.
    spec fn edge_lookup(&self) -> Map<(u64, u64), u64>;

    /// The nodes with an edge to node `k`; empty if `k` is not live.
    spec fn incoming_of(&self, k: u64) -> Seq<u64>;

    /// The nodes that node `k` has an edge to; empty if `k` is not live.
    spec fn outgoing_of(&self, k: u64) -> Seq<u64>;

    /// What a well-formed store guarantees about its contents.
    proof fn lemma_storage(&self)
        requires
            self.storage_wf(),
        ensures
            self.live_nodes().dom().finite(),
            self.live_edges().dom().finite(),
            self.endpoints().dom() == self.live_edges().dom(),
            forall|e: u64| #[trigger]
                self.live_edges().contains_key(e) ==> {
                    &&& self.live_nodes().contains_key(self.endpoints()[e].0)
                    &&& self.live_nodes().contains_key(self.endpoints()[e].1)
                    &&& self.edge_lookup().contains_key(self.endpoints()[e])
                    &&& self.edge_lookup()[self.endpoints()[e]] == e
                },
            forall|p: (u64, u64)| #[trigger]
                self.edge_lookup().contains_key(p) ==> {
                    &&& self.live_edges().contains_key(self.edge_lookup()[p])
                    &&& self.endpoints()[self.edge_lookup()[p]] == p
                },
            forall|a: u64, b: u64| #[trigger]
                self.outgoing_of(a).contains(b) <==> self.edge_lookup().contains_key((a, b)),
            forall|a: u64, b: u64| #[trigger]
                self.incoming_of(b).contains(a) <==> self.edge_lookup().contains_key((a, b)),
            forall|k: u64| #[trigger]
                self.outgoing_of(k).no_duplicates() && self.incoming_of(k).no_duplicates(),
    ;

    /// Adds a node and returns its fresh handle.
    fn add_node(&mut self, node: N) -> (r: NodeId<Self>)
        requires
            old(self).storage_wf(),
            old(self).node_room(),
        ensures
            final(self).storage_wf(),
            !old(self).live_nodes().contains_key(r@),
            final(self).live_nodes() == old(self).live_nodes().insert(r@, node),
            final(self).live_edges() == old(self).live_edges(),
            final(self).endpoints() == old(self).endpoints(),
            final(self).edge_lookup() == old(self).edge_lookup(),
            forall|k: u64| #[trigger] final(self).incoming_of(k) == old(self).incoming_of(k),
            forall|k: u64| #[trigger] final(self).outgoing_of(k) == old(self).outgoing_of(k),
            final(self).edge_room() == old(self).edge_room(),
    ;

    /// Replaces the payload of a live node; a stale handle changes nothing.
    fn update_node(&mut self, id: NodeId<Self>, node: N)
        requires
            old(self).storage_wf(),
        ensures
            final(self).storage_wf(),
            old(self).live_nodes().contains_key(id@) ==> final(self).live_nodes() == old(
                self,
            ).live_nodes().insert(id@, node),
            !old(self).live_nodes().contains_key(id@) ==> final(self).live_nodes() == old(
                self,
            ).live_nodes(),
            final(self).live_edges() == old(self).live_edges(),
            final(self).endpoints() == old(self).endpoints(),
            final(self).edge_lookup() == old(self).edge_lookup(),
            forall|k: u64| #[trigger] final(self).incoming_of(k) == old(self).incoming_of(k),
            forall|k: u64| #[trigger] final(self).outgoing_of(k) == old(self).outgoing_of(k),
            final(self).node_room() == old(self).node_room(),
            final(self).edge_room() == old(self).edge_room(),
    ;

    /// Removes every edge at a node, then the node, and returns its
    /// payload; a stale handle changes nothing and gives `None`.
    fn remove_node(&mut self, id: NodeId<Self>) -> (r: Option<N>)
        requires
            old(self).storage_wf(),
        ensures
            final(self).storage_wf(),
            !final(self).live_nodes().contains_key(id@),
            forall|e: u64| #[trigger]
                final(self).live_edges().contains_key(e) ==> final(self).endpoints()[e].0 != id@
                    && final(self).endpoints()[e].1 != id@,
            match r {
                Some(p) => {
                    &&& old(self).live_nodes().contains_key(id@)
                    &&& p == old(self).live_nodes()[id@]
                    &&& final(self).live_nodes() == old(self).live_nodes().remove(id@)
                },
                None => {
                    &&& !old(self).live_nodes().contains_key(id@)
                    &&& final(self).live_nodes() == old(self).live_nodes()
                },
            },
            forall|e: u64| #[trigger]
                final(self).live_edges().contains_key(e) <==> (old(self).live_edges().contains_key(e)
                    && old(self).endpoints()[e].0 != id@ && old(self).endpoints()[e].1 != id@),
            forall|e: u64| #[trigger]
                final(self).live_edges().contains_key(e) ==> final(self).live_edges()[e] == old(
                    self,
                ).live_edges()[e] && final(self).endpoints()[e] == old(self).endpoints()[e],
    ;

    /// Removes every edge that has `id` as an endpoint.
    fn disconnect_node(&mut self, id: NodeId<Self>)
        requires
            old(self).storage_wf(),
        ensures
            final(self).storage_wf(),
            final(self).live_nodes() == old(self).live_nodes(),
            forall|e: u64| #[trigger]
                final(self).live_edges().contains_key(e) <==> (old(self).live_edges().contains_key(e)
                    && old(self).endpoints()[e].0 != id@ && old(self).endpoints()[e].1 != id@),
            forall|e: u64| #[trigger]
                final(self).live_edges().contains_key(e) ==> final(self).live_edges()[e] == old(
                    self,
                ).live_edges()[e] && final(self).endpoints()[e] == old(self).endpoints()[e],
    ;

    /// The payload of a node, if the handle is live.
    fn node(&self, id: NodeId<Self>) -> (r: Option<&N>)
        requires
            self.storage_wf(),
        ensures
            match r {
                Some(v) => self.live_nodes().contains_key(id@) && *v == self.live_nodes()[id@],
                None => !self.live_nodes().contains_key(id@),
            },
    ;

    /// The handles of all live nodes, each once, in no particular order.
    fn nodes(&self) -> (r: Vec<NodeId<Self>>)
        requires
            self.storage_wf(),
        ensures
            keys_of(r@).no_duplicates(),
            keys_of(r@).to_set() == self.live_nodes().dom(),
    ;

    /// The nodes with an edge to `id`.
    fn incoming_nodes(&self, id: NodeId<Self>) -> (r: Vec<NodeId<Self>>)
        requires
            self.storage_wf(),
        ensures
            keys_of(r@) == self.incoming_of(id@),
            forall|i: int| 0 <= i < r@.len() ==> self.live_nodes().contains_key(#[trigger] r@[i]@),
    ;

    /// The nodes that `id` has an edge to.
    fn outcoming_nodes(&self, id: NodeId<Self>) -> (r: Vec<NodeId<Self>>)
        requires
            self.storage_wf(),
        ensures
            keys_of(r@) == self.outgoing_of(id@),
            forall|i: int| 0 <= i < r@.len() ==> self.live_nodes().contains_key(#[trigger] r@[i]@),
    ;

    /// The nodes joined to `id` by an edge in either direction: the
    /// incoming ones, then the outgoing ones.
    fn neighbor_nodes(&self, id: NodeId<Self>) -> (r: Vec<NodeId<Self>>)
        requires
            self.storage_wf(),
        ensures
            keys_of(r@) == self.incoming_of(id@) + self.outgoing_of(id@),
            forall|i: int| 0 <= i < r@.len() ==> self.live_nodes().contains_key(#[trigger] r@[i]@),
    {
        let mut r = self.incoming_nodes(id);
        let mut outs = self.outcoming_nodes(id);
        let ghost r0 = r@;
        let ghost o0 = outs@;
        r.append(&mut outs);
        proof {
            assert(keys_of(r@) =~= keys_of(r0) + keys_of(o0));
            assert forall|i: int| 0 <= i < r@.len() implies self.live_nodes().contains_key(
                #[trigger] r@[i]@,
            ) by {
                if i < r0.len() {
                    assert(r@[i] == r0[i]);
                } else {
                    assert(r@[i] == o0[i - r0.len()]);
                }
            }
        }
        r
    }

    /// Whether the handle names a live node.
    fn contains_node(&self, id: NodeId<Self>) -> (r: bool)
        requires
            self.storage_wf(),
        ensures
            r == self.live_nodes().contains_key(id@),
    ;

    /// Whether an edge runs from `ends.from()` to `ends.to()`.
    fn has_edge_between(&self, ends: EdgeEnds<Self>) -> (r: bool)
        requires
            self.storage_wf(),
        ensures
            r == self.edge_lookup().contains_key(ends.view_pair()),
    ;

    /// The number of live nodes.
    fn node_count(&self) -> (r: usize)
        requires
            self.storage_wf(),
        ensures
            r == self.live_nodes().len(),
    ;

    /// Adds an edge from `from` to `to`; fails, changing nothing, when
    /// one of the two is not live or when such an edge already exists.
    fn add_edge(&mut self, from: NodeId<Self>, to: NodeId<Self>, edge: E) -> (r: Result<
        EdgeId<Self>,
        NoodlezError,
    >)
        requires
            old(self).storage_wf(),
            old(self).edge_room(),
        ensures
            final(self).storage_wf(),
            match r {
                Ok(e) => {
                    &&& old(self).live_nodes().contains_key(from@)
                    &&& old(self).live_nodes().contains_key(to@)
                    &&& !old(self).edge_lookup().contains_key((from@, to@))
                    &&& !old(self).live_edges().contains_key(e@)
                    &&& final(self).live_edges() == old(self).live_edges().insert(e@, edge)
                    &&& final(self).endpoints() == old(self).endpoints().insert(e@, (from@, to@))
                    &&& final(self).edge_lookup() == old(self).edge_lookup().insert((from@, to@), e@)
                    &&& final(self).live_nodes() == old(self).live_nodes()
                },
                Err(NoodlezError::InvalidEdgeEndpoints) => {
                    &&& !(old(self).live_nodes().contains_key(from@) && old(
                        self,
                    ).live_nodes().contains_key(to@))
                    &&& *final(self) == *old(self)
                },
                Err(NoodlezError::DuplicateEdge) => {
                    &&& old(self).live_nodes().contains_key(from@)
                    &&& old(self).live_nodes().contains_key(to@)
                    &&& old(self).edge_lookup().contains_key((from@, to@))
                    &&& *final(self) == *old(self)
                },
            },
    ;

    /// Replaces the payload of a live edge; a stale handle changes nothing.
    fn update_edge(&mut self, id: EdgeId<Self>, edge: E)
        requires
            old(self).storage_wf(),
        ensures
            final(self).storage_wf(),
            old(self).live_edges().contains_key(id@) ==> final(self).live_edges() == old(
                self,
            ).live_edges().insert(id@, edge),
            !old(self).live_edges().contains_key(id@) ==> final(self).live_edges() == old(
                self,
            ).live_edges(),
            final(self).live_nodes() == old(self).live_nodes(),
            final(self).endpoints() == old(self).endpoints(),
            final(self).edge_lookup() == old(self).edge_lookup(),
            forall|k: u64| #[trigger] final(self).incoming_of(k) == old(self).incoming_of(k),
            forall|k: u64| #[trigger] final(self).outgoing_of(k) == old(self).outgoing_of(k),
    ;

    /// Removes a live edge, with its entries in the adjacency lists and
    /// the lookup, and returns its payload; a stale handle changes nothing.
    fn remove_edge(&mut self, id: EdgeId<Self>) -> (r: Option<E>)
        requires
            old(self).storage_wf(),
        ensures
            final(self).storage_wf(),
            match r {
                Some(p) => {
                    let (a, b) = old(self).endpoints()[id@];
                    &&& old(self).live_edges().contains_key(id@)
                    &&& p == old(self).live_edges()[id@]
                    &&& final(self).live_edges() == old(self).live_edges().remove(id@)
                    &&& final(self).endpoints() == old(self).endpoints().remove(id@)
                    &&& final(self).edge_lookup() == old(self).edge_lookup().remove((a, b))
                    &&& final(self).outgoing_of(a) == without(old(self).outgoing_of(a), b)
                    &&& final(self).incoming_of(b) == without(old(self).incoming_of(b), a)
                    &&& final(self).live_nodes() == old(self).live_nodes()
                },
                None => !old(self).live_edges().contains_key(id@) && *final(self) == *old(self),
            },
    ;

    /// The payload of an edge, if the handle is live.
    fn edge(&self, id: EdgeId<Self>) -> (r: Option<&E>)
        requires
            self.storage_wf(),
        ensures
            match r {
                Some(v) => self.live_edges().contains_key(id@) && *v == self.live_edges()[id@],
                None => !self.live_edges().contains_key(id@),
            },
    ;

    /// The handles of all live edges, each once, in no particular order.
    fn edges(&self) -> (r: Vec<EdgeId<Self>>)
        requires
            self.storage_wf(),
        ensures
            edge_keys_of(r@).no_duplicates(),
            edge_keys_of(r@).to_set() == self.live_edges().dom(),
    ;

    /// The edge from `ends.from()` to `ends.to()`, if there is one.
    fn edge_between(&self, ends: EdgeEnds<Self>) -> (r: Option<EdgeId<Self>>)
        requires
            self.storage_wf(),
        ensures
            match r {
                Some(e) => self.edge_lookup().contains_key(ends.view_pair()) && e@
                    == self.edge_lookup()[ends.view_pair()],
                None => !self.edge_lookup().contains_key(ends.view_pair()),
            },
    ;

    /// The endpoints of an edge, if the handle is live.
    fn edge_ends(&self, id: EdgeId<Self>) -> (r: Option<EdgeEnds<Self>>)
        requires
            self.storage_wf(),
        ensures
            match r {
                Some(x) => self.live_edges().contains_key(id@) && x.view_pair() == self.endpoints()[id@],
                None => !self.live_edges().contains_key(id@),
            },
    ;

    /// The edges that end in `id`, in the order of its incoming list.
    fn incoming_edges(&self, id: NodeId<Self>) -> (r: Vec<EdgeId<Self>>)
        requires
            self.storage_wf(),
        ensures
            edge_keys_of(r@) == self.incoming_of(id@).map_values(|a: u64| self.edge_lookup()[(a, id@)]),
    ;

    /// The edges that leave `id`, in the order of its outgoing list.
    fn outcoming_edges(&self, id: NodeId<Self>) -> (r: Vec<EdgeId<Self>>)
        requires
            self.storage_wf(),
        ensures
            edge_keys_of(r@) == self.outgoing_of(id@).map_values(|b: u64| self.edge_lookup()[(id@, b)]),
    ;

    /// The edges at `id` in either direction: the incoming ones, then the
    /// outgoing ones.
    fn neighbor_edges(&self, id: NodeId<Self>) -> (r: Vec<EdgeId<Self>>)
        requires
            self.storage_wf(),
        ensures
            edge_keys_of(r@) == self.incoming_of(id@).map_values(|a: u64| self.edge_lookup()[(a, id@)])
                + self.outgoing_of(id@).map_values(|b: u64| self.edge_lookup()[(id@, b)]),
    {
        let mut r = self.incoming_edges(id);
        let mut outs = self.outcoming_edges(id);
        let ghost r0 = r@;
        let ghost o0 = outs@;
        r.append(&mut outs);
        proof {
            assert(edge_keys_of(r@) =~= edge_keys_of(r0) + edge_keys_of(o0));
        }
        r
    }

    /// Whether the handle names a live edge.
    fn contains_edge(&self, id: EdgeId<Self>) -> (r: bool)
        requires
            self.storage_wf(),
        ensures
            r == self.live_edges().contains_key(id@),
    ;

    /// The number of live edges.
    fn edge_count(&self) -> (r: usize)
        requires
            self.storage_wf(),
        ensures
            r == self.live_edges().len(),
    ;
}

impl<N, E> GraphStorage<N, E> for Graph<N, E> {
    open spec fn storage_wf(&self) -> bool {
        self.wf()
    }

    open spec fn node_room(&self) -> bool {
        self.node_allocs() < MAX_ALLOCS
    }

    open spec fn edge_room(&self) -> bool {
        self.edge_allocs() < MAX_ALLOCS
    }

    open spec fn live_nodes(&self) -> Map<u64, N> {
        self.node_map()
    }

    open spec fn live_edges(&self) -> Map<u64, E> {
        self.edge_map()
    }

    open spec fn endpoints(&self) -> Map<u64, (u64, u64)> {
        self.ends_map()
    }

    open spec fn edge_lookup(&self) -> Map<(u64, u64), u64> {
        self.between()
    }

    open spec fn incoming_of(&self, k: u64) -> Seq<u64> {
        self.in_list(k)
    }

    open spec fn outgoing_of(&self, k: u64) -> Seq<u64> {
        self.out_list(k)
    }

    proof fn lemma_storage(&self) {
        self.lemma_consistent();
        assert forall|a: u64, b: u64| #[trigger]
            self.out_list(a).contains(b) <==> self.between().contains_key((a, b)) by {
            if self.between().contains_key((a, b)) {
                assert(self.edge_map().contains_key(self.between()[(a, b)]));
            }
        }
        assert forall|a: u64, b: u64| #[trigger]
            self.in_list(b).contains(a) <==> self.between().contains_key((a, b)) by {
            if self.between().contains_key((a, b)) {
                assert(self.edge_map().contains_key(self.between()[(a, b)]));
            }
        }
        assert forall|k: u64| #[trigger]
            self.out_list(k).no_duplicates() && self.in_list(k).no_duplicates() by {
            if self.node_map().contains_key(k) {
            }
        }
    }

    fn add_node(&mut self, node: N) -> (r: NodeId<Self>) {
        let ghost before = *self;
        let r = Graph::<N, E>::add_node(self, node);
        proof {
            assert forall|k: u64| #[trigger] self.in_list(k) == before.in_list(k) by {}
            assert forall|k: u64| #[trigger] self.out_list(k) == before.out_list(k) by {}
        }
        r
    }

    fn update_node(&mut self, id: NodeId<Self>, node: N) {
        Graph::<N, E>::update_node(self, id, node);
        proof {
            self.lemma_consistent();
        }
    }

    fn remove_node(&mut self, id: NodeId<Self>) -> (r: Option<N>) {
        Graph::<N, E>::remove_node(self, id)
    }

    fn disconnect_node(&mut self, id: NodeId<Self>) {
        Graph::<N, E>::disconnect_node(self, id)
    }

    fn node(&self, id: NodeId<Self>) -> (r: Option<&N>) {
        Graph::<N, E>::node(self, id)
    }

    fn nodes(&self) -> (r: Vec<NodeId<Self>>) {
        Graph::<N, E>::nodes(self)
    }

    fn incoming_nodes(&self, id: NodeId<Self>) -> (r: Vec<NodeId<Self>>) {
        Graph::<N, E>::incoming_nodes(self, id)
    }

    fn outcoming_nodes(&self, id: NodeId<Self>) -> (r: Vec<NodeId<Self>>) {
        Graph::<N, E>::outcoming_nodes(self, id)
    }

    fn contains_node(&self, id: NodeId<Self>) -> (r: bool) {
        Graph::<N, E>::contains_node(self, id)
    }

    fn has_edge_between(&self, ends: EdgeEnds<Self>) -> (r: bool) {
        Graph::<N, E>::has_edge_between(self, ends)
    }

    fn node_count(&self) -> (r: usize) {
        Graph::<N, E>::node_count(self)
    }

    fn add_edge(&mut self, from: NodeId<Self>, to: NodeId<Self>, edge: E) -> (r: Result<
        EdgeId<Self>,
        NoodlezError,
    >) {
        Graph::<N, E>::add_edge(self, from, to, edge)
    }

    fn update_edge(&mut self, id: EdgeId<Self>, edge: E) {
        let ghost before = *self;
        Graph::<N, E>::update_edge(self, id, edge);
        proof {
            assert forall|k: u64| #[trigger] self.in_list(k) == before.in_list(k) by {}
            assert forall|k: u64| #[trigger] self.out_list(k) == before.out_list(k) by {}
        }
    }

    fn remove_edge(&mut self, id: EdgeId<Self>) -> (r: Option<E>) {
        let ghost before = *self;
        let r = Graph::<N, E>::remove_edge(self, id);
        proof {
            before.lemma_consistent();
        }
        r
    }

    fn edge(&self, id: EdgeId<Self>) -> (r: Option<&E>) {
        Graph::<N, E>::edge(self, id)
    }

    fn edges(&self) -> (r: Vec<EdgeId<Self>>) {
        Graph::<N, E>::edges(self)
    }

    fn edge_between(&self, ends: EdgeEnds<Self>) -> (r: Option<EdgeId<Self>>) {
        Graph::<N, E>::edge_between(self, ends)
    }

    fn edge_ends(&self, id: EdgeId<Self>) -> (r: Option<EdgeEnds<Self>>) {
        Graph::<N, E>::edge_ends(self, id)
    }

    fn incoming_edges(&self, id: NodeId<Self>) -> (r: Vec<EdgeId<Self>>) {
        let r = Graph::<N, E>::incoming_edges(self, id);
        proof {
            assert(edge_keys_of(r@) =~= self.in_list(id@).map_values(
                |a: u64| self.between()[(a, id@)],
            ));
        }
        r
    }

    fn outcoming_edges(&self, id: NodeId<Self>) -> (r: Vec<EdgeId<Self>>) {
        let r = Graph::<N, E>::outcoming_edges(self, id);
        proof {
            assert(edge_keys_of(r@) =~= self.out_list(id@).map_values(
                |b: u64| self.between()[(id@, b)],
            ));
        }
        r
    }

    fn contains_edge(&self, id: EdgeId<Self>) -> (r: bool) {
        Graph::<N, E>::contains_edge(self, id)
    }

    fn edge_count(&self) -> (r: usize) {
        Graph::<N, E>::edge_count(self)
    }
}

} // verus!
