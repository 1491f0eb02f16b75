//! Properties that relate several operations of the graph.
use crate::edge::EdgeId;
use crate::graph::{edge_keys_of, keys_of, Graph};
use crate::node::NodeId;
use crate::slots::{key_index, key_version, next_version};
use vstd::prelude::*;

verus! {

/// Removing a live node and then adding a node never gives the new node
/// the removed node's handle: even when its slot is reused, the old handle
/// does not resolve to the new payload.
pub proof fn law_slot_reuse<N, E>(g0: Graph<N, E>, g1: Graph<N, E>, g2: Graph<N, E>, h: u64, k: u64, p: N)
    requires
        g0.wf(),
        g0.node_removed(g1, h),
        g1.node_added(g2, k, p),
    ensures
        k != h,
        !g2.node_map().contains_key(h),
        g2.node_map()[k] == p,
{
    g0.lemma_consistent();
    assert(key_version(h) % 2 == 1);
    if key_index(k) == key_index(h) {
        assert(g1.node_versions()[key_index(h)] == next_version(key_version(h)));
    }
}

/// Removing a live edge and then adding an edge never gives the new edge
/// the removed edge's handle.
pub proof fn law_edge_slot_reuse<N, E>(
    g0: Graph<N, E>,
    g1: Graph<N, E>,
    g2: Graph<N, E>,
    h: u64,
    k: u64,
    a: u64,
    b: u64,
    p: E,
)
    requires
        g0.wf(),
        g0.edge_removed(g1, h),
        g1.edge_added(g2, k, a, b, p),
    ensures
        k != h,
        !g2.edge_map().contains_key(h),
{
    g0.lemma_consistent();
    assert(key_version(h) % 2 == 1);
    assert(g1.edge_versions()[key_index(h)] == next_version(key_version(h)));
    if k == h {
        assert(!g1.edge_map().contains_key(k));
    }
}

/// Two listings of the nodes of one graph hold the same handles.
pub proof fn law_nodes_listing_stable<N, E>(
    g: Graph<N, E>,
    r1: Seq<NodeId<Graph<N, E>>>,
    r2: Seq<NodeId<Graph<N, E>>>,
)
    requires
        g.lists_nodes(r1),
        g.lists_nodes(r2),
    ensures
        keys_of(r1).to_set() == keys_of(r2).to_set(),
        r1.len() == r2.len(),
{
    keys_of(r1).unique_seq_to_set();
    keys_of(r2).unique_seq_to_set();
}

/// Two listings of the edges of one graph hold the same handles.
pub proof fn law_edges_listing_stable<N, E>(
    g: Graph<N, E>,
    r1: Seq<EdgeId<Graph<N, E>>>,
    r2: Seq<EdgeId<Graph<N, E>>>,
)
    requires
        g.lists_edges(r1),
        g.lists_edges(r2),
    ensures
        edge_keys_of(r1).to_set() == edge_keys_of(r2).to_set(),
        r1.len() == r2.len(),
{
    edge_keys_of(r1).unique_seq_to_set();
    edge_keys_of(r2).unique_seq_to_set();
}

/// Once an edge is removed, nothing leads to it any more: its handle is
/// not live, no pair of nodes looks it up, and its endpoints no longer
/// list each other.
pub proof fn law_removed_edge_detached<N, E>(g0: Graph<N, E>, g1: Graph<N, E>, h: u64)
    requires
        g0.wf(),
        g1.wf(),
        g0.edge_removed(g1, h),
    ensures
        !g1.edge_map().contains_key(h),
        forall|p: (u64, u64)| #[trigger] g1.between().contains_key(p) ==> g1.between()[p] != h,
        !g1.out_list(g0.ends_map()[h].0).contains(g0.ends_map()[h].1),
        !g1.in_list(g0.ends_map()[h].1).contains(g0.ends_map()[h].0),
{
    g0.lemma_consistent();
    g1.lemma_consistent();
    let (a, b) = g0.ends_map()[h];
    assert(!g1.between().contains_key((a, b)));
    assert forall|p: (u64, u64)| #[trigger] g1.between().contains_key(p) implies g1.between()[p] != h by {
        assert(g1.edge_map().contains_key(g1.between()[p]));
    }
}

} // verus!
