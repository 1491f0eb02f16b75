//! The graph store: nodes and directed edges in generational slots, with
//! adjacency lists and an endpoint lookup kept in step with them.
use crate::edge::{EdgeEnds, EdgeId};
use crate::error::NoodlezError;
use crate::node::NodeId;
use crate::slots::{
    is_valid_key, key_index, key_is_valid, key_version, list_table, lists_get, lists_insert,
    lists_new, lists_remove, next_version, pair_table, pairs_get, pairs_insert, pairs_new,
    pairs_remove, slot_live, slot_table, slots_insert, slots_keys, slots_new,
    slots_remove, KeyLists, KeyPairs, KeySlots, HALF,
};
use std::collections::HashMap;
use vstd::prelude::*;

verus! {

broadcast use vstd::std_specs::hash::group_hash_axioms;

/// How many nodes, and how many edges, a graph can take over its lifetime.
pub const MAX_ALLOCS: u64 = 0xffff_fff0;

/// The lookup key of the ordered pair (a, b).
pub open spec fn pair_key(a: u64, b: u64) -> u128 {
    (a as int * 0x1_0000_0000_0000_0000 + b as int) as u128
}

/// Two keys that agree in slot index and version are the same key.
pub proof fn lemma_key_parts(a: u64, b: u64)
    requires
        key_index(a) == key_index(b),
        key_version(a) == key_version(b),
    ensures
        a == b,
{
    assert(a == HALF * (a / HALF) + a % HALF);
    assert(b == HALF * (b / HALF) + b % HALF);
    assert(a / HALF < HALF) by (nonlinear_arith);
    assert(b / HALF < HALF) by (nonlinear_arith);
}

/// Distinct pairs have distinct lookup keys.
pub proof fn lemma_pair_key_injective(a: u64, b: u64, c: u64, d: u64)
    requires
        pair_key(a, b) == pair_key(c, d),
    ensures
        a == c,
        b == d,
{
    let m: int = 0x1_0000_0000_0000_0000;
    assert(a as int * m + b as int <= (m - 1) * m + (m - 1)) by (nonlinear_arith)
        requires
            a < m,
            b < m,
            m == 0x1_0000_0000_0000_0000,
    ;
    assert(c as int * m + d as int <= (m - 1) * m + (m - 1)) by (nonlinear_arith)
        requires
            c < m,
            d < m,
            m == 0x1_0000_0000_0000_0000,
    ;
    assert(a as int * m + b as int == c as int * m + d as int);
    assert(a == c && b == d) by (nonlinear_arith)
        requires
            a as int * m + b as int == c as int * m + d as int,
            0 <= b < m,
            0 <= d < m,
            0 <= a,
            0 <= c,
    ;
}

fn pair_key_of(a: u64, b: u64) -> (r: u128)
    ensures
        r == pair_key(a, b),
{
    assert(a as int * 0x1_0000_0000_0000_0000 + b as int <= u128::MAX) by (nonlinear_arith)
        requires
            a <= u64::MAX,
            b <= u64::MAX,
    ;
    (a as u128) * 0x1_0000_0000_0000_0000u128 + (b as u128)
}

/// The keys of a sequence of node handles.
pub open spec fn keys_of<G>(s: Seq<NodeId<G>>) -> Seq<u64> {
    s.map_values(|n: NodeId<G>| n@)
}

/// Node handles for the given keys, in the same order.
fn handles_of<G>(keys: &Vec<u64>) -> (r: Vec<NodeId<G>>)
    ensures
        keys_of(r@) == keys@,
{
    let mut r: Vec<NodeId<G>> = Vec::new();
    let mut i: usize = 0;
    while i < keys.len()
        invariant
            i <= keys.len(),
            keys_of(r@) == keys@.subrange(0, i as int),
        decreases keys.len() - i,
    {
        let ghost prev = r@;
        let n = NodeId::new(keys[i]);
        r.push(n);
        proof {
            assert(keys_of(r@) =~= keys_of(prev).push(n@));
            assert(keys@.subrange(0, i + 1) =~= keys@.subrange(0, i as int).push(keys@[i as int]));
        }
        i = i + 1;
    }
    proof {
        assert(keys@.subrange(0, i as int) =~= keys@);
    }
    r
}

/// `s` with every occurrence of `x` taken out.
pub open spec fn without(s: Seq<u64>, x: u64) -> Seq<u64> {
    s.filter(differs_from(x))
}

/// The test "is not `x`".
pub open spec fn differs_from(x: u64) -> spec_fn(u64) -> bool {
    |y: u64| y != x
}

/// The keys of a sequence of edge handles.
pub open spec fn edge_keys_of<G>(s: Seq<EdgeId<G>>) -> Seq<u64> {
    s.map_values(|e: EdgeId<G>| e@)
}

fn without_exec(v: &Vec<u64>, x: u64) -> (r: Vec<u64>)
    ensures
        r@ == without(v@, x),
        forall|y: u64| r@.contains(y) <==> (v@.contains(y) && y != x),
        v@.no_duplicates() ==> r@.no_duplicates(),
{
    let mut r: Vec<u64> = Vec::new();
    let mut i: usize = 0;
    while i < v.len()
        invariant
            i <= v.len(),
            r@ == without(v@.subrange(0, i as int), x),
            forall|y: u64| r@.contains(y) <==> (v@.subrange(0, i as int).contains(y) && y != x),
            v@.no_duplicates() ==> r@.no_duplicates(),
        decreases v.len() - i,
    {
        let y = v[i];
        let ghost prev = r@;
        proof {
            assert(v@.subrange(0, i + 1) =~= v@.subrange(0, i as int).push(y));
            v@.subrange(0, i as int).lemma_filter_push(y, differs_from(x));
        }
        if y != x {
            proof {
                if v@.no_duplicates() && r@.contains(y) {
                    let j = choose|j: int| 0 <= j < i && #[trigger] v@.subrange(0, i as int)[j] == y;
                    assert(v@[j] == v@[i as int]);
                }
            }
            r.push(y);
            proof {
                assert forall|z: u64| r@.contains(z) <==> (v@.subrange(0, i + 1).contains(z) && z
                    != x) by {
                    if r@.contains(z) && z != y {
                        let j = choose|j: int| 0 <= j < r@.len() && #[trigger] r@[j] == z;
                        assert(prev[j] == z);
                        assert(prev.contains(z));
                        let k = choose|k: int| 0 <= k < i && #[trigger] v@.subrange(0, i as int)[k] == z;
                        assert(v@.subrange(0, i + 1)[k] == z);
                    }
                    if z == y {
                        assert(v@.subrange(0, i + 1)[i as int] == y);
                    }
                    if v@.subrange(0, i + 1).contains(z) && z != x && z != y {
                        let j = choose|j: int| 0 <= j < i + 1 && #[trigger] v@.subrange(0, i + 1)[j] == z;
                        assert(v@.subrange(0, i as int)[j] == z);
                        assert(prev.contains(z));
                    }
                    if z == y {
                        assert(r@[r@.len() - 1] == y);
                    }
                }
            }
        } else {
            proof {
                assert forall|z: u64| r@.contains(z) <==> (v@.subrange(0, i + 1).contains(z) && z
                    != x) by {
                    if v@.subrange(0, i + 1).contains(z) && z != x {
                        let j = choose|j: int| 0 <= j < i + 1 && #[trigger] v@.subrange(0, i + 1)[j] == z;
                        assert(v@.subrange(0, i as int)[j] == z);
                    }
                    if r@.contains(z) {
                        let j = choose|j: int| 0 <= j < i && #[trigger] v@.subrange(0, i as int)[j] == z;
                        assert(v@.subrange(0, i + 1)[j] == z);
                    }
                }
            }
        }
        i = i + 1;
    }
    proof {
        assert(v@.subrange(0, i as int) =~= v@);
    }
    r
}

/// Edge handles for the given keys, in the same order.
fn edge_handles_of<G>(keys: &Vec<u64>) -> (r: Vec<EdgeId<G>>)
    ensures
        edge_keys_of(r@) == keys@,
{
    let mut r: Vec<EdgeId<G>> = Vec::new();
    let mut i: usize = 0;
    while i < keys.len()
        invariant
            i <= keys.len(),
            edge_keys_of(r@) == keys@.subrange(0, i as int),
        decreases keys.len() - i,
    {
        let ghost prev = r@;
        let e = EdgeId::new(keys[i]);
        r.push(e);
        proof {
            assert(edge_keys_of(r@) =~= edge_keys_of(prev).push(e@));
            assert(keys@.subrange(0, i + 1) =~= keys@.subrange(0, i as int).push(keys@[i as int]));
        }
        i = i + 1;
    }
    proof {
        assert(keys@.subrange(0, i as int) =~= keys@);
    }
    r
}

/// A directed graph with node payloads of type `N` and edge payloads of
/// type `E`. At most one edge runs from a node to another node.
pub struct Graph<N, E> {
    node_slots: KeySlots,
    edge_slots: KeySlots,
    nodes: HashMap<u64, N>,
    edges: HashMap<u64, E>,
    edge_ends: KeyPairs,
    node_to_edges: HashMap<u128, u64>,
    incoming_nodes: KeyLists,
    outgoing_nodes: KeyLists,
    node_allocs: u64,
    edge_allocs: u64,
}

impl<N, E> Graph<N, E> {
    /// Live node keys and their payloads.
    pub closed spec fn node_map(&self) -> Map<u64, N> {
        self.nodes@
    }

    /// Live edge keys and their payloads.
    pub closed spec fn edge_map(&self) -> Map<u64, E> {
        self.edges@
    }

    /// For each live edge, its (from, to) node keys.
    pub closed spec fn ends_map(&self) -> Map<u64, (u64, u64)> {
        pair_table(self.edge_ends)
    }

    /// For each live node, the nodes its edges lead to.
    pub closed spec fn out_map(&self) -> Map<u64, Seq<u64>> {
        list_table(self.outgoing_nodes)
    }

    /// For each live node, the nodes whose edges lead to it.
    pub closed spec fn in_map(&self) -> Map<u64, Seq<u64>> {
        list_table(self.incoming_nodes)
    }

    /// The edge, if any, for each ordered pair of node keys.
    pub closed spec fn between(&self) -> Map<(u64, u64), u64> {
        Map::new(
            |p: (u64, u64)| self.node_to_edges@.contains_key(pair_key(p.0, p.1)),
            |p: (u64, u64)| self.node_to_edges@[pair_key(p.0, p.1)],
        )
    }

    /// The version of each node slot.
    pub closed spec fn node_versions(&self) -> Map<u32, u32> {
        slot_table(self.node_slots)
    }

    /// The version of each edge slot.
    pub closed spec fn edge_versions(&self) -> Map<u32, u32> {
        slot_table(self.edge_slots)
    }

    /// How many nodes were ever added.
    pub closed spec fn node_allocs(&self) -> u64 {
        self.node_allocs
    }

    /// How many edges were ever added.
    pub closed spec fn edge_allocs(&self) -> u64 {
        self.edge_allocs
    }

    /// The facts about the graph that its users can rely on.
    pub open spec fn consistent(&self) -> bool {
        &&& self.node_map().dom().finite()
        &&& self.edge_map().dom().finite()
        &&& self.ends_map().dom() == self.edge_map().dom()
        &&& self.out_map().dom() == self.node_map().dom()
        &&& self.in_map().dom() == self.node_map().dom()
        &&& forall|k: u64| #[trigger] self.node_map().contains_key(k) ==> key_is_valid(k)
        &&& forall|k: u64| #[trigger] self.edge_map().contains_key(k) ==> key_is_valid(k)
        &&& forall|k: u64| #[trigger]
            self.node_map().contains_key(k) <==> slot_live(self.node_versions(), k)
        &&& forall|k: u64| #[trigger]
            self.edge_map().contains_key(k) <==> slot_live(self.edge_versions(), k)
        &&& forall|e: u64| #[trigger]
            self.edge_map().contains_key(e) ==> {
                &&& self.node_map().contains_key(self.ends_map()[e].0)
                &&& self.node_map().contains_key(self.ends_map()[e].1)
                &&& self.between().contains_key(self.ends_map()[e])
                &&& self.between()[self.ends_map()[e]] == e
            }
        &&& forall|p: (u64, u64)| #[trigger]
            self.between().contains_key(p) ==> {
                &&& self.edge_map().contains_key(self.between()[p])
                &&& self.ends_map()[self.between()[p]] == p
            }
        &&& forall|a: u64, b: u64|
            #![trigger self.out_map()[a].contains(b)]
            #![trigger self.between().contains_key((a, b)), self.out_map()[a]]
            self.node_map().contains_key(a) ==> (self.out_map()[a].contains(b)
                <==> self.between().contains_key((a, b)))
        &&& forall|a: u64, b: u64|
            #![trigger self.in_map()[b].contains(a)]
            #![trigger self.between().contains_key((a, b)), self.in_map()[b]]
            self.node_map().contains_key(b) ==> (self.in_map()[b].contains(a)
                <==> self.between().contains_key((a, b)))
        &&& forall|a: u64| #[trigger]
            self.node_map().contains_key(a) ==> {
                &&& self.out_map()[a].no_duplicates()
                &&& self.in_map()[a].no_duplicates()
            }
    }

    /// The internal bookkeeping that the facts above rest on.
    closed spec fn bookkeeping(&self) -> bool {
        &&& self.node_versions().dom().finite()
        &&& self.edge_versions().dom().finite()
        &&& self.node_versions().dom().len() <= self.node_allocs
        &&& self.edge_versions().dom().len() <= self.edge_allocs
        &&& forall|i: u32| #[trigger] self.node_versions().contains_key(i) ==> i < u32::MAX
        &&& forall|i: u32| #[trigger] self.edge_versions().contains_key(i) ==> i < u32::MAX
    }

    /// The graph is well formed.
    pub closed spec fn wf(&self) -> bool {
        self.consistent() && self.bookkeeping()
    }

    /// A well-formed graph keeps its promises.
    pub proof fn lemma_consistent(&self)
        requires
            self.wf(),
        ensures
            self.consistent(),
    {
    }

    /// `after` is this graph with the node `k` of payload `p` added.
    pub open spec fn node_added(&self, after: Self, k: u64, p: N) -> bool {
        &&& !self.node_map().contains_key(k)
        &&& after.node_map() == self.node_map().insert(k, p)
        &&& after.out_map() == self.out_map().insert(k, Seq::<u64>::empty())
        &&& after.in_map() == self.in_map().insert(k, Seq::<u64>::empty())
        &&& after.edge_map() == self.edge_map()
        &&& after.ends_map() == self.ends_map()
        &&& after.between() == self.between()
        &&& after.edge_versions() == self.edge_versions()
        &&& after.node_versions() == self.node_versions().insert(key_index(k), key_version(k))
        &&& self.node_versions().contains_key(key_index(k)) ==> key_version(k)
            == self.node_versions()[key_index(k)] + 1
        &&& !self.node_versions().contains_key(key_index(k)) ==> key_version(k) == 1
        &&& after.node_allocs() == self.node_allocs() + 1
        &&& after.edge_allocs() == self.edge_allocs()
    }

    /// Adds a node with payload `node` and returns its fresh handle.
    pub fn add_node(&mut self, node: N) -> (r: NodeId<Self>)
        requires
            old(self).wf(),
            old(self).node_allocs() < MAX_ALLOCS,
        ensures
            final(self).wf(),
            old(self).node_added(*final(self), r@, node),
    {
        let ghost before = *self;
        let k = slots_insert(&mut self.node_slots);
        proof {
            assert forall|j: u64| #[trigger]
                list_table(self.outgoing_nodes).contains_key(j) && key_index(j) == key_index(k)
                implies j == k by {
                assert(before.node_map().contains_key(j));
            }
            assert forall|j: u64| #[trigger]
                list_table(self.incoming_nodes).contains_key(j) && key_index(j) == key_index(k)
                implies j == k by {
                assert(before.node_map().contains_key(j));
            }
        }
        self.nodes.insert(k, node);
        lists_insert(&mut self.outgoing_nodes, k, Vec::new());
        lists_insert(&mut self.incoming_nodes, k, Vec::new());
        self.node_allocs = self.node_allocs + 1;
        proof {
            assert forall|j: u64| #[trigger]
                self.node_map().contains_key(j) <==> slot_live(self.node_versions(), j) by {
                if key_index(j) == key_index(k) && key_is_valid(j) && key_version(j)
                    == key_version(k) {
                    lemma_key_parts(j, k);
                }
                if j != k && before.node_map().contains_key(j) && key_index(j) == key_index(k) {
                    assert(slot_live(before.node_versions(), j));
                }
            }
            assert(self.between() =~= before.between());
            assert(self.node_versions().dom() =~= before.node_versions().dom().insert(
                key_index(k),
            ));
        }
        NodeId::new(k)
    }

    /// Replaces the payload of a live node; a stale handle changes nothing.
    pub fn update_node(&mut self, id: NodeId<Self>, node: N)
        requires
            old(self).wf(),
        ensures
            final(self).wf(),
            old(self).node_map().contains_key(id@) ==> final(self).node_map() == old(
                self,
            ).node_map().insert(id@, node),
            !old(self).node_map().contains_key(id@) ==> final(self).node_map() == old(
                self,
            ).node_map(),
            final(self).edge_map() == old(self).edge_map(),
            final(self).same_but_payloads(*old(self)),
    {
        let k = id.get();
        if self.nodes.contains_key(&k) {
            let ghost before = *self;
            self.nodes.insert(k, node);
            proof {
                assert(self.node_map().dom() =~= before.node_map().dom());
                assert(self.between() =~= before.between());
            }
        }
    }

    /// `self` and `other` have the same nodes, edges and slots, whatever
    /// their payloads.
    pub open spec fn same_but_payloads(&self, other: Self) -> bool {
        &&& self.node_map().dom() == other.node_map().dom()
        &&& self.edge_map().dom() == other.edge_map().dom()
        &&& self.ends_map() == other.ends_map()
        &&& self.out_map() == other.out_map()
        &&& self.in_map() == other.in_map()
        &&& self.between() == other.between()
        &&& self.node_versions() == other.node_versions()
        &&& self.edge_versions() == other.edge_versions()
        &&& self.node_allocs() == other.node_allocs()
        &&& self.edge_allocs() == other.edge_allocs()
    }

    /// The payload of a node, if the handle is live.
    pub fn node(&self, id: NodeId<Self>) -> (r: Option<&N>)
        requires
            self.wf(),
        ensures
            match r {
                Some(v) => self.node_map().contains_key(id@) && *v == self.node_map()[id@],
                None => !self.node_map().contains_key(id@),
            },
    {
        self.nodes.get(&id.get())
    }

    /// Whether the handle names a live node.
    pub fn contains_node(&self, id: NodeId<Self>) -> (r: bool)
        requires
            self.wf(),
        ensures
            r == self.node_map().contains_key(id@),
    {
        self.nodes.contains_key(&id.get())
    }

    /// The number of live nodes.
    pub fn node_count(&self) -> (r: usize)
        requires
            self.wf(),
        ensures
            r == self.node_map().len(),
    {
        self.nodes.len()
    }

    /// `r` lists every live node once.
    pub open spec fn lists_nodes(&self, r: Seq<NodeId<Self>>) -> bool {
        &&& keys_of(r).no_duplicates()
        &&& keys_of(r).to_set() == self.node_map().dom()
    }

    /// The handles of all live nodes, each once, in no particular order.
    pub fn nodes(&self) -> (r: Vec<NodeId<Self>>)
        requires
            self.wf(),
        ensures
            self.lists_nodes(r@),
    {
        let keys = slots_keys(&self.node_slots);
        let r = handles_of(&keys);
        proof {
            assert(keys_of(r@).to_set() =~= self.node_map().dom());
        }
        r
    }

    /// `after` is this graph with the edge `e` of payload `p` added from
    /// node `a` to node `b`.
    pub open spec fn edge_added(&self, after: Self, e: u64, a: u64, b: u64, p: E) -> bool {
        &&& !self.edge_map().contains_key(e)
        &&& after.edge_map() == self.edge_map().insert(e, p)
        &&& after.ends_map() == self.ends_map().insert(e, (a, b))
        &&& after.between() == self.between().insert((a, b), e)
        &&& after.out_map() == self.out_map().insert(a, self.out_map()[a].push(b))
        &&& after.in_map() == self.in_map().insert(b, self.in_map()[b].push(a))
        &&& after.node_map() == self.node_map()
        &&& after.node_versions() == self.node_versions()
        &&& after.edge_versions() == self.edge_versions().insert(key_index(e), key_version(e))
        &&& self.edge_versions().contains_key(key_index(e)) ==> key_version(e)
            == self.edge_versions()[key_index(e)] + 1
        &&& !self.edge_versions().contains_key(key_index(e)) ==> key_version(e) == 1
        &&& after.node_allocs() == self.node_allocs()
        &&& after.edge_allocs() == self.edge_allocs() + 1
    }

    /// Adds an edge from `from` to `to`. It fails with
    /// `InvalidEdgeEndpoints` when one of the two is not a live node, and
    /// with `DuplicateEdge` when an edge from `from` to `to` already exists;
    /// the graph is then left as it was.
    pub fn add_edge(&mut self, from: NodeId<Self>, to: NodeId<Self>, edge: E) -> (r: Result<
        EdgeId<Self>,
        NoodlezError,
    >)
        requires
            old(self).wf(),
            old(self).edge_allocs() < MAX_ALLOCS,
        ensures
            final(self).wf(),
            match r {
                Ok(e) => {
                    &&& old(self).node_map().contains_key(from@)
                    &&& old(self).node_map().contains_key(to@)
                    &&& !old(self).between().contains_key((from@, to@))
                    &&& old(self).edge_added(*final(self), e@, from@, to@, edge)
                },
                Err(NoodlezError::InvalidEdgeEndpoints) => {
                    &&& !(old(self).node_map().contains_key(from@) && old(self).node_map().contains_key(
                        to@,
                    ))
                    &&& *final(self) == *old(self)
                },
                Err(NoodlezError::DuplicateEdge) => {
                    &&& old(self).node_map().contains_key(from@)
                    &&& old(self).node_map().contains_key(to@)
                    &&& old(self).between().contains_key((from@, to@))
                    &&& *final(self) == *old(self)
                },
            },
    {
        let a = from.get();
        let b = to.get();
        if !(self.nodes.contains_key(&a) && self.nodes.contains_key(&b)) {
            return Err(NoodlezError::InvalidEdgeEndpoints);
        }
        let pk = pair_key_of(a, b);
        if self.node_to_edges.contains_key(&pk) {
            return Err(NoodlezError::DuplicateEdge);
        }
        let ghost before = *self;
        let e = slots_insert(&mut self.edge_slots);
        proof {
            assert forall|j: u64| #[trigger]
                pair_table(self.edge_ends).contains_key(j) && key_index(j) == key_index(e)
                implies j == e by {
                assert(before.edge_map().contains_key(j));
            }
            assert forall|j: u64| #[trigger]
                list_table(self.outgoing_nodes).contains_key(j) && key_index(j) == key_index(a)
                implies j == a by {
                assert(before.node_map().contains_key(j));
                assert(slot_live(before.node_versions(), j));
                assert(slot_live(before.node_versions(), a));
                lemma_key_parts(j, a);
            }
            assert forall|j: u64| #[trigger]
                list_table(self.incoming_nodes).contains_key(j) && key_index(j) == key_index(b)
                implies j == b by {
                assert(before.node_map().contains_key(j));
                assert(slot_live(before.node_versions(), j));
                assert(slot_live(before.node_versions(), b));
                lemma_key_parts(j, b);
            }
        }
        self.edges.insert(e, edge);
        pairs_insert(&mut self.edge_ends, e, (a, b));
        self.node_to_edges.insert(pk, e);
        let mut outs = match lists_get(&self.outgoing_nodes, a) {
            Some(v) => v,
            None => Vec::new(),
        };
        outs.push(b);
        lists_insert(&mut self.outgoing_nodes, a, outs);
        let mut ins = match lists_get(&self.incoming_nodes, b) {
            Some(v) => v,
            None => Vec::new(),
        };
        ins.push(a);
        lists_insert(&mut self.incoming_nodes, b, ins);
        self.edge_allocs = self.edge_allocs + 1;
        proof {
            assert(!before.out_map()[a].contains(b));
            assert(!before.in_map()[b].contains(a));
            assert(self.out_map().dom() =~= before.out_map().dom());
            assert(self.in_map().dom() =~= before.in_map().dom());
            assert forall|x: u64| #[trigger] self.node_map().contains_key(x) implies {
                &&& self.out_map()[x].no_duplicates()
                &&& self.in_map()[x].no_duplicates()
            } by {
                assert(before.node_map().contains_key(x));
            }
            assert forall|p: (u64, u64)| #[trigger] self.between().contains_key(p) == before.between().insert((a, b), e).contains_key(p)
                && (self.between().contains_key(p) ==> self.between()[p] == before.between().insert((a, b), e)[p]) by {
                if pair_key(p.0, p.1) == pair_key(a, b) {
                    lemma_pair_key_injective(p.0, p.1, a, b);
                }
            }
            assert(self.between() =~= before.between().insert((a, b), e));
            assert forall|j: u64| #[trigger]
                self.edge_map().contains_key(j) <==> slot_live(self.edge_versions(), j) by {
                if key_index(j) == key_index(e) && key_is_valid(j) && key_version(j)
                    == key_version(e) {
                    lemma_key_parts(j, e);
                }
                if j != e && before.edge_map().contains_key(j) && key_index(j) == key_index(e) {
                    assert(slot_live(before.edge_versions(), j));
                }
            }
            assert(self.edge_versions().dom() =~= before.edge_versions().dom().insert(
                key_index(e),
            ));
            assert(self.ends_map().dom() =~= self.edge_map().dom());
            assert forall|x: u64| #[trigger]
                self.edge_map().contains_key(x) implies {
                    &&& self.node_map().contains_key(self.ends_map()[x].0)
                    &&& self.node_map().contains_key(self.ends_map()[x].1)
                    &&& self.between().contains_key(self.ends_map()[x])
                    &&& self.between()[self.ends_map()[x]] == x
                } by {
                if x != e {
                    assert(before.edge_map().contains_key(x));
                    assert(before.between().contains_key(before.ends_map()[x]));
                }
            }
            assert forall|x: u64, y: u64| #[trigger]
                self.out_map()[x].contains(y) && self.node_map().contains_key(x)
                implies self.between().contains_key((x, y)) by {
                if x == a && y != b {
                    assert(before.out_map()[a].contains(y));
                }
            }
            assert forall|x: u64, y: u64| #[trigger]
                self.in_map()[y].contains(x) && self.node_map().contains_key(y)
                implies self.between().contains_key((x, y)) by {
                if y == b && x != a {
                    assert(before.in_map()[b].contains(x));
                }
            }
            assert forall|x: u64, y: u64|
                self.between().contains_key((x, y)) && #[trigger] self.node_map().contains_key(x)
                && #[trigger] self.node_map().contains_key(y)
                implies self.out_map()[x].contains(y) && self.in_map()[y].contains(x) by {
                if (x, y) != (a, b) {
                    assert(before.between().contains_key((x, y)));
                    assert(before.out_map()[x].contains(y));
                    assert(before.in_map()[y].contains(x));
                    if x == a {
                        assert(self.out_map()[x][before.out_map()[x].index_of(y)] == y);
                    }
                    if y == b {
                        assert(self.in_map()[y][before.in_map()[y].index_of(x)] == x);
                    }
                } else {
                    assert(self.out_map()[a][self.out_map()[a].len() - 1] == b);
                    assert(self.in_map()[b][self.in_map()[b].len() - 1] == a);
                }
            }
        }
        Ok(EdgeId::new(e))
    }

    /// `after` is this graph with its live edge `e` taken out, and with it
    /// the entries of `e`'s endpoints in the adjacency lists.
    pub open spec fn edge_removed(&self, after: Self, e: u64) -> bool {
        let (a, b) = self.ends_map()[e];
        &&& self.edge_map().contains_key(e)
        &&& after.edge_map() == self.edge_map().remove(e)
        &&& after.ends_map() == self.ends_map().remove(e)
        &&& after.between() == self.between().remove((a, b))
        &&& after.out_map() == self.out_map().insert(a, without(self.out_map()[a], b))
        &&& after.in_map() == self.in_map().insert(b, without(self.in_map()[b], a))
        &&& after.node_map() == self.node_map()
        &&& after.node_versions() == self.node_versions()
        &&& after.edge_versions() == self.edge_versions().insert(
            key_index(e),
            next_version(key_version(e)),
        )
        &&& after.node_allocs() == self.node_allocs()
        &&& after.edge_allocs() == self.edge_allocs()
    }

    /// Removes a live edge and returns its payload; a stale handle changes
    /// nothing and gives `None`.
    pub fn remove_edge(&mut self, id: EdgeId<Self>) -> (r: Option<E>)
        requires
            old(self).wf(),
        ensures
            final(self).wf(),
            match r {
                Some(p) => {
                    &&& old(self).edge_map().contains_key(id@)
                    &&& p == old(self).edge_map()[id@]
                    &&& old(self).edge_removed(*final(self), id@)
                },
                None => !old(self).edge_map().contains_key(id@) && *final(self) == *old(self),
            },
    {
        let e = id.get();
        if !is_valid_key(e) {
            return None;
        }
        let (a, b) = match pairs_get(&self.edge_ends, e) {
            Some(ends) => ends,
            None => {
                return None;
            },
        };
        let ghost before = *self;
        proof {
            assert(self.edge_map().contains_key(e));
            assert(self.node_map().contains_key(a));
            assert(self.node_map().contains_key(b));
            assert forall|j: u64| #[trigger]
                list_table(self.outgoing_nodes).contains_key(j) && key_index(j) == key_index(a)
                implies j == a by {
                assert(before.node_map().contains_key(j));
                assert(slot_live(before.node_versions(), j));
                assert(slot_live(before.node_versions(), a));
                lemma_key_parts(j, a);
            }
            assert forall|j: u64| #[trigger]
                list_table(self.incoming_nodes).contains_key(j) && key_index(j) == key_index(b)
                implies j == b by {
                assert(before.node_map().contains_key(j));
                assert(slot_live(before.node_versions(), j));
                assert(slot_live(before.node_versions(), b));
                lemma_key_parts(j, b);
            }
        }
        let ins = match lists_get(&self.incoming_nodes, b) {
            Some(v) => v,
            None => Vec::new(),
        };
        let ins = without_exec(&ins, a);
        lists_insert(&mut self.incoming_nodes, b, ins);
        let outs = match lists_get(&self.outgoing_nodes, a) {
            Some(v) => v,
            None => Vec::new(),
        };
        let outs = without_exec(&outs, b);
        lists_insert(&mut self.outgoing_nodes, a, outs);
        let pk = pair_key_of(a, b);
        self.node_to_edges.remove(&pk);
        pairs_remove(&mut self.edge_ends, e);
        slots_remove(&mut self.edge_slots, e);
        let r = self.edges.remove(&e);
        proof {
            assert forall|p: (u64, u64)| #[trigger] self.between().contains_key(p)
                == before.between().remove((a, b)).contains_key(p) && (self.between().contains_key(p)
                ==> self.between()[p] == before.between().remove((a, b))[p]) by {
                if pair_key(p.0, p.1) == pair_key(a, b) {
                    lemma_pair_key_injective(p.0, p.1, a, b);
                }
            }
            assert(self.between() =~= before.between().remove((a, b)));
            assert(self.out_map().dom() =~= before.out_map().dom());
            assert(self.in_map().dom() =~= before.in_map().dom());
            assert(self.ends_map().dom() =~= self.edge_map().dom());
            assert(self.edge_versions().dom() =~= before.edge_versions().dom());
            assert forall|j: u64| #[trigger]
                self.edge_map().contains_key(j) <==> slot_live(self.edge_versions(), j) by {
                if key_index(j) == key_index(e) && before.edge_map().contains_key(j) {
                    assert(slot_live(before.edge_versions(), j));
                    assert(slot_live(before.edge_versions(), e));
                    lemma_key_parts(j, e);
                }
            }
            assert forall|x: u64| #[trigger]
                self.edge_map().contains_key(x) implies {
                    &&& self.node_map().contains_key(self.ends_map()[x].0)
                    &&& self.node_map().contains_key(self.ends_map()[x].1)
                    &&& self.between().contains_key(self.ends_map()[x])
                    &&& self.between()[self.ends_map()[x]] == x
                } by {
                assert(before.edge_map().contains_key(x));
                assert(before.between().contains_key(before.ends_map()[x]));
            }
            assert forall|p: (u64, u64)| #[trigger] self.between().contains_key(p) implies {
                &&& self.edge_map().contains_key(self.between()[p])
                &&& self.ends_map()[self.between()[p]] == p
            } by {
                assert(before.between().contains_key(p));
            }
            assert forall|x: u64| #[trigger] self.node_map().contains_key(x) implies {
                &&& self.out_map()[x].no_duplicates()
                &&& self.in_map()[x].no_duplicates()
            } by {
                assert(before.node_map().contains_key(x));
            }
            assert forall|x: u64, y: u64| #[trigger]
                self.out_map()[x].contains(y) && self.node_map().contains_key(x)
                implies self.between().contains_key((x, y)) by {
                if x == a {
                    assert(before.out_map()[a].contains(y));
                }
            }
            assert forall|x: u64, y: u64| #[trigger]
                self.in_map()[y].contains(x) && self.node_map().contains_key(y)
                implies self.between().contains_key((x, y)) by {
                if y == b {
                    assert(before.in_map()[b].contains(x));
                }
            }
            assert forall|x: u64, y: u64|
                self.between().contains_key((x, y)) && #[trigger] self.node_map().contains_key(x)
                && #[trigger] self.node_map().contains_key(y)
                implies self.out_map()[x].contains(y) && self.in_map()[y].contains(x) by {
                assert(before.between().contains_key((x, y)));
                assert(before.out_map()[x].contains(y));
                assert(before.in_map()[y].contains(x));
            }
        }
        r
    }

    /// The edges that end in node `k`, one for each entry of its incoming
    /// list; empty for a node that is not live.
    pub open spec fn in_edges(&self, k: u64) -> Seq<u64> {
        if self.node_map().contains_key(k) {
            self.in_map()[k].map_values(|a: u64| self.between()[(a, k)])
        } else {
            Seq::empty()
        }
    }

    /// The edges that leave node `k`, one for each entry of its outgoing
    /// list; empty for a node that is not live.
    pub open spec fn out_edges(&self, k: u64) -> Seq<u64> {
        if self.node_map().contains_key(k) {
            self.out_map()[k].map_values(|b: u64| self.between()[(k, b)])
        } else {
            Seq::empty()
        }
    }

    /// The incoming list of a node, empty for a node that is not live.
    pub open spec fn in_list(&self, k: u64) -> Seq<u64> {
        if self.node_map().contains_key(k) {
            self.in_map()[k]
        } else {
            Seq::empty()
        }
    }

    /// The outgoing list of a node, empty for a node that is not live.
    pub open spec fn out_list(&self, k: u64) -> Seq<u64> {
        if self.node_map().contains_key(k) {
            self.out_map()[k]
        } else {
            Seq::empty()
        }
    }

    /// The nodes with an edge to `id`.
    pub fn incoming_nodes(&self, id: NodeId<Self>) -> (r: Vec<NodeId<Self>>)
        requires
            self.wf(),
        ensures
            keys_of(r@) == self.in_list(id@),
            forall|i: int| 0 <= i < r@.len() ==> self.node_map().contains_key(#[trigger] r@[i]@),
    {
        let k = id.get();
        let mut keys: Vec<u64> = Vec::new();
        if is_valid_key(k) {
            if let Some(v) = lists_get(&self.incoming_nodes, k) {
                keys = v;
            }
        }
        let r = handles_of(&keys);
        proof {
            assert forall|i: int| 0 <= i < r@.len() implies self.node_map().contains_key(
                #[trigger] r@[i]@,
            ) by {
                assert(keys_of(r@)[i] == r@[i]@);
                assert(self.in_map()[k].contains(keys@[i]));
            }
        }
        r
    }

    /// The nodes that `id` has an edge to.
    pub fn outcoming_nodes(&self, id: NodeId<Self>) -> (r: Vec<NodeId<Self>>)
        requires
            self.wf(),
        ensures
            keys_of(r@) == self.out_list(id@),
            forall|i: int| 0 <= i < r@.len() ==> self.node_map().contains_key(#[trigger] r@[i]@),
    {
        let k = id.get();
        let mut keys: Vec<u64> = Vec::new();
        if is_valid_key(k) {
            if let Some(v) = lists_get(&self.outgoing_nodes, k) {
                keys = v;
            }
        }
        let r = handles_of(&keys);
        proof {
            assert forall|i: int| 0 <= i < r@.len() implies self.node_map().contains_key(
                #[trigger] r@[i]@,
            ) by {
                assert(keys_of(r@)[i] == r@[i]@);
                assert(self.out_map()[k].contains(keys@[i]));
                assert(self.between().contains_key((k, keys@[i])));
            }
        }
        r
    }

    /// The nodes joined to `id` by an edge in either direction: the
    /// incoming ones, then the outgoing ones.
    pub fn neighbor_nodes(&self, id: NodeId<Self>) -> (r: Vec<NodeId<Self>>)
        requires
            self.wf(),
        ensures
            keys_of(r@) == self.in_list(id@) + self.out_list(id@),
            forall|i: int| 0 <= i < r@.len() ==> self.node_map().contains_key(#[trigger] r@[i]@),
    {
        let mut r = self.incoming_nodes(id);
        let mut outs = self.outcoming_nodes(id);
        let ghost r0 = r@;
        let ghost o0 = outs@;
        r.append(&mut outs);
        proof {
            assert(r@ == r0 + o0);
            assert(keys_of(r@) =~= keys_of(r0) + keys_of(o0));
            assert forall|i: int| 0 <= i < r@.len() implies self.node_map().contains_key(
                #[trigger] r@[i]@,
            ) by {
                if i < r0.len() {
                    assert(r@[i] == r0[i]);
                } else {
                    assert(r@[i] == o0[i - r0.len()]);
                }
            }
        }
        r
    }

    /// The edge from `ends.from()` to `ends.to()`, if there is one.
    pub fn edge_between(&self, ends: EdgeEnds<Self>) -> (r: Option<EdgeId<Self>>)
        requires
            self.wf(),
        ensures
            match r {
                Some(e) => self.between().contains_key(ends.view_pair()) && e@ == self.between()[ends.view_pair()],
                None => !self.between().contains_key(ends.view_pair()),
            },
    {
        let pk = pair_key_of(ends.from().get(), ends.to().get());
        match self.node_to_edges.get(&pk) {
            Some(e) => Some(EdgeId::new(*e)),
            None => None,
        }
    }

    /// Whether an edge runs from `ends.from()` to `ends.to()`.
    pub fn has_edge_between(&self, ends: EdgeEnds<Self>) -> (r: bool)
        requires
            self.wf(),
        ensures
            r == self.between().contains_key(ends.view_pair()),
    {
        let pk = pair_key_of(ends.from().get(), ends.to().get());
        self.node_to_edges.contains_key(&pk)
    }

    /// The edges that end in `id`, in the order of its incoming list.
    pub fn incoming_edges(&self, id: NodeId<Self>) -> (r: Vec<EdgeId<Self>>)
        requires
            self.wf(),
        ensures
            edge_keys_of(r@) == self.in_edges(id@),
    {
        let froms = self.incoming_nodes(id);
        let mut r: Vec<EdgeId<Self>> = Vec::new();
        let mut i: usize = 0;
        while i < froms.len()
            invariant
                self.wf(),
                i <= froms.len(),
                keys_of(froms@) == self.in_list(id@),
                edge_keys_of(r@) == self.in_edges(id@).subrange(0, i as int),
            decreases froms.len() - i,
        {
            let a = froms[i];
            proof {
                assert(keys_of(froms@)[i as int] == a@);
                assert(keys_of(froms@).len() == froms@.len());
                assert(self.node_map().contains_key(id@));
                assert(self.in_map()[id@][i as int] == a@);
                assert(self.in_map()[id@].contains(a@));
            }
            let ghost prev = r@;
            if let Some(e) = self.edge_between(EdgeEnds::new(a, id)) {
                r.push(e);
                proof {
                    assert(edge_keys_of(r@) =~= edge_keys_of(prev).push(e@));
                    assert(self.in_edges(id@).subrange(0, i + 1) =~= self.in_edges(id@).subrange(
                        0,
                        i as int,
                    ).push(self.in_edges(id@)[i as int]));
                }
            }
            i = i + 1;
        }
        proof {
            assert(self.in_edges(id@).subrange(0, i as int) =~= self.in_edges(id@));
        }
        r
    }

    /// The edges that leave `id`, in the order of its outgoing list.
    pub fn outcoming_edges(&self, id: NodeId<Self>) -> (r: Vec<EdgeId<Self>>)
        requires
            self.wf(),
        ensures
            edge_keys_of(r@) == self.out_edges(id@),
    {
        let tos = self.outcoming_nodes(id);
        let mut r: Vec<EdgeId<Self>> = Vec::new();
        let mut i: usize = 0;
        while i < tos.len()
            invariant
                self.wf(),
                i <= tos.len(),
                keys_of(tos@) == self.out_list(id@),
                edge_keys_of(r@) == self.out_edges(id@).subrange(0, i as int),
            decreases tos.len() - i,
        {
            let b = tos[i];
            proof {
                assert(keys_of(tos@)[i as int] == b@);
                assert(keys_of(tos@).len() == tos@.len());
                assert(self.node_map().contains_key(id@));
                assert(self.out_map()[id@][i as int] == b@);
                assert(self.out_map()[id@].contains(b@));
            }
            let ghost prev = r@;
            if let Some(e) = self.edge_between(EdgeEnds::new(id, b)) {
                r.push(e);
                proof {
                    assert(edge_keys_of(r@) =~= edge_keys_of(prev).push(e@));
                    assert(self.out_edges(id@).subrange(0, i + 1) =~= self.out_edges(id@).subrange(
                        0,
                        i as int,
                    ).push(self.out_edges(id@)[i as int]));
                }
            }
            i = i + 1;
        }
        proof {
            assert(self.out_edges(id@).subrange(0, i as int) =~= self.out_edges(id@));
        }
        r
    }

    /// The edges at `id` in either direction: the incoming ones, then the
    /// outgoing ones. A loop at `id` is listed twice.
    pub fn neighbor_edges(&self, id: NodeId<Self>) -> (r: Vec<EdgeId<Self>>)
        requires
            self.wf(),
        ensures
            edge_keys_of(r@) == self.in_edges(id@) + self.out_edges(id@),
    {
        let mut r = self.incoming_edges(id);
        let mut outs = self.outcoming_edges(id);
        let ghost r0 = r@;
        let ghost o0 = outs@;
        r.append(&mut outs);
        proof {
            assert(edge_keys_of(r@) =~= edge_keys_of(r0) + edge_keys_of(o0));
        }
        r
    }

    /// With the graph well formed, the edges listed at node `k` are
    /// exactly the live edges with `k` as an endpoint.
    pub proof fn lemma_incident_edges(&self, k: u64, e: u64)
        requires
            self.wf(),
        ensures
            (self.in_edges(k) + self.out_edges(k)).contains(e) <==> (self.edge_map().contains_key(e)
                && (self.ends_map()[e].0 == k || self.ends_map()[e].1 == k)),
    {
        let s1 = self.in_edges(k);
        let s2 = self.out_edges(k);
        let s = s1 + s2;
        if s.contains(e) {
            let j = choose|j: int| 0 <= j < s.len() && s[j] == e;
            if j < s1.len() {
                assert(s1[j] == e);
                let a = self.in_map()[k][j];
                assert(self.in_map()[k].contains(a));
                assert(self.between().contains_key((a, k)));
            } else {
                assert(s2[j - s1.len()] == e);
                let b = self.out_map()[k][j - s1.len()];
                assert(self.out_map()[k].contains(b));
                assert(self.between().contains_key((k, b)));
            }
        }
        if self.edge_map().contains_key(e) {
            let (a, b) = self.ends_map()[e];
            if b == k {
                assert(self.in_map()[k].contains(a));
                let j = choose|j: int| 0 <= j < self.in_map()[k].len() && self.in_map()[k][j] == a;
                assert(s1[j] == e);
                assert(s[j] == e);
            } else if a == k {
                assert(self.out_map()[k].contains(b));
                let j = choose|j: int| 0 <= j < self.out_map()[k].len() && self.out_map()[k][j] == b;
                assert(s2[j] == e);
                assert(s[s1.len() + j] == e);
            }
        }
    }

    /// `after` is this graph without the edges that have `k` as an
    /// endpoint, and otherwise the same.
    pub open spec fn detached(&self, after: Self, k: u64) -> bool {
        &&& after.node_map() == self.node_map()
        &&& after.node_versions() == self.node_versions()
        &&& after.node_allocs() == self.node_allocs()
        &&& after.edge_allocs() == self.edge_allocs()
        &&& forall|e: u64| #[trigger]
            after.edge_map().contains_key(e) <==> (self.edge_map().contains_key(e)
                && self.ends_map()[e].0 != k && self.ends_map()[e].1 != k)
        &&& forall|e: u64| #[trigger]
            after.edge_map().contains_key(e) ==> after.edge_map()[e] == self.edge_map()[e]
                && after.ends_map()[e] == self.ends_map()[e]
    }

    /// Removes every edge that has `id` as an endpoint.
    pub fn disconnect_node(&mut self, id: NodeId<Self>)
        requires
            old(self).wf(),
        ensures
            final(self).wf(),
            old(self).detached(*final(self), id@),
    {
        let es = self.neighbor_edges(id);
        let ghost before = *self;
        let mut i: usize = 0;
        while i < es.len()
            invariant
                self.wf(),
                i <= es.len(),
                before.wf(),
                edge_keys_of(es@) == before.in_edges(id@) + before.out_edges(id@),
                self.node_map() == before.node_map(),
                self.node_versions() == before.node_versions(),
                self.node_allocs() == before.node_allocs(),
                self.edge_allocs() == before.edge_allocs(),
                forall|e: u64| #[trigger]
                    self.edge_map().contains_key(e) <==> (before.edge_map().contains_key(e)
                        && !edge_keys_of(es@).subrange(0, i as int).contains(e)),
                forall|e: u64| #[trigger]
                    self.edge_map().contains_key(e) ==> self.edge_map()[e] == before.edge_map()[e]
                        && self.ends_map()[e] == before.ends_map()[e],
            decreases es.len() - i,
        {
            let ghost mid = *self;
            let e = es[i];
            proof {
                assert(edge_keys_of(es@)[i as int] == e@);
            }
            self.remove_edge(e);
            proof {
                assert forall|x: u64| #[trigger]
                    self.edge_map().contains_key(x) <==> (before.edge_map().contains_key(x)
                        && !edge_keys_of(es@).subrange(0, i + 1).contains(x)) by {
                    let s0 = edge_keys_of(es@).subrange(0, i as int);
                    let s1 = edge_keys_of(es@).subrange(0, i + 1);
                    assert(s1 =~= s0.push(e@));
                    if s1.contains(x) && x != e@ {
                        let j = choose|j: int| 0 <= j < s1.len() && s1[j] == x;
                        assert(s0[j] == x);
                    }
                    if s0.contains(x) {
                        let j = choose|j: int| 0 <= j < s0.len() && s0[j] == x;
                        assert(s1[j] == x);
                    }
                    assert(s1[i as int] == e@);
                }
            }
            i = i + 1;
        }
        proof {
            assert(edge_keys_of(es@).subrange(0, i as int) =~= edge_keys_of(es@));
            assert forall|e: u64| #[trigger]
                self.edge_map().contains_key(e) <==> (before.edge_map().contains_key(e)
                    && before.ends_map()[e].0 != id@ && before.ends_map()[e].1 != id@) by {
                before.lemma_incident_edges(id@, e);
            }
        }
    }

    /// `after` is this graph with its live node `k` taken out, together
    /// with every edge that has `k` as an endpoint.
    pub open spec fn node_removed(&self, after: Self, k: u64) -> bool {
        &&& self.node_map().contains_key(k)
        &&& after.node_map() == self.node_map().remove(k)
        &&& after.node_versions() == self.node_versions().insert(
            key_index(k),
            next_version(key_version(k)),
        )
        &&& after.node_allocs() == self.node_allocs()
        &&& after.edge_allocs() == self.edge_allocs()
        &&& forall|e: u64| #[trigger]
            after.edge_map().contains_key(e) <==> (self.edge_map().contains_key(e)
                && self.ends_map()[e].0 != k && self.ends_map()[e].1 != k)
        &&& forall|e: u64| #[trigger]
            after.edge_map().contains_key(e) ==> after.edge_map()[e] == self.edge_map()[e]
                && after.ends_map()[e] == self.ends_map()[e]
    }

    /// Removes a live node, after removing every edge at it, and returns
    /// its payload; a stale handle changes nothing and gives `None`.
    pub fn remove_node(&mut self, id: NodeId<Self>) -> (r: Option<N>)
        requires
            old(self).wf(),
        ensures
            final(self).wf(),
            !final(self).node_map().contains_key(id@),
            forall|e: u64| #[trigger]
                final(self).edge_map().contains_key(e) ==> final(self).ends_map()[e].0 != id@
                    && final(self).ends_map()[e].1 != id@,
            match r {
                Some(p) => {
                    &&& old(self).node_map().contains_key(id@)
                    &&& p == old(self).node_map()[id@]
                    &&& old(self).node_removed(*final(self), id@)
                },
                None => !old(self).node_map().contains_key(id@) && *final(self) == *old(self),
            },
    {
        let k = id.get();
        if !is_valid_key(k) || !self.nodes.contains_key(&k) {
            return None;
        }
        let ghost start = *self;
        self.disconnect_node(id);
        let ghost before = *self;
        slots_remove(&mut self.node_slots, k);
        lists_remove(&mut self.outgoing_nodes, k);
        lists_remove(&mut self.incoming_nodes, k);
        let r = self.nodes.remove(&k);
        proof {
            assert(self.between() == before.between());
            assert(self.out_map().dom() =~= self.node_map().dom());
            assert(self.in_map().dom() =~= self.node_map().dom());
            assert(self.node_versions().dom() =~= before.node_versions().dom());
            assert forall|j: u64| #[trigger]
                self.node_map().contains_key(j) <==> slot_live(self.node_versions(), j) by {
                if key_index(j) == key_index(k) && before.node_map().contains_key(j) {
                    assert(slot_live(before.node_versions(), j));
                    assert(slot_live(before.node_versions(), k));
                    lemma_key_parts(j, k);
                }
            }
            assert forall|e: u64| #[trigger] self.edge_map().contains_key(e) implies {
                &&& self.node_map().contains_key(self.ends_map()[e].0)
                &&& self.node_map().contains_key(self.ends_map()[e].1)
            } by {
                assert(start.edge_map().contains_key(e));
            }
            assert forall|x: u64| #[trigger] self.node_map().contains_key(x) implies {
                &&& self.out_map()[x].no_duplicates()
                &&& self.in_map()[x].no_duplicates()
            } by {
                assert(before.node_map().contains_key(x));
            }
            assert forall|x: u64, y: u64| #[trigger]
                self.out_map()[x].contains(y) && self.node_map().contains_key(x)
                implies self.between().contains_key((x, y)) by {
                assert(before.node_map().contains_key(x));
            }
            assert forall|x: u64, y: u64| #[trigger]
                self.in_map()[y].contains(x) && self.node_map().contains_key(y)
                implies self.between().contains_key((x, y)) by {
                assert(before.node_map().contains_key(y));
            }
            assert forall|x: u64, y: u64|
                self.between().contains_key((x, y)) && #[trigger] self.node_map().contains_key(x)
                && #[trigger] self.node_map().contains_key(y)
                implies self.out_map()[x].contains(y) && self.in_map()[y].contains(x) by {
                assert(before.node_map().contains_key(x));
                assert(before.node_map().contains_key(y));
            }
            assert forall|e: u64| #[trigger]
                self.edge_map().contains_key(e) implies self.ends_map()[e].0 != k
                    && self.ends_map()[e].1 != k by {
                assert(start.edge_map().contains_key(e));
            }
        }
        r
    }

    /// Replaces the payload of a live edge; a stale handle changes nothing.
    pub fn update_edge(&mut self, id: EdgeId<Self>, edge: E)
        requires
            old(self).wf(),
        ensures
            final(self).wf(),
            old(self).edge_map().contains_key(id@) ==> final(self).edge_map() == old(
                self,
            ).edge_map().insert(id@, edge),
            !old(self).edge_map().contains_key(id@) ==> final(self).edge_map() == old(
                self,
            ).edge_map(),
            final(self).node_map() == old(self).node_map(),
            final(self).same_but_payloads(*old(self)),
    {
        let k = id.get();
        if self.edges.contains_key(&k) {
            let ghost before = *self;
            self.edges.insert(k, edge);
            proof {
                assert(self.edge_map().dom() =~= before.edge_map().dom());
                assert(self.between() =~= before.between());
            }
        }
    }

    /// The payload of an edge, if the handle is live.
    pub fn edge(&self, id: EdgeId<Self>) -> (r: Option<&E>)
        requires
            self.wf(),
        ensures
            match r {
                Some(v) => self.edge_map().contains_key(id@) && *v == self.edge_map()[id@],
                None => !self.edge_map().contains_key(id@),
            },
    {
        self.edges.get(&id.get())
    }

    /// The endpoints of an edge, if the handle is live.
    pub fn edge_ends(&self, id: EdgeId<Self>) -> (r: Option<EdgeEnds<Self>>)
        requires
            self.wf(),
        ensures
            match r {
                Some(x) => self.edge_map().contains_key(id@) && x.view_pair() == self.ends_map()[id@],
                None => !self.edge_map().contains_key(id@),
            },
    {
        let k = id.get();
        if !is_valid_key(k) {
            return None;
        }
        match pairs_get(&self.edge_ends, k) {
            Some((a, b)) => Some(EdgeEnds::new(NodeId::new(a), NodeId::new(b))),
            None => None,
        }
    }

    /// Whether the handle names a live edge.
    pub fn contains_edge(&self, id: EdgeId<Self>) -> (r: bool)
        requires
            self.wf(),
        ensures
            r == self.edge_map().contains_key(id@),
    {
        self.edges.contains_key(&id.get())
    }

    /// The number of live edges.
    pub fn edge_count(&self) -> (r: usize)
        requires
            self.wf(),
        ensures
            r == self.edge_map().len(),
    {
        self.edges.len()
    }

    /// `r` lists every live edge once.
    pub open spec fn lists_edges(&self, r: Seq<EdgeId<Self>>) -> bool {
        &&& edge_keys_of(r).no_duplicates()
        &&& edge_keys_of(r).to_set() == self.edge_map().dom()
    }

    /// The handles of all live edges, each once, in no particular order.
    pub fn edges(&self) -> (r: Vec<EdgeId<Self>>)
        requires
            self.wf(),
        ensures
            self.lists_edges(r@),
    {
        let keys = slots_keys(&self.edge_slots);
        let r = edge_handles_of(&keys);
        proof {
            assert(edge_keys_of(r@).to_set() =~= self.edge_map().dom());
        }
        r
    }

    /// An empty graph.
    pub fn new() -> (r: Self)
        ensures
            r.wf(),
            r.node_map().dom() == Set::<u64>::empty(),
            r.edge_map().dom() == Set::<u64>::empty(),
            r.between().dom() == Set::<(u64, u64)>::empty(),
            r.node_allocs() == 0,
            r.edge_allocs() == 0,
    {
        let r = Graph {
            node_slots: slots_new(),
            edge_slots: slots_new(),
            nodes: HashMap::new(),
            edges: HashMap::new(),
            edge_ends: pairs_new(),
            node_to_edges: HashMap::new(),
            incoming_nodes: lists_new(),
            outgoing_nodes: lists_new(),
            node_allocs: 0,
            edge_allocs: 0,
        };
        assert(r.between().dom() =~= Set::<(u64, u64)>::empty());
        r
    }
}

impl<N, E> Default for Graph<N, E> {
    /// An empty graph.
    fn default() -> (r: Self)
        ensures
            r.wf(),
            r.node_map().dom() == Set::<u64>::empty(),
            r.edge_map().dom() == Set::<u64>::empty(),
            r.between().dom() == Set::<(u64, u64)>::empty(),
            r.node_allocs() == 0,
            r.edge_allocs() == 0,
    {
        Graph::new()
    }
}

} // verus!
