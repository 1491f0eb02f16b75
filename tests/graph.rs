use noodlez::dfs::{depth_first_search, DfsEvent, Direction};
use noodlez::edge::{EdgeEnds, EdgeId};
use noodlez::error::NoodlezError;
use noodlez::graph::Graph;
use noodlez::node::NodeId;
use noodlez::storage::GraphStorage;

type G = Graph<u32, u32>;

fn sample() -> (G, Vec<NodeId<G>>) {
    let mut g: G = Graph::new();
    let ids: Vec<NodeId<G>> = (1..=5).map(|n| g.add_node(n)).collect();
    g.add_edge(ids[0], ids[1], 12).unwrap();
    g.add_edge(ids[1], ids[2], 23).unwrap();
    g.add_edge(ids[0], ids[3], 14).unwrap();
    (g, ids)
}

fn count_all<S: GraphStorage<u32, u32>>(s: &S) -> (usize, usize) {
    (s.node_count(), s.edge_count())
}

fn payload_of(g: &G, n: NodeId<G>) -> u32 {
    *g.node(n).unwrap()
}

fn discovered(g: &G, ev: &[DfsEvent<G>]) -> Vec<u32> {
    ev.iter()
        .filter_map(|e| match e {
            DfsEvent::Discover(n) => Some(payload_of(g, *n)),
            _ => None,
        })
        .collect()
}

fn processed(g: &G, ev: &[DfsEvent<G>]) -> Vec<u32> {
    ev.iter()
        .filter_map(|e| match e {
            DfsEvent::Process(n) => Some(payload_of(g, *n)),
            _ => None,
        })
        .collect()
}

#[test]
fn empty_graph_has_nothing() {
    let g: G = Graph::default();
    assert_eq!(g.node_count(), 0);
    assert_eq!(g.edge_count(), 0);
    assert!(g.nodes().is_empty());
    assert!(g.edges().is_empty());
}

#[test]
fn added_node_is_retrievable() {
    let mut g: G = Graph::new();
    let a = g.add_node(7);
    assert!(g.contains_node(a));
    assert_eq!(g.node(a), Some(&7));
    assert_eq!(g.node_count(), 1);
}

#[test]
fn update_node_replaces_payload_and_ignores_stale() {
    let mut g: G = Graph::new();
    let a = g.add_node(1);
    g.update_node(a, 2);
    assert_eq!(g.node(a), Some(&2));
    assert_eq!(g.remove_node(a), Some(2));
    g.update_node(a, 3);
    assert_eq!(g.node(a), None);
    assert_eq!(g.node_count(), 0);
}

#[test]
fn remove_node_twice_gives_none() {
    let mut g: G = Graph::new();
    let a = g.add_node(1);
    assert_eq!(g.remove_node(a), Some(1));
    assert_eq!(g.remove_node(a), None);
    assert!(!g.contains_node(a));
}

#[test]
fn removed_node_handle_never_resolves_to_new_node() {
    let mut g: G = Graph::new();
    let a = g.add_node(1);
    g.remove_node(a);
    let b = g.add_node(2);
    assert!(a != b);
    assert_eq!(g.node(a), None);
    assert_eq!(g.node(b), Some(&2));
    assert_eq!(a.get() & 0xffff_ffff, b.get() & 0xffff_ffff);
}

#[test]
fn forged_handle_with_even_version_is_not_live() {
    let mut g: G = Graph::new();
    let a = g.add_node(1);
    let forged: NodeId<G> = NodeId::new(a.get() & 0xffff_ffff);
    assert_eq!(g.node(forged), None);
    assert!(!g.contains_node(forged));
    assert_eq!(g.remove_node(forged), None);
    assert_eq!(g.node(a), Some(&1));
}

#[test]
fn add_edge_between_live_nodes() {
    let mut g: G = Graph::new();
    let a = g.add_node(1);
    let b = g.add_node(2);
    let e = g.add_edge(a, b, 10).unwrap();
    assert!(g.contains_edge(e));
    assert_eq!(g.edge(e), Some(&10));
    assert!(g.edge_between(EdgeEnds::new(a, b)) == Some(e));
    assert!(g.edge_between(EdgeEnds::new(b, a)).is_none());
    assert!(g.has_edge_between(EdgeEnds::new(a, b)));
    assert!(!g.has_edge_between(EdgeEnds::new(b, a)));
    let ends = g.edge_ends(e).unwrap();
    assert!(ends.from() == a && ends.to() == b);
    assert_eq!(g.edge_count(), 1);
}

#[test]
fn add_edge_to_dead_node_fails() {
    let mut g: G = Graph::new();
    let a = g.add_node(1);
    let b = g.add_node(2);
    g.remove_node(b);
    assert!(matches!(g.add_edge(a, b, 1), Err(NoodlezError::InvalidEdgeEndpoints)));
    assert!(matches!(g.add_edge(b, a, 1), Err(NoodlezError::InvalidEdgeEndpoints)));
    assert_eq!(g.edge_count(), 0);
}

#[test]
fn add_duplicate_edge_fails() {
    let mut g: G = Graph::new();
    let a = g.add_node(1);
    let b = g.add_node(2);
    let e = g.add_edge(a, b, 1).unwrap();
    assert!(matches!(g.add_edge(a, b, 2), Err(NoodlezError::DuplicateEdge)));
    assert_eq!(g.edge(e), Some(&1));
    assert!(g.add_edge(b, a, 3).is_ok());
    assert_eq!(g.edge_count(), 2);
}

#[test]
fn error_messages_differ() {
    assert!(NoodlezError::InvalidEdgeEndpoints.message() != NoodlezError::DuplicateEdge.message());
}

#[test]
fn remove_edge_detaches_everything() {
    let mut g: G = Graph::new();
    let a = g.add_node(1);
    let b = g.add_node(2);
    let e = g.add_edge(a, b, 10).unwrap();
    assert_eq!(g.remove_edge(e), Some(10));
    assert!(!g.contains_edge(e));
    assert!(g.edge_between(EdgeEnds::new(a, b)).is_none());
    assert!(g.outcoming_nodes(a).is_empty());
    assert!(g.incoming_nodes(b).is_empty());
    assert!(g.edge_ends(e).is_none());
    assert_eq!(g.remove_edge(e), None);
    assert!(g.add_edge(a, b, 11).is_ok());
}

#[test]
fn update_edge_replaces_payload() {
    let mut g: G = Graph::new();
    let a = g.add_node(1);
    let b = g.add_node(2);
    let e = g.add_edge(a, b, 10).unwrap();
    g.update_edge(e, 20);
    assert_eq!(g.edge(e), Some(&20));
    g.remove_edge(e);
    g.update_edge(e, 30);
    assert_eq!(g.edge(e), None);
}

#[test]
fn remove_node_removes_incident_edges() {
    let (mut g, ids) = sample();
    assert_eq!(g.edge_count(), 3);
    assert_eq!(g.remove_node(ids[1]), Some(2));
    assert!(!g.contains_node(ids[1]));
    assert_eq!(g.edge_count(), 1);
    for e in g.edges() {
        let ends = g.edge_ends(e).unwrap();
        assert!(ends.from() != ids[1] && ends.to() != ids[1]);
    }
    assert!(g.outcoming_nodes(ids[0]).iter().all(|n| *n != ids[1]));
    assert!(g.incoming_nodes(ids[2]).is_empty());
}

#[test]
fn self_loop_is_removed_with_its_node() {
    let mut g: G = Graph::new();
    let a = g.add_node(1);
    let e = g.add_edge(a, a, 5).unwrap();
    assert_eq!(g.neighbor_nodes(a).len(), 2);
    assert_eq!(g.neighbor_edges(a).len(), 2);
    assert_eq!(g.remove_node(a), Some(1));
    assert!(!g.contains_edge(e));
    assert_eq!(g.edge_count(), 0);
}

#[test]
fn adjacency_queries() {
    let (g, ids) = sample();
    let outs = g.outcoming_nodes(ids[0]);
    assert_eq!(outs.len(), 2);
    assert!(outs[0] == ids[1] && outs[1] == ids[3]);
    let ins = g.incoming_nodes(ids[2]);
    assert!(ins.len() == 1 && ins[0] == ids[1]);
    let nb = g.neighbor_nodes(ids[1]);
    assert!(nb.len() == 2 && nb[0] == ids[0] && nb[1] == ids[2]);
    let out_edges: Vec<EdgeId<G>> = g.outcoming_edges(ids[0]);
    assert_eq!(out_edges.iter().map(|e| *g.edge(*e).unwrap()).collect::<Vec<_>>(), vec![12, 14]);
    let in_edges = g.incoming_edges(ids[1]);
    assert_eq!(in_edges.iter().map(|e| *g.edge(*e).unwrap()).collect::<Vec<_>>(), vec![12]);
    let all = g.neighbor_edges(ids[1]);
    assert_eq!(all.iter().map(|e| *g.edge(*e).unwrap()).collect::<Vec<_>>(), vec![12, 23]);
    assert!(g.neighbor_nodes(ids[4]).is_empty());
}

#[test]
fn listing_twice_gives_same_handles() {
    let (g, _) = sample();
    let mut n1: Vec<u64> = g.nodes().iter().map(|n| n.get()).collect();
    let mut n2: Vec<u64> = g.nodes().iter().map(|n| n.get()).collect();
    n1.sort();
    n2.sort();
    assert_eq!(n1, n2);
    assert_eq!(n1.len(), 5);
    let mut e1: Vec<u64> = g.edges().iter().map(|e| e.get()).collect();
    let mut e2: Vec<u64> = g.edges().iter().map(|e| e.get()).collect();
    e1.sort();
    e2.sort();
    assert_eq!(e1, e2);
    assert_eq!(e1.len(), 3);
}

#[test]
fn directed_dfs_from_one() {
    let (g, ids) = sample();
    let ev = depth_first_search(&g, &vec![ids[0]], Direction::Directed);
    assert!(ev[0] == DfsEvent::Start);
    assert!(ev[ev.len() - 1] == DfsEvent::Finish);
    assert_eq!(ev.iter().filter(|e| **e == DfsEvent::Start).count(), 1);
    assert_eq!(ev.iter().filter(|e| **e == DfsEvent::Finish).count(), 1);
    let mut d = discovered(&g, &ev);
    d.sort();
    assert_eq!(d, vec![2, 3, 4]);
    let mut p = processed(&g, &ev);
    p.sort();
    assert_eq!(p, vec![1, 2, 3, 4]);
    assert_eq!(processed(&g, &ev), vec![4, 3, 2, 1]);
}

#[test]
fn undirected_dfs_from_three() {
    let (g, ids) = sample();
    let ev = depth_first_search(&g, &vec![ids[2]], Direction::Undirected);
    assert!(ev[0] == DfsEvent::Start);
    assert!(ev[ev.len() - 1] == DfsEvent::Finish);
    let mut d = discovered(&g, &ev);
    d.sort();
    assert_eq!(d, vec![1, 2, 4]);
    let mut p = processed(&g, &ev);
    p.sort();
    assert_eq!(p, vec![1, 2, 3, 4]);
}

#[test]
fn directed_dfs_from_three_stays_put() {
    let (g, ids) = sample();
    let ev = depth_first_search(&g, &vec![ids[2]], Direction::Directed);
    assert_eq!(ev.len(), 3);
    assert!(ev[1] == DfsEvent::Process(ids[2]));
}

#[test]
fn dfs_processes_a_diamond_once() {
    let mut g: G = Graph::new();
    let a = g.add_node(1);
    let b = g.add_node(2);
    let c = g.add_node(3);
    g.add_edge(a, b, 0).unwrap();
    g.add_edge(a, c, 0).unwrap();
    g.add_edge(c, b, 0).unwrap();
    let ev = depth_first_search(&g, &vec![a], Direction::Directed);
    let mut p = processed(&g, &ev);
    p.sort();
    assert_eq!(p, vec![1, 2, 3]);
    let mut d = discovered(&g, &ev);
    d.sort();
    assert_eq!(d, vec![2, 3]);
}

#[test]
fn dfs_with_no_starts_only_starts_and_finishes() {
    let (g, _) = sample();
    let ev = depth_first_search(&g, &Vec::new(), Direction::Directed);
    assert!(ev.len() == 2 && ev[0] == DfsEvent::Start && ev[1] == DfsEvent::Finish);
}

#[test]
fn removed_edge_handle_never_resolves_to_new_edge() {
    let mut g: G = Graph::new();
    let a = g.add_node(1);
    let b = g.add_node(2);
    let e = g.add_edge(a, b, 10).unwrap();
    g.remove_edge(e);
    let f = g.add_edge(b, a, 20).unwrap();
    assert!(e != f);
    assert_eq!(g.edge(e), None);
    assert_eq!(g.edge(f), Some(&20));
}

#[test]
fn storage_trait_view_of_graph() {
    let (g, ids) = sample();
    assert_eq!(count_all(&g), (5, 3));
    let nb = GraphStorage::neighbor_edges(&g, ids[0]);
    assert_eq!(nb.iter().map(|e| *g.edge(*e).unwrap()).collect::<Vec<_>>(), vec![12, 14]);
}

#[test]
fn trait_mutations_match_inherent_ones() {
    let mut g: G = Graph::new();
    let a = GraphStorage::add_node(&mut g, 1);
    let b = GraphStorage::add_node(&mut g, 2);
    let e = GraphStorage::add_edge(&mut g, a, b, 3).unwrap();
    GraphStorage::disconnect_node(&mut g, b);
    assert!(!g.contains_edge(e));
    assert!(g.contains_node(b));
    assert_eq!(GraphStorage::remove_node(&mut g, a), Some(1));
}

#[test]
fn dfs_event_order_directed() {
    let (g, ids) = sample();
    let ev = depth_first_search(&g, &vec![ids[0]], Direction::Directed);
    let expected = vec![
        DfsEvent::Start,
        DfsEvent::Discover(ids[1]),
        DfsEvent::Discover(ids[3]),
        DfsEvent::Process(ids[3]),
        DfsEvent::Discover(ids[2]),
        DfsEvent::Process(ids[2]),
        DfsEvent::Process(ids[1]),
        DfsEvent::Process(ids[0]),
        DfsEvent::Finish,
    ];
    assert!(ev == expected);
}
