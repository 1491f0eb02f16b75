//! Depth-first traversal of a graph, through the graph's public
//! operations only, as a log of lifecycle events.
use crate::graph::keys_of;
use crate::node::NodeId;
use crate::storage::GraphStorage;
use std::collections::HashSet;
use vstd::prelude::*;

verus! {

broadcast use vstd::std_specs::hash::group_hash_axioms, vstd::seq_lib::group_seq_properties;

/// How a traversal follows edges.
#[derive(Debug, Clone, Copy, PartialEq, Eq, Structural)]
pub enum Direction {
    /// Only along an edge, from its start to its end.
    Directed,
    /// Along an edge in either direction.
    Undirected,
}

/// One step in the life of a traversal.
pub enum DfsEvent<G> {
    /// The traversal has started; always the first event.
    Start,
    /// A node was put on the stack for the first time.
    Discover(NodeId<G>),
    /// Every node reachable from this node in one step has been discovered.
    Process(NodeId<G>),
    /// The stack is empty; always the last event.
    Finish,
}

impl<G> DfsEvent<G> {
    /// The event with handles replaced by their keys.
    pub open spec fn view_key(self) -> (u8, u64) {
        match self {
            DfsEvent::Start => (0, 0),
            DfsEvent::Discover(n) => (1, n@),
            DfsEvent::Process(n) => (2, n@),
            DfsEvent::Finish => (3, 0),
        }
    }
}

impl<G> Clone for DfsEvent<G> {
    fn clone(&self) -> (r: Self)
        ensures
            r.view_key() == self.view_key(),
    {
        match self {
            DfsEvent::Start => DfsEvent::Start,
            DfsEvent::Discover(n) => DfsEvent::Discover(*n),
            DfsEvent::Process(n) => DfsEvent::Process(*n),
            DfsEvent::Finish => DfsEvent::Finish,
        }
    }
}

impl<G> Copy for DfsEvent<G> {
}

impl<G> PartialEq for DfsEvent<G> {
    fn eq(&self, other: &Self) -> (r: bool) {
        match (self, other) {
            (DfsEvent::Start, DfsEvent::Start) => true,
            (DfsEvent::Discover(a), DfsEvent::Discover(b)) => a.get() == b.get(),
            (DfsEvent::Process(a), DfsEvent::Process(b)) => a.get() == b.get(),
            (DfsEvent::Finish, DfsEvent::Finish) => true,
            _ => false,
        }
    }
}

impl<G> vstd::std_specs::cmp::PartialEqSpecImpl for DfsEvent<G> {
    open spec fn obeys_eq_spec() -> bool {
        true
    }

    open spec fn eq_spec(&self, other: &Self) -> bool {
        self.view_key() == other.view_key()
    }
}

impl<G> Eq for DfsEvent<G> {
}

/// The keys of the nodes that a traversal may move to from node `k`.
pub open spec fn next_of<N, E, S: GraphStorage<N, E>>(g: S, dir: Direction, k: u64) -> Seq<u64> {
    match dir {
        Direction::Directed => g.outgoing_of(k),
        Direction::Undirected => g.incoming_of(k) + g.outgoing_of(k),
    }
}

/// `p` is a walk of at least one node along which a traversal may move.
pub open spec fn is_walk<N, E, S: GraphStorage<N, E>>(g: S, dir: Direction, p: Seq<u64>) -> bool {
    &&& p.len() > 0
    &&& forall|i: int| 0 <= i < p.len() - 1 ==> #[trigger] next_of::<N, E, S>(g, dir, p[i]).contains(p[i + 1])
}

/// Node `x` can be reached from one of `starts`.
pub open spec fn reachable<N, E, S: GraphStorage<N, E>>(g: S, dir: Direction, starts: Set<u64>, x: u64) -> bool {
    exists|p: Seq<u64>| #[trigger] is_walk::<N, E, S>(g, dir, p) && starts.contains(p[0]) && p.last() == x
}

/// The keys of the discovered nodes, in the order of the log.
pub open spec fn discovered_in<G>(ev: Seq<DfsEvent<G>>) -> Seq<u64>
    decreases ev.len(),
{
    if ev.len() == 0 {
        Seq::empty()
    } else {
        let rest = discovered_in(ev.drop_last());
        match ev.last() {
            DfsEvent::Discover(n) => rest.push(n@),
            _ => rest,
        }
    }
}

/// The keys of the processed nodes, in the order of the log.
pub open spec fn processed_in<G>(ev: Seq<DfsEvent<G>>) -> Seq<u64>
    decreases ev.len(),
{
    if ev.len() == 0 {
        Seq::empty()
    } else {
        let rest = processed_in(ev.drop_last());
        match ev.last() {
            DfsEvent::Process(n) => rest.push(n@),
            _ => rest,
        }
    }
}

proof fn lemma_log_push<G>(ev: Seq<DfsEvent<G>>, e: DfsEvent<G>)
    ensures
        discovered_in(ev.push(e)) == match e {
            DfsEvent::Discover(n) => discovered_in(ev).push(n@),
            _ => discovered_in(ev),
        },
        processed_in(ev.push(e)) == match e {
            DfsEvent::Process(n) => processed_in(ev).push(n@),
            _ => processed_in(ev),
        },
{
    assert(ev.push(e).drop_last() =~= ev);
}

proof fn lemma_step_reachable<N, E, S: GraphStorage<N, E>>(g: S, dir: Direction, starts: Set<u64>, x: u64, y: u64)
    requires
        reachable::<N, E, S>(g, dir, starts, x),
        next_of::<N, E, S>(g, dir, x).contains(y),
    ensures
        reachable::<N, E, S>(g, dir, starts, y),
{
    let p = choose|p: Seq<u64>| #[trigger] is_walk::<N, E, S>(g, dir, p) && starts.contains(p[0]) && p.last() == x;
    let q = p.push(y);
    assert forall|i: int| 0 <= i < q.len() - 1 implies #[trigger] next_of::<N, E, S>(g, dir, q[i]).contains(q[i + 1]) by {
        if i < p.len() - 1 {
            assert(q[i] == p[i] && q[i + 1] == p[i + 1]);
        } else {
            assert(q[i] == x && q[i + 1] == y);
        }
    }
    assert(is_walk::<N, E, S>(g, dir, q));
}

proof fn lemma_walk_inside<N, E, S: GraphStorage<N, E>>(g: S, dir: Direction, s: Set<u64>, p: Seq<u64>, i: int)
    requires
        is_walk::<N, E, S>(g, dir, p),
        s.contains(p[0]),
        forall|x: u64, y: u64| s.contains(x) && #[trigger] next_of::<N, E, S>(g, dir, x).contains(y) ==> s.contains(y),
        0 <= i < p.len(),
    ensures
        s.contains(p[i]),
    decreases i,
{
    if i > 0 {
        lemma_walk_inside::<N, E, S>(g, dir, s, p, i - 1);
        let j = i - 1;
        assert(next_of::<N, E, S>(g, dir, p[j]).contains(p[j + 1]));
        assert(j + 1 == i);
    }
}

proof fn lemma_shrinks(u: Set<u64>, s: Set<u64>, t: Set<u64>, x: u64)
    requires
        u.finite(),
        s.subset_of(t),
        u.contains(x),
        !s.contains(x),
        t.contains(x),
    ensures
        u.difference(t).len() < u.difference(s).len(),
{
    assert(u.difference(t).subset_of(u.difference(s).remove(x)));
    vstd::set_lib::lemma_len_subset(u.difference(t), u.difference(s).remove(x));
}

fn next_keys<N, E, S: GraphStorage<N, E>>(g: &S, k: u64, dir: Direction) -> (r: Vec<u64>)
    requires
        g.storage_wf(),
    ensures
        r@ == next_of::<N, E, S>(*g, dir, k),
        forall|i: int| 0 <= i < r@.len() ==> g.live_nodes().contains_key(#[trigger] r@[i]),
{
    let id: NodeId<S> = NodeId::new(k);
    let hs = match dir {
        Direction::Directed => g.outcoming_nodes(id),
        Direction::Undirected => g.neighbor_nodes(id),
    };
    let mut r: Vec<u64> = Vec::new();
    let mut i: usize = 0;
    while i < hs.len()
        invariant
            i <= hs.len(),
            r@ == keys_of(hs@).subrange(0, i as int),
        decreases hs.len() - i,
    {
        r.push(hs[i].get());
        proof {
            assert(keys_of(hs@).subrange(0, i + 1) =~= keys_of(hs@).subrange(0, i as int).push(
                hs@[i as int]@,
            ));
        }
        i = i + 1;
    }
    proof {
        assert(keys_of(hs@).subrange(0, i as int) =~= keys_of(hs@));
        assert forall|i: int| 0 <= i < r@.len() implies g.live_nodes().contains_key(#[trigger] r@[i]) by {
            assert(r@[i] == hs@[i]@);
        }
    }
    r
}

/// The state of a traversal between two pops: the stack, the nodes that
/// were ever on it, and the nodes processed so far.
pub struct DfsState {
    pub stack: Seq<u64>,
    pub seen: Set<u64>,
    pub processed: Set<u64>,
}

/// The state in which a traversal from `starts` begins.
pub open spec fn initial_state(starts: Seq<u64>) -> DfsState {
    DfsState { stack: starts, seen: starts.to_set(), processed: Set::empty() }
}

/// The nodes of `ns` that are not in `seen`, each once, in the order of
/// their first occurrence.
pub open spec fn fresh_of(seen: Set<u64>, ns: Seq<u64>) -> Seq<u64>
    decreases ns.len(),
{
    if ns.len() == 0 {
        Seq::empty()
    } else if seen.contains(ns[0]) {
        fresh_of(seen, ns.drop_first())
    } else {
        seq![ns[0]] + fresh_of(seen.insert(ns[0]), ns.drop_first())
    }
}

/// One pop of a traversal: the next state, and the events of the pop as
/// (kind, key) pairs, 1 for a discovery and 2 for a processing.
pub open spec fn pop_step<N, E, S: GraphStorage<N, E>>(g: S, dir: Direction, s: DfsState) -> (
    DfsState,
    Seq<(u8, u64)>,
) {
    let top = s.stack.last();
    let rest = s.stack.drop_last();
    if s.processed.contains(top) {
        (DfsState { stack: rest, seen: s.seen, processed: s.processed }, Seq::empty())
    } else {
        let fresh = fresh_of(s.seen, next_of::<N, E, S>(g, dir, top));
        if fresh.len() == 0 {
            (
                DfsState { stack: rest, seen: s.seen, processed: s.processed.insert(top) },
                seq![(2u8, top)],
            )
        } else {
            (
                DfsState {
                    stack: rest.push(top) + fresh,
                    seen: s.seen.union(fresh.to_set()),
                    processed: s.processed,
                },
                fresh.map_values(|y: u64| (1u8, y)),
            )
        }
    }
}

/// At most `n` pops from state `s`, stopping early when the stack is
/// empty: the state reached and the events on the way.
pub open spec fn run_steps<N, E, S: GraphStorage<N, E>>(g: S, dir: Direction, s: DfsState, n: nat) -> (
    DfsState,
    Seq<(u8, u64)>,
)
    decreases n,
{
    if n == 0 || s.stack.len() == 0 {
        (s, Seq::empty())
    } else {
        let (s1, e1) = pop_step::<N, E, S>(g, dir, s);
        let (s2, e2) = run_steps::<N, E, S>(g, dir, s1, (n - 1) as nat);
        (s2, e1 + e2)
    }
}

/// The events of a log as (kind, key) pairs.
pub open spec fn log_keys<G>(ev: Seq<DfsEvent<G>>) -> Seq<(u8, u64)> {
    ev.map_values(|e: DfsEvent<G>| e.view_key())
}

proof fn lemma_run_steps_snoc<N, E, S: GraphStorage<N, E>>(g: S, dir: Direction, s: DfsState, n: nat)
    requires
        run_steps::<N, E, S>(g, dir, s, n).0.stack.len() > 0,
    ensures
        run_steps::<N, E, S>(g, dir, s, n + 1) == (
            pop_step::<N, E, S>(g, dir, run_steps::<N, E, S>(g, dir, s, n).0).0,
            run_steps::<N, E, S>(g, dir, s, n).1 + pop_step::<N, E, S>(
                g,
                dir,
                run_steps::<N, E, S>(g, dir, s, n).0,
            ).1,
        ),
    decreases n,
{
    let (s1, e1) = pop_step::<N, E, S>(g, dir, s);
    assert(s.stack.len() > 0);
    if n == 0 {
        assert(run_steps::<N, E, S>(g, dir, s1, 0) == (s1, Seq::<(u8, u64)>::empty()));
        assert(e1 + Seq::<(u8, u64)>::empty() =~= e1);
        assert(Seq::<(u8, u64)>::empty() + e1 =~= e1);
    } else {
        let r = run_steps::<N, E, S>(g, dir, s1, (n - 1) as nat);
        assert(run_steps::<N, E, S>(g, dir, s, n) == (r.0, e1 + r.1));
        lemma_run_steps_snoc::<N, E, S>(g, dir, s1, (n - 1) as nat);
        let p = pop_step::<N, E, S>(g, dir, r.0);
        assert(((n - 1) as nat) + 1 == n);
        assert(run_steps::<N, E, S>(g, dir, s1, n) == (p.0, r.1 + p.1));
        assert(run_steps::<N, E, S>(g, dir, s, n + 1) == (p.0, e1 + (r.1 + p.1)));
        assert(e1 + (r.1 + p.1) =~= (e1 + r.1) + p.1);
    }
}

/// Runs a depth-first traversal of `g` from the nodes `starts` and returns
/// its events in order: `Start`, the events of each pop as [`pop_step`]
/// describes them until the stack is empty, then `Finish`.
///
/// The stack starts with `starts`, the last one on top. A node popped
/// from the stack that was already processed is skipped. Otherwise each
/// node it leads to (by `dir`) that was never on the stack is discovered;
/// if there is any, the node is pushed back, and the new nodes on top of
/// it in the order they were found; if there is none, the node is
/// processed. A node is thus processed only once every node it leads to
/// has been discovered. Every node reachable from `starts` is processed
/// exactly once, every such node that is not a start is discovered
/// exactly once, and no other node appears.
pub fn depth_first_search<N, E, S: GraphStorage<N, E>>(
    g: &S,
    starts: &Vec<NodeId<S>>,
    dir: Direction,
) -> (ev: Vec<DfsEvent<S>>)
    requires
        g.storage_wf(),
    ensures
        ev@.len() >= 2,
        ev@[0] is Start,
        ev@.last() is Finish,
        forall|i: int| 0 < i < ev@.len() - 1 ==> (#[trigger] ev@[i] is Discover || ev@[i] is Process),
        processed_in(ev@).no_duplicates(),
        forall|x: u64| #[trigger] processed_in(ev@).contains(x) <==> reachable::<N, E, S>(*g, dir, keys_of(starts@).to_set(), x),
        discovered_in(ev@).no_duplicates(),
        forall|x: u64| #[trigger] discovered_in(ev@).contains(x) <==> (reachable::<N, E, S>(*g, dir, keys_of(starts@).to_set(), x)
            && !keys_of(starts@).contains(x)),
        exists|n: nat|
            {
                let (last, steps) = #[trigger] run_steps::<N, E, S>(*g, dir, initial_state(keys_of(starts@)), n);
                &&& last.stack.len() == 0
                &&& log_keys(ev@) == seq![(0u8, 0u64)] + steps + seq![(3u8, 0u64)]
            },
{
    let ghost st: Set<u64> = keys_of(starts@).to_set();
    let ghost u: Set<u64> = g.live_nodes().dom().union(st);
    let ghost init = initial_state(keys_of(starts@));
    let ghost mut n: nat = 0;
    proof {
        g.lemma_storage();
    }
    let mut events: Vec<DfsEvent<S>> = Vec::new();
    events.push(DfsEvent::Start);
    proof {
        lemma_log_push(Seq::empty(), DfsEvent::<S>::Start);
        assert(events@ =~= Seq::<DfsEvent<S>>::empty().push(DfsEvent::Start));
        assert(discovered_in(Seq::<DfsEvent<S>>::empty()) == Seq::<u64>::empty());
        assert(processed_in(Seq::<DfsEvent<S>>::empty()) == Seq::<u64>::empty());
    }
    let mut stack: Vec<u64> = Vec::new();
    let mut seen: HashSet<u64> = HashSet::new();
    let ghost mut visited: Set<u64> = Set::empty();
    let mut processed: HashSet<u64> = HashSet::new();
    let mut i: usize = 0;
    while i < starts.len()
        invariant
            i <= starts.len(),
            stack@ == keys_of(starts@).subrange(0, i as int),
            forall|x: u64| #[trigger] seen@.contains(x) <==> stack@.contains(x),
        decreases starts.len() - i,
    {
        let k = starts[i].get();
        stack.push(k);
        seen.insert(k);
        proof {
            assert(keys_of(starts@).subrange(0, i + 1) =~= keys_of(starts@).subrange(0, i as int).push(k));
        }
        i = i + 1;
    }
    proof {
        assert(keys_of(starts@).subrange(0, i as int) =~= keys_of(starts@));
        assert(seen@ =~= st);
        assert forall|x: u64| #[trigger] seen@.contains(x) implies reachable::<N, E, S>(*g, dir, st, x) by {
            let p = seq![x];
            assert(is_walk::<N, E, S>(*g, dir, p));
        }
        assert(u.finite());
        assert(log_keys(events@) =~= seq![(0u8, 0u64)] + run_steps::<N, E, S>(*g, dir, init, n).1);
        assert(run_steps::<N, E, S>(*g, dir, init, n).0 == DfsState {
            stack: stack@,
            seen: seen@,
            processed: processed@,
        });
    }
    while stack.len() > 0
        invariant
            run_steps::<N, E, S>(*g, dir, init, n).0 == (DfsState {
                stack: stack@,
                seen: seen@,
                processed: processed@,
            }),
            log_keys(events@) == seq![(0u8, 0u64)] + run_steps::<N, E, S>(*g, dir, init, n).1,
            g.storage_wf(),
            u == g.live_nodes().dom().union(st),
            u.finite(),
            st.subset_of(seen@),
            seen@.subset_of(u),
            visited.subset_of(seen@),
            processed@.subset_of(visited),
            forall|j: int| 0 <= j < stack@.len() ==> seen@.contains(#[trigger] stack@[j]),
            forall|x: u64| #[trigger] seen@.contains(x) ==> visited.contains(x) || stack@.contains(x),
            forall|x: u64| #[trigger] visited.contains(x) ==> processed@.contains(x) || stack@.contains(x),
            forall|x: u64, y: u64|
                processed@.contains(x) && #[trigger] next_of::<N, E, S>(*g, dir, x).contains(y) ==> seen@.contains(y),
            forall|x: u64| #[trigger] seen@.contains(x) ==> reachable::<N, E, S>(*g, dir, st, x),
            events@.len() >= 1,
            events@[0] is Start,
            forall|i: int| 0 < i < events@.len() ==> (#[trigger] events@[i] is Discover || events@[i] is Process),
            discovered_in(events@).no_duplicates(),
            forall|x: u64| #[trigger] discovered_in(events@).contains(x) <==> (seen@.contains(x) && !st.contains(x)),
            processed_in(events@).no_duplicates(),
            forall|x: u64| #[trigger] processed_in(events@).contains(x) <==> processed@.contains(x),
        decreases
            u.difference(seen@).len(),
            u.difference(visited).len(),
            u.difference(processed@).len(),
            stack@.len(),
    {
        let ghost old_stack = stack@;
        let cur = stack.pop().unwrap();
        proof {
            assert(old_stack == stack@.push(cur));
            assert(seen@.contains(cur)) by {
                assert(old_stack[old_stack.len() - 1] == cur);
            }
            assert forall|x: u64| old_stack.contains(x) && x != cur implies stack@.contains(x) by {
                let j = choose|j: int| 0 <= j < old_stack.len() && old_stack[j] == x;
                assert(stack@[j] == x);
            }
            lemma_run_steps_snoc::<N, E, S>(*g, dir, init, n);
            assert(old_stack.last() == cur);
            assert(old_stack.drop_last() =~= stack@);
        }
        let ghost step = pop_step::<N, E, S>(*g, dir, run_steps::<N, E, S>(*g, dir, init, n).0);
        let ghost logged = run_steps::<N, E, S>(*g, dir, init, n).1;
        if processed.contains(&cur) {
            proof {
                n = n + 1;
                assert(step.0 == (DfsState { stack: stack@, seen: seen@, processed: processed@ }));
                assert(logged + step.1 =~= logged);
            }
            continue;
        }
        let ghost s0 = seen@;
        let ghost v0 = visited;
        let ghost e0 = events@;
        proof {
            visited = visited.insert(cur);
        }
        let nexts = next_keys::<N, E, S>(g, cur, dir);
        let mut fresh: Vec<u64> = Vec::new();
        let mut j: usize = 0;
        proof {
            assert(nexts@.subrange(0, nexts@.len() as int) =~= nexts@);
            assert(fresh@ + fresh_of(seen@, nexts@) =~= fresh_of(seen@, nexts@));
            assert(log_keys(events@) =~= log_keys(e0) + fresh@.map_values(|x: u64| (1u8, x)));
        }
        while j < nexts.len()
            invariant
                g.storage_wf(),
                u == g.live_nodes().dom().union(st),
                u.finite(),
                nexts@ == next_of::<N, E, S>(*g, dir, cur),
                forall|t: int| 0 <= t < nexts@.len() ==> g.live_nodes().contains_key(#[trigger] nexts@[t]),
                j <= nexts.len(),
                st.subset_of(s0),
                s0.subset_of(seen@),
                seen@.subset_of(u),
                s0.contains(cur),
                forall|x: u64| #[trigger] seen@.contains(x) ==> s0.contains(x) || fresh@.contains(x),
                forall|x: u64| #[trigger] fresh@.contains(x) ==> seen@.contains(x) && !s0.contains(x),
                fresh@.no_duplicates(),
                forall|t: int| 0 <= t < j ==> seen@.contains(#[trigger] nexts@[t]),
                forall|x: u64| #[trigger] seen@.contains(x) ==> reachable::<N, E, S>(*g, dir, st, x),
                events@.len() >= 1,
                events@[0] is Start,
                forall|i: int| 0 < i < events@.len() ==> (#[trigger] events@[i] is Discover || events@[i] is Process),
                discovered_in(events@).no_duplicates(),
                forall|x: u64| #[trigger] discovered_in(events@).contains(x) <==> (seen@.contains(x) && !st.contains(x)),
                processed_in(events@) == processed_in(e0),
                fresh_of(s0, nexts@) == fresh@ + fresh_of(seen@, nexts@.subrange(j as int, nexts@.len() as int)),
                log_keys(events@) == log_keys(e0) + fresh@.map_values(|x: u64| (1u8, x)),
            decreases nexts.len() - j,
        {
            let y = nexts[j];
            proof {
                let tail = nexts@.subrange(j as int, nexts@.len() as int);
                assert(tail[0] == y);
                assert(tail.drop_first() =~= nexts@.subrange(j + 1, nexts@.len() as int));
            }
            if !seen.contains(&y) {
                let ghost sb = seen@;
                let ghost eb = events@;
                let ghost fb = fresh@;
                proof {
                    assert(!fb.contains(y));
                }
                seen.insert(y);
                fresh.push(y);
                let ev = DfsEvent::Discover(NodeId::new(y));
                events.push(ev);
                proof {
                    lemma_log_push(eb, ev);
                    assert(log_keys(events@) =~= log_keys(eb).push((1u8, y)));
                    assert(fresh@.map_values(|x: u64| (1u8, x)) =~= fb.map_values(|x: u64| (1u8, x)).push((1u8, y)));
                    assert(fresh@ + fresh_of(seen@, nexts@.subrange(j + 1, nexts@.len() as int)) =~= fb + (seq![y] + fresh_of(seen@, nexts@.subrange(j + 1, nexts@.len() as int))));
                    assert(next_of::<N, E, S>(*g, dir, cur).contains(y)) by {
                        assert(nexts@[j as int] == y);
                    }
                    lemma_step_reachable::<N, E, S>(*g, dir, st, cur, y);
                    assert(!discovered_in(eb).contains(y));
                    assert forall|x: u64| #[trigger] fresh@.contains(x) implies seen@.contains(x) && !s0.contains(x) by {
                        if x != y {
                            let t = choose|t: int| 0 <= t < fresh@.len() && fresh@[t] == x;
                            assert(fb[t] == x);
                        }
                    }
                    assert forall|x: u64| #[trigger] seen@.contains(x) implies s0.contains(x) || fresh@.contains(x) by {
                        if x == y {
                            assert(fresh@[fresh@.len() - 1] == y);
                        } else if !s0.contains(x) {
                            assert(fb.contains(x));
                            let t = choose|t: int| 0 <= t < fb.len() && fb[t] == x;
                            assert(fresh@[t] == x);
                        }
                    }
                    assert forall|i: int| 0 < i < events@.len() implies (#[trigger] events@[i] is Discover || events@[i] is Process) by {
                        if i < eb.len() {
                            assert(events@[i] == eb[i]);
                        }
                    }
                }
            }
            j = j + 1;
        }
        proof {
            assert(nexts@.subrange(j as int, nexts@.len() as int) =~= Seq::<u64>::empty());
            assert(fresh@ + Seq::<u64>::empty() =~= fresh@);
            assert(step.1 == (if fresh@.len() == 0 { seq![(2u8, cur)] } else { fresh@.map_values(|x: u64| (1u8, x)) }));
            assert forall|y: u64| #[trigger] next_of::<N, E, S>(*g, dir, cur).contains(y) implies seen@.contains(y) by {
                let t = choose|t: int| 0 <= t < nexts@.len() && nexts@[t] == y;
            }
        }
        if fresh.len() == 0 {
            let ghost eb = events@;
            let ghost p0 = processed@;
            proof {
                assert(!p0.contains(cur));
                assert(!processed_in(eb).contains(cur));
            }
            processed.insert(cur);
            let ev = DfsEvent::Process(NodeId::new(cur));
            events.push(ev);
            proof {
                lemma_log_push(eb, ev);
                assert(seen@ =~= s0);
                assert forall|i: int| 0 < i < events@.len() implies (#[trigger] events@[i] is Discover || events@[i] is Process) by {
                    if i < eb.len() {
                        assert(events@[i] == eb[i]);
                    }
                }
                if !v0.contains(cur) {
                    lemma_shrinks(u, v0, visited, cur);
                } else {
                    assert(visited =~= v0);
                    lemma_shrinks(u, p0, processed@, cur);
                }
                assert(log_keys(events@) =~= log_keys(eb).push((2u8, cur)));
                assert(log_keys(eb) =~= log_keys(e0));
                assert(step.0 == (DfsState { stack: stack@, seen: seen@, processed: processed@ }));
                assert(seq![(0u8, 0u64)] + (logged + seq![(2u8, cur)]) =~= (seq![(0u8, 0u64)] + logged).push((2u8, cur)));
                n = n + 1;
            }
        } else {
            let ghost fr = fresh@;
            let ghost sp = stack@;
            stack.push(cur);
            stack.append(&mut fresh);
            proof {
                assert(stack@ == sp.push(cur) + fr);
                assert(fr.contains(fr[0]));
                lemma_shrinks(u, s0, seen@, fr[0]);
                assert forall|x: u64| #[trigger] fr.contains(x) implies stack@.contains(x) by {
                    let t = choose|t: int| 0 <= t < fr.len() && fr[t] == x;
                    assert(stack@[sp.len() + 1 + t] == x);
                }
                assert(stack@[sp.len() as int] == cur);
                assert forall|x: u64| #[trigger] sp.contains(x) implies stack@.contains(x) by {
                    let t = choose|t: int| 0 <= t < sp.len() && sp[t] == x;
                    assert(stack@[t] == x);
                }
                assert forall|t: int| 0 <= t < stack@.len() implies seen@.contains(#[trigger] stack@[t]) by {
                    if t < sp.len() {
                        assert(stack@[t] == sp[t]);
                    } else if t > sp.len() {
                        assert(stack@[t] == fr[t - sp.len() - 1]);
                        assert(fr.contains(stack@[t]));
                    }
                }
                assert(seen@ =~= s0.union(fr.to_set()));
                assert(step.0 == (DfsState { stack: stack@, seen: seen@, processed: processed@ }));
                assert(seq![(0u8, 0u64)] + (logged + fr.map_values(|x: u64| (1u8, x))) =~= (seq![(0u8, 0u64)] + logged) + fr.map_values(|x: u64| (1u8, x)));
                n = n + 1;
            }
        }
    }
    let ghost eb = events@;
    events.push(DfsEvent::Finish);
    proof {
        lemma_log_push(eb, DfsEvent::Finish);
        assert(seen@ =~= processed@);
        assert forall|x: u64| #[trigger] reachable::<N, E, S>(*g, dir, st, x) implies seen@.contains(x) by {
            let p = choose|p: Seq<u64>| #[trigger] is_walk::<N, E, S>(*g, dir, p) && st.contains(p[0]) && p.last() == x;
            lemma_walk_inside::<N, E, S>(*g, dir, seen@, p, p.len() - 1);
        }
        assert forall|i: int| 0 < i < events@.len() - 1 implies (#[trigger] events@[i] is Discover || events@[i] is Process) by {
            assert(events@[i] == eb[i]);
        }
        assert forall|x: u64| keys_of(starts@).contains(x) <==> st.contains(x) by {}
        assert(log_keys(events@) =~= log_keys(eb).push((3u8, 0u64)));
        let (last, steps) = run_steps::<N, E, S>(*g, dir, init, n);
        assert(log_keys(events@) =~= seq![(0u8, 0u64)] + steps + seq![(3u8, 0u64)]);
    }
    events
}

} // verus!
