use std::collections::{HashMap, VecDeque};
use std::time::Duration;
use vstd::prelude::*;
use crate::pag::{group_node, join_node, PagEdge, PagNode};
use crate::time::{duration_from_nanos, duration_of_nanos, Pair};

verus! {

// ---------------------------------------------------------------------------
// The graph as the exploration sees it
// ---------------------------------------------------------------------------

/// Number of edges of `g` that the exploration joins at node `n`.
pub open spec fn in_count(g: Seq<PagEdge>, n: PagNode, forward: bool) -> nat
    decreases g.len(),
{
    if g.len() == 0 {
        0
    } else {
        in_count(g.drop_last(), n, forward) + if join_node(g.last(), forward) == n {
            1nat
        } else {
            0nat
        }
    }
}

/// The edges of `g` grouped under node `n`, in the order in which they came.
pub open spec fn outgoing_of(g: Seq<PagEdge>, n: PagNode, forward: bool) -> Seq<PagEdge>
    decreases g.len(),
{
    if g.len() == 0 {
        Seq::empty()
    } else if group_node(g.last(), forward) == n {
        outgoing_of(g.drop_last(), n, forward).push(g.last())
    } else {
        outgoing_of(g.drop_last(), n, forward)
    }
}

/// Whether `n` is an endpoint of some edge of `g`.
pub open spec fn is_graph_node(g: Seq<PagEdge>, n: PagNode, forward: bool) -> bool
    decreases g.len(),
{
    g.len() > 0 && (is_graph_node(g.drop_last(), n, forward) || join_node(g.last(), forward) == n
        || group_node(g.last(), forward) == n)
}

/// Number of frontier items in `a` that arrived at node `n`.
pub open spec fn arrival_count(a: Seq<(PagEdge, u64)>, n: PagNode, forward: bool) -> nat
    decreases a.len(),
{
    if a.len() == 0 {
        0
    } else {
        arrival_count(a.drop_last(), n, forward) + if join_node(a.last().0, forward) == n {
            1nat
        } else {
            0nat
        }
    }
}

/// Total of the counts of the frontier items in `a` that arrived at node `n`.
pub open spec fn arrival_sum(a: Seq<(PagEdge, u64)>, n: PagNode, forward: bool) -> nat
    decreases a.len(),
{
    if a.len() == 0 {
        0
    } else {
        arrival_sum(a.drop_last(), n, forward) + if join_node(a.last().0, forward) == n {
            a.last().1 as nat
        } else {
            0nat
        }
    }
}

/// The items that a node emits: each of its outgoing edges with `count`.
pub open spec fn emissions(outgoing: Seq<PagEdge>, count: u64) -> Seq<(PagEdge, u64)> {
    outgoing.map_values(|o: PagEdge| (o, count))
}

// ---------------------------------------------------------------------------
// The exploration as a sequence of steps
// ---------------------------------------------------------------------------

/// A point in an exploration: the items that arrived so far, the items
/// waiting to be processed, and what was emitted so far.
pub struct Exploration {
    pub arrived: Seq<(PagEdge, u64)>,
    pub queue: Seq<(PagEdge, u64)>,
    pub output: Seq<(PagEdge, u64)>,
}

/// The exploration before any step: the frontier waits, nothing arrived.
pub open spec fn explore_start(frontier: Seq<(PagEdge, u64)>) -> Exploration {
    Exploration { arrived: Seq::empty(), queue: frontier, output: Seq::empty() }
}

/// One step: the first waiting item arrives at its join node. If that node
/// is in the graph and has now seen at least as many arrivals as it has
/// joined edges, it emits every outgoing edge with the total count that
/// has arrived at it; the emitted items are output and wait in turn.
pub open spec fn explore_step(g: Seq<PagEdge>, forward: bool, s: Exploration) -> Exploration {
    let d = s.queue[0];
    let rest = s.queue.drop_first();
    let n = join_node(d.0, forward);
    let arrived = s.arrived.push(d);
    if is_graph_node(g, n, forward) && arrival_count(arrived, n, forward) >= in_count(
        g,
        n,
        forward,
    ) {
        let emitted = emissions(outgoing_of(g, n, forward), arrival_sum(arrived, n, forward) as u64);
        Exploration { arrived, queue: rest + emitted, output: s.output + emitted }
    } else {
        Exploration { arrived, queue: rest, output: s.output }
    }
}

/// Whether the next step keeps the running count of its node within `u64`.
pub open spec fn step_fits(g: Seq<PagEdge>, forward: bool, s: Exploration) -> bool {
    let d = s.queue[0];
    let n = join_node(d.0, forward);
    is_graph_node(g, n, forward) ==> arrival_sum(s.arrived.push(d), n, forward) <= u64::MAX
}

/// The exploration after at most `fuel` steps (it stops when nothing waits).
pub open spec fn explore_run(g: Seq<PagEdge>, forward: bool, s: Exploration, fuel: nat) -> Exploration
    decreases fuel,
{
    if fuel == 0 || s.queue.len() == 0 {
        s
    } else {
        explore_run(g, forward, explore_step(g, forward, s), (fuel - 1) as nat)
    }
}

/// Whether the exploration empties its queue within `fuel` steps, every
/// step keeping its counts within `u64`.
pub open spec fn explore_completes(g: Seq<PagEdge>, forward: bool, s: Exploration, fuel: nat) -> bool
    decreases fuel,
{
    if s.queue.len() == 0 {
        true
    } else {
        fuel > 0 && step_fits(g, forward, s) && explore_completes(
            g,
            forward,
            explore_step(g, forward, s),
            (fuel - 1) as nat,
        )
    }
}

/// Whether exploring `g` from `frontier` comes to an end without overflow.
pub open spec fn explore_terminates(g: Seq<PagEdge>, forward: bool, frontier: Seq<(PagEdge, u64)>) -> bool {
    exists|fuel: nat| explore_completes(g, forward, explore_start(frontier), fuel)
}

/// Enough steps for the exploration of `g` from `frontier` to end.
pub open spec fn explore_fuel(g: Seq<PagEdge>, forward: bool, frontier: Seq<(PagEdge, u64)>) -> nat {
    choose|fuel: nat| explore_completes(g, forward, explore_start(frontier), fuel)
}

/// Everything that exploring `g` from `frontier` emits, in order.
pub open spec fn explore_output(g: Seq<PagEdge>, forward: bool, frontier: Seq<(PagEdge, u64)>) -> Seq<
    (PagEdge, u64),
> {
    explore_run(g, forward, explore_start(frontier), explore_fuel(g, forward, frontier)).output
}

// ---------------------------------------------------------------------------
// Node table
// ---------------------------------------------------------------------------

/// What an exploration keeps per node: how many joined edges are still
/// awaited, the count that arrived so far, and the outgoing edges.
#[derive(Debug)]
pub struct NodeInfo<D, DO> {
    pub in_degree: u32,
    pub in_sum: DO,
    pub outgoing: Vec<D>,
}

impl<D, DO: Default> NodeInfo<D, DO> {
    /// A node with nothing joined, nothing arrived and no outgoing edges.
    pub fn new() -> (r: Self)
        ensures
            r.in_degree == 0,
            r.outgoing@ == Seq::<D>::empty(),
            call_ensures(DO::default, (), r.in_sum),
    {
        NodeInfo { outgoing: Vec::new(), in_degree: 0, in_sum: Default::default() }
    }
}

/// The nodes of one epoch's graph, each with its exploration state.
pub type NodeTable = Vec<(PagNode, NodeInfo<PagEdge, u64>)>;

/// `c - k`, or 0 where `k` exceeds `c`.
pub open spec fn sat_sub(c: nat, k: nat) -> nat {
    if c >= k {
        (c - k) as nat
    } else {
        0
    }
}

/// The table holds each node of `g` once, and nothing else.
pub open spec fn table_nodes(t: Seq<(PagNode, NodeInfo<PagEdge, u64>)>, g: Seq<PagEdge>, forward: bool) -> bool {
    &&& forall|i: int, j: int| 0 <= i < j < t.len() ==> t[i].0 != t[j].0
    &&& forall|i: int| 0 <= i < t.len() ==> is_graph_node(g, #[trigger] t[i].0, forward)
    &&& forall|n: PagNode|
        is_graph_node(g, n, forward) ==> exists|i: int| 0 <= i < t.len() && #[trigger] t[i].0 == n
}

/// The table is the state of exploring `g` after the items `a` arrived.
pub open spec fn table_matches(
    t: Seq<(PagNode, NodeInfo<PagEdge, u64>)>,
    g: Seq<PagEdge>,
    a: Seq<(PagEdge, u64)>,
    forward: bool,
) -> bool {
    &&& table_nodes(t, g, forward)
    &&& forall|i: int|
        0 <= i < t.len() ==> {
            let n = #[trigger] t[i].0;
            &&& t[i].1.in_degree == sat_sub(in_count(g, n, forward), arrival_count(a, n, forward))
            &&& t[i].1.in_sum == arrival_sum(a, n, forward)
            &&& t[i].1.outgoing@ == outgoing_of(g, n, forward)
        }
}

/// The table as built from `g`, before any arrival.
pub open spec fn table_built(t: Seq<(PagNode, NodeInfo<PagEdge, u64>)>, g: Seq<PagEdge>, forward: bool) -> bool {
    table_matches(t, g, Seq::empty(), forward)
}

proof fn lemma_drop_pushed<A>(s: Seq<A>, x: A)
    ensures
        s.push(x).drop_last() == s,
        s.push(x).last() == x,
        s.push(x).len() > 0,
{
    assert(s.push(x).drop_last() =~= s);
}

proof fn lemma_not_node_no_joins(g: Seq<PagEdge>, n: PagNode, forward: bool)
    requires
        !is_graph_node(g, n, forward),
    ensures
        in_count(g, n, forward) == 0,
        outgoing_of(g, n, forward) == Seq::<PagEdge>::empty(),
    decreases g.len(),
{
    if g.len() > 0 {
        lemma_not_node_no_joins(g.drop_last(), n, forward);
    }
}

/// Looks a node up in the table.
fn find_node(table: &NodeTable, n: &PagNode) -> (r: Option<usize>)
    ensures
        match r {
            Some(i) => i < table@.len() && table@[i as int].0 == *n,
            None => forall|i: int| 0 <= i < table@.len() ==> table@[i].0 != *n,
        },
{
    let mut i: usize = 0;
    while i < table.len()
        invariant
            i <= table@.len(),
            forall|j: int| 0 <= j < i ==> table@[j].0 != *n,
        decreases table@.len() - i,
    {
        if table[i].0.same_as(n) {
            return Some(i);
        }
        i = i + 1;
    }
    None
}

/// Returns the index of node `n`, adding it with a fresh entry when absent.
fn find_or_add_node(table: &mut NodeTable, n: PagNode) -> (i: usize)
    requires
        forall|a: int, b: int| 0 <= a < b < old(table)@.len() ==> old(table)@[a].0 != old(table)@[b].0,
    ensures
        forall|a: int, b: int| 0 <= a < b < final(table)@.len() ==> final(table)@[a].0 != final(table)@[b].0,
        i < final(table)@.len(),
        final(table)@[i as int].0 == n,
        match find_node_spec(old(table)@, n) {
            Some(k) => final(table)@ == old(table)@ && i == k,
            None => {
                &&& final(table)@.len() == old(table)@.len() + 1
                &&& final(table)@.drop_last() == old(table)@
                &&& i == old(table)@.len()
                &&& final(table)@[i as int].1.in_degree == 0
                &&& final(table)@[i as int].1.in_sum == 0
                &&& final(table)@[i as int].1.outgoing@ == Seq::<PagEdge>::empty()
            },
        },
{
    match find_node(table, &n) {
        Some(k) => {
            proof { lemma_find_node_spec(table@, n, k as int); }
            k
        },
        None => {
            let info: NodeInfo<PagEdge, u64> = NodeInfo::new();
            let ghost before = table@;
            table.push((n, info));
            proof {
                lemma_find_node_spec_none(before, n);
                assert(table@.drop_last() =~= before);
                assert forall|a: int, b: int| 0 <= a < b < table@.len() implies table@[a].0 != table@[b].0 by {
                    if b == before.len() {
                        assert(before[a].0 != n);
                    } else {
                        assert(table@[a] == before[a] && table@[b] == before[b]);
                    }
                }
            }
            table.len() - 1
        },
    }
}

/// The index at which node `n` stands in `t`, if anywhere.
pub open spec fn find_node_spec(t: Seq<(PagNode, NodeInfo<PagEdge, u64>)>, n: PagNode) -> Option<int> {
    if exists|i: int| 0 <= i < t.len() && t[i].0 == n {
        Some(choose|i: int| 0 <= i < t.len() && t[i].0 == n)
    } else {
        None
    }
}

proof fn lemma_find_node_spec(t: Seq<(PagNode, NodeInfo<PagEdge, u64>)>, n: PagNode, k: int)
    requires
        0 <= k < t.len(),
        t[k].0 == n,
        forall|i: int, j: int| 0 <= i < j < t.len() ==> t[i].0 != t[j].0,
    ensures
        find_node_spec(t, n) == Some(k),
{
    let c = choose|i: int| 0 <= i < t.len() && t[i].0 == n;
    assert(t[c].0 == n);
    if c < k {
        assert(t[c].0 != t[k].0);
    } else if c > k {
        assert(t[k].0 != t[c].0);
    }
}

proof fn lemma_find_node_spec_none(t: Seq<(PagNode, NodeInfo<PagEdge, u64>)>, n: PagNode)
    requires
        forall|i: int| 0 <= i < t.len() ==> t[i].0 != n,
    ensures
        find_node_spec(t, n) == None::<int>,
{
}

proof fn lemma_push_edge(g: Seq<PagEdge>, e: PagEdge, m: PagNode, forward: bool)
    ensures
        in_count(g.push(e), m, forward) == in_count(g, m, forward) + if join_node(e, forward) == m {
            1nat
        } else {
            0nat
        },
        outgoing_of(g.push(e), m, forward) == if group_node(e, forward) == m {
            outgoing_of(g, m, forward).push(e)
        } else {
            outgoing_of(g, m, forward)
        },
        is_graph_node(g.push(e), m, forward) == (is_graph_node(g, m, forward) || join_node(e, forward)
            == m || group_node(e, forward) == m),
{
    lemma_drop_pushed(g, e);
}

/// The table after the edge `e` became outgoing at its group node, before
/// its join node counts it.
pub open spec fn table_half(
    t: Seq<(PagNode, NodeInfo<PagEdge, u64>)>,
    g: Seq<PagEdge>,
    e: PagEdge,
    forward: bool,
) -> bool {
    &&& forall|i: int, j: int| 0 <= i < j < t.len() ==> t[i].0 != t[j].0
    &&& forall|i: int| 0 <= i < t.len() ==> is_graph_node(g.push(e), #[trigger] t[i].0, forward)
        && (is_graph_node(g, t[i].0, forward) || t[i].0 == group_node(e, forward))
    &&& forall|n: PagNode|
        is_graph_node(g, n, forward) ==> exists|i: int| 0 <= i < t.len() && #[trigger] t[i].0 == n
    &&& exists|i: int| 0 <= i < t.len() && #[trigger] t[i].0 == group_node(e, forward)
    &&& forall|i: int|
        0 <= i < t.len() ==> {
            let n = #[trigger] t[i].0;
            &&& t[i].1.in_degree == in_count(g, n, forward)
            &&& t[i].1.in_sum == 0
            &&& t[i].1.outgoing@ == outgoing_of(g.push(e), n, forward)
        }
}

fn table_add_outgoing(table: &mut NodeTable, edge: PagEdge, forward: bool, Ghost(g): Ghost<Seq<PagEdge>>)
    requires
        table_built(old(table)@, g, forward),
    ensures
        table_half(final(table)@, g, edge, forward),
{
    let ghost t0 = table@;
    let ghost gn = group_node(edge, forward);
    proof {
        lemma_push_edge(g, edge, gn, forward);
        if !is_graph_node(g, gn, forward) {
            lemma_not_node_no_joins(g, gn, forward);
        }
    }
    let gi = find_or_add_node(table, edge.group(forward));
    let ghost t1 = table@;
    {
        let entry = &mut table[gi];
        entry.1.outgoing.push(edge);
    }
    proof {
        let t2 = table@;
        assert forall|a: int, b: int| 0 <= a < b < t2.len() implies t2[a].0 != t2[b].0 by {
            assert(t1[a].0 == t2[a].0 && t1[b].0 == t2[b].0);
        }
        assert forall|i: int| 0 <= i < t2.len() implies is_graph_node(g.push(edge), #[trigger] t2[i].0, forward)
            && (is_graph_node(g, t2[i].0, forward) || t2[i].0 == gn) by {
            lemma_push_edge(g, edge, t2[i].0, forward);
            if i < t0.len() {
                assert(t2[i].0 == t0[i].0);
            }
        }
        assert forall|m: PagNode| is_graph_node(g, m, forward) implies exists|i: int|
            0 <= i < t2.len() && #[trigger] t2[i].0 == m by {
            let i = choose|i: int| 0 <= i < t0.len() && #[trigger] t0[i].0 == m;
            assert(t2[i].0 == m);
        }
        assert(t2[gi as int].0 == gn);
        assert forall|i: int| 0 <= i < t2.len() implies {
            let n = #[trigger] t2[i].0;
            &&& t2[i].1.in_degree == in_count(g, n, forward)
            &&& t2[i].1.in_sum == 0
            &&& t2[i].1.outgoing@ == outgoing_of(g.push(edge), n, forward)
        } by {
            let n = t2[i].0;
            lemma_push_edge(g, edge, n, forward);
            if i < t0.len() {
                assert(t0[i].0 == n);
            }
            if i != gi {
                assert(i < t0.len());
                assert(t2[i] == t0[i]);
            }
        }
    }
}

fn table_add_incoming(table: &mut NodeTable, edge: PagEdge, forward: bool, Ghost(g): Ghost<Seq<PagEdge>>)
    requires
        table_half(old(table)@, g, edge, forward),
        in_count(g.push(edge), join_node(edge, forward), forward) <= u32::MAX,
    ensures
        table_built(final(table)@, g.push(edge), forward),
{
    let ghost t2 = table@;
    let ghost g2 = g.push(edge);
    let ghost jn = join_node(edge, forward);
    proof {
        lemma_push_edge(g, edge, jn, forward);
        if !is_graph_node(g, jn, forward) {
            lemma_not_node_no_joins(g, jn, forward);
        }
    }
    let ji = find_or_add_node(table, edge.join(forward));
    let ghost t3 = table@;
    proof {
        if ji < t2.len() {
            assert(t3[ji as int] == t2[ji as int]);
        } else {
            assert forall|i: int| 0 <= i < t2.len() implies t2[i].0 != jn by {
                assert(t3[i] == t2[i]);
            }
            if is_graph_node(g, jn, forward) {
                let i = choose|i: int| 0 <= i < t2.len() && #[trigger] t2[i].0 == jn;
            }
            lemma_push_edge(g, edge, jn, forward);
        }
    }
    assert(t3[ji as int].1.in_degree == in_count(g, jn, forward));
    {
        let entry = &mut table[ji];
        entry.1.in_degree = entry.1.in_degree + 1;
    }
    proof {
        let t4 = table@;
        assert forall|a: int, b: int| 0 <= a < b < t4.len() implies t4[a].0 != t4[b].0 by {
            assert(t3[a].0 == t4[a].0 && t3[b].0 == t4[b].0);
        }
        assert forall|i: int| 0 <= i < t4.len() implies is_graph_node(g2, #[trigger] t4[i].0, forward) by {
            lemma_push_edge(g, edge, t4[i].0, forward);
            if i < t2.len() {
                assert(t4[i].0 == t2[i].0);
            }
        }
        assert forall|m: PagNode| is_graph_node(g2, m, forward) implies exists|i: int|
            0 <= i < t4.len() && #[trigger] t4[i].0 == m by {
            lemma_push_edge(g, edge, m, forward);
            if m == jn {
                assert(t4[ji as int].0 == m);
            } else {
                if is_graph_node(g, m, forward) {
                    assert(exists|i: int| 0 <= i < t2.len() && #[trigger] t2[i].0 == m);
                } else {
                    assert(m == group_node(edge, forward));
                    assert(exists|i: int| 0 <= i < t2.len() && #[trigger] t2[i].0 == group_node(edge, forward));
                }
                let i = choose|i: int| 0 <= i < t2.len() && #[trigger] t2[i].0 == m;
                assert(t3[i] == t2[i]);
                assert(t4[i].0 == t3[i].0);
                assert(t4[i].0 == m);
            }
        }
        assert forall|i: int| 0 <= i < t4.len() implies {
            let n = #[trigger] t4[i].0;
            &&& t4[i].1.in_degree == sat_sub(in_count(g2, n, forward), arrival_count(Seq::empty(), n, forward))
            &&& t4[i].1.in_sum == arrival_sum(Seq::empty(), n, forward)
            &&& t4[i].1.outgoing@ == outgoing_of(g2, n, forward)
        } by {
            let n = t4[i].0;
            lemma_push_edge(g, edge, n, forward);
            if i < t2.len() {
                assert(t2[i].0 == n);
            }
            if i != ji {
                assert(i < t2.len());
                assert(t4[i] == t2[i]);
            }
        }
    }
}

/// Adds a graph edge to a built table: the edge becomes outgoing at its
/// group node, and its join node awaits one more arrival.
fn table_add_edge(table: &mut NodeTable, edge: PagEdge, forward: bool, Ghost(g): Ghost<Seq<PagEdge>>)
    requires
        table_built(old(table)@, g, forward),
        in_count(g.push(edge), join_node(edge, forward), forward) <= u32::MAX,
    ensures
        table_built(final(table)@, g.push(edge), forward),
{
    table_add_outgoing(table, edge, forward, Ghost(g));
    table_add_incoming(table, edge, forward, Ghost(g));
}

proof fn lemma_push_arrival(a: Seq<(PagEdge, u64)>, d: (PagEdge, u64), m: PagNode, forward: bool)
    ensures
        arrival_count(a.push(d), m, forward) == arrival_count(a, m, forward) + if join_node(
            d.0,
            forward,
        ) == m {
            1nat
        } else {
            0nat
        },
        arrival_sum(a.push(d), m, forward) == arrival_sum(a, m, forward) + if join_node(d.0, forward)
            == m {
            d.1 as nat
        } else {
            0nat
        },
{
    lemma_drop_pushed(a, d);
}

/// One frontier item arrives at its join node. Returns that node's index
/// when the node is in the table and now emits its outgoing edges.
fn table_arrive(
    table: &mut NodeTable,
    datum: (PagEdge, u64),
    forward: bool,
    Ghost(g): Ghost<Seq<PagEdge>>,
    Ghost(a): Ghost<Seq<(PagEdge, u64)>>,
) -> (r: Option<usize>)
    requires
        table_matches(old(table)@, g, a, forward),
        is_graph_node(g, join_node(datum.0, forward), forward) ==> arrival_sum(
            a.push(datum),
            join_node(datum.0, forward),
            forward,
        ) <= u64::MAX,
    ensures
        table_matches(final(table)@, g, a.push(datum), forward),
        match r {
            Some(k) => {
                &&& k < final(table)@.len()
                &&& final(table)@[k as int].0 == join_node(datum.0, forward)
                &&& is_graph_node(g, join_node(datum.0, forward), forward)
                &&& arrival_count(a.push(datum), join_node(datum.0, forward), forward) >= in_count(
                    g,
                    join_node(datum.0, forward),
                    forward,
                )
            },
            None => !(is_graph_node(g, join_node(datum.0, forward), forward) && arrival_count(
                a.push(datum),
                join_node(datum.0, forward),
                forward,
            ) >= in_count(g, join_node(datum.0, forward), forward)),
        },
{
    let ghost t0 = table@;
    let ghost a2 = a.push(datum);
    let ghost jn = join_node(datum.0, forward);
    let n = datum.0.join(forward);
    proof {
        lemma_push_arrival(a, datum, jn, forward);
    }
    match find_node(table, &n) {
        None => {
            proof {
                if is_graph_node(g, jn, forward) {
                    let i = choose|i: int| 0 <= i < t0.len() && #[trigger] t0[i].0 == jn;
                }
                assert forall|i: int| 0 <= i < t0.len() implies {
                    let m = #[trigger] t0[i].0;
                    &&& t0[i].1.in_degree == sat_sub(in_count(g, m, forward), arrival_count(a2, m, forward))
                    &&& t0[i].1.in_sum == arrival_sum(a2, m, forward)
                    &&& t0[i].1.outgoing@ == outgoing_of(g, m, forward)
                } by {
                    lemma_push_arrival(a, datum, t0[i].0, forward);
                }
            }
            None
        },
        Some(k) => {
            assert(t0[k as int].1.in_sum == arrival_sum(a, jn, forward));
            {
                let entry = &mut table[k];
                entry.1.in_sum = entry.1.in_sum + datum.1;
                if entry.1.in_degree > 0 {
                    entry.1.in_degree = entry.1.in_degree - 1;
                }
            }
            proof {
                let t1 = table@;
                assert forall|x: int, y: int| 0 <= x < y < t1.len() implies t1[x].0 != t1[y].0 by {
                    assert(t0[x].0 == t1[x].0 && t0[y].0 == t1[y].0);
                }
                assert forall|i: int| 0 <= i < t1.len() implies is_graph_node(g, #[trigger] t1[i].0, forward) by {
                    assert(t0[i].0 == t1[i].0);
                }
                assert forall|m: PagNode| is_graph_node(g, m, forward) implies exists|i: int|
                    0 <= i < t1.len() && #[trigger] t1[i].0 == m by {
                    let i = choose|i: int| 0 <= i < t0.len() && #[trigger] t0[i].0 == m;
                    assert(t1[i].0 == m);
                }
                assert forall|i: int| 0 <= i < t1.len() implies {
                    let m = #[trigger] t1[i].0;
                    &&& t1[i].1.in_degree == sat_sub(in_count(g, m, forward), arrival_count(a2, m, forward))
                    &&& t1[i].1.in_sum == arrival_sum(a2, m, forward)
                    &&& t1[i].1.outgoing@ == outgoing_of(g, m, forward)
                } by {
                    lemma_push_arrival(a, datum, t1[i].0, forward);
                    if i != k {
                        assert(t1[i] == t0[i]);
                        assert(t0[i].0 != t0[k as int].0);
                    }
                }
            }
            if table[k].1.in_degree == 0 {
                Some(k)
            } else {
                None
            }
        },
    }
}

proof fn lemma_run_step(g: Seq<PagEdge>, forward: bool, s: Exploration, fuel: nat)
    requires
        s.queue.len() > 0,
        explore_completes(g, forward, s, fuel),
    ensures
        fuel > 0,
        step_fits(g, forward, s),
        explore_completes(g, forward, explore_step(g, forward, s), (fuel - 1) as nat),
        explore_run(g, forward, s, fuel) == explore_run(
            g,
            forward,
            explore_step(g, forward, s),
            (fuel - 1) as nat,
        ),
{
}

/// Runs the exploration of the graph that `table` was built from, starting
/// from `frontier`, and returns everything emitted, in order.
fn explore_table(
    table: &mut NodeTable,
    frontier: VecDeque<(PagEdge, u64)>,
    forward: bool,
    Ghost(g): Ghost<Seq<PagEdge>>,
) -> (out: Vec<(PagEdge, u64)>)
    requires
        table_built(old(table)@, g, forward),
        explore_terminates(g, forward, frontier@),
    ensures
        out@ == explore_output(g, forward, frontier@),
{
    let ghost start = explore_start(frontier@);
    let ghost fuel0 = explore_fuel(g, forward, frontier@);
    let ghost mut fuel = fuel0;
    let ghost mut st = start;
    let mut queue = frontier;
    let mut output: Vec<(PagEdge, u64)> = Vec::new();
    proof {
        assert(table_matches(table@, g, st.arrived, forward));
    }
    while queue.len() > 0
        invariant
            st.queue == queue@,
            st.output == output@,
            table_matches(table@, g, st.arrived, forward),
            explore_completes(g, forward, st, fuel),
            explore_run(g, forward, st, fuel) == explore_run(g, forward, start, fuel0),
        decreases fuel,
    {
        proof {
            lemma_run_step(g, forward, st, fuel);
        }
        let ghost next = explore_step(g, forward, st);
        let datum = queue.pop_front().unwrap();
        assert(datum == st.queue[0]);
        assert(queue@ == st.queue.drop_first());
        let emitting = table_arrive(table, datum, forward, Ghost(g), Ghost(st.arrived));
        match emitting {
            Some(k) => {
                let count = table[k].1.in_sum;
                let ghost q0 = queue@;
                let ghost o0 = output@;
                let ghost outs = table@[k as int].1.outgoing@;
                let ghost em = emissions(outs, count);
                let len = table[k].1.outgoing.len();
                let mut j: usize = 0;
                while j < len
                    invariant
                        j <= len,
                        len == outs.len(),
                        k < table@.len(),
                        table@[k as int].1.outgoing@ == outs,
                        em == emissions(outs, count),
                        queue@ == q0 + em.take(j as int),
                        output@ == o0 + em.take(j as int),
                    decreases len - j,
                {
                    let o = table[k].1.outgoing[j];
                    queue.push_back((o, count));
                    output.push((o, count));
                    proof {
                        assert(em.take(j + 1) =~= em.take(j as int).push((o, count)));
                    }
                    j = j + 1;
                }
                proof {
                    assert(em.take(len as int) =~= em);
                }
            },
            None => {},
        }
        proof {
            assert(queue@ =~= next.queue);
            assert(output@ =~= next.output);
            st = next;
            fuel = (fuel - 1) as nat;
        }
    }
    output
}

// ---------------------------------------------------------------------------
// Laws of the exploration
// ---------------------------------------------------------------------------

proof fn lemma_outgoing_in_graph(g: Seq<PagEdge>, n: PagNode, forward: bool)
    ensures
        forall|k: int|
            0 <= k < outgoing_of(g, n, forward).len() ==> g.contains(
                #[trigger] outgoing_of(g, n, forward)[k],
            ),
    decreases g.len(),
{
    if g.len() > 0 {
        let p = g.drop_last();
        lemma_outgoing_in_graph(p, n, forward);
        assert forall|k: int|
            0 <= k < outgoing_of(g, n, forward).len() implies g.contains(
            #[trigger] outgoing_of(g, n, forward)[k],
        ) by {
            let o = outgoing_of(g, n, forward)[k];
            if k < outgoing_of(p, n, forward).len() {
                assert(o == outgoing_of(p, n, forward)[k]);
                let j = choose|j: int| 0 <= j < p.len() && p[j] == o;
                assert(g[j] == p[j]);
            } else {
                assert(o == g.last());
                assert(g[g.len() - 1] == o);
            }
        }
    }
}

/// Every item that an exploration state has output carries an edge of `g`.
pub open spec fn outputs_in_graph(g: Seq<PagEdge>, s: Exploration) -> bool {
    forall|i: int| 0 <= i < s.output.len() ==> g.contains((#[trigger] s.output[i]).0)
}

proof fn lemma_run_outputs_in_graph(g: Seq<PagEdge>, forward: bool, s: Exploration, fuel: nat)
    requires
        outputs_in_graph(g, s),
    ensures
        outputs_in_graph(g, explore_run(g, forward, s, fuel)),
    decreases fuel,
{
    if fuel > 0 && s.queue.len() > 0 {
        let next = explore_step(g, forward, s);
        let d = s.queue[0];
        let n = join_node(d.0, forward);
        lemma_outgoing_in_graph(g, n, forward);
        assert forall|i: int| 0 <= i < next.output.len() implies g.contains((#[trigger] next.output[i]).0) by {
            if i >= s.output.len() {
                let outs = outgoing_of(g, n, forward);
                assert(next.output[i].0 == outs[i - s.output.len()]);
            } else {
                assert(next.output[i] == s.output[i]);
            }
        }
        lemma_run_outputs_in_graph(g, forward, next, (fuel - 1) as nat);
    }
}

/// Exploration only ever emits edges of the graph.
pub proof fn lemma_outputs_are_graph_edges(g: Seq<PagEdge>, forward: bool, frontier: Seq<(PagEdge, u64)>)
    ensures
        forall|i: int|
            0 <= i < explore_output(g, forward, frontier).len() ==> g.contains(
                (#[trigger] explore_output(g, forward, frontier)[i]).0,
            ),
{
    lemma_run_outputs_in_graph(g, forward, explore_start(frontier), explore_fuel(g, forward, frontier));
}

/// Without a frontier, nothing is explored and nothing is emitted.
pub proof fn lemma_no_frontier_no_output(g: Seq<PagEdge>, forward: bool)
    ensures
        explore_terminates(g, forward, Seq::empty()),
        explore_output(g, forward, Seq::empty()) == Seq::<(PagEdge, u64)>::empty(),
{
    assert(explore_completes(g, forward, explore_start(Seq::empty()), 0));
}

/// Whether no item waiting in `s` arrives at a node of `g`.
pub open spec fn all_outside(g: Seq<PagEdge>, forward: bool, q: Seq<(PagEdge, u64)>) -> bool {
    forall|i: int| 0 <= i < q.len() ==> !is_graph_node(g, join_node((#[trigger] q[i]).0, forward), forward)
}

proof fn lemma_run_outside(g: Seq<PagEdge>, forward: bool, s: Exploration, fuel: nat)
    requires
        all_outside(g, forward, s.queue),
    ensures
        explore_run(g, forward, s, fuel).output == s.output,
        explore_completes(g, forward, s, s.queue.len()),
    decreases s.queue.len(),
{
    if s.queue.len() > 0 {
        let next = explore_step(g, forward, s);
        assert(!is_graph_node(g, join_node(s.queue[0].0, forward), forward));
        assert(next.queue =~= s.queue.drop_first());
        assert forall|i: int| 0 <= i < next.queue.len() implies !is_graph_node(
            g,
            join_node((#[trigger] next.queue[i]).0, forward),
            forward,
        ) by {
            assert(next.queue[i] == s.queue[i + 1]);
        }
        if fuel > 0 {
            lemma_run_outside(g, forward, next, (fuel - 1) as nat);
        } else {
            lemma_run_outside(g, forward, next, 0);
        }
    }
}

/// Frontier items that arrive only outside the graph are dropped: they
/// emit nothing, and the exploration ends.
pub proof fn lemma_outside_frontier_dropped(g: Seq<PagEdge>, forward: bool, frontier: Seq<(PagEdge, u64)>)
    requires
        all_outside(g, forward, frontier),
    ensures
        explore_terminates(g, forward, frontier),
        explore_output(g, forward, frontier) == Seq::<(PagEdge, u64)>::empty(),
{
    lemma_run_outside(g, forward, explore_start(frontier), explore_fuel(g, forward, frontier));
}

/// The edges of a sequence of items.
pub open spec fn edges_of(items: Seq<(PagEdge, u64)>) -> Seq<PagEdge> {
    items.map_values(|x: (PagEdge, u64)| x.0)
}

/// A frontier of distinct graph edges, each leaving a node that no edge of
/// the graph joins: the edges where an exploration starts.
pub open spec fn seeds_at_sources(g: Seq<PagEdge>, forward: bool, frontier: Seq<(PagEdge, u64)>) -> bool {
    &&& edges_of(frontier).no_duplicates()
    &&& forall|i: int|
        0 <= i < frontier.len() ==> g.contains(#[trigger] frontier[i].0) && in_count(
            g,
            group_node(frontier[i].0, forward),
            forward,
        ) == 0
}

/// The edges of `g` that the exploration joins at `n`, in order.
pub open spec fn joined_edges(g: Seq<PagEdge>, n: PagNode, forward: bool) -> Seq<PagEdge>
    decreases g.len(),
{
    if g.len() == 0 {
        Seq::empty()
    } else if join_node(g.last(), forward) == n {
        joined_edges(g.drop_last(), n, forward).push(g.last())
    } else {
        joined_edges(g.drop_last(), n, forward)
    }
}

/// The edges of the items of `a` that arrived at `n`, in order.
pub open spec fn arrived_edges(a: Seq<(PagEdge, u64)>, n: PagNode, forward: bool) -> Seq<PagEdge>
    decreases a.len(),
{
    if a.len() == 0 {
        Seq::empty()
    } else if join_node(a.last().0, forward) == n {
        arrived_edges(a.drop_last(), n, forward).push(a.last().0)
    } else {
        arrived_edges(a.drop_last(), n, forward)
    }
}

proof fn lemma_joined_edges(g: Seq<PagEdge>, n: PagNode, forward: bool)
    ensures
        joined_edges(g, n, forward).len() == in_count(g, n, forward),
        forall|e: PagEdge| g.contains(e) && join_node(e, forward) == n ==> joined_edges(g, n, forward).contains(e),
    decreases g.len(),
{
    if g.len() > 0 {
        let p = g.drop_last();
        lemma_joined_edges(p, n, forward);
        assert forall|e: PagEdge| g.contains(e) && join_node(e, forward) == n implies joined_edges(
            g,
            n,
            forward,
        ).contains(e) by {
            let j = choose|j: int| 0 <= j < g.len() && g[j] == e;
            let je = joined_edges(g, n, forward);
            if j < p.len() {
                assert(p[j] == e);
                let k = choose|k: int| 0 <= k < joined_edges(p, n, forward).len() && joined_edges(p, n, forward)[k] == e;
                assert(je[k] == e);
            } else {
                assert(je[je.len() - 1] == e);
            }
        }
    }
}

proof fn lemma_edges_of_index(a: Seq<(PagEdge, u64)>)
    ensures
        edges_of(a).len() == a.len(),
        forall|k: int| 0 <= k < a.len() ==> #[trigger] edges_of(a)[k] == a[k].0,
{
}

proof fn lemma_arrived_edges(a: Seq<(PagEdge, u64)>, n: PagNode, forward: bool)
    requires
        edges_of(a).no_duplicates(),
    ensures
        arrived_edges(a, n, forward).len() == arrival_count(a, n, forward),
        arrived_edges(a, n, forward).no_duplicates(),
        forall|e: PagEdge| #[trigger] arrived_edges(a, n, forward).contains(e) ==> edges_of(a).contains(e) && join_node(e, forward) == n,
    decreases a.len(),
{
    if a.len() > 0 {
        let p = a.drop_last();
        let ea = edges_of(a);
        let ep = edges_of(p);
        lemma_edges_of_index(a);
        lemma_edges_of_index(p);
        assert forall|k: int| 0 <= k < p.len() implies #[trigger] ep[k] == ea[k] by {
            assert(p[k] == a[k]);
        }
        assert(ep.no_duplicates()) by {
            assert forall|i: int, j: int| 0 <= i < ep.len() && 0 <= j < ep.len() && i != j implies ep[i] != ep[j] by {
                assert(ep[i] == ea[i] && ep[j] == ea[j]);
            }
        }
        lemma_arrived_edges(p, n, forward);
        let ae = arrived_edges(a, n, forward);
        let pe = arrived_edges(p, n, forward);
        let last = a.last().0;
        assert(ea[a.len() - 1] == last);
        assert forall|e: PagEdge| pe.contains(e) implies ea.contains(e) && join_node(e, forward) == n by {
            assert(ep.contains(e));
            let k = choose|k: int| 0 <= k < ep.len() && ep[k] == e;
            assert(ea[k] == e);
        }
        if join_node(last, forward) == n {
            assert(!pe.contains(last)) by {
                if pe.contains(last) {
                    assert(ep.contains(last));
                    let k = choose|k: int| 0 <= k < ep.len() && ep[k] == last;
                    assert(ea[k] == ea[a.len() - 1]);
                }
            }
            assert(ae == pe.push(last));
            assert forall|e: PagEdge| ae.contains(e) implies ea.contains(e) && join_node(e, forward) == n by {
                let k = choose|k: int| 0 <= k < ae.len() && ae[k] == e;
                if k < pe.len() {
                    assert(pe[k] == e);
                    assert(pe.contains(e));
                }
            }
            assert(ae.no_duplicates()) by {
                assert forall|i: int, j: int| 0 <= i < ae.len() && 0 <= j < ae.len() && i != j implies ae[i] != ae[j] by {
                    if i < pe.len() && j < pe.len() {
                        assert(ae[i] == pe[i] && ae[j] == pe[j]);
                    } else if i < pe.len() {
                        assert(ae[i] == pe[i]);
                        assert(pe.contains(pe[i]));
                    } else if j < pe.len() {
                        assert(ae[j] == pe[j]);
                        assert(pe.contains(pe[j]));
                    }
                }
            }
        } else {
            assert(ae == pe);
        }
    }
}

proof fn lemma_distinct_within(a: Seq<PagEdge>, b: Seq<PagEdge>)
    requires
        a.no_duplicates(),
        forall|e: PagEdge| a.contains(e) ==> b.contains(e),
    ensures
        a.len() <= b.len(),
{
    a.unique_seq_to_set();
    b.lemma_cardinality_of_set();
    assert(a.to_set().subset_of(b.to_set()));
    vstd::set_lib::lemma_len_subset(a.to_set(), b.to_set());
}

/// With distinct arrivals, all of them graph edges, a node never sees more
/// arrivals than it has joined edges.
proof fn lemma_arrivals_bounded(g: Seq<PagEdge>, a: Seq<(PagEdge, u64)>, n: PagNode, forward: bool)
    requires
        edges_of(a).no_duplicates(),
        forall|i: int| 0 <= i < a.len() ==> g.contains(#[trigger] a[i].0),
    ensures
        arrival_count(a, n, forward) <= in_count(g, n, forward),
{
    lemma_arrived_edges(a, n, forward);
    lemma_joined_edges(g, n, forward);
    let ae = arrived_edges(a, n, forward);
    assert forall|e: PagEdge| ae.contains(e) implies joined_edges(g, n, forward).contains(e) by {
        lemma_edges_of_index(a);
        assert(edges_of(a).contains(e));
        let k = choose|k: int| 0 <= k < edges_of(a).len() && edges_of(a)[k] == e;
        assert(edges_of(a)[k] == a[k].0);
        assert(a[k].0 == e);
        assert(g.contains(a[k].0));
    }
    lemma_distinct_within(ae, joined_edges(g, n, forward));
}

proof fn lemma_outgoing_distinct(g: Seq<PagEdge>, n: PagNode, forward: bool)
    requires
        g.no_duplicates(),
    ensures
        outgoing_of(g, n, forward).no_duplicates(),
        forall|o: PagEdge| outgoing_of(g, n, forward).contains(o) ==> group_node(o, forward) == n,
    decreases g.len(),
{
    if g.len() > 0 {
        let p = g.drop_last();
        lemma_outgoing_distinct(p, n, forward);
        lemma_outgoing_in_graph(p, n, forward);
        let po = outgoing_of(p, n, forward);
        let go = outgoing_of(g, n, forward);
        if group_node(g.last(), forward) == n {
            assert(!po.contains(g.last())) by {
                if po.contains(g.last()) {
                    let k = choose|k: int| 0 <= k < po.len() && po[k] == g.last();
                    assert(p.contains(po[k]));
                    let j = choose|j: int| 0 <= j < p.len() && p[j] == g.last();
                    assert(g[j] == g[g.len() - 1]);
                }
            }
            assert forall|o: PagEdge| go.contains(o) implies group_node(o, forward) == n by {
                let k = choose|k: int| 0 <= k < go.len() && go[k] == o;
                if k < po.len() {
                    assert(po[k] == o);
                }
            }
        }
    }
}

/// What holds at every point of an exploration from seeds at sources: the
/// items that arrived or wait are the frontier followed by what was output;
/// their edges are distinct graph edges; and each leaves a node that is a
/// source or has seen all its joined edges arrive.
pub open spec fn explore_inv(g: Seq<PagEdge>, forward: bool, frontier: Seq<(PagEdge, u64)>, s: Exploration) -> bool {
    let items = s.arrived + s.queue;
    &&& items == frontier + s.output
    &&& edges_of(items).no_duplicates()
    &&& forall|i: int| 0 <= i < items.len() ==> g.contains(#[trigger] items[i].0)
    &&& forall|i: int|
        0 <= i < items.len() ==> {
            let m = group_node(#[trigger] items[i].0, forward);
            in_count(g, m, forward) == 0 || arrival_count(s.arrived, m, forward) >= in_count(g, m, forward)
        }
}

proof fn lemma_step_inv(g: Seq<PagEdge>, forward: bool, frontier: Seq<(PagEdge, u64)>, s: Exploration)
    requires
        g.no_duplicates(),
        s.queue.len() > 0,
        explore_inv(g, forward, frontier, s),
    ensures
        explore_inv(g, forward, frontier, explore_step(g, forward, s)),
{
    let d = s.queue[0];
    let n = join_node(d.0, forward);
    let a2 = s.arrived.push(d);
    let items = s.arrived + s.queue;
    let next = explore_step(g, forward, s);
    assert(a2 + s.queue.drop_first() =~= items);
    assert(items[s.arrived.len() as int] == d);
    assert(g.contains(d.0));
    // Arrival counts only grow.
    assert forall|m: PagNode| arrival_count(a2, m, forward) >= arrival_count(s.arrived, m, forward) by {
        lemma_push_arrival(s.arrived, d, m, forward);
    }
    assert(edges_of(a2) =~= edges_of(items).take(a2.len() as int));
    assert forall|i: int| 0 <= i < a2.len() implies g.contains(#[trigger] a2[i].0) by {
        assert(a2[i] == items[i]);
    }
    assert(edges_of(a2).no_duplicates()) by {
        assert forall|i: int, j: int| 0 <= i < edges_of(a2).len() && 0 <= j < edges_of(a2).len() && i != j
            implies edges_of(a2)[i] != edges_of(a2)[j] by {
            assert(edges_of(a2)[i] == edges_of(items)[i]);
            assert(edges_of(a2)[j] == edges_of(items)[j]);
        }
    }
    if is_graph_node(g, n, forward) && arrival_count(a2, n, forward) >= in_count(g, n, forward) {
        let em = emissions(outgoing_of(g, n, forward), arrival_sum(a2, n, forward) as u64);
        let outs = outgoing_of(g, n, forward);
        lemma_outgoing_distinct(g, n, forward);
        lemma_outgoing_in_graph(g, n, forward);
        lemma_arrivals_bounded(g, a2, n, forward);
        lemma_push_arrival(s.arrived, d, n, forward);
        lemma_joined_edges(g, n, forward);
        assert(joined_edges(g, n, forward).contains(d.0));
        assert(in_count(g, n, forward) >= 1) by {
            let k = choose|k: int| 0 <= k < joined_edges(g, n, forward).len() && joined_edges(g, n, forward)[k] == d.0;
        }
        assert(next.arrived + next.queue =~= items + em);
        assert(next.output == s.output + em);
        assert(items + em =~= frontier + (s.output + em));
        let items2 = items + em;
        // The emitted edges are new.
        assert forall|i: int, j: int|
            0 <= i < items.len() && 0 <= j < em.len() implies items[i].0 != em[j].0 by {
            if items[i].0 == em[j].0 {
                let o = em[j].0;
                assert(o == outs[j]);
                assert(outs.contains(o));
                assert(group_node(o, forward) == n);
                assert(arrival_count(s.arrived, n, forward) >= in_count(g, n, forward));
            }
        }
        assert(edges_of(items2).no_duplicates()) by {
            assert forall|i: int, j: int|
                0 <= i < edges_of(items2).len() && 0 <= j < edges_of(items2).len() && i != j
                implies edges_of(items2)[i] != edges_of(items2)[j] by {
                if i < items.len() && j < items.len() {
                    assert(edges_of(items2)[i] == edges_of(items)[i]);
                    assert(edges_of(items2)[j] == edges_of(items)[j]);
                } else if i >= items.len() && j >= items.len() {
                    assert(edges_of(items2)[i] == outs[i - items.len()]);
                    assert(edges_of(items2)[j] == outs[j - items.len()]);
                } else if i < items.len() {
                    assert(items2[j] == em[j - items.len()]);
                    assert(items2[i] == items[i]);
                } else {
                    assert(items2[i] == em[i - items.len()]);
                    assert(items2[j] == items[j]);
                }
            }
        }
        assert forall|i: int| 0 <= i < items2.len() implies g.contains(#[trigger] items2[i].0) by {
            if i < items.len() {
                assert(items2[i] == items[i]);
            } else {
                assert(items2[i].0 == outs[i - items.len()]);
            }
        }
        assert forall|i: int| 0 <= i < items2.len() implies {
            let m = group_node(#[trigger] items2[i].0, forward);
            in_count(g, m, forward) == 0 || arrival_count(a2, m, forward) >= in_count(g, m, forward)
        } by {
            if i < items.len() {
                assert(items2[i] == items[i]);
            } else {
                assert(items2[i].0 == outs[i - items.len()]);
                assert(outs.contains(outs[i - items.len()]));
            }
        }
    } else {
        assert(next.arrived + next.queue =~= items);
        assert(next.output == s.output);
    }
}

proof fn lemma_items_bounded(g: Seq<PagEdge>, forward: bool, frontier: Seq<(PagEdge, u64)>, s: Exploration)
    requires
        explore_inv(g, forward, frontier, s),
    ensures
        s.arrived.len() + s.queue.len() <= g.len(),
{
    let items = s.arrived + s.queue;
    assert forall|e: PagEdge| edges_of(items).contains(e) implies g.contains(e) by {
        let k = choose|k: int| 0 <= k < edges_of(items).len() && edges_of(items)[k] == e;
        assert(items[k].0 == e);
    }
    lemma_distinct_within(edges_of(items), g);
}

proof fn lemma_run_ends(g: Seq<PagEdge>, forward: bool, frontier: Seq<(PagEdge, u64)>, s: Exploration, fuel: nat)
    requires
        g.no_duplicates(),
        explore_inv(g, forward, frontier, s),
        s.arrived.len() + fuel >= g.len(),
    ensures
        explore_run(g, forward, s, fuel).queue.len() == 0,
        explore_inv(g, forward, frontier, explore_run(g, forward, s, fuel)),
    decreases fuel,
{
    lemma_items_bounded(g, forward, frontier, s);
    if fuel > 0 && s.queue.len() > 0 {
        lemma_step_inv(g, forward, frontier, s);
        lemma_run_ends(g, forward, frontier, explore_step(g, forward, s), (fuel - 1) as nat);
    }
}

/// Exploring a graph of distinct edges from seeds at its sources ends
/// within as many steps as the graph has edges, and emits every edge at
/// most once.
pub proof fn lemma_exploration_ends(g: Seq<PagEdge>, forward: bool, frontier: Seq<(PagEdge, u64)>)
    requires
        g.no_duplicates(),
        seeds_at_sources(g, forward, frontier),
    ensures
        explore_run(g, forward, explore_start(frontier), g.len()).queue.len() == 0,
        edges_of(explore_run(g, forward, explore_start(frontier), g.len()).output).no_duplicates(),
{
    let s0 = explore_start(frontier);
    assert(s0.arrived + s0.queue =~= frontier);
    assert(frontier + s0.output =~= frontier);
    assert forall|i: int| 0 <= i < frontier.len() implies g.contains(#[trigger] frontier[i].0) by {
        assert(g.contains(frontier[i].0));
    }
    lemma_run_ends(g, forward, frontier, s0, g.len());
    let s = explore_run(g, forward, s0, g.len());
    let items = s.arrived + s.queue;
    assert(edges_of(s.output).no_duplicates()) by {
        assert forall|i: int, j: int|
            0 <= i < edges_of(s.output).len() && 0 <= j < edges_of(s.output).len() && i != j
            implies edges_of(s.output)[i] != edges_of(s.output)[j] by {
            assert(items[frontier.len() + i] == s.output[i]);
            assert(items[frontier.len() + j] == s.output[j]);
            assert(edges_of(items)[frontier.len() + i] == edges_of(s.output)[i]);
            assert(edges_of(items)[frontier.len() + j] == edges_of(s.output)[j]);
        }
    }
}

proof fn lemma_inv_arrived(g: Seq<PagEdge>, forward: bool, frontier: Seq<(PagEdge, u64)>, s: Exploration)
    requires
        explore_inv(g, forward, frontier, s),
    ensures
        edges_of(s.arrived).no_duplicates(),
        forall|i: int| 0 <= i < s.arrived.len() ==> g.contains(#[trigger] s.arrived[i].0),
{
    let items = s.arrived + s.queue;
    lemma_edges_of_index(items);
    lemma_edges_of_index(s.arrived);
    assert forall|i: int| 0 <= i < s.arrived.len() implies g.contains(#[trigger] s.arrived[i].0) by {
        assert(items[i] == s.arrived[i]);
    }
    assert forall|i: int, j: int|
        0 <= i < edges_of(s.arrived).len() && 0 <= j < edges_of(s.arrived).len() && i != j
        implies edges_of(s.arrived)[i] != edges_of(s.arrived)[j] by {
        assert(items[i] == s.arrived[i] && items[j] == s.arrived[j]);
        assert(edges_of(items)[i] == items[i].0 && edges_of(items)[j] == items[j].0);
    }
}

/// Every output item leaves a node at which at least as many items arrived
/// as edges join it, and carries the total count that arrived there.
pub open spec fn totals_inv(g: Seq<PagEdge>, forward: bool, s: Exploration) -> bool {
    forall|i: int|
        0 <= i < s.output.len() ==> {
            let m = group_node((#[trigger] s.output[i]).0, forward);
            &&& in_count(g, m, forward) >= 1
            &&& arrival_count(s.arrived, m, forward) >= in_count(g, m, forward)
            &&& s.output[i].1 == arrival_sum(s.arrived, m, forward) as u64
        }
}

proof fn lemma_step_totals(g: Seq<PagEdge>, forward: bool, frontier: Seq<(PagEdge, u64)>, s: Exploration)
    requires
        g.no_duplicates(),
        s.queue.len() > 0,
        explore_inv(g, forward, frontier, s),
        totals_inv(g, forward, s),
    ensures
        totals_inv(g, forward, explore_step(g, forward, s)),
{
    let d = s.queue[0];
    let n = join_node(d.0, forward);
    let a2 = s.arrived.push(d);
    let next = explore_step(g, forward, s);
    lemma_step_inv(g, forward, frontier, s);
    lemma_inv_arrived(g, forward, frontier, next);
    assert(next.arrived == a2);
    assert forall|i: int| 0 <= i < s.output.len() implies {
        let m = group_node((#[trigger] s.output[i]).0, forward);
        &&& arrival_count(a2, m, forward) == arrival_count(s.arrived, m, forward)
        &&& arrival_sum(a2, m, forward) == arrival_sum(s.arrived, m, forward)
    } by {
        let m = group_node(s.output[i].0, forward);
        lemma_push_arrival(s.arrived, d, m, forward);
        lemma_arrivals_bounded(g, a2, m, forward);
    }
    assert forall|i: int| 0 <= i < next.output.len() implies {
        let m = group_node((#[trigger] next.output[i]).0, forward);
        &&& in_count(g, m, forward) >= 1
        &&& arrival_count(next.arrived, m, forward) >= in_count(g, m, forward)
        &&& next.output[i].1 == arrival_sum(next.arrived, m, forward) as u64
    } by {
        if i < s.output.len() {
            assert(next.output[i] == s.output[i]);
        } else {
            let outs = outgoing_of(g, n, forward);
            lemma_outgoing_distinct(g, n, forward);
            assert(next.output[i].0 == outs[i - s.output.len()]);
            assert(outs.contains(outs[i - s.output.len()]));
            lemma_joined_edges(g, n, forward);
            assert(g.contains(d.0)) by {
                let items = s.arrived + s.queue;
                assert(items[s.arrived.len() as int] == d);
            }
            assert(joined_edges(g, n, forward).contains(d.0));
            let k = choose|k: int| 0 <= k < joined_edges(g, n, forward).len() && joined_edges(g, n, forward)[k] == d.0;
        }
    }
}

proof fn lemma_run_totals(g: Seq<PagEdge>, forward: bool, frontier: Seq<(PagEdge, u64)>, s: Exploration, fuel: nat)
    requires
        g.no_duplicates(),
        explore_inv(g, forward, frontier, s),
        totals_inv(g, forward, s),
    ensures
        totals_inv(g, forward, explore_run(g, forward, s, fuel)),
    decreases fuel,
{
    if fuel > 0 && s.queue.len() > 0 {
        lemma_step_inv(g, forward, frontier, s);
        lemma_step_totals(g, forward, frontier, s);
        lemma_run_totals(g, forward, frontier, explore_step(g, forward, s), (fuel - 1) as nat);
    }
}

/// Exploring a graph of distinct edges from seeds at its sources, an edge
/// is emitted only once every edge joining the node it leaves has arrived
/// there, each exactly once, and it carries the total count of those
/// arrivals.
pub proof fn lemma_emission_totals(g: Seq<PagEdge>, forward: bool, frontier: Seq<(PagEdge, u64)>)
    requires
        g.no_duplicates(),
        seeds_at_sources(g, forward, frontier),
    ensures
        edges_of(explore_run(g, forward, explore_start(frontier), g.len()).arrived).no_duplicates(),
        ({
            let s = explore_run(g, forward, explore_start(frontier), g.len());
            forall|i: int|
                0 <= i < s.output.len() ==> {
                    let m = group_node((#[trigger] s.output[i]).0, forward);
                    &&& arrival_count(s.arrived, m, forward) == in_count(g, m, forward)
                    &&& s.output[i].1 == arrival_sum(s.arrived, m, forward) as u64
                    &&& forall|e: PagEdge|
                        g.contains(e) && join_node(e, forward) == m ==> edges_of(s.arrived).contains(e)
                }
        }),
{
    let s0 = explore_start(frontier);
    assert(s0.arrived + s0.queue =~= frontier);
    assert(frontier + s0.output =~= frontier);
    lemma_run_ends(g, forward, frontier, s0, g.len());
    lemma_run_totals(g, forward, frontier, s0, g.len());
    let s = explore_run(g, forward, s0, g.len());
    lemma_inv_arrived(g, forward, frontier, s);
    assert forall|i: int| 0 <= i < s.output.len() implies {
        let m = group_node((#[trigger] s.output[i]).0, forward);
        &&& arrival_count(s.arrived, m, forward) == in_count(g, m, forward)
        &&& s.output[i].1 == arrival_sum(s.arrived, m, forward) as u64
        &&& forall|e: PagEdge|
            g.contains(e) && join_node(e, forward) == m ==> edges_of(s.arrived).contains(e)
    } by {
        let m = group_node(s.output[i].0, forward);
        lemma_arrivals_bounded(g, s.arrived, m, forward);
        lemma_all_joined_arrived(g, s.arrived, m, forward);
    }
}

/// Where as many distinct graph edges arrived at `m` as edges join it,
/// every edge joining it has arrived.
proof fn lemma_all_joined_arrived(g: Seq<PagEdge>, a: Seq<(PagEdge, u64)>, m: PagNode, forward: bool)
    requires
        edges_of(a).no_duplicates(),
        forall|i: int| 0 <= i < a.len() ==> g.contains(#[trigger] a[i].0),
        arrival_count(a, m, forward) >= in_count(g, m, forward),
    ensures
        forall|e: PagEdge| g.contains(e) && join_node(e, forward) == m ==> edges_of(a).contains(e),
{
    lemma_arrived_edges(a, m, forward);
    lemma_joined_edges(g, m, forward);
    let ae = arrived_edges(a, m, forward);
    let je = joined_edges(g, m, forward);
    assert forall|e: PagEdge| g.contains(e) && join_node(e, forward) == m implies edges_of(a).contains(e) by {
        if !edges_of(a).contains(e) {
            // `ae` and `e` are distinct edges joining `m`: one more than `je` holds.
            let ae2 = ae.push(e);
            assert(!ae.contains(e));
            assert(ae2.no_duplicates()) by {
                assert forall|i: int, j: int| 0 <= i < ae2.len() && 0 <= j < ae2.len() && i != j implies ae2[i] != ae2[j] by {
                    if i < ae.len() && j < ae.len() {
                    } else if i < ae.len() {
                        assert(ae.contains(ae[i]));
                    } else {
                        assert(ae.contains(ae[j]));
                    }
                }
            }
            assert forall|x: PagEdge| ae2.contains(x) implies je.contains(x) by {
                let k = choose|k: int| 0 <= k < ae2.len() && ae2[k] == x;
                if k < ae.len() {
                    assert(ae.contains(x));
                    lemma_edges_of_index(a);
                    let j = choose|j: int| 0 <= j < edges_of(a).len() && edges_of(a)[j] == x;
                    assert(g.contains(a[j].0));
                }
            }
            lemma_distinct_within(ae2, je);
        }
    }
}

proof fn lemma_arrival_sum_grows(a: Seq<(PagEdge, u64)>, b: Seq<(PagEdge, u64)>, n: PagNode, forward: bool)
    ensures
        arrival_sum(a, n, forward) <= arrival_sum(a + b, n, forward),
    decreases b.len(),
{
    if b.len() > 0 {
        assert((a + b).drop_last() =~= a + b.drop_last());
        lemma_arrival_sum_grows(a, b.drop_last(), n, forward);
    } else {
        assert(a + b =~= a);
    }
}

proof fn lemma_run_extends(g: Seq<PagEdge>, forward: bool, s: Exploration, fuel: nat) -> (b: Seq<(PagEdge, u64)>)
    ensures
        explore_run(g, forward, s, fuel).arrived == s.arrived + b,
    decreases fuel,
{
    if fuel > 0 && s.queue.len() > 0 {
        let next = explore_step(g, forward, s);
        let b = lemma_run_extends(g, forward, next, (fuel - 1) as nat);
        assert(next.arrived + b =~= s.arrived + (seq![s.queue[0]] + b));
        seq![s.queue[0]] + b
    } else {
        assert(s.arrived + Seq::<(PagEdge, u64)>::empty() =~= s.arrived);
        Seq::empty()
    }
}

proof fn lemma_run_completes(
    g: Seq<PagEdge>,
    forward: bool,
    frontier: Seq<(PagEdge, u64)>,
    s: Exploration,
    fuel: nat,
    last: Seq<(PagEdge, u64)>,
    rest: Seq<(PagEdge, u64)>,
)
    requires
        g.no_duplicates(),
        explore_inv(g, forward, frontier, s),
        s.arrived.len() + fuel >= g.len(),
        last == explore_run(g, forward, s, fuel).arrived + rest,
        forall|n: PagNode| #[trigger] arrival_sum(last, n, forward) <= u64::MAX,
    ensures
        explore_completes(g, forward, s, fuel),
    decreases fuel,
{
    lemma_items_bounded(g, forward, frontier, s);
    if s.queue.len() > 0 {
        let next = explore_step(g, forward, s);
        let d = s.queue[0];
        let n = join_node(d.0, forward);
        lemma_step_inv(g, forward, frontier, s);
        let c = lemma_run_extends(g, forward, next, (fuel - 1) as nat);
        assert(last == next.arrived + (c + rest)) by {
            assert(explore_run(g, forward, next, (fuel - 1) as nat).arrived + rest =~= next.arrived + (c + rest));
        }
        lemma_arrival_sum_grows(next.arrived, c + rest, n, forward);
        assert(arrival_sum(last, n, forward) <= u64::MAX);
        lemma_run_completes(g, forward, frontier, next, (fuel - 1) as nat, last, rest);
    }
}

/// Exploring a graph of distinct edges from seeds at its sources comes to
/// an end without overflow whenever the counts that arrive at each node in
/// the run of as many steps as the graph has edges total at most
/// `u64::MAX`: the only way such an exploration fails is an overflow.
pub proof fn lemma_exploration_terminates(g: Seq<PagEdge>, forward: bool, frontier: Seq<(PagEdge, u64)>)
    requires
        g.no_duplicates(),
        seeds_at_sources(g, forward, frontier),
        forall|n: PagNode|
            #[trigger] arrival_sum(
                explore_run(g, forward, explore_start(frontier), g.len()).arrived,
                n,
                forward,
            ) <= u64::MAX,
    ensures
        explore_terminates(g, forward, frontier),
{
    let s0 = explore_start(frontier);
    assert(s0.arrived + s0.queue =~= frontier);
    assert(frontier + s0.output =~= frontier);
    let last = explore_run(g, forward, s0, g.len()).arrived;
    assert(last == explore_run(g, forward, s0, g.len()).arrived + Seq::<(PagEdge, u64)>::empty());
    lemma_run_completes(g, forward, frontier, s0, g.len(), last, Seq::empty());
}

/// An edge turned around.
pub open spec fn reversed(e: PagEdge) -> PagEdge {
    PagEdge { source: e.destination, destination: e.source, edge_type: e.edge_type }
}

/// A graph with every edge turned around.
pub open spec fn reversed_graph(g: Seq<PagEdge>) -> Seq<PagEdge> {
    g.map_values(|e: PagEdge| reversed(e))
}

/// Items with every edge turned around, counts kept.
pub open spec fn reversed_items(q: Seq<(PagEdge, u64)>) -> Seq<(PagEdge, u64)> {
    q.map_values(|x: (PagEdge, u64)| (reversed(x.0), x.1))
}

/// An exploration state with every edge turned around.
pub open spec fn reversed_state(s: Exploration) -> Exploration {
    Exploration {
        arrived: reversed_items(s.arrived),
        queue: reversed_items(s.queue),
        output: reversed_items(s.output),
    }
}

proof fn lemma_reversed_graph_last(g: Seq<PagEdge>)
    requires
        g.len() > 0,
    ensures
        reversed_graph(g).drop_last() == reversed_graph(g.drop_last()),
        reversed_graph(g).last() == reversed(g.last()),
        reversed_graph(g).len() == g.len(),
{
    assert(reversed_graph(g).drop_last() =~= reversed_graph(g.drop_last()));
}

proof fn lemma_reversed_items_last(q: Seq<(PagEdge, u64)>)
    requires
        q.len() > 0,
    ensures
        reversed_items(q).drop_last() == reversed_items(q.drop_last()),
        reversed_items(q).last() == (reversed(q.last().0), q.last().1),
{
    assert(reversed_items(q).drop_last() =~= reversed_items(q.drop_last()));
}

proof fn lemma_reversed_graph_counts(g: Seq<PagEdge>, n: PagNode)
    ensures
        in_count(reversed_graph(g), n, true) == in_count(g, n, false),
        is_graph_node(reversed_graph(g), n, true) == is_graph_node(g, n, false),
        outgoing_of(reversed_graph(g), n, true) == reversed_graph(outgoing_of(g, n, false)),
    decreases g.len(),
{
    if g.len() > 0 {
        lemma_reversed_graph_last(g);
        lemma_reversed_graph_counts(g.drop_last(), n);
        let p = outgoing_of(g.drop_last(), n, false);
        assert(reversed_graph(p.push(g.last())) =~= reversed_graph(p).push(reversed(g.last())));
    } else {
        assert(reversed_graph(g) =~= Seq::<PagEdge>::empty());
        assert(reversed_graph(Seq::<PagEdge>::empty()) =~= Seq::<PagEdge>::empty());
    }
}

proof fn lemma_reversed_arrivals(a: Seq<(PagEdge, u64)>, n: PagNode)
    ensures
        arrival_count(reversed_items(a), n, true) == arrival_count(a, n, false),
        arrival_sum(reversed_items(a), n, true) == arrival_sum(a, n, false),
    decreases a.len(),
{
    if a.len() > 0 {
        lemma_reversed_items_last(a);
        lemma_reversed_arrivals(a.drop_last(), n);
        assert(reversed_items(a).len() > 0);
    } else {
        assert(reversed_items(a) =~= Seq::<(PagEdge, u64)>::empty());
    }
}

proof fn lemma_reversed_step(g: Seq<PagEdge>, s: Exploration)
    requires
        s.queue.len() > 0,
    ensures
        explore_step(reversed_graph(g), true, reversed_state(s)) == reversed_state(explore_step(g, false, s)),
        step_fits(reversed_graph(g), true, reversed_state(s)) == step_fits(g, false, s),
{
    let rs = reversed_state(s);
    let rg = reversed_graph(g);
    let d = s.queue[0];
    let n = join_node(d.0, false);
    assert(rs.queue[0] == (reversed(d.0), d.1));
    assert(join_node(rs.queue[0].0, true) == n);
    assert(rs.arrived.push(rs.queue[0]) =~= reversed_items(s.arrived.push(d)));
    assert(rs.queue.drop_first() =~= reversed_items(s.queue.drop_first()));
    lemma_reversed_graph_counts(g, n);
    lemma_reversed_arrivals(s.arrived.push(d), n);
    let c = arrival_sum(s.arrived.push(d), n, false) as u64;
    let outs = outgoing_of(g, n, false);
    assert(emissions(reversed_graph(outs), c) =~= reversed_items(emissions(outs, c)));
    assert(reversed_items(s.queue.drop_first() + emissions(outs, c)) =~= reversed_items(s.queue.drop_first())
        + reversed_items(emissions(outs, c)));
    assert(reversed_items(s.output + emissions(outs, c)) =~= reversed_items(s.output) + reversed_items(
        emissions(outs, c),
    ));
}

proof fn lemma_reversed_run(g: Seq<PagEdge>, s: Exploration, fuel: nat)
    ensures
        explore_run(reversed_graph(g), true, reversed_state(s), fuel) == reversed_state(explore_run(g, false, s, fuel)),
        explore_completes(reversed_graph(g), true, reversed_state(s), fuel) == explore_completes(g, false, s, fuel),
    decreases fuel,
{
    if s.queue.len() > 0 {
        lemma_reversed_step(g, s);
        if fuel > 0 {
            lemma_reversed_run(g, explore_step(g, false, s), (fuel - 1) as nat);
        }
    } else {
        assert(reversed_state(s).queue.len() == 0);
    }
}

/// Two step counts that both let an exploration come to an end reach the
/// same final state.
proof fn lemma_run_stable(g: Seq<PagEdge>, forward: bool, s: Exploration, f1: nat, f2: nat)
    requires
        explore_completes(g, forward, s, f1),
        explore_completes(g, forward, s, f2),
    ensures
        explore_run(g, forward, s, f1) == explore_run(g, forward, s, f2),
    decreases f1,
{
    if s.queue.len() > 0 {
        lemma_run_stable(g, forward, explore_step(g, forward, s), (f1 - 1) as nat, (f2 - 1) as nat);
    }
}

/// Exploring backward is exploring forward with every edge turned around:
/// both end alike, and what the backward exploration emits is, edge by
/// edge turned around, what the forward one emits.
pub proof fn lemma_backward_is_reversed_forward(g: Seq<PagEdge>, frontier: Seq<(PagEdge, u64)>)
    ensures
        explore_terminates(reversed_graph(g), true, reversed_items(frontier)) == explore_terminates(
            g,
            false,
            frontier,
        ),
        explore_terminates(g, false, frontier) ==> explore_output(reversed_graph(g), true, reversed_items(frontier))
            == reversed_items(explore_output(g, false, frontier)),
{
    let rg = reversed_graph(g);
    let rf = reversed_items(frontier);
    let s0 = explore_start(frontier);
    assert(explore_start(rf) == reversed_state(s0)) by {
        assert(reversed_items(Seq::<(PagEdge, u64)>::empty()) =~= Seq::<(PagEdge, u64)>::empty());
    }
    if explore_terminates(g, false, frontier) {
        let f = explore_fuel(g, false, frontier);
        lemma_reversed_run(g, s0, f);
        assert(explore_terminates(rg, true, rf));
        let fr = explore_fuel(rg, true, rf);
        lemma_reversed_run(g, s0, fr);
        lemma_run_stable(g, false, s0, f, fr);
    }
    if explore_terminates(rg, true, rf) {
        let fr = explore_fuel(rg, true, rf);
        lemma_reversed_run(g, s0, fr);
    }
}

/// The records kept under epoch `e` in a map of pending epochs.
pub open spec fn epoch_of<T>(m: Map<u64, Seq<T>>, e: u64) -> Seq<T> {
    if m.contains_key(e) {
        m[e]
    } else {
        Seq::empty()
    }
}

/// The records of epoch `e`, in order, by the epoch each belongs to.
pub open spec fn select_epoch<T>(records: Seq<T>, epoch: spec_fn(T) -> u64, e: u64) -> Seq<T>
    decreases records.len(),
{
    if records.len() == 0 {
        Seq::empty()
    } else if epoch(records.last()) == e {
        select_epoch(records.drop_last(), epoch, e).push(records.last())
    } else {
        select_epoch(records.drop_last(), epoch, e)
    }
}

/// The map of pending epochs after the records were received one by one,
/// each appended under its own epoch (as `add_graph_edge` and
/// `add_frontier` do).
pub open spec fn received<T>(m: Map<u64, Seq<T>>, records: Seq<T>, epoch: spec_fn(T) -> u64) -> Map<u64, Seq<T>>
    decreases records.len(),
{
    if records.len() == 0 {
        m
    } else {
        let m1 = received(m, records.drop_last(), epoch);
        let x = records.last();
        m1.insert(epoch(x), epoch_of(m1, epoch(x)).push(x))
    }
}

/// Each epoch is kept apart: what is pending for epoch `e` after records
/// were received is what was pending before, followed by exactly the
/// records of epoch `e`, whatever records of other epochs came. So the
/// output that `notify` gives for an epoch depends only on that epoch's
/// graph records and frontier records.
pub proof fn lemma_epochs_kept_apart<T>(m: Map<u64, Seq<T>>, records: Seq<T>, epoch: spec_fn(T) -> u64, e: u64)
    ensures
        epoch_of(received(m, records, epoch), e) == epoch_of(m, e) + select_epoch(records, epoch, e),
    decreases records.len(),
{
    if records.len() == 0 {
        assert(epoch_of(m, e) + Seq::<T>::empty() =~= epoch_of(m, e));
    } else {
        lemma_epochs_kept_apart(m, records.drop_last(), epoch, e);
        let x = records.last();
        if epoch(x) == e {
            assert((epoch_of(m, e) + select_epoch(records.drop_last(), epoch, e)).push(x) =~= epoch_of(m, e)
                + select_epoch(records.drop_last(), epoch, e).push(x));
        }
    }
}

/// The edges of `g` that the metric traverses (see `PagEdge::is_traversed`).
pub open spec fn traversed_edges(g: Seq<PagEdge>, with_waiting: bool) -> Seq<PagEdge>
    decreases g.len(),
{
    if g.len() == 0 {
        Seq::empty()
    } else if with_waiting || !(g.last().edge_type is Waiting) {
        traversed_edges(g.drop_last(), with_waiting).push(g.last())
    } else {
        traversed_edges(g.drop_last(), with_waiting)
    }
}

proof fn lemma_traversed_edges(g: Seq<PagEdge>)
    ensures
        traversed_edges(g, true) == g,
        forall|i: int|
            0 <= i < traversed_edges(g, false).len() ==> !((#[trigger] traversed_edges(g, false)[i]).edge_type is Waiting),
    decreases g.len(),
{
    if g.len() > 0 {
        lemma_traversed_edges(g.drop_last());
        assert(g.drop_last().push(g.last()) =~= g);
        let p = traversed_edges(g.drop_last(), false);
        assert forall|i: int|
            0 <= i < traversed_edges(g, false).len() implies !((#[trigger] traversed_edges(g, false)[i]).edge_type is Waiting) by {
            if i < p.len() {
                assert(traversed_edges(g, false)[i] == p[i]);
            }
        }
    } else {
        assert(traversed_edges(g, true) =~= g);
    }
}

/// Waiting edges are never traversed when the metric runs without them:
/// the edges it keeps are those it keeps when it runs with them on the
/// records stripped of waiting edges; none of them is a waiting edge; and
/// no exploration of them, from any frontier, emits a waiting edge.
pub proof fn lemma_waiting_never_traversed(g: Seq<PagEdge>, forward: bool, frontier: Seq<(PagEdge, u64)>)
    ensures
        traversed_edges(traversed_edges(g, false), true) == traversed_edges(g, false),
        forall|i: int|
            0 <= i < traversed_edges(g, false).len() ==> !((#[trigger] traversed_edges(g, false)[i]).edge_type is Waiting),
        forall|i: int|
            0 <= i < explore_output(traversed_edges(g, false), forward, frontier).len() ==> !((
            #[trigger] explore_output(traversed_edges(g, false), forward, frontier)[i]).0.edge_type is Waiting),
{
    let t = traversed_edges(g, false);
    lemma_traversed_edges(g);
    lemma_traversed_edges(t);
    lemma_outputs_are_graph_edges(t, forward, frontier);
    let o = explore_output(t, forward, frontier);
    assert forall|i: int| 0 <= i < o.len() implies !((#[trigger] o[i]).0.edge_type is Waiting) by {
        assert(t.contains(o[i].0));
        let k = choose|k: int| 0 <= k < t.len() && t[k] == o[i].0;
        assert(!(t[k].edge_type is Waiting));
    }
}

proof fn lemma_completes_more(g: Seq<PagEdge>, forward: bool, s: Exploration, f: nat)
    requires
        explore_completes(g, forward, s, f),
    ensures
        explore_completes(g, forward, s, f + 1),
        explore_run(g, forward, s, f + 1) == explore_run(g, forward, s, f),
    decreases f,
{
    if s.queue.len() > 0 {
        lemma_completes_more(g, forward, explore_step(g, forward, s), (f - 1) as nat);
        assert((f + 1 - 1) as nat == ((f - 1) as nat) + 1);
    }
}

/// Two arrival records that agree at every node of the graph.
pub open spec fn arrivals_agree(g: Seq<PagEdge>, forward: bool, a1: Seq<(PagEdge, u64)>, a2: Seq<(PagEdge, u64)>) -> bool {
    forall|n: PagNode|
        #[trigger] is_graph_node(g, n, forward) ==> arrival_count(a1, n, forward) == arrival_count(a2, n, forward)
            && arrival_sum(a1, n, forward) == arrival_sum(a2, n, forward)
}

/// State `s1` is state `s2` with the item `x`, which arrives outside the
/// graph, still waiting at position `k` (or already gone, where `k < 0`).
pub open spec fn with_stray(
    g: Seq<PagEdge>,
    forward: bool,
    x: (PagEdge, u64),
    s1: Exploration,
    s2: Exploration,
    k: int,
) -> bool {
    &&& !is_graph_node(g, join_node(x.0, forward), forward)
    &&& s1.output == s2.output
    &&& arrivals_agree(g, forward, s1.arrived, s2.arrived)
    &&& if k < 0 {
        s1.queue == s2.queue
    } else {
        k <= s2.queue.len() && s1.queue == s2.queue.insert(k, x)
    }
}

proof fn lemma_agree_push(g: Seq<PagEdge>, forward: bool, a1: Seq<(PagEdge, u64)>, a2: Seq<(PagEdge, u64)>, d: (PagEdge, u64))
    requires
        arrivals_agree(g, forward, a1, a2),
    ensures
        arrivals_agree(g, forward, a1.push(d), a2.push(d)),
{
    assert forall|n: PagNode| #[trigger] is_graph_node(g, n, forward) implies arrival_count(a1.push(d), n, forward)
        == arrival_count(a2.push(d), n, forward) && arrival_sum(a1.push(d), n, forward) == arrival_sum(
        a2.push(d),
        n,
        forward,
    ) by {
        lemma_push_arrival(a1, d, n, forward);
        lemma_push_arrival(a2, d, n, forward);
    }
}

proof fn lemma_stray_step(g: Seq<PagEdge>, forward: bool, x: (PagEdge, u64), s1: Exploration, s2: Exploration, k: int)
    requires
        with_stray(g, forward, x, s1, s2, k),
        k != 0,
        s2.queue.len() > 0,
    ensures
        s1.queue.len() > 0,
        step_fits(g, forward, s1) == step_fits(g, forward, s2),
        with_stray(
            g,
            forward,
            x,
            explore_step(g, forward, s1),
            explore_step(g, forward, s2),
            if k < 0 { -1 } else { k - 1 },
        ),
{
    let d = s2.queue[0];
    assert(s1.queue[0] == d);
    let n = join_node(d.0, forward);
    lemma_agree_push(g, forward, s1.arrived, s2.arrived, d);
    let n1 = explore_step(g, forward, s1);
    let n2 = explore_step(g, forward, s2);
    if k > 0 {
        assert(s1.queue.drop_first() =~= s2.queue.drop_first().insert(k - 1, x));
        let em = emissions(outgoing_of(g, n, forward), arrival_sum(s2.arrived.push(d), n, forward) as u64);
        assert(s1.queue.drop_first() + em =~= (s2.queue.drop_first() + em).insert(k - 1, x));
    }
}

proof fn lemma_stray_skip(g: Seq<PagEdge>, forward: bool, x: (PagEdge, u64), s1: Exploration, s2: Exploration)
    requires
        with_stray(g, forward, x, s1, s2, 0),
    ensures
        s1.queue.len() > 0,
        step_fits(g, forward, s1),
        with_stray(g, forward, x, explore_step(g, forward, s1), s2, -1),
{
    assert(s1.queue[0] == x);
    assert(s1.queue.drop_first() =~= s2.queue);
    assert forall|n: PagNode| #[trigger] is_graph_node(g, n, forward) implies arrival_count(
        s1.arrived.push(x),
        n,
        forward,
    ) == arrival_count(s2.arrived, n, forward) && arrival_sum(s1.arrived.push(x), n, forward) == arrival_sum(
        s2.arrived,
        n,
        forward,
    ) by {
        lemma_push_arrival(s1.arrived, x, n, forward);
    }
}

proof fn lemma_stray_forward(
    g: Seq<PagEdge>,
    forward: bool,
    x: (PagEdge, u64),
    s1: Exploration,
    s2: Exploration,
    k: int,
    f: nat,
)
    requires
        with_stray(g, forward, x, s1, s2, k),
        explore_completes(g, forward, s2, f),
    ensures
        explore_completes(g, forward, s1, f + if k >= 0 { 1nat } else { 0nat }),
        explore_run(g, forward, s1, f + if k >= 0 { 1nat } else { 0nat }).output == explore_run(
            g,
            forward,
            s2,
            f,
        ).output,
    decreases f, k + 1,
{
    if k == 0 {
        lemma_stray_skip(g, forward, x, s1, s2);
        lemma_stray_forward(g, forward, x, explore_step(g, forward, s1), s2, -1, f);
    } else if s2.queue.len() == 0 {
        assert(k < 0);
    } else {
        lemma_stray_step(g, forward, x, s1, s2, k);
        let k2 = if k < 0 { -1 } else { k - 1 };
        lemma_stray_forward(g, forward, x, explore_step(g, forward, s1), explore_step(g, forward, s2), k2, (f - 1) as nat);
        if k > 0 {
            assert((f + 1 - 1) as nat == ((f - 1) as nat) + 1);
        }
    }
}

proof fn lemma_stray_backward(
    g: Seq<PagEdge>,
    forward: bool,
    x: (PagEdge, u64),
    s1: Exploration,
    s2: Exploration,
    k: int,
    f: nat,
)
    requires
        with_stray(g, forward, x, s1, s2, k),
        explore_completes(g, forward, s1, f),
    ensures
        explore_completes(g, forward, s2, f),
        explore_run(g, forward, s2, f).output == explore_run(g, forward, s1, f).output,
    decreases f,
{
    if k == 0 {
        lemma_stray_skip(g, forward, x, s1, s2);
        lemma_stray_backward(g, forward, x, explore_step(g, forward, s1), s2, -1, (f - 1) as nat);
        lemma_completes_more(g, forward, s2, (f - 1) as nat);
    } else if s2.queue.len() == 0 {
        assert(k < 0);
    } else {
        lemma_stray_step(g, forward, x, s1, s2, k);
        let k2 = if k < 0 { -1 } else { k - 1 };
        lemma_stray_backward(g, forward, x, explore_step(g, forward, s1), explore_step(g, forward, s2), k2, (f - 1) as nat);
    }
}

/// A frontier item that arrives at no node of the graph changes nothing:
/// with it or without it, wherever it stands in the frontier, the
/// exploration ends alike and emits the same.
pub proof fn lemma_stray_frontier_item(
    g: Seq<PagEdge>,
    forward: bool,
    frontier: Seq<(PagEdge, u64)>,
    k: int,
    x: (PagEdge, u64),
)
    requires
        0 <= k <= frontier.len(),
        !is_graph_node(g, join_node(x.0, forward), forward),
    ensures
        explore_terminates(g, forward, frontier.insert(k, x)) == explore_terminates(g, forward, frontier),
        explore_terminates(g, forward, frontier) ==> explore_output(g, forward, frontier.insert(k, x))
            == explore_output(g, forward, frontier),
{
    let f1 = frontier.insert(k, x);
    let s1 = explore_start(f1);
    let s2 = explore_start(frontier);
    assert(with_stray(g, forward, x, s1, s2, k));
    if explore_terminates(g, forward, frontier) {
        let f = explore_fuel(g, forward, frontier);
        lemma_stray_forward(g, forward, x, s1, s2, k, f);
        assert(explore_completes(g, forward, s1, f + 1));
        let fx = explore_fuel(g, forward, f1);
        lemma_run_stable(g, forward, s1, f + 1, fx);
    }
    if explore_terminates(g, forward, f1) {
        let fx = explore_fuel(g, forward, f1);
        lemma_stray_backward(g, forward, x, s1, s2, k, fx);
        assert(explore_completes(g, forward, s2, fx));
    }
}

/// Every node that has seen all its joined edges arrive (and has some) has
/// emitted each of its outgoing edges with the total count that arrived.
pub open spec fn complete_nodes_emitted(g: Seq<PagEdge>, forward: bool, s: Exploration) -> bool {
    forall|m: PagNode, j: int|
        in_count(g, m, forward) >= 1 && arrival_count(s.arrived, m, forward) >= in_count(g, m, forward) && 0 <= j
            < outgoing_of(g, m, forward).len() ==> s.output.contains(
            (#[trigger] outgoing_of(g, m, forward)[j], arrival_sum(s.arrived, m, forward) as u64),
        )
}

proof fn lemma_step_complete(g: Seq<PagEdge>, forward: bool, frontier: Seq<(PagEdge, u64)>, s: Exploration)
    requires
        g.no_duplicates(),
        s.queue.len() > 0,
        explore_inv(g, forward, frontier, s),
        complete_nodes_emitted(g, forward, s),
    ensures
        complete_nodes_emitted(g, forward, explore_step(g, forward, s)),
{
    let d = s.queue[0];
    let n = join_node(d.0, forward);
    let a2 = s.arrived.push(d);
    let next = explore_step(g, forward, s);
    lemma_step_inv(g, forward, frontier, s);
    lemma_inv_arrived(g, forward, frontier, next);
    assert(next.arrived == a2);
    assert forall|m: PagNode, j: int|
        in_count(g, m, forward) >= 1 && arrival_count(next.arrived, m, forward) >= in_count(g, m, forward) && 0 <= j
            < outgoing_of(g, m, forward).len() implies next.output.contains(
        (#[trigger] outgoing_of(g, m, forward)[j], arrival_sum(next.arrived, m, forward) as u64),
    ) by {
        lemma_push_arrival(s.arrived, d, m, forward);
        let item = (outgoing_of(g, m, forward)[j], arrival_sum(a2, m, forward) as u64);
        if m != n {
            assert(s.output.contains(item));
            let i = choose|i: int| 0 <= i < s.output.len() && s.output[i] == item;
            assert(next.output[i] == item);
        } else if arrival_count(s.arrived, m, forward) >= in_count(g, m, forward) {
            lemma_arrivals_bounded(g, a2, m, forward);
        } else {
            lemma_joined_edges(g, n, forward);
            assert(g.contains(d.0)) by {
                let items = s.arrived + s.queue;
                assert(items[s.arrived.len() as int] == d);
            }
            assert(joined_edges(g, n, forward).contains(d.0));
            let k = choose|k: int| 0 <= k < joined_edges(g, n, forward).len() && joined_edges(g, n, forward)[k] == d.0;
            assert(is_graph_node(g, n, forward)) by {
                lemma_not_node_no_joins_contra(g, n, forward);
            }
            assert(next.output[s.output.len() + j] == item);
        }
    }
}

proof fn lemma_not_node_no_joins_contra(g: Seq<PagEdge>, n: PagNode, forward: bool)
    requires
        in_count(g, n, forward) >= 1,
    ensures
        is_graph_node(g, n, forward),
{
    if !is_graph_node(g, n, forward) {
        lemma_not_node_no_joins(g, n, forward);
    }
}

proof fn lemma_run_complete(g: Seq<PagEdge>, forward: bool, frontier: Seq<(PagEdge, u64)>, s: Exploration, fuel: nat)
    requires
        g.no_duplicates(),
        explore_inv(g, forward, frontier, s),
        complete_nodes_emitted(g, forward, s),
    ensures
        complete_nodes_emitted(g, forward, explore_run(g, forward, s, fuel)),
    decreases fuel,
{
    if fuel > 0 && s.queue.len() > 0 {
        lemma_step_inv(g, forward, frontier, s);
        lemma_step_complete(g, forward, frontier, s);
        lemma_run_complete(g, forward, frontier, explore_step(g, forward, s), (fuel - 1) as nat);
    }
}

/// Exploring a graph of distinct edges from seeds at its sources, a node
/// fires once every edge joining it has arrived: each of its outgoing
/// edges is emitted, carrying the total count of those arrivals. Together
/// with `lemma_emission_totals`, the edges emitted are exactly the outgoing
/// edges of the nodes that all their joined edges reached.
pub proof fn lemma_complete_nodes_fire(g: Seq<PagEdge>, forward: bool, frontier: Seq<(PagEdge, u64)>)
    requires
        g.no_duplicates(),
        seeds_at_sources(g, forward, frontier),
    ensures
        complete_nodes_emitted(g, forward, explore_run(g, forward, explore_start(frontier), g.len())),
{
    let s0 = explore_start(frontier);
    assert(s0.arrived + s0.queue =~= frontier);
    assert(frontier + s0.output =~= frontier);
    assert forall|m: PagNode, j: int|
        in_count(g, m, forward) >= 1 && arrival_count(s0.arrived, m, forward) >= in_count(g, m, forward) && 0 <= j
            < outgoing_of(g, m, forward).len() implies s0.output.contains(
        (#[trigger] outgoing_of(g, m, forward)[j], arrival_sum(s0.arrived, m, forward) as u64),
    ) by {
        assert(arrival_count(s0.arrived, m, forward) == 0);
    }
    lemma_run_complete(g, forward, frontier, s0, g.len());
}

// ---------------------------------------------------------------------------
// Exploration of a stream of epochs
// ---------------------------------------------------------------------------

broadcast use vstd::std_specs::hash::group_hash_axioms;

/// The state of an exploration over a stream of epochs: the graph edges and
/// frontier items received so far, each kept under its epoch until that
/// epoch is complete.
pub struct GroupExplorer {
    forward: bool,
    node_data: HashMap<u64, NodeTable>,
    frontier_stash: HashMap<u64, VecDeque<(PagEdge, u64)>>,
    graph: Ghost<Map<u64, Seq<PagEdge>>>,
}

impl GroupExplorer {
    /// Whether the exploration runs forward (joining at destinations).
    pub closed spec fn is_forward(&self) -> bool {
        self.forward
    }

    /// The graph edges received for each pending epoch, in order.
    pub closed spec fn graph(&self) -> Map<u64, Seq<PagEdge>> {
        self.graph@
    }

    /// The frontier items received for each pending epoch, in order.
    pub closed spec fn frontier(&self) -> Map<u64, Seq<(PagEdge, u64)>> {
        Map::new(
            |e: u64| self.frontier_stash@.contains_key(e),
            |e: u64| self.frontier_stash@[e]@,
        )
    }

    /// The graph edges received for epoch `e` (none where nothing came).
    pub open spec fn epoch_graph(&self, e: u64) -> Seq<PagEdge> {
        epoch_of(self.graph(), e)
    }

    /// The frontier items received for epoch `e` (none where nothing came).
    pub open spec fn epoch_frontier(&self, e: u64) -> Seq<(PagEdge, u64)> {
        epoch_of(self.frontier(), e)
    }

    /// Each pending epoch's node table is built from that epoch's edges.
    pub closed spec fn wf(&self) -> bool {
        &&& self.node_data@.dom() == self.graph@.dom()
        &&& forall|e: u64|
            #[trigger] self.node_data@.contains_key(e) ==> table_built(
                self.node_data@[e]@,
                self.graph@[e],
                self.forward,
            )
    }

    /// An exploration with nothing received yet.
    pub fn new(forward: bool) -> (r: Self)
        ensures
            r.wf(),
            r.is_forward() == forward,
            r.graph() == Map::<u64, Seq<PagEdge>>::empty(),
            r.frontier() == Map::<u64, Seq<(PagEdge, u64)>>::empty(),
    {
        let r = GroupExplorer {
            forward,
            node_data: HashMap::new(),
            frontier_stash: HashMap::new(),
            graph: Ghost(Map::empty()),
        };
        assert(r.frontier() =~= Map::<u64, Seq<(PagEdge, u64)>>::empty());
        r
    }

    /// How many edges of epoch `epoch` the exploration joins at `node`.
    pub fn in_degree_of(&self, epoch: u64, node: &PagNode) -> (r: u32)
        requires
            self.wf(),
        ensures
            r == in_count(self.epoch_graph(epoch), *node, self.is_forward()),
    {
        match self.node_data.get(&epoch) {
            Some(table) => {
                let ghost g = self.graph@[epoch];
                match find_node(table, node) {
                    Some(k) => {
                        assert(table@[k as int].1.in_degree == sat_sub(
                            in_count(g, *node, self.forward),
                            arrival_count(Seq::empty(), *node, self.forward),
                        ));
                        table[k].1.in_degree
                    },
                    None => {
                        proof {
                            if is_graph_node(g, *node, self.forward) {
                                let i = choose|i: int|
                                    0 <= i < table@.len() && #[trigger] table@[i].0 == *node;
                            }
                            lemma_not_node_no_joins(g, *node, self.forward);
                        }
                        0
                    },
                }
            },
            None => 0,
        }
    }

    /// Receives a graph edge: it belongs to the epoch of its source.
    pub fn add_graph_edge(&mut self, edge: PagEdge)
        requires
            old(self).wf(),
            in_count(
                old(self).epoch_graph(edge.source.epoch).push(edge),
                join_node(edge, old(self).is_forward()),
                old(self).is_forward(),
            ) <= u32::MAX,
        ensures
            final(self).wf(),
            final(self).is_forward() == old(self).is_forward(),
            final(self).graph() == old(self).graph().insert(
                edge.source.epoch,
                old(self).epoch_graph(edge.source.epoch).push(edge),
            ),
            final(self).frontier() == old(self).frontier(),
    {
        let epoch = edge.source.epoch;
        let ghost g = self.epoch_graph(epoch);
        let mut table = match self.node_data.remove(&epoch) {
            Some(t) => t,
            None => Vec::new(),
        };
        table_add_edge(&mut table, edge, self.forward, Ghost(g));
        self.node_data.insert(epoch, table);
        self.graph = Ghost(self.graph@.insert(epoch, g.push(edge)));
        assert(self.node_data@.dom() =~= self.graph@.dom());
    }

    /// Receives a frontier item: it belongs to the epoch of its edge's source.
    pub fn add_frontier(&mut self, datum: (PagEdge, u64))
        requires
            old(self).wf(),
        ensures
            final(self).wf(),
            final(self).is_forward() == old(self).is_forward(),
            final(self).graph() == old(self).graph(),
            final(self).frontier() == old(self).frontier().insert(
                datum.0.source.epoch,
                old(self).epoch_frontier(datum.0.source.epoch).push(datum),
            ),
    {
        let epoch = datum.0.source.epoch;
        let ghost before = self.frontier();
        let mut items = match self.frontier_stash.remove(&epoch) {
            Some(q) => q,
            None => VecDeque::new(),
        };
        items.push_back(datum);
        self.frontier_stash.insert(epoch, items);
        assert(self.frontier() =~= before.insert(
            epoch,
            (if before.contains_key(epoch) { before[epoch] } else { Seq::empty() }).push(datum),
        ));
    }

    /// The time at which the epoch of `time` is complete: the next epoch,
    /// at system time zero.
    pub fn completion_time(time: &Pair<u64, Duration>) -> (r: Pair<u64, Duration>)
        requires
            time.first < u64::MAX,
        ensures
            r.first == time.first + 1,
            r.second == duration_of_nanos(0),
    {
        Pair::new(time.first + 1, duration_from_nanos(0))
    }

    /// Completes the epoch before the one of `time`: explores its graph
    /// from its frontier, returns everything emitted, and drops the epoch.
    pub fn notify(&mut self, time: &Pair<u64, Duration>) -> (out: Vec<(PagEdge, u64)>)
        requires
            old(self).wf(),
            time.first >= 1,
            explore_terminates(
                old(self).epoch_graph((time.first - 1) as u64),
                old(self).is_forward(),
                old(self).epoch_frontier((time.first - 1) as u64),
            ),
        ensures
            final(self).wf(),
            final(self).is_forward() == old(self).is_forward(),
            out@ == explore_output(
                old(self).epoch_graph((time.first - 1) as u64),
                old(self).is_forward(),
                old(self).epoch_frontier((time.first - 1) as u64),
            ),
            final(self).graph() == old(self).graph().remove((time.first - 1) as u64),
            final(self).frontier() == old(self).frontier().remove((time.first - 1) as u64),
    {
        let epoch = time.first - 1;
        let ghost g = self.epoch_graph(epoch);
        let ghost before = self.frontier();
        let frontier_edges = match self.frontier_stash.remove(&epoch) {
            Some(q) => q,
            None => VecDeque::new(),
        };
        let mut table = match self.node_data.remove(&epoch) {
            Some(t) => t,
            None => Vec::new(),
        };
        let out = explore_table(&mut table, frontier_edges, self.forward, Ghost(g));
        self.graph = Ghost(self.graph@.remove(epoch));
        assert(self.node_data@.dom() =~= self.graph@.dom());
        assert(self.frontier() =~= before.remove(epoch));
        out
    }
}

} // verus!
