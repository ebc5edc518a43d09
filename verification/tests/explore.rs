use st2::{ActivityType, GroupExplorer, PagEdge, PagNode, Pair};
use std::time::Duration;

fn node(worker: u64, t: u64, start: bool, end: bool) -> PagNode {
    PagNode { timestamp: Duration::from_nanos(t), worker_id: worker, epoch: 3, start, end }
}

fn e(a: PagNode, b: PagNode) -> PagEdge {
    PagEdge { source: a, destination: b, edge_type: ActivityType::Processing }
}

/// s -> a, s -> b, a -> t, b -> t, t -> u
fn diamond() -> Vec<PagEdge> {
    let s = node(0, 1, true, false);
    let a = node(0, 2, false, false);
    let b = node(1, 2, false, false);
    let t = node(0, 3, false, false);
    let u = node(0, 4, false, true);
    vec![e(s, a), e(s, b), e(a, t), e(b, t), e(t, u)]
}

fn same(x: &PagEdge, y: &PagEdge) -> bool {
    x.source.same_as(&y.source) && x.destination.same_as(&y.destination)
}

#[test]
fn forward_exploration_counts_paths() {
    let g = diamond();
    let mut ex = GroupExplorer::new(true);
    for edge in &g {
        ex.add_graph_edge(*edge);
    }
    for edge in &g {
        if edge.starts_forward() {
            ex.add_frontier((*edge, 1));
        }
    }
    let out = ex.notify(&Pair::new(4, Duration::from_nanos(0)));
    assert_eq!(out.len(), 3);
    assert!(same(&out[0].0, &g[2]) && out[0].1 == 1);
    assert!(same(&out[1].0, &g[3]) && out[1].1 == 1);
    assert!(same(&out[2].0, &g[4]) && out[2].1 == 2);
}

#[test]
fn backward_exploration_counts_paths() {
    let g = diamond();
    let mut ex = GroupExplorer::new(false);
    for edge in &g {
        ex.add_graph_edge(*edge);
    }
    for edge in &g {
        if edge.starts_backward() {
            ex.add_frontier((*edge, 1));
        }
    }
    let out = ex.notify(&Pair::new(4, Duration::from_nanos(0)));
    assert_eq!(out.len(), 4);
    assert!(same(&out[0].0, &g[2]) && out[0].1 == 1);
    assert!(same(&out[1].0, &g[3]) && out[1].1 == 1);
    assert!(same(&out[2].0, &g[0]) && out[2].1 == 1);
    assert!(same(&out[3].0, &g[1]) && out[3].1 == 1);
}

#[test]
fn notify_only_completes_the_previous_epoch() {
    let g = diamond();
    let mut ex = GroupExplorer::new(true);
    for edge in &g {
        ex.add_graph_edge(*edge);
        if edge.starts_forward() {
            ex.add_frontier((*edge, 1));
        }
    }
    // epoch 2 holds nothing
    assert!(ex.notify(&Pair::new(3, Duration::from_nanos(0))).is_empty());
    // epoch 3 is still there
    assert_eq!(ex.notify(&Pair::new(4, Duration::from_nanos(0))).len(), 3);
    // and is gone once completed
    assert!(ex.notify(&Pair::new(4, Duration::from_nanos(0))).is_empty());
}

#[test]
fn no_frontier_emits_nothing() {
    let mut ex = GroupExplorer::new(true);
    for edge in &diamond() {
        ex.add_graph_edge(*edge);
    }
    assert!(ex.notify(&Pair::new(4, Duration::from_nanos(0))).is_empty());
}

#[test]
fn frontier_outside_the_graph_is_dropped() {
    let mut ex = GroupExplorer::new(true);
    let stray = e(node(7, 1, true, false), node(7, 2, false, false));
    ex.add_frontier((stray, 5));
    assert!(ex.notify(&Pair::new(4, Duration::from_nanos(0))).is_empty());
}

#[test]
fn in_degree_counts_joined_edges() {
    let g = diamond();
    let mut ex = GroupExplorer::new(true);
    for edge in &g {
        ex.add_graph_edge(*edge);
    }
    assert_eq!(ex.in_degree_of(3, &g[2].destination), 2);
    assert_eq!(ex.in_degree_of(3, &g[0].source), 0);
    assert_eq!(ex.in_degree_of(9, &g[2].destination), 0);
    let back = GroupExplorer::new(false);
    assert_eq!(back.in_degree_of(3, &g[0].source), 0);
}

#[test]
fn node_emits_again_on_extra_arrivals() {
    // a single edge x -> y; frontier sends it twice: y has in-degree 1,
    // so y emits (with 1, then 2) — it has no outgoing edges, so nothing
    // shows; add y -> z to see the emissions.
    let x = node(0, 1, true, false);
    let y = node(0, 2, false, false);
    let z = node(0, 3, false, true);
    let mut ex = GroupExplorer::new(true);
    ex.add_graph_edge(e(x, y));
    ex.add_graph_edge(e(y, z));
    ex.add_frontier((e(x, y), 1));
    ex.add_frontier((e(x, y), 1));
    let out = ex.notify(&Pair::new(4, Duration::from_nanos(0)));
    assert_eq!(out.len(), 2);
    assert_eq!(out[0].1, 1);
    assert_eq!(out[1].1, 2);
}

#[test]
fn completion_time_is_next_epoch_at_zero() {
    let t = GroupExplorer::completion_time(&Pair::new(6, Duration::from_nanos(77)));
    assert_eq!(t.first, 7);
    assert_eq!(t.second, Duration::from_nanos(0));
}

#[test]
fn edge_predicates() {
    let w = PagEdge {
        source: node(0, 1, true, false),
        destination: node(0, 2, false, true),
        edge_type: ActivityType::Waiting,
    };
    assert!(!w.is_traversed(false));
    assert!(w.is_traversed(true));
    assert!(w.starts_forward());
    assert!(w.starts_backward());
    let p = e(node(0, 1, false, false), node(0, 2, false, false));
    assert!(p.is_traversed(false));
    assert!(!p.starts_forward());
    assert!(p.join(true).same_as(&p.destination));
    assert!(p.group(true).same_as(&p.source));
    assert!(p.join(false).same_as(&p.source));
    assert!(!p.source.same_as(&p.destination));
}

#[test]
fn nodes_differing_only_in_time_are_distinct() {
    let a = node(0, 5, false, false);
    let b = node(0, 6, false, false);
    assert!(!a.same_as(&b));
    assert!(a.same_as(&node(0, 5, false, false)));
    let c = PagNode { timestamp: Duration::from_millis(1), ..a };
    let d = PagNode { timestamp: Duration::from_micros(1_000), ..a };
    assert!(c.same_as(&d));
}

fn rev(x: &PagEdge) -> PagEdge {
    PagEdge { source: x.destination, destination: x.source, edge_type: x.edge_type }
}

#[test]
fn backward_is_forward_on_the_reversed_graph() {
    let g = diamond();
    let mut back = GroupExplorer::new(false);
    let mut fwd = GroupExplorer::new(true);
    for edge in &g {
        back.add_graph_edge(*edge);
        fwd.add_graph_edge(rev(edge));
    }
    for edge in &g {
        if edge.starts_backward() {
            back.add_frontier((*edge, 1));
            fwd.add_frontier((rev(edge), 1));
        }
    }
    // the reversed graph's source epochs are those of the destinations: all 3
    let ob = back.notify(&Pair::new(4, Duration::from_nanos(0)));
    let of = fwd.notify(&Pair::new(4, Duration::from_nanos(0)));
    assert_eq!(ob.len(), of.len());
    for (x, y) in ob.iter().zip(of.iter()) {
        assert!(same(&rev(&x.0), &y.0));
        assert_eq!(x.1, y.1);
    }
}

#[test]
fn a_stray_frontier_item_changes_nothing() {
    let g = diamond();
    let stray = e(node(7, 1, true, false), node(7, 2, false, false));
    let mut with = GroupExplorer::new(true);
    let mut without = GroupExplorer::new(true);
    for edge in &g {
        with.add_graph_edge(*edge);
        without.add_graph_edge(*edge);
    }
    with.add_frontier((g[0], 1));
    with.add_frontier((stray, 9));
    with.add_frontier((g[1], 1));
    without.add_frontier((g[0], 1));
    without.add_frontier((g[1], 1));
    let a = with.notify(&Pair::new(4, Duration::from_nanos(0)));
    let b = without.notify(&Pair::new(4, Duration::from_nanos(0)));
    assert_eq!(a.len(), b.len());
    for (x, y) in a.iter().zip(b.iter()) {
        assert!(same(&x.0, &y.0));
        assert_eq!(x.1, y.1);
    }
}

#[test]
fn epochs_are_kept_apart() {
    let g = diamond();
    let other = PagEdge {
        source: PagNode { epoch: 5, ..node(0, 1, true, false) },
        destination: PagNode { epoch: 5, ..node(0, 9, false, false) },
        edge_type: ActivityType::Processing,
    };
    let mut ex = GroupExplorer::new(true);
    ex.add_graph_edge(other);
    for edge in &g {
        ex.add_graph_edge(*edge);
        if edge.starts_forward() {
            ex.add_frontier((*edge, 1));
        }
    }
    ex.add_frontier((other, 4));
    assert_eq!(ex.notify(&Pair::new(4, Duration::from_nanos(0))).len(), 3);
    assert_eq!(ex.in_degree_of(5, &other.destination), 1);
    assert_eq!(ex.in_degree_of(3, &other.destination), 0);
}

#[test]
fn waiting_edges_are_not_traversed_without_waiting() {
    let w = PagEdge { edge_type: ActivityType::Waiting, ..diamond()[2] };
    assert!(!w.is_traversed(false));
    for edge in &diamond() {
        assert_eq!(edge.is_traversed(false), edge.is_traversed(true));
    }
}
