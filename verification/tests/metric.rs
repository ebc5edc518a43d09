use st2::{counts_combinable, critical_participation, hash_code, ActivityType, PagEdge, PagNode, ScaleReduce};
use std::time::Duration;

fn node(worker: u64, t: u64) -> PagNode {
    PagNode { timestamp: Duration::from_nanos(t), worker_id: worker, epoch: 0, start: false, end: false }
}

fn edge() -> PagEdge {
    PagEdge { source: node(0, 1), destination: node(1, 2), edge_type: ActivityType::Processing }
}

#[test]
fn scale_reduce_multiplies_all_three() {
    assert_eq!(2u64.scale_reduce(3, 4), 24);
    assert_eq!(7u64.scale_reduce(5, 0), 0);
    assert_eq!(1u64.scale_reduce(1, 1), 1);
}

#[test]
fn single_count_stands_for_itself() {
    let (k, c) = critical_participation(edge(), vec![9]);
    assert_eq!(c, 9);
    assert_eq!(k.destination.worker_id, 1);
}

#[test]
fn forward_and_backward_counts_multiply() {
    let (_, c) = critical_participation(edge(), vec![3, 4]);
    assert_eq!(c, 12);
    let (_, c) = critical_participation(edge(), vec![4, 3]);
    assert_eq!(c, 12);
}

#[test]
fn counts_are_sorted_before_combining() {
    // sorted: [2, 5, 9]; n / 2 = 1: 2 * 5 * 1
    let (_, c) = critical_participation(edge(), vec![5, 2, 9]);
    assert_eq!(c, 10);
    let (_, c) = critical_participation(edge(), vec![9, 5, 2]);
    assert_eq!(c, 10);
    // sorted: [1, 2, 3, 4]; n / 2 = 2: 1 * 3 * 2
    let (_, c) = critical_participation(edge(), vec![4, 1, 3, 2]);
    assert_eq!(c, 6);
}

#[test]
fn hash_code_is_deterministic_for_equal_values() {
    assert_eq!(hash_code(&42u64), hash_code(&42u64));
    assert_eq!(hash_code(&"abc"), hash_code(&"abc"));
    assert_ne!(hash_code(&1u64), hash_code(&2u64));
}

#[test]
fn combinable_counts() {
    assert!(!counts_combinable(&vec![]));
    assert!(counts_combinable(&vec![u64::MAX]));
    assert!(counts_combinable(&vec![3, 4]));
    assert!(!counts_combinable(&vec![1 << 32, 1 << 32]));
    assert!(!counts_combinable(&vec![u64::MAX, 2]));
    // sorted [1, 2, 3, 4]: 1 * 3 * 2 fits
    assert!(counts_combinable(&vec![4, 3, 2, 1]));
}

#[test]
fn only_counts_above_one_are_reported() {
    assert!(!st2::is_reported(0));
    assert!(!st2::is_reported(1));
    assert!(st2::is_reported(2));
    assert!(st2::is_reported(u64::MAX));
}

#[test]
fn scale_reduce_is_symmetric() {
    assert_eq!(3u64.scale_reduce(7, 2), 7u64.scale_reduce(3, 2));
    assert_eq!(1u64.scale_reduce(9, 5), 9u64.scale_reduce(1, 5));
}
