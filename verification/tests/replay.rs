use st2::replay_sources;

#[test]
fn sources_are_dealt_round_robin() {
    assert_eq!(replay_sources(1, 3, 8), vec![1, 4, 7]);
    assert_eq!(replay_sources(0, 3, 8), vec![0, 3, 6]);
    assert_eq!(replay_sources(2, 3, 2), Vec::<usize>::new());
}

#[test]
fn single_worker_replays_everything() {
    assert_eq!(replay_sources(0, 1, 4), vec![0, 1, 2, 3]);
    assert_eq!(replay_sources(0, 1, 0), Vec::<usize>::new());
}

#[test]
fn worker_index_beyond_peers_replays_nothing() {
    assert_eq!(replay_sources(5, 2, 10), Vec::<usize>::new());
}

#[test]
fn no_sources_need_no_peers() {
    assert_eq!(replay_sources(0, 0, 0), Vec::<usize>::new());
    assert_eq!(replay_sources(3, 0, 0), Vec::<usize>::new());
}
