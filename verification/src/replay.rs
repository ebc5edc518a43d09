use vstd::prelude::*;

verus! {

/// Whether worker `worker_index` of `worker_peers` replays source `i`:
/// sources are dealt out to workers round-robin.
pub open spec fn replays_source(i: int, worker_index: usize, worker_peers: usize) -> bool {
    i % (worker_peers as int) == worker_index as int
}

/// The sources, out of `source_peers`, that worker `worker_index` of
/// `worker_peers` replays, in ascending order.
pub fn replay_sources(worker_index: usize, worker_peers: usize, source_peers: usize) -> (r: Vec<usize>)
    requires
        worker_peers > 0 || source_peers == 0,
    ensures
        forall|k: int| 0 <= k < r@.len() ==> r@[k] < source_peers && replays_source(
            #[trigger] r@[k] as int,
            worker_index,
            worker_peers,
        ),
        forall|k: int, l: int| 0 <= k < l < r@.len() ==> r@[k] < r@[l],
        forall|i: int|
            0 <= i < source_peers && replays_source(i, worker_index, worker_peers) ==> exists|k: int|
                0 <= k < r@.len() && #[trigger] r@[k] == i,
        worker_peers > 0 ==> forall|k: int|
            0 <= k < r@.len() ==> (#[trigger] r@[k] as int) % (worker_peers as int) == worker_index as int,
        worker_peers > 0 ==> forall|i: usize|
            i < source_peers && (i as int) % (worker_peers as int) == worker_index as int
                ==> #[trigger] r@.contains(i),
{
    let mut r: Vec<usize> = Vec::new();
    let mut i: usize = 0;
    while i < source_peers
        invariant
            worker_peers > 0 || source_peers == 0,
            i <= source_peers,
            forall|k: int| 0 <= k < r@.len() ==> r@[k] < i && replays_source(
                #[trigger] r@[k] as int,
                worker_index,
                worker_peers,
            ),
            forall|k: int, l: int| 0 <= k < l < r@.len() ==> r@[k] < r@[l],
            forall|j: int|
                0 <= j < i && replays_source(j, worker_index, worker_peers) ==> exists|k: int|
                    0 <= k < r@.len() && #[trigger] r@[k] == j,
        decreases source_peers - i,
    {
        let ghost before = r@;
        if i % worker_peers == worker_index {
            r.push(i);
            assert(r@[r@.len() - 1] == i);
        }
        assert forall|j: int|
            0 <= j < i + 1 && replays_source(j, worker_index, worker_peers) implies exists|k: int|
                0 <= k < r@.len() && #[trigger] r@[k] == j by {
            if j < i {
                let k = choose|k: int| 0 <= k < before.len() && #[trigger] before[k] == j;
                assert(r@[k] == before[k]);
            } else {
                assert(r@[r@.len() - 1] == i);
            }
        }
        i = i + 1;
    }
    proof {
        if worker_peers > 0 {
            lemma_replays_source_is_remainder(worker_index, worker_peers);
            assert forall|i: usize|
                i < source_peers && (i as int) % (worker_peers as int) == worker_index as int
                    implies #[trigger] r@.contains(i) by {
                assert(replays_source(i as int, worker_index, worker_peers));
                let k = choose|k: int| 0 <= k < r@.len() && #[trigger] r@[k] == i as int;
                assert(r@[k] == i);
            }
        }
    }
    r
}

/// Worker `worker_index` of `worker_peers` replays source `i` exactly when
/// `i` leaves remainder `worker_index` on division by `worker_peers`: for
/// instance worker 0 of 2 replays the even sources, worker 1 the odd ones.
pub proof fn lemma_replays_source_is_remainder(worker_index: usize, worker_peers: usize)
    requires
        worker_peers > 0,
    ensures
        forall|i: int| #[trigger] replays_source(i, worker_index, worker_peers) <==> i % (worker_peers as int)
            == worker_index as int,
{
}

} // verus!
