//! Distance vectors from every sampled source.
use vstd::prelude::*;
use crate::graph::{rows_view, is_square};
use crate::distance::{dijkstra, is_shortest_distances, lemma_shortest_distances_unique};

verus! {

/// Runs a shortest-path search from each sampled source and collects the
/// distance vectors, the `i`-th for the `i`-th source.
pub fn get_distance_lists(adjacency_matrix: &Vec<Vec<u32>>, sample_nodes: Vec<usize>) -> (r: Vec<Vec<u32>>)
    requires
        is_square(rows_view(adjacency_matrix@)),
        forall|i: int| 0 <= i < sample_nodes.len() ==> #[trigger] sample_nodes[i] < adjacency_matrix.len(),
    ensures
        r.len() == sample_nodes.len(),
        forall|i: int| 0 <= i < r.len() ==>
            is_shortest_distances(rows_view(adjacency_matrix@), sample_nodes[i] as int, #[trigger] r[i]@),
{
    let mut r: Vec<Vec<u32>> = Vec::new();
    let mut i: usize = 0;
    while i < sample_nodes.len()
        invariant
            i <= sample_nodes.len(),
            r.len() == i,
            is_square(rows_view(adjacency_matrix@)),
            forall|j: int| 0 <= j < sample_nodes.len() ==> #[trigger] sample_nodes[j] < adjacency_matrix.len(),
            forall|j: int| 0 <= j < i ==>
                is_shortest_distances(rows_view(adjacency_matrix@), sample_nodes[j] as int, #[trigger] r[j]@),
        decreases sample_nodes.len() - i,
    {
        let d = dijkstra(adjacency_matrix, sample_nodes[i]);
        r.push(d);
        i += 1;
    }
    r
}

/// `lists` holds, in order, the shortest distances from each source of `sample`.
pub open spec fn is_distance_collection(g: Seq<Seq<u32>>, sample: Seq<usize>, lists: Seq<Seq<u32>>) -> bool {
    &&& lists.len() == sample.len()
    &&& forall|i: int| 0 <= i < lists.len() ==> is_shortest_distances(g, sample[i] as int, #[trigger] lists[i])
}

/// A collection of distance vectors for a sample has one vector per source,
/// and each equals what a search from that source alone returns.
pub proof fn lemma_collection_matches_single_runs(
    g: Seq<Seq<u32>>,
    sample: Seq<usize>,
    lists: Seq<Seq<u32>>,
    i: int,
    single: Seq<u32>,
)
    requires
        is_distance_collection(g, sample, lists),
        0 <= i < sample.len(),
        is_shortest_distances(g, sample[i] as int, single),
    ensures
        lists.len() == sample.len(),
        lists[i] == single,
{
    lemma_shortest_distances_unique(g, sample[i] as int, lists[i], single);
}

/// Why the results of the workers could not be assembled.
#[derive(Debug, Clone, Copy, PartialEq, Eq, Structural)]
pub enum AggregateError {
    /// A worker's result is missing, repeated, or for no sampled source.
    WorkerFailure,
}

/// The workers reported each position `0..count` exactly once, and no other.
pub open spec fn is_complete(count: nat, positions: Seq<usize>) -> bool {
    &&& positions.no_duplicates()
    &&& forall|j: int| 0 <= j < positions.len() ==> #[trigger] positions[j] < count
    &&& forall|i: usize| i < count ==> #[trigger] positions.contains(i)
}

/// The positions that the finished results report.
pub open spec fn positions_of(finished: Seq<(usize, Vec<u32>)>) -> Seq<usize> {
    finished.map_values(|f: (usize, Vec<u32>)| f.0)
}

/// Puts the distance vectors that workers returned, each tagged with the
/// position of its source in the sample, back in sample order.
///
/// Fails with `WorkerFailure` unless every position `0..count` was reported
/// exactly once, so that a lost or repeated result fails the aggregation.
pub fn assemble_distance_lists(count: usize, finished: Vec<(usize, Vec<u32>)>) -> (r: Result<Vec<Vec<u32>>, AggregateError>)
    ensures
        is_complete(count as nat, positions_of(finished@)) <==> (r is Ok),
        r matches Err(e) ==> e == AggregateError::WorkerFailure,
        r matches Ok(lists) ==> lists.len() == count && forall|j: int| 0 <= j < finished.len()
            ==> finished[j].0 < count && lists[#[trigger] finished[j].0 as int]@ == finished[j].1@,
{
    let ghost all = finished@;
    let ghost ps = positions_of(all);
    let mut slots: Vec<Option<Vec<u32>>> = Vec::new();
    while slots.len() < count
        invariant
            slots.len() <= count,
            forall|i: int| 0 <= i < slots.len() ==> #[trigger] slots[i] is None,
        decreases count - slots.len(),
    {
        slots.push(None);
    }
    let mut rest = finished;
    assert(ps.len() == all.len());
    while rest.len() > 0
        invariant
            slots.len() == count,
            ps == positions_of(all),
            all == finished@,
            ps.len() == all.len(),
            rest@ == all.take(rest.len() as int),
            rest.len() <= all.len(),
            forall|j: int| rest.len() <= j < all.len() ==> #[trigger] ps[j] < count,
            forall|j: int, k: int| rest.len() <= j < k < all.len() ==> ps[j] != ps[k],
            forall|j: int| rest.len() <= j < all.len() ==>
                (#[trigger] slots[ps[j] as int]) == Some(all[j].1),
            forall|i: int| 0 <= i < count && (#[trigger] slots[i]) is Some ==>
                exists|j: int| rest.len() <= j < all.len() && ps[j] == i,
        decreases rest.len(),
    {
        let ghost n = rest.len() as int;
        let (position, distances) = rest.pop().unwrap();
        assert(all.take(n).drop_last() =~= all.take(n - 1));
        assert(ps[n - 1] == position);
        if position >= count {
            proof {
                assert(!(ps[n - 1] < count));
                assert(!is_complete(count as nat, ps));
                assert(all == finished@);
            }
            return Err(AggregateError::WorkerFailure);
        }
        if slots[position].is_some() {
            proof {
                let j = choose|j: int| n <= j < all.len() && ps[j] == position;
                assert(ps[n - 1] == ps[j]);
                assert(!is_complete(count as nat, ps));
                assert(all == finished@);
            }
            return Err(AggregateError::WorkerFailure);
        }
        slots.set(position, Some(distances));
        proof {
            assert forall|i: int| 0 <= i < count && (#[trigger] slots[i]) is Some implies
                exists|j: int| n - 1 <= j < all.len() && ps[j] == i by {
                if i == position {
                    assert(ps[n - 1] == i);
                }
            }
        }
    }
    let ghost filled = slots@;
    assert(ps.len() == all.len());
    let mut lists: Vec<Vec<u32>> = Vec::new();
    let mut i: usize = 0;
    while i < count
        invariant
            slots.len() == count,
            filled.len() == count,
            i <= count,
            lists.len() == i,
            forall|k: int| i <= k < count ==> #[trigger] slots[k] == filled[k],
            forall|k: int| 0 <= k < i ==> filled[k] == Some(#[trigger] lists[k]),
            ps == positions_of(all),
            all == finished@,
            ps.len() == all.len(),
            forall|j: int| 0 <= j < all.len() ==> #[trigger] ps[j] < count,
            forall|j: int, k: int| 0 <= j < k < all.len() ==> ps[j] != ps[k],
            forall|j: int| 0 <= j < all.len() ==> (#[trigger] filled[ps[j] as int]) == Some(all[j].1),
            forall|k: int| 0 <= k < count && (#[trigger] filled[k]) is Some ==>
                exists|j: int| 0 <= j < all.len() && ps[j] == k,
        decreases count - i,
    {
        let mut slot: Option<Vec<u32>> = None;
        std::mem::swap(&mut slot, &mut slots[i]);
        match slot {
            Some(distances) => {
                lists.push(distances);
            },
            None => {
                proof {
                    assert(!ps.contains(i)) by {
                        if ps.contains(i) {
                            let j = choose|j: int| 0 <= j < ps.len() && ps[j] == i;
                            assert(filled[ps[j] as int] == Some(all[j].1));
                        }
                    }
                    assert(!is_complete(count as nat, ps));
                    assert(all == finished@);
                }
                return Err(AggregateError::WorkerFailure);
            },
        }
        i += 1;
    }
    proof {
        assert forall|j: int| 0 <= j < all.len() implies all[j].0 < count && lists[#[trigger] all[j].0 as int]@ == all[j].1@ by {
            assert(ps[j] == all[j].0);
            assert(ps[j] < count);
            assert(filled[ps[j] as int] == Some(all[j].1));
        }
        assert forall|k: usize| k < count implies #[trigger] ps.contains(k) by {
            assert(filled[k as int] == Some(lists[k as int]));
            let j = choose|j: int| 0 <= j < all.len() && ps[j] == k;
        }
        assert(ps.no_duplicates());
        assert(all == finished@);
    }
    Ok(lists)
}

} // verus!
