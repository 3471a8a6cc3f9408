//! Choosing the source nodes: a sample drawn without replacement.
use vstd::prelude::*;
use rand::seq::SliceRandom;

verus! {

/// Why no sample could be drawn.
#[derive(Debug, Clone, Copy, PartialEq, Eq, Structural)]
pub enum SampleError {
    /// More elements were asked for than the population holds.
    InsufficientPopulation,
}

/// `sample` takes its elements from distinct positions of `nodes`.
pub open spec fn is_sample_of(nodes: Seq<usize>, sample: Seq<usize>) -> bool {
    exists|positions: Seq<usize>| #[trigger] picks(nodes, sample, positions)
}

/// `sample[i]` is `nodes[positions[i]]`, and no position is used twice.
pub open spec fn picks(nodes: Seq<usize>, sample: Seq<usize>, positions: Seq<usize>) -> bool {
    &&& positions.len() == sample.len()
    &&& positions.no_duplicates()
    &&& forall|i: int| 0 <= i < positions.len() ==> #[trigger] positions[i] < nodes.len()
    &&& forall|i: int| 0 <= i < positions.len() ==> sample[i] == nodes[#[trigger] positions[i] as int]
}

/// Relies on `rand::seq::index::sample` with the thread-local generator:
/// exactly `amount` distinct indices, each below `length`. It panics where
/// `amount > length`, and, in builds with debug assertions, where
/// `amount == length` on a `length` above `u32::MAX`.
#[verifier::external_body]
fn random_indices(length: usize, amount: usize) -> (r: Vec<usize>)
    requires
        amount <= length,
        length <= 0xffff_ffff || amount < length,
    ensures
        r.len() == amount,
        r@.no_duplicates(),
        forall|i: int| 0 <= i < r.len() ==> #[trigger] r[i] < length,
{
    rand::seq::index::sample(&mut rand::thread_rng(), length, amount).into_vec()
}

/// Relies on `rand::seq::SliceRandom::shuffle` with the thread-local
/// generator: it only swaps elements, so it leaves a permutation.
#[verifier::external_body]
fn shuffle_positions(v: &mut Vec<usize>)
    ensures
        final(v)@.to_multiset() == old(v)@.to_multiset(),
{
    v.shuffle(&mut rand::thread_rng());
}

/// Every position `0..length`, in a random order.
fn all_positions_shuffled(length: usize) -> (r: Vec<usize>)
    ensures
        r.len() == length,
        r@.no_duplicates(),
        forall|i: int| 0 <= i < r.len() ==> #[trigger] r[i] < length,
{
    let mut v: Vec<usize> = Vec::new();
    while v.len() < length
        invariant
            v.len() <= length,
            forall|i: int| 0 <= i < v.len() ==> #[trigger] v[i] == i,
        decreases length - v.len(),
    {
        v.push(v.len());
    }
    let ghost before = v@;
    assert(before.no_duplicates());
    shuffle_positions(&mut v);
    proof {
        broadcast use vstd::seq_lib::group_to_multiset_ensures;
        before.lemma_multiset_has_no_duplicates();
        v@.lemma_multiset_has_no_duplicates_conv();
        assert(v@.to_multiset().len() == v@.len());
        assert(before.to_multiset().len() == before.len());
        assert forall|i: int| 0 <= i < v.len() implies #[trigger] v[i] < length by {
            assert(v@.contains(v[i]));
            assert(v@.to_multiset().count(v[i]) > 0);
            assert(before.contains(v[i]));
        }
    }
    v
}

/// The elements of `nodes` at the given positions, in the order given.
pub fn select_sample_at(nodes: &Vec<usize>, positions: &Vec<usize>) -> (r: Vec<usize>)
    requires
        forall|i: int| 0 <= i < positions.len() ==> #[trigger] positions[i] < nodes.len(),
    ensures
        r.len() == positions.len(),
        forall|i: int| 0 <= i < positions.len() ==> r[i] == nodes[#[trigger] positions[i] as int],
{
    let mut r: Vec<usize> = Vec::new();
    let mut i: usize = 0;
    while i < positions.len()
        invariant
            i <= positions.len(),
            r.len() == i,
            forall|j: int| 0 <= j < positions.len() ==> #[trigger] positions[j] < nodes.len(),
            forall|j: int| 0 <= j < i ==> r[j] == nodes[#[trigger] positions[j] as int],
        decreases positions.len() - i,
    {
        r.push(nodes[positions[i]]);
        i += 1;
    }
    r
}

/// Draws `sample_size` elements of `nodes` from distinct positions, at
/// random. Fails with `InsufficientPopulation` where `nodes` is shorter than
/// `sample_size`.
pub fn select_random_sample(nodes: &Vec<usize>, sample_size: usize) -> (r: Result<Vec<usize>, SampleError>)
    ensures
        sample_size > nodes.len() <==> r == Err::<Vec<usize>, SampleError>(SampleError::InsufficientPopulation),
        r matches Ok(s) ==> s.len() == sample_size && is_sample_of(nodes@, s@),
{
    if sample_size > nodes.len() {
        return Err(SampleError::InsufficientPopulation);
    }
    let positions = if nodes.len() <= 0xffff_ffff || sample_size < nodes.len() {
        random_indices(nodes.len(), sample_size)
    } else {
        all_positions_shuffled(nodes.len())
    };
    let s = select_sample_at(nodes, &positions);
    assert(picks(nodes@, s@, positions@));
    Ok(s)
}

/// A sample of a population without repeated elements has no repeated
/// elements, and each of its elements belongs to the population.
pub proof fn lemma_sample_distinct_members(nodes: Seq<usize>, sample: Seq<usize>)
    requires
        is_sample_of(nodes, sample),
        nodes.no_duplicates(),
    ensures
        sample.no_duplicates(),
        forall|i: int| 0 <= i < sample.len() ==> nodes.contains(#[trigger] sample[i]),
{
    let positions = choose|positions: Seq<usize>| #[trigger] picks(nodes, sample, positions);
    assert forall|i: int| 0 <= i < sample.len() implies nodes.contains(#[trigger] sample[i]) by {
        assert(positions[i] < nodes.len());
        assert(nodes[positions[i] as int] == sample[i]);
    }
    assert forall|i: int, j: int| 0 <= i < sample.len() && 0 <= j < sample.len() && i != j
        implies sample[i] != sample[j] by {
        assert(positions[i] < nodes.len());
        assert(positions[j] < nodes.len());
        assert(positions[i] != positions[j]);
    }
}

} // verus!
