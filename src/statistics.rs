//! The average distance over a collection of distance vectors.
use vstd::prelude::*;
use crate::graph::{UNREACHABLE, rows_view};

verus! {

/// The sum of the entries of `d` that are not `UNREACHABLE`.
pub open spec fn finite_sum(d: Seq<u32>) -> int
    decreases d.len(),
{
    if d.len() == 0 {
        0
    } else {
        finite_sum(d.drop_last()) + if d.last() == UNREACHABLE { 0 } else { d.last() as int }
    }
}

/// The sum of the finite distances over every vector of `ds`.
pub open spec fn collection_sum(ds: Seq<Seq<u32>>) -> int
    decreases ds.len(),
{
    if ds.len() == 0 {
        0
    } else {
        collection_sum(ds.drop_last()) + finite_sum(ds.last())
    }
}

/// The number of unordered pairs among `k` sampled sources.
pub open spec fn pair_count(k: int) -> int {
    k * (k - 1) / 2
}

/// Why no average could be formed.
#[derive(Debug, Clone, Copy, PartialEq, Eq, Structural)]
pub enum StatsError {
    /// Fewer than two distance vectors were given.
    EmptyInput,
}

/// An average distance as an exact fraction: `total / pairs`.
///
/// `total` sums every finite distance from every sampled source to every
/// node; `pairs` is `k * (k - 1) / 2` for `k` sampled sources.
#[derive(Debug, Clone, Copy, PartialEq, Eq, Structural)]
pub struct AverageDistance {
    pub total: u128,
    pub pairs: u128,
}

/// Sums the finite entries of one distance vector.
fn row_finite_sum(d: &Vec<u32>) -> (r: u128)
    ensures
        r as int == finite_sum(d@),
{
    let mut sum: u128 = 0;
    let mut i: usize = 0;
    while i < d.len()
        invariant
            i <= d.len(),
            sum as int == finite_sum(d@.take(i as int)),
            sum as int <= i as int * UNREACHABLE as int,
        decreases d.len() - i,
    {
        proof {
            assert(d@.take(i as int + 1).drop_last() =~= d@.take(i as int));
            assert(i as int * UNREACHABLE as int <= 0x1_0000_0000_0000_0000_0000_0000 ) by (nonlinear_arith)
                requires i < 0x1_0000_0000_0000_0000;
        }
        if d[i] != UNREACHABLE {
            sum = sum + d[i] as u128;
        }
        i += 1;
    }
    assert(d@.take(d.len() as int) =~= d@);
    sum
}

/// Sums every finite distance of the collection and counts the pairs of
/// sampled sources, `k * (k - 1) / 2` for `k` vectors.
///
/// Unreachable entries add nothing to the total. Fails with `EmptyInput`
/// where fewer than two vectors are given, since there is then no pair.
pub fn calculate_average_distance(distance_lists: Vec<Vec<u32>>) -> (r: Result<AverageDistance, StatsError>)
    requires
        collection_sum(rows_view(distance_lists@)) <= u128::MAX,
    ensures
        distance_lists.len() < 2 <==> r == Err::<AverageDistance, StatsError>(StatsError::EmptyInput),
        r matches Ok(a) ==> a.total as int == collection_sum(rows_view(distance_lists@))
            && a.pairs as int == pair_count(distance_lists.len() as int),
{
    let k = distance_lists.len();
    if k < 2 {
        return Err(StatsError::EmptyInput);
    }
    let ghost ds = rows_view(distance_lists@);
    let mut total: u128 = 0;
    let mut i: usize = 0;
    while i < k
        invariant
            k == distance_lists.len(),
            ds == rows_view(distance_lists@),
            collection_sum(ds) <= u128::MAX,
            i <= k,
            total as int == collection_sum(ds.take(i as int)),
        decreases k - i,
    {
        let row_sum = row_finite_sum(&distance_lists[i]);
        proof {
            assert(ds.take(i as int + 1).drop_last() =~= ds.take(i as int));
            lemma_collection_sum_prefix(ds, i as int + 1);
        }
        total = total + row_sum;
        i += 1;
    }
    assert(ds.take(k as int) =~= ds);
    let kk = k as u128;
    assert(kk * (kk - 1) <= 0xffff_ffff_ffff_ffff_ffff_ffff_ffff_ffff) by (nonlinear_arith)
        requires kk <= 0xffff_ffff_ffff_ffff, kk >= 2;
    let pairs: u128 = kk * (kk - 1) / 2;
    Ok(AverageDistance { total, pairs })
}

proof fn lemma_finite_sum_nonneg(d: Seq<u32>)
    ensures
        finite_sum(d) >= 0,
    decreases d.len(),
{
    if d.len() > 0 {
        lemma_finite_sum_nonneg(d.drop_last());
    }
}

/// The sum over a prefix is at most the sum over the whole collection.
proof fn lemma_collection_sum_prefix(ds: Seq<Seq<u32>>, n: int)
    requires
        0 <= n <= ds.len(),
    ensures
        0 <= collection_sum(ds.take(n)) <= collection_sum(ds),
    decreases ds.len(),
{
    if ds.len() > 0 {
        lemma_finite_sum_nonneg(ds.last());
        if n == ds.len() {
            assert(ds.take(n) =~= ds);
            lemma_collection_sum_prefix(ds.drop_last(), n - 1);
            assert(ds.drop_last().take(n - 1) =~= ds.drop_last());
        } else {
            lemma_collection_sum_prefix(ds.drop_last(), n);
            assert(ds.drop_last().take(n) =~= ds.take(n));
        }
    }
}

/// The entries of `d` that are not `UNREACHABLE`, in order.
pub open spec fn finite_entries(d: Seq<u32>) -> Seq<u32>
    decreases d.len(),
{
    if d.len() == 0 {
        Seq::empty()
    } else if d.last() == UNREACHABLE {
        finite_entries(d.drop_last())
    } else {
        finite_entries(d.drop_last()).push(d.last())
    }
}

/// An `UNREACHABLE` entry inserted anywhere leaves the finite entries as
/// they were.
pub proof fn lemma_insert_unreachable(d: Seq<u32>, j: int)
    requires
        0 <= j <= d.len(),
    ensures
        finite_entries(d.insert(j, UNREACHABLE)) == finite_entries(d),
    decreases d.len(),
{
    let e = d.insert(j, UNREACHABLE);
    if j == d.len() {
        assert(e.drop_last() =~= d);
    } else {
        assert(e.drop_last() =~= d.drop_last().insert(j, UNREACHABLE));
        lemma_insert_unreachable(d.drop_last(), j);
    }
}

/// The finite sum of a vector is the sum of its finite entries.
proof fn lemma_finite_sum_of_entries(d: Seq<u32>)
    ensures
        finite_sum(d) == finite_sum(finite_entries(d)),
    decreases d.len(),
{
    if d.len() > 0 {
        lemma_finite_sum_of_entries(d.drop_last());
        let p = finite_entries(d.drop_last());
        if d.last() != UNREACHABLE {
            assert(p.push(d.last()).drop_last() =~= p);
        }
    }
}

/// Collections whose vectors agree on their finite entries have the same
/// total, and, being of one length, the same pair count: entries for an
/// unreachable node, wherever they stand, leave the average unchanged.
pub proof fn lemma_average_ignores_unreachable(ds1: Seq<Seq<u32>>, ds2: Seq<Seq<u32>>)
    requires
        ds1.len() == ds2.len(),
        forall|i: int| 0 <= i < ds1.len() ==> finite_entries(#[trigger] ds1[i]) == finite_entries(ds2[i]),
    ensures
        collection_sum(ds1) == collection_sum(ds2),
        pair_count(ds1.len() as int) == pair_count(ds2.len() as int),
    decreases ds1.len(),
{
    if ds1.len() > 0 {
        let n = ds1.len() - 1;
        assert forall|i: int| 0 <= i < n implies finite_entries(#[trigger] ds1.drop_last()[i])
            == finite_entries(ds2.drop_last()[i]) by {
            assert(finite_entries(ds1[i]) == finite_entries(ds2[i]));
        }
        lemma_average_ignores_unreachable(ds1.drop_last(), ds2.drop_last());
        assert(finite_entries(ds1[n]) == finite_entries(ds2[n]));
        lemma_finite_sum_of_entries(ds1.last());
        lemma_finite_sum_of_entries(ds2.last());
    }
}

} // verus!
