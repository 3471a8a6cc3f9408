//! The weight matrix, paths through it and their weights.
use vstd::prelude::*;

verus! {

/// The distance reported for a node that no path reaches.
pub const UNREACHABLE: u32 = 0xffff_ffff;

/// The rows of a weight matrix as sequences.
pub open spec fn rows_view(m: Seq<Vec<u32>>) -> Seq<Seq<u32>> {
    m.map_values(|r: Vec<u32>| r@)
}

/// Every row has one entry per node.
pub open spec fn is_square(g: Seq<Seq<u32>>) -> bool {
    forall|i: int| 0 <= i < g.len() ==> #[trigger] g[i].len() == g.len()
}

/// The matrix is symmetric: `W[i][j] == W[j][i]`.
pub open spec fn is_symmetric(g: Seq<Seq<u32>>) -> bool {
    forall|i: int, j: int| 0 <= i < g.len() && 0 <= j < g.len() ==> #[trigger] g[i][j] == g[j][i]
}

/// There is an edge from `u` to `v`: its weight is not zero.
pub open spec fn has_edge(g: Seq<Seq<u32>>, u: int, v: int) -> bool {
    0 <= u < g.len() && 0 <= v < g.len() && g[u][v] != 0
}

/// The `i`-th step of `p` follows an edge.
pub open spec fn step_is_edge(g: Seq<Seq<u32>>, p: Seq<int>, i: int) -> bool {
    has_edge(g, p[i], p[i + 1])
}

/// `p` is a non-empty sequence of nodes, each joined to the next by an edge.
pub open spec fn is_path(g: Seq<Seq<u32>>, p: Seq<int>) -> bool {
    &&& p.len() >= 1
    &&& forall|i: int| 0 <= i < p.len() ==> 0 <= #[trigger] p[i] < g.len()
    &&& forall|i: int| 0 <= i < p.len() - 1 ==> #[trigger] step_is_edge(g, p, i)
}

/// `p` is a path that starts at `s` and ends at `v`.
pub open spec fn is_path_between(g: Seq<Seq<u32>>, p: Seq<int>, s: int, v: int) -> bool {
    is_path(g, p) && p[0] == s && p.last() == v
}

/// The sum of the weights of the edges along `p`.
pub open spec fn path_weight(g: Seq<Seq<u32>>, p: Seq<int>) -> int
    decreases p.len(),
{
    if p.len() <= 1 {
        0
    } else {
        path_weight(g, p.drop_last()) + g[p[p.len() - 2]][p.last()] as int
    }
}

/// A path's weight is never negative.
pub proof fn lemma_path_weight_nonneg(g: Seq<Seq<u32>>, p: Seq<int>)
    ensures
        path_weight(g, p) >= 0,
    decreases p.len(),
{
    if p.len() > 1 {
        lemma_path_weight_nonneg(g, p.drop_last());
    }
}

/// A path followed by one more edge is a path, one edge heavier.
pub proof fn lemma_path_extend(g: Seq<Seq<u32>>, p: Seq<int>, v: int)
    requires
        is_path(g, p),
        has_edge(g, p.last(), v),
    ensures
        is_path(g, p.push(v)),
        p.push(v)[0] == p[0],
        p.push(v).last() == v,
        path_weight(g, p.push(v)) == path_weight(g, p) + g[p.last()][v] as int,
{
    let q = p.push(v);
    assert(q.drop_last() =~= p);
    assert forall|i: int| 0 <= i < q.len() - 1 implies #[trigger] step_is_edge(g, q, i) by {
        if i < p.len() - 1 {
            assert(step_is_edge(g, p, i));
        }
    }
}

/// A path of two or more nodes is a shorter path followed by one edge.
pub proof fn lemma_path_prefix(g: Seq<Seq<u32>>, p: Seq<int>)
    requires
        is_path(g, p),
        p.len() >= 2,
    ensures
        is_path(g, p.drop_last()),
        p.drop_last()[0] == p[0],
        p.drop_last().last() == p[p.len() - 2],
        has_edge(g, p[p.len() - 2], p.last()),
        path_weight(g, p) == path_weight(g, p.drop_last()) + g[p[p.len() - 2]][p.last()] as int,
{
    let q = p.drop_last();
    assert(step_is_edge(g, p, p.len() - 2));
    assert forall|i: int| 0 <= i < q.len() - 1 implies #[trigger] step_is_edge(g, q, i) by {
        assert(step_is_edge(g, p, i));
    }
}

/// The edges out of a row, in node order: each neighbour's id and weight,
/// leaving out the zero entries, which mean "no edge".
pub open spec fn neighbor_list(row: Seq<u32>) -> Seq<(usize, u32)>
    decreases row.len(),
{
    if row.len() == 0 {
        Seq::empty()
    } else if row.last() == 0 {
        neighbor_list(row.drop_last())
    } else {
        neighbor_list(row.drop_last()).push(((row.len() - 1) as usize, row.last()))
    }
}

/// The neighbours of `node` with the weights of the edges to them.
pub fn neighbors(graph: &Vec<Vec<u32>>, node: usize) -> (r: Vec<(usize, u32)>)
    requires
        node < graph.len(),
    ensures
        r@ == neighbor_list(graph[node as int]@),
{
    let row = &graph[node];
    let mut r: Vec<(usize, u32)> = Vec::new();
    let mut v: usize = 0;
    assert(row@.take(0) =~= Seq::<u32>::empty());
    while v < row.len()
        invariant
            v <= row.len(),
            r@ == neighbor_list(row@.take(v as int)),
        decreases row.len() - v,
    {
        assert(row@.take(v as int + 1).drop_last() =~= row@.take(v as int));
        if row[v] != 0 {
            r.push((v, row[v]));
        }
        v += 1;
    }
    assert(row@.take(row.len() as int) =~= row@);
    r
}

} // verus!
