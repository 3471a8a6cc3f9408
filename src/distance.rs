//! Single-source shortest paths (Dijkstra) and what their results mean.
use vstd::prelude::*;
use crate::graph::{
    UNREACHABLE, rows_view, is_square, has_edge, is_path, is_path_between, path_weight,
    lemma_path_weight_nonneg, lemma_path_extend, lemma_path_prefix,
};

verus! {

/// `d` holds, for each node `v`, the least weight of a path from `s` to `v`,
/// or `UNREACHABLE` where no path weighs less than `UNREACHABLE`.
pub open spec fn is_shortest_distances(g: Seq<Seq<u32>>, s: int, d: Seq<u32>) -> bool {
    &&& d.len() == g.len()
    &&& forall|v: int, p: Seq<int>|
        0 <= v < d.len() && #[trigger] is_path_between(g, p, s, v) ==> d[v] as int <= path_weight(g, p)
    &&& forall|v: int|
        0 <= v < d.len() && #[trigger] d[v] != UNREACHABLE ==> exists|p: Seq<int>|
            #[trigger] is_path_between(g, p, s, v) && path_weight(g, p) == d[v] as int
}

/// `u32` addition that stops at `UNREACHABLE`.
pub open spec fn saturating_sum(a: u32, b: u32) -> u32 {
    if a as int + b as int > UNREACHABLE as int {
        UNREACHABLE
    } else {
        (a + b) as u32
    }
}

/// No edge out of `u` leads to a node that `u` would bring closer.
pub open spec fn is_settled(g: Seq<Seq<u32>>, d: Seq<u32>, u: int) -> bool {
    forall|v: int| #[trigger] has_edge(g, u, v) ==> d[v] as int <= d[u] as int + g[u][v] as int
}

/// The sum of all entries.
pub open spec fn total(d: Seq<u32>) -> int
    decreases d.len(),
{
    if d.len() == 0 {
        0
    } else {
        total(d.drop_last()) + d.last() as int
    }
}

proof fn lemma_total_nonneg(d: Seq<u32>)
    ensures
        total(d) >= 0,
    decreases d.len(),
{
    if d.len() > 0 {
        lemma_total_nonneg(d.drop_last());
    }
}

proof fn lemma_total_update(d: Seq<u32>, i: int, x: u32)
    requires
        0 <= i < d.len(),
    ensures
        total(d.update(i, x)) == total(d) - d[i] as int + x as int,
    decreases d.len(),
{
    let e = d.update(i, x);
    if i < d.len() - 1 {
        assert(e.drop_last() =~= d.drop_last().update(i, x));
        lemma_total_update(d.drop_last(), i, x);
    } else {
        assert(e.drop_last() =~= d.drop_last());
    }
}

/// The number of nodes marked pending.
pub open spec fn count_pending(p: Seq<bool>) -> int
    decreases p.len(),
{
    if p.len() == 0 {
        0
    } else {
        count_pending(p.drop_last()) + if p.last() { 1int } else { 0int }
    }
}

proof fn lemma_count_pending_nonneg(p: Seq<bool>)
    ensures
        count_pending(p) >= 0,
    decreases p.len(),
{
    if p.len() > 0 {
        lemma_count_pending_nonneg(p.drop_last());
    }
}

proof fn lemma_count_pending_clear(p: Seq<bool>, i: int)
    requires
        0 <= i < p.len(),
        p[i],
    ensures
        count_pending(p.update(i, false)) == count_pending(p) - 1,
    decreases p.len(),
{
    let e = p.update(i, false);
    if i < p.len() - 1 {
        assert(e.drop_last() =~= p.drop_last().update(i, false));
        lemma_count_pending_clear(p.drop_last(), i);
    } else {
        assert(e.drop_last() =~= p.drop_last());
    }
}

/// A pending node of least distance, or `None` where no node is pending.
fn nearest_pending(distances: &Vec<u32>, pending: &Vec<bool>) -> (r: Option<usize>)
    requires
        distances.len() == pending.len(),
    ensures
        r is None ==> forall|v: int| 0 <= v < pending.len() ==> !#[trigger] pending[v],
        r matches Some(u) ==> u < pending.len() && pending[u as int]
            && forall|v: int| 0 <= v < pending.len() && #[trigger] pending[v] ==> distances[u as int] <= distances[v],
{
    let mut best: Option<usize> = None;
    let mut i: usize = 0;
    while i < pending.len()
        invariant
            distances.len() == pending.len(),
            i <= pending.len(),
            best is None ==> forall|v: int| 0 <= v < i ==> !#[trigger] pending[v],
            best matches Some(u) ==> u < i && pending[u as int]
                && forall|v: int| 0 <= v < i && #[trigger] pending[v] ==> distances[u as int] <= distances[v],
        decreases pending.len() - i,
    {
        if pending[i] {
            match best {
                None => {
                    best = Some(i);
                },
                Some(u) => {
                    if distances[i] < distances[u] {
                        best = Some(i);
                    }
                },
            }
        }
        i += 1;
    }
    best
}

/// Where `d` starts at 0 in `s` and no edge can bring a reached node's
/// neighbour closer, no path to a node weighs less than its entry in `d`.
proof fn lemma_settled_paths(g: Seq<Seq<u32>>, s: int, d: Seq<u32>, p: Seq<int>)
    requires
        d.len() == g.len(),
        0 <= s < d.len(),
        d[s] == 0,
        forall|u: int| 0 <= u < d.len() && d[u] != UNREACHABLE ==> is_settled(g, d, u),
        is_path(g, p),
        p[0] == s,
    ensures
        d[p.last()] as int <= path_weight(g, p),
    decreases p.len(),
{
    if p.len() >= 2 {
        let q = p.drop_last();
        let u = p[p.len() - 2];
        let v = p.last();
        lemma_path_prefix(g, p);
        lemma_settled_paths(g, s, d, q);
        if d[u] != UNREACHABLE {
            assert(is_settled(g, d, u));
            assert(has_edge(g, u, v));
        } else {
            lemma_path_weight_nonneg(g, p);
        }
    }
}

/// Shortest distances obey the triangle inequality along every edge:
/// `d[v] <= d[u] + W[u][v]`, where the sum stops at `UNREACHABLE`.
pub proof fn lemma_triangle_inequality(g: Seq<Seq<u32>>, s: int, d: Seq<u32>, u: int, v: int)
    requires
        is_shortest_distances(g, s, d),
        has_edge(g, u, v),
    ensures
        d[v] <= saturating_sum(d[u], g[u][v]),
{
    if d[u] != UNREACHABLE {
        let p = choose|p: Seq<int>| #[trigger] is_path_between(g, p, s, u) && path_weight(g, p) == d[u] as int;
        lemma_path_extend(g, p, v);
        assert(is_path_between(g, p.push(v), s, v));
    }
}

/// Shortest distances from one source are unique: two vectors that both
/// hold them are equal.
pub proof fn lemma_shortest_distances_unique(g: Seq<Seq<u32>>, s: int, d1: Seq<u32>, d2: Seq<u32>)
    requires
        is_shortest_distances(g, s, d1),
        is_shortest_distances(g, s, d2),
    ensures
        d1 == d2,
{
    assert forall|v: int| 0 <= v < d1.len() implies d1[v] == d2[v] by {
        if d1[v] != UNREACHABLE {
            let p = choose|p: Seq<int>| #[trigger] is_path_between(g, p, s, v) && path_weight(g, p) == d1[v] as int;
            assert(d2[v] as int <= path_weight(g, p));
        }
        if d2[v] != UNREACHABLE {
            let p = choose|p: Seq<int>| #[trigger] is_path_between(g, p, s, v) && path_weight(g, p) == d2[v] as int;
            assert(d1[v] as int <= path_weight(g, p));
        }
    }
    assert(d1 =~= d2);
}

/// A node other than the source that no edge enters is unreachable.
pub proof fn lemma_isolated_node_unreachable(g: Seq<Seq<u32>>, s: int, d: Seq<u32>, x: int)
    requires
        is_shortest_distances(g, s, d),
        0 <= x < g.len(),
        x != s,
        forall|u: int| 0 <= u < g.len() ==> !#[trigger] has_edge(g, u, x),
    ensures
        d[x] == UNREACHABLE,
{
    if d[x] != UNREACHABLE {
        let p = choose|p: Seq<int>| #[trigger] is_path_between(g, p, s, x) && path_weight(g, p) == d[x] as int;
        assert(p.len() >= 2);
        lemma_path_prefix(g, p);
        assert(has_edge(g, p[p.len() - 2], x));
    }
}

/// Computes the least path weight from `source` to every node of `graph`,
/// where a weight of zero means that there is no edge.
///
/// Each round settles the pending node of least distance and relaxes the
/// edges out of it, with sums that stop at `UNREACHABLE`; a node whose
/// distance drops becomes pending again. On the dense matrix this takes
/// `O(V^2)` steps.
pub fn dijkstra(graph: &Vec<Vec<u32>>, source: usize) -> (distances: Vec<u32>)
    requires
        is_square(rows_view(graph@)),
        source < graph.len(),
    ensures
        is_shortest_distances(rows_view(graph@), source as int, distances@),
{
    let ghost g = rows_view(graph@);
    let num_nodes = graph.len();
    let mut distances: Vec<u32> = Vec::new();
    while distances.len() < num_nodes
        invariant
            distances.len() <= num_nodes,
            forall|v: int| 0 <= v < distances.len() ==> distances[v] == UNREACHABLE,
        decreases num_nodes - distances.len(),
    {
        distances.push(UNREACHABLE);
    }
    distances.set(source, 0);
    let mut pending: Vec<bool> = Vec::new();
    while pending.len() < num_nodes
        invariant
            pending.len() <= num_nodes,
            forall|v: int| 0 <= v < pending.len() ==> !#[trigger] pending[v],
        decreases num_nodes - pending.len(),
    {
        pending.push(false);
    }
    pending.set(source, true);
    proof {
        let p = seq![source as int];
        assert(is_path_between(g, p, source as int, source as int));
        assert(path_weight(g, p) == 0);
    }
    loop
        invariant
            g == rows_view(graph@),
            is_square(g),
            num_nodes == g.len(),
            source < num_nodes,
            distances.len() == num_nodes,
            pending.len() == num_nodes,
            distances[source as int] == 0,
            forall|u: int| 0 <= u < num_nodes && #[trigger] pending[u] ==> distances[u] != UNREACHABLE,
            forall|u: int| 0 <= u < num_nodes && distances[u] != UNREACHABLE ==>
                pending[u] || is_settled(g, distances@, u),
            forall|v: int| 0 <= v < num_nodes && #[trigger] distances[v] != UNREACHABLE ==> exists|p: Seq<int>|
                #[trigger] is_path_between(g, p, source as int, v) && path_weight(g, p) == distances[v] as int,
        ensures
            forall|v: int| 0 <= v < num_nodes ==> !#[trigger] pending[v],
        decreases total(distances@), count_pending(pending@),
    {
        let current_node = match nearest_pending(&distances, &pending) {
            Some(u) => u,
            None => {
                break;
            },
        };
        let ghost total0 = total(distances@);
        let ghost pending0 = pending@;
        let current_distance = distances[current_node];
        pending.set(current_node, false);
        let ghost u = current_node as int;
        let ghost pending1 = pending@;
        proof {
            lemma_count_pending_clear(pending0, u);
        }
        let mut neighbor: usize = 0;
        while neighbor < num_nodes
            invariant
                g == rows_view(graph@),
                is_square(g),
                num_nodes == g.len(),
                source < num_nodes,
                current_node < num_nodes,
                u == current_node,
                distances.len() == num_nodes,
                pending.len() == num_nodes,
                distances[source as int] == 0,
                distances[u] == current_distance,
                current_distance != UNREACHABLE,
                forall|x: int| 0 <= x < num_nodes && #[trigger] pending[x] ==> distances[x] != UNREACHABLE,
                forall|x: int| 0 <= x < num_nodes && x != u && distances[x] != UNREACHABLE ==>
                    pending[x] || is_settled(g, distances@, x),
                forall|v: int| 0 <= v < neighbor && #[trigger] has_edge(g, u, v) ==>
                    distances[v] as int <= current_distance as int + g[u][v] as int,
                forall|v: int| 0 <= v < num_nodes && #[trigger] distances[v] != UNREACHABLE ==> exists|p: Seq<int>|
                    #[trigger] is_path_between(g, p, source as int, v) && path_weight(g, p) == distances[v] as int,
                total(distances@) <= total0,
                total(distances@) == total0 ==> pending@ == pending1,
                count_pending(pending1) < count_pending(pending0),
            decreases num_nodes - neighbor,
        {
            proof {
                assert(g[u].len() == num_nodes);
            }
            let weight = graph[current_node][neighbor];
            if weight != 0 {
                let new_distance = current_distance.saturating_add(weight);
                if new_distance < distances[neighbor] {
                    let ghost v = neighbor as int;
                    let ghost d0 = distances@;
                    proof {
                        let pu = choose|p: Seq<int>|
                            #[trigger] is_path_between(g, p, source as int, u) && path_weight(g, p) == d0[u] as int;
                        assert(has_edge(g, u, v));
                        lemma_path_extend(g, pu, v);
                        assert(is_path_between(g, pu.push(v), source as int, v));
                        lemma_total_update(d0, v, new_distance);
                    }
                    distances.set(neighbor, new_distance);
                    pending.set(neighbor, true);
                    proof {
                        let d1 = distances@;
                        assert forall|x: int| 0 <= x < num_nodes && #[trigger] d1[x] != UNREACHABLE implies exists|p: Seq<int>|
                            #[trigger] is_path_between(g, p, source as int, x) && path_weight(g, p) == d1[x] as int by {
                            if x != v {
                                assert(d0[x] != UNREACHABLE);
                            }
                        }
                        assert forall|x: int| 0 <= x < num_nodes && x != u && d1[x] != UNREACHABLE implies
                            pending[x] || is_settled(g, d1, x) by {
                            if x != v && !pending[x] {
                                assert(is_settled(g, d0, x));
                            }
                        }
                    }
                }
            }
            neighbor += 1;
        }
        proof {
            assert(is_settled(g, distances@, u));
            lemma_total_nonneg(distances@);
            lemma_count_pending_nonneg(pending@);
            lemma_count_pending_nonneg(pending1);
        }
    }
    proof {
        let d = distances@;
        assert forall|v: int, p: Seq<int>|
            0 <= v < d.len() && #[trigger] is_path_between(g, p, source as int, v) implies d[v] as int <= path_weight(g, p) by {
            assert forall|x: int| 0 <= x < d.len() && d[x] != UNREACHABLE implies is_settled(g, d, x) by {
                assert(!pending[x]);
            }
            lemma_settled_paths(g, source as int, d, p);
        }
    }
    distances
}

} // verus!
