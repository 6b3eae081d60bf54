//! The proximity graph: one node per record, and an edge between two
//! records exactly when both approach distances are known and differ by no
//! more than a threshold; the edge weight is that difference.

use vstd::prelude::*;
use crate::pairs::{
    lemma_filter_push, lemma_filter_stronger_len, lemma_map_values_push, lemma_row_pairs_elems,
    lemma_rows_below_contains, lemma_rows_below_elems, row_pairs, rows_below, tri_pairs,
};
use crate::paths::{degree, edges_in_range, graph_wf, lemma_wf_in_range, GraphEdge};
use crate::pgraph::{
    edges_of, graph_add_edge, graph_add_node, graph_new, nodes_of, NeoGraph,
};
use crate::score::AsteroidData;

verus! {

/// The node payloads of a graph over `n` rows: the row keys `0 .. n`.
pub open spec fn row_keys(n: int) -> Seq<u32> {
    Seq::new(n as nat, |k: int| k as u32)
}

/// The absolute difference.
pub open spec fn abs_gap(x: int, y: int) -> int {
    if x >= y {
        x - y
    } else {
        y - x
    }
}

/// Rows `p.0` and `p.1` qualify for a proximity edge under threshold
/// `tau`: both nominal distances are known, and differ by at most `tau`.
/// A row whose distance is missing never qualifies.
pub open spec fn prox_qualifies(data: Seq<AsteroidData>, tau: int, p: (int, int)) -> bool {
    &&& data[p.0].dist is Some
    &&& data[p.1].dist is Some
    &&& abs_gap(data[p.0].dist->0 as int, data[p.1].dist->0 as int) <= tau
}

/// The qualification predicate, as one function value.
pub open spec fn prox_pred(data: Seq<AsteroidData>, tau: int) -> spec_fn((int, int)) -> bool {
    |p: (int, int)| prox_qualifies(data, tau, p)
}

/// The proximity edge for a qualifying pair: its endpoints, and the exact
/// distance gap as an integer weight.
pub open spec fn prox_edge(data: Seq<AsteroidData>, p: (int, int)) -> GraphEdge {
    (
        p.0 as u32,
        p.1 as u32,
        (abs_gap(data[p.0].dist->0 as int, data[p.1].dist->0 as int) as u128, 1),
    )
}

/// The edge constructor, as one function value.
pub open spec fn prox_map(data: Seq<AsteroidData>) -> spec_fn((int, int)) -> GraphEdge {
    |p: (int, int)| prox_edge(data, p)
}

/// The proximity edges arising from the pairs `ps`, in order.
pub open spec fn prox_built(data: Seq<AsteroidData>, tau: int, ps: Seq<(int, int)>) -> Seq<
    GraphEdge,
> {
    ps.filter(prox_pred(data, tau)).map_values(prox_map(data))
}

/// The full proximity edge sequence: every unordered pair once, in
/// upper-triangular order, kept exactly when it qualifies.
pub open spec fn prox_edges(data: Seq<AsteroidData>, tau: int) -> Seq<GraphEdge> {
    prox_built(data, tau, tri_pairs(data.len() as int))
}

/// One more pair, appended: the edge sequence grows exactly when the pair
/// qualifies.
proof fn lemma_prox_built_push(
    data: Seq<AsteroidData>,
    tau: int,
    ps: Seq<(int, int)>,
    x: (int, int),
)
    ensures
        prox_qualifies(data, tau, x) ==> prox_built(data, tau, ps.push(x)) == prox_built(
            data,
            tau,
            ps,
        ).push(prox_edge(data, x)),
        !prox_qualifies(data, tau, x) ==> prox_built(data, tau, ps.push(x)) == prox_built(
            data,
            tau,
            ps,
        ),
{
    let q = prox_pred(data, tau);
    let f = prox_map(data);
    lemma_filter_push(ps, x, q);
    if q(x) {
        lemma_map_values_push(ps.filter(q), x, f);
    }
}

/// Builds the proximity graph: one node per record, carrying its row key,
/// and an edge for every qualifying unordered pair, in upper-triangular
/// order. Records with a missing distance stay as isolated nodes.
///
/// The row-count bound keeps every pair index within the graph's `u32`
/// index type.
pub fn build_proximity_graph(data: &Vec<AsteroidData>, tau: u64) -> (g: NeoGraph)
    requires
        data@.len() <= 0xffff,
    ensures
        nodes_of(g) == row_keys(data@.len() as int),
        edges_of(g) == prox_edges(data@, tau as int),
        graph_wf(edges_of(g), data@.len() as int),
        edges_in_range(edges_of(g), data@.len() as int),
{
    let n = data.len();
    let mut g = graph_new();
    let mut a: usize = 0;
    while a < n
        invariant
            n == data@.len(),
            n <= 0xffff,
            a <= n,
            nodes_of(g) == row_keys(a as int),
            edges_of(g) == Seq::<GraphEdge>::empty(),
        decreases n - a,
    {
        proof {
            assert(row_keys(a as int).push(a as u32) =~= row_keys(a as int + 1));
        }
        graph_add_node(&mut g, a as u32);
        a += 1;
    }
    proof {
        assert(rows_below(n as int, 0) == Seq::<(int, int)>::empty());
        assert(prox_built(data@, tau as int, rows_below(n as int, 0))
            =~= Seq::<GraphEdge>::empty());
    }
    let mut a: usize = 0;
    while a < n
        invariant
            n == data@.len(),
            n <= 0xffff,
            a <= n,
            nodes_of(g) == row_keys(n as int),
            edges_of(g) == prox_built(data@, tau as int, rows_below(n as int, a as int)),
        decreases n - a,
    {
        let mut b: usize = a + 1;
        proof {
            assert(row_pairs(a as int, b as int) == Seq::<(int, int)>::empty());
            assert(rows_below(n as int, a as int) + row_pairs(a as int, b as int) =~= rows_below(
                n as int,
                a as int,
            ));
        }
        while b < n
            invariant
                n == data@.len(),
                n <= 0xffff,
                a < n,
                a + 1 <= b <= n,
                nodes_of(g) == row_keys(n as int),
                edges_of(g) == prox_built(
                    data@,
                    tau as int,
                    rows_below(n as int, a as int) + row_pairs(a as int, b as int),
                ),
            decreases n - b,
        {
            let ghost ps_old = rows_below(n as int, a as int) + row_pairs(a as int, b as int);
            let ghost pr = (a as int, b as int);
            proof {
                assert(row_pairs(a as int, b as int + 1) == row_pairs(a as int, b as int).push(pr));
                assert(rows_below(n as int, a as int) + row_pairs(a as int, b as int + 1)
                    =~= ps_old.push(pr));
                lemma_prox_built_push(data@, tau as int, ps_old, pr);
                // the edge store stays within its index type
                lemma_rows_below_elems(n as int, a as int);
                lemma_row_pairs_elems(a as int, b as int);
                Seq::lemma_filter_len(ps_old, prox_pred(data@, tau as int));
                vstd::arithmetic::mul::lemma_mul_upper_bound(a as int, 0xffff, n as int, 0xffff);
            }
            let da = data[a].dist;
            let db = data[b].dist;
            if let (Some(x), Some(y)) = (da, db) {
                let gap = if x >= y {
                    x - y
                } else {
                    y - x
                };
                if gap <= tau {
                    graph_add_edge(&mut g, a, b, (gap as u128, 1));
                }
            }
            b += 1;
        }
        proof {
            assert(rows_below(n as int, a as int + 1) == rows_below(n as int, a as int)
                + row_pairs(a as int, n as int));
        }
        a += 1;
    }
    proof {
        lemma_prox_edges_wf(data@, tau as int);
        lemma_wf_in_range(edges_of(g), data@.len() as int);
    }
    g
}

/// Every proximity edge sequence is well-formed over its row count: edges
/// join distinct rows in range, with integer weights below 2^64.
pub proof fn lemma_prox_edges_wf(data: Seq<AsteroidData>, tau: int)
    requires
        data.len() <= 0xffff,
    ensures
        graph_wf(prox_edges(data, tau), data.len() as int),
{
    let n = data.len() as int;
    let q = prox_pred(data, tau);
    let kept = tri_pairs(n).filter(q);
    lemma_rows_below_elems(n, n);
    assert forall|k: int| 0 <= k < prox_edges(data, tau).len() implies {
        let e = #[trigger] prox_edges(data, tau)[k];
        e.0 < n && e.1 < n && e.0 != e.1 && e.2.1 == 1 && e.2.0 < 0x1_0000_0000_0000_0000
    } by {
        let p = kept[k];
        assert(tri_pairs(n).contains(p)) by {
            tri_pairs(n).lemma_filter_contains_rev(q, p);
            assert(kept.contains(p));
        }
        let i = choose|i: int| 0 <= i < tri_pairs(n).len() && tri_pairs(n)[i] == p;
        assert(0 <= p.0 < n && p.0 < p.1 < n);
        assert(q(p)) by {
            tri_pairs(n).lemma_filter_pred(q, k);
        }
        assert(data[p.0].dist is Some && data[p.1].dist is Some);
        let dx = data[p.0].dist->0;
        let dy = data[p.1].dist->0;
        assert(0 <= abs_gap(dx as int, dy as int) < 0x1_0000_0000_0000_0000);
    }
}

/// Raising the threshold never removes an edge: the edge count of the
/// proximity graph is monotone in the threshold.
pub proof fn lemma_proximity_monotone(data: Seq<AsteroidData>, tau1: int, tau2: int)
    requires
        tau1 <= tau2,
    ensures
        prox_edges(data, tau1).len() <= prox_edges(data, tau2).len(),
{
    let p1 = prox_pred(data, tau1);
    let p2 = prox_pred(data, tau2);
    assert forall|x: (int, int)| #[trigger] p1(x) implies p2(x) by {}
    lemma_filter_stronger_len(tri_pairs(data.len() as int), p1, p2);
}

/// Two proximity graphs over the same records: the one with the smaller
/// threshold has no more edges than the other.
pub proof fn lemma_proximity_edge_count_monotone(
    g1: NeoGraph,
    g2: NeoGraph,
    data: Seq<AsteroidData>,
    tau1: int,
    tau2: int,
)
    requires
        edges_of(g1) == prox_edges(data, tau1),
        edges_of(g2) == prox_edges(data, tau2),
        tau1 <= tau2,
    ensures
        edges_of(g1).len() <= edges_of(g2).len(),
{
    lemma_proximity_monotone(data, tau1, tau2);
}

/// A record whose nominal distance is missing is never compared: its node
/// has degree zero in the proximity graph, whatever the threshold.
pub proof fn lemma_missing_dist_isolated(data: Seq<AsteroidData>, tau: int, i: int)
    requires
        data.len() <= 0xffff,
        0 <= i < data.len(),
        data[i].dist is None,
    ensures
        degree(prox_edges(data, tau), i) == 0,
{
    let edges = prox_edges(data, tau);
    let n = data.len() as int;
    let q = prox_pred(data, tau);
    let kept = tri_pairs(n).filter(q);
    assert forall|k: int| 0 <= k < edges.len() implies !(crate::paths::edge_mentions(
        #[trigger] edges[k],
        i,
    )) by {
        let p = kept[k];
        lemma_pair_in_range(data, tau, k);
        assert(0 <= p.0 < 0x1_0000_0000 && 0 <= p.1 < 0x1_0000_0000);
        assert(q(p)) by {
            tri_pairs(n).lemma_filter_pred(q, k);
        }
        assert(data[p.0].dist is Some && data[p.1].dist is Some);
        assert(p.0 != i && p.1 != i);
        assert(edges[k] == prox_edge(data, p));
        assert(edges[k].0 == p.0 as u32 && edges[k].1 == p.1 as u32);
    }
    edges.lemma_all_neg_filter_empty(|e: GraphEdge| crate::paths::edge_mentions(e, i));
}

/// The proximity graph holds an edge between rows `i < j` exactly when the
/// pair qualifies under the threshold.
pub proof fn lemma_prox_edge_iff(data: Seq<AsteroidData>, tau: int, i: int, j: int)
    requires
        data.len() <= 0xffff,
        0 <= i < j < data.len(),
    ensures
        prox_qualifies(data, tau, (i, j)) <==> exists|k: int|
            0 <= k < prox_edges(data, tau).len() && (#[trigger] prox_edges(data, tau)[k]).0
                == i && prox_edges(data, tau)[k].1 == j,
{
    let n = data.len() as int;
    let q = prox_pred(data, tau);
    let kept = tri_pairs(n).filter(q);
    let edges = prox_edges(data, tau);
    if prox_qualifies(data, tau, (i, j)) {
        lemma_rows_below_contains(n, n, i, j);
        let t = choose|t: int| 0 <= t < tri_pairs(n).len() && tri_pairs(n)[t] == (i, j);
        tri_pairs(n).lemma_filter_contains(q, t);
        let k = choose|k: int| 0 <= k < kept.len() && kept[k] == (i, j);
        assert(edges[k] == prox_edge(data, (i, j)));
        assert(edges[k].0 == i && edges[k].1 == j);
    }
    if exists|k: int|
        0 <= k < edges.len() && (#[trigger] edges[k]).0 == i && edges[k].1 == j {
        let k = choose|k: int| 0 <= k < edges.len() && (#[trigger] edges[k]).0 == i && edges[k].1 == j;
        lemma_pair_in_range(data, tau, k);
        let p = kept[k];
        assert(q(p)) by {
            tri_pairs(n).lemma_filter_pred(q, k);
        }
        assert(edges[k] == prox_edge(data, p));
        assert(p.0 == i && p.1 == j);
    }
}

/// Every kept pair lies within the row range.
proof fn lemma_pair_in_range(data: Seq<AsteroidData>, tau: int, k: int)
    requires
        0 <= k < prox_edges(data, tau).len(),
    ensures
        ({
            let p = tri_pairs(data.len() as int).filter(prox_pred(data, tau))[k];
            0 <= p.0 < data.len() && p.0 < p.1 < data.len()
        }),
{
    let n = data.len() as int;
    let q = prox_pred(data, tau);
    let kept = tri_pairs(n).filter(q);
    let p = kept[k];
    assert(tri_pairs(n).contains(p)) by {
        tri_pairs(n).lemma_filter_contains_rev(q, p);
        assert(kept.contains(p));
    }
    let i = choose|i: int| 0 <= i < tri_pairs(n).len() && tri_pairs(n)[i] == p;
    lemma_rows_below_elems(n, n);
}

} // verus!
