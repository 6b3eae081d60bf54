//! Closeness centrality: for each node, the inverse of the sum of
//! shortest-path distances to every node it can reach; zero when that sum
//! is zero (an isolated node, or a single-node graph).

use vstd::prelude::*;
use crate::paths::{
    degree, graph_wf, is_shortest_dist, lemma_isolated_reaches_only_self, lemma_shortest_dist_is,
    lemma_shortest_le_total, lemma_shortest_self_zero, lemma_total_weight_bound, reachable,
    shortest_dist, total_weight, GraphEdge,
};
use crate::pgraph::{
    edges_of, graph_dijkstra, graph_edge_count, graph_node_count, graph_node_payload, nodes_of,
    NeoGraph,
};

verus! {

/// A closeness-centrality score: exactly zero, or the exact inverse of a
/// positive distance sum.
#[derive(Clone, Copy, Debug, PartialEq, Eq, Structural)]
pub enum Centrality {
    /// No other node is reachable: the score is exactly zero.
    Zero,
    /// The score `1 / sum`, where `sum > 0` is the sum of shortest-path
    /// distances to all reachable nodes.
    Inverse { sum: u128 },
}

/// The sum of shortest-path distances from `s` to the reachable nodes
/// below `upto`; unreachable nodes contribute nothing.
pub open spec fn dist_sum(edges: Seq<GraphEdge>, s: int, upto: int) -> int
    decreases upto,
{
    if upto <= 0 {
        0
    } else {
        dist_sum(edges, s, upto - 1) + (if reachable(edges, s, upto - 1) {
            shortest_dist(edges, s, upto - 1)
        } else {
            0
        })
    }
}

/// The closeness centrality of node `s` in a graph of `n` nodes.
pub open spec fn closeness(edges: Seq<GraphEdge>, n: int, s: int) -> Centrality {
    let total = dist_sum(edges, s, n);
    if total == 0 {
        Centrality::Zero
    } else {
        Centrality::Inverse { sum: total as u128 }
    }
}

/// Computes the closeness centrality of every node, paired with its
/// payload, in node order.
pub fn closeness_centrality(g: &NeoGraph) -> (cents: Vec<(u32, Centrality)>)
    requires
        graph_wf(edges_of(*g), nodes_of(*g).len() as int),
    ensures
        cents@.len() == nodes_of(*g).len(),
        forall|i: int|
            0 <= i < cents@.len() ==> (#[trigger] cents@[i]).0 == nodes_of(*g)[i] && cents@[i].1
                == closeness(edges_of(*g), nodes_of(*g).len() as int, i),
{
    let n = graph_node_count(g);
    let edge_cnt = graph_edge_count(g);
    let mut cents: Vec<(u32, Centrality)> = Vec::new();
    let mut s: usize = 0;
    while s < n
        invariant
            s <= n,
            n == nodes_of(*g).len(),
            n <= 0xffff_ffff,
            edges_of(*g).len() <= 0xffff_ffff,
            graph_wf(edges_of(*g), n as int),
            cents@.len() == s,
            forall|i: int|
                0 <= i < s ==> (#[trigger] cents@[i]).0 == nodes_of(*g)[i] && cents@[i].1
                    == closeness(edges_of(*g), n as int, i),
        decreases n - s,
    {
        let ghost edges = edges_of(*g);
        let ghost bound = total_weight(edges);
        let dists = graph_dijkstra(g, s);
        proof {
            lemma_total_weight_bound(edges, n as int);
        }
        let mut acc: u128 = 0;
        let mut t: usize = 0;
        while t < n
            invariant
                t <= n,
                n == nodes_of(*g).len(),
                n <= 0xffff_ffff,
                edges == edges_of(*g),
                bound == total_weight(edges),
                0 <= bound,
                edges.len() <= 0xffff_ffff,
                bound <= edges.len() * 0x1_0000_0000_0000_0000,
                s < n,
                dists@.len() == n,
                forall|q: int|
                    0 <= q < dists@.len() ==> ((#[trigger] dists@[q]) is Some <==> reachable(
                        edges,
                        s as int,
                        q,
                    )),
                forall|q: int|
                    0 <= q < dists@.len() && dists@[q] is Some ==> is_shortest_dist(
                        edges,
                        s as int,
                        q,
                        dists@[q]->0 as int,
                    ),
                acc == dist_sum(edges, s as int, t as int),
                acc <= (t as int) * bound,
            decreases n - t,
        {
            proof {
                assert((t as int) * bound + bound == (t as int + 1) * bound) by (nonlinear_arith);
            }
            match dists[t] {
                Some(d) => {
                    proof {
                        lemma_shortest_dist_is(edges, s as int, t as int, d as int);
                        lemma_shortest_le_total(edges, s as int, t as int, d as int);
                        vstd::arithmetic::mul::lemma_mul_upper_bound(
                            edges.len() as int,
                            0xffff_ffff,
                            0x1_0000_0000_0000_0000,
                            0x1_0000_0000_0000_0000,
                        );
                        assert(bound <= 0xffff_ffff as int * 0x1_0000_0000_0000_0000 as int);
                        vstd::arithmetic::mul::lemma_mul_upper_bound(
                            t as int + 1,
                            0xffff_ffff,
                            bound,
                            0xffff_ffff as int * 0x1_0000_0000_0000_0000 as int,
                        );
                    }
                    acc = acc + d;
                },
                None => {},
            }
            t += 1;
        }
        let c = if acc == 0 {
            Centrality::Zero
        } else {
            Centrality::Inverse { sum: acc }
        };
        proof {
            assert(c == closeness(edges, n as int, s as int));
        }
        let payload = graph_node_payload(g, s);
        cents.push((payload, c));
        s += 1;
    }
    cents
}

/// The distance sum of an isolated node is zero: it reaches only itself,
/// at distance zero.
proof fn lemma_dist_sum_isolated(edges: Seq<GraphEdge>, s: int, upto: int)
    requires
        degree(edges, s) == 0,
    ensures
        dist_sum(edges, s, upto) == 0,
    decreases upto,
{
    if upto > 0 {
        lemma_dist_sum_isolated(edges, s, upto - 1);
        if reachable(edges, s, upto - 1) {
            lemma_isolated_reaches_only_self(edges, s, upto - 1);
            lemma_shortest_self_zero(edges, s);
            lemma_shortest_dist_is(edges, s, s, 0);
        }
    }
}

/// The closeness centrality of an isolated node is exactly zero.
pub proof fn lemma_isolated_centrality(edges: Seq<GraphEdge>, n: int, s: int)
    requires
        degree(edges, s) == 0,
    ensures
        closeness(edges, n, s) == Centrality::Zero,
{
    lemma_dist_sum_isolated(edges, s, n);
}

} // verus!
