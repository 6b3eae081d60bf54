//! The graph store, kept in `petgraph` behind a small trusted layer.
//!
//! Both analytical graphs are undirected `petgraph` graphs with `u32`
//! indices. A node's payload is the `u32` row key of the record it stands
//! for; an edge's weight is an exact rational `(numerator, denominator)`
//! pair, with denominator 0 standing for an unbounded weight. The two
//! uninterpreted functions below name the graph's contents — the node
//! payloads and the edges, each in insertion order (`petgraph` stores both
//! in growing arrays and never reorders them; this library removes
//! nothing) — and every contract about a graph speaks of those names.

use vstd::prelude::*;
use crate::paths::{GraphEdge, graph_wf, is_shortest_dist, reachable};
use petgraph::visit::EdgeRef;

verus! {

#[verifier::external_type_specification]
#[verifier::external_body]
#[verifier::reject_recursive_types(N)]
#[verifier::reject_recursive_types(E)]
#[verifier::reject_recursive_types(Ty)]
#[verifier::reject_recursive_types(Ix)]
pub struct ExGraph<N, E, Ty, Ix>(petgraph::graph::Graph<N, E, Ty, Ix>);

#[verifier::external_type_specification]
#[verifier::external_body]
pub struct ExUndirected(petgraph::Undirected);

/// The one graph shape this library builds: undirected, `u32`-indexed,
/// `u32` row-key payloads, exact rational weights.
pub type NeoGraph = petgraph::graph::Graph<u32, (u128, u128), petgraph::Undirected, u32>;

/// The node payloads of `g`, in insertion order.
pub uninterp spec fn nodes_of(g: NeoGraph) -> Seq<u32>;

/// The edges of `g`, in insertion order, each with the endpoints it was
/// inserted with.
pub uninterp spec fn edges_of(g: NeoGraph) -> Seq<GraphEdge>;

/// Relies on `petgraph::graph::Graph::default`: a fresh graph has no nodes
/// and no edges.
#[verifier::external_body]
pub fn graph_new() -> (g: NeoGraph)
    ensures
        nodes_of(g) == Seq::<u32>::empty(),
        edges_of(g) == Seq::<GraphEdge>::empty(),
{
    petgraph::graph::Graph::default()
}

/// Relies on `petgraph::graph::Graph::add_node`: appends one node and
/// returns its index, which equals the former node count. The index type
/// `u32` caps the node count; below the cap no panic is possible.
#[verifier::external_body]
pub fn graph_add_node(g: &mut NeoGraph, payload: u32) -> (ix: usize)
    requires
        nodes_of(*old(g)).len() < 0xffff_ffff,
    ensures
        nodes_of(*final(g)) == nodes_of(*old(g)).push(payload),
        edges_of(*final(g)) == edges_of(*old(g)),
        ix == nodes_of(*old(g)).len(),
{
    g.add_node(payload).index()
}

/// Relies on `petgraph::graph::Graph::add_edge`: appends one edge between
/// two existing nodes, stored with its endpoints in the order given. The
/// index type `u32` caps the edge count; below the cap, and with both
/// endpoints in range, no panic is possible.
#[verifier::external_body]
pub fn graph_add_edge(g: &mut NeoGraph, a: usize, b: usize, w: (u128, u128))
    requires
        a < nodes_of(*old(g)).len(),
        b < nodes_of(*old(g)).len(),
        edges_of(*old(g)).len() < 0xffff_ffff,
    ensures
        nodes_of(*final(g)) == nodes_of(*old(g)),
        edges_of(*final(g)) == edges_of(*old(g)).push((a as u32, b as u32, w)),
{
    g.add_edge(
        petgraph::graph::NodeIndex::new(a),
        petgraph::graph::NodeIndex::new(b),
        w,
    );
}

/// Relies on `petgraph::graph::Graph::node_count`, and on the `u32` index
/// type capping how many nodes a graph can ever hold: index `u32::MAX` is
/// the sentinel, so at most `u32::MAX` nodes (indices up to `u32::MAX - 1`)
/// ever exist.
#[verifier::external_body]
pub fn graph_node_count(g: &NeoGraph) -> (n: usize)
    ensures
        n == nodes_of(*g).len(),
        n <= 0xffff_ffff,
{
    g.node_count()
}

/// Relies on `petgraph::graph::Graph::edge_count`, and on the `u32` index
/// type capping how many edges a graph can ever hold: index `u32::MAX` is
/// the sentinel, so at most `u32::MAX` edges ever exist.
#[verifier::external_body]
pub fn graph_edge_count(g: &NeoGraph) -> (n: usize)
    ensures
        n == edges_of(*g).len(),
        n <= 0xffff_ffff,
{
    g.edge_count()
}

/// Relies on `petgraph::graph::Graph::node_weight`: the payload stored for
/// the node inserted `i`-th.
#[verifier::external_body]
pub fn graph_node_payload(g: &NeoGraph, i: usize) -> (p: u32)
    requires
        i < nodes_of(*g).len(),
    ensures
        p == nodes_of(*g)[i as int],
{
    *g.node_weight(petgraph::graph::NodeIndex::new(i)).unwrap()
}

/// Relies on `petgraph::graph::Graph::edge_references`: all edges, in index
/// (insertion) order, each with the endpoints it was inserted with.
#[verifier::external_body]
pub fn graph_edges_vec(g: &NeoGraph) -> (v: Vec<GraphEdge>)
    ensures
        v@ == edges_of(*g),
{
    g.edge_references().map(
        |e: petgraph::graph::EdgeReference<(u128, u128), u32>| (
            e.source().index() as u32,
            e.target().index() as u32,
            *e.weight(),
        ),
    ).collect()
}

/// Relies on `petgraph::algo::dijkstra`: it computes the length of the
/// shortest path from `src` to every reachable node, and reports no
/// unreachable node. The distance to `t` comes back in slot `t`. A
/// shortest distance never exceeds the sum of all edge weights (see
/// `lemma_shortest_le_total`), so with at most 2^32 edges of weight below
/// 2^64 every sum `dijkstra` forms fits in `u128`, and no overflow panic
/// is possible.
#[verifier::external_body]
pub fn graph_dijkstra(g: &NeoGraph, src: usize) -> (dists: Vec<Option<u128>>)
    requires
        src < nodes_of(*g).len(),
        graph_wf(edges_of(*g), nodes_of(*g).len() as int),
    ensures
        dists@.len() == nodes_of(*g).len(),
        forall|t: int|
            0 <= t < dists@.len() ==> (dists@[t] is Some <==> reachable(
                edges_of(*g),
                src as int,
                t,
            )),
        forall|t: int|
            0 <= t < dists@.len() && dists@[t] is Some ==> is_shortest_dist(
                edges_of(*g),
                src as int,
                t,
                dists@[t]->0 as int,
            ),
{
    let scores = petgraph::algo::dijkstra(
        g,
        petgraph::graph::NodeIndex::new(src),
        None,
        |e: petgraph::graph::EdgeReference<(u128, u128), u32>| e.weight().0,
    );
    let mut dists: Vec<Option<u128>> = vec![None; g.node_count()];
    for (ix, d) in scores {
        dists[ix.index()] = Some(d);
    }
    dists
}

} // verus!
