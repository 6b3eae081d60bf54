//! Walks, reachability and shortest-path distances over an edge list.
//!
//! A graph's edges are a sequence of `(a, b, (num, den))` triples: an
//! undirected edge between nodes `a` and `b` whose weight is the exact
//! rational `num / den`. Graphs whose weights are integers (`den == 1`)
//! admit walk costs and shortest-path distances.

use vstd::prelude::*;

verus! {

/// One undirected weighted edge: endpoints and an exact rational weight.
pub type GraphEdge = (u32, u32, (u128, u128));

/// The integer weight of an edge (meaningful when its denominator is 1).
pub open spec fn edge_weight(e: GraphEdge) -> int {
    e.2.0 as int
}

/// Whether edge `e` joins nodes `u` and `v` (in either direction).
pub open spec fn edge_links(e: GraphEdge, u: int, v: int) -> bool {
    (e.0 == u && e.1 == v) || (e.0 == v && e.1 == u)
}

/// Whether node `u` occurs in edge `e`.
pub open spec fn edge_mentions(e: GraphEdge, u: int) -> bool {
    e.0 == u || e.1 == u
}

/// The degree of node `u`: how many edges mention it.
pub open spec fn degree(edges: Seq<GraphEdge>, u: int) -> nat {
    edges.filter(|e: GraphEdge| edge_mentions(e, u)).len()
}

/// All weights are integers (denominator 1) with numerators that fit in 64
/// bits, and all endpoints name existing, distinct nodes.
pub open spec fn graph_wf(edges: Seq<GraphEdge>, n: int) -> bool {
    forall|k: int|
        0 <= k < edges.len() ==> {
            let e = #[trigger] edges[k];
            &&& e.0 < n
            &&& e.1 < n
            &&& e.0 != e.1
            &&& e.2.1 == 1
            &&& e.2.0 < 0x1_0000_0000_0000_0000
        }
}

/// A walk from `s` to `t` along the edge indices `eids`, in order; each
/// step crosses its edge in either direction.
pub open spec fn is_walk(edges: Seq<GraphEdge>, eids: Seq<int>, s: int, t: int) -> bool
    decreases eids.len(),
{
    if eids.len() == 0 {
        s == t
    } else {
        let j = eids[0];
        &&& 0 <= j < edges.len()
        &&& {
            let e = edges[j];
            (e.0 == s && is_walk(edges, eids.drop_first(), e.1 as int, t)) || (e.1 == s
                && is_walk(edges, eids.drop_first(), e.0 as int, t))
        }
    }
}

/// The cost of a walk: the sum of its edges' integer weights.
pub open spec fn walk_cost(edges: Seq<GraphEdge>, eids: Seq<int>) -> int
    decreases eids.len(),
{
    if eids.len() == 0 {
        0
    } else {
        edge_weight(edges[eids[0]]) + walk_cost(edges, eids.drop_first())
    }
}

/// Whether `t` can be reached from `s` by some walk.
pub open spec fn reachable(edges: Seq<GraphEdge>, s: int, t: int) -> bool {
    exists|eids: Seq<int>| is_walk(edges, eids, s, t)
}

/// `d` is the length of a shortest walk from `s` to `t`.
pub open spec fn is_shortest_dist(edges: Seq<GraphEdge>, s: int, t: int, d: int) -> bool {
    &&& exists|eids: Seq<int>| is_walk(edges, eids, s, t) && walk_cost(edges, eids) == d
    &&& forall|eids: Seq<int>| is_walk(edges, eids, s, t) ==> walk_cost(edges, eids) >= d
}

/// The shortest-path distance from `s` to `t` (meaningful when reachable).
pub open spec fn shortest_dist(edges: Seq<GraphEdge>, s: int, t: int) -> int {
    choose|d: int| is_shortest_dist(edges, s, t, d)
}

/// The sum of all edge weights in the graph.
pub open spec fn total_weight(edges: Seq<GraphEdge>) -> int
    decreases edges.len(),
{
    if edges.len() == 0 {
        0
    } else {
        total_weight(edges.drop_last()) + edge_weight(edges.last())
    }
}

/// The total weight of a well-formed graph is bounded by the edge count
/// times the largest single weight.
pub proof fn lemma_total_weight_bound(edges: Seq<GraphEdge>, n: int)
    requires
        graph_wf(edges, n),
    ensures
        0 <= total_weight(edges),
        total_weight(edges) <= edges.len() * 0x1_0000_0000_0000_0000,
    decreases edges.len(),
{
    if edges.len() == 0 {
    } else {
        assert(graph_wf(edges.drop_last(), n)) by {
            assert(forall|k: int|
                0 <= k < edges.drop_last().len() ==> edges.drop_last()[k] == edges[k]);
        }
        lemma_total_weight_bound(edges.drop_last(), n);
        assert(edge_weight(edges.last()) <= 0x1_0000_0000_0000_0000);
        assert((edges.len() - 1) * 0x1_0000_0000_0000_0000 + 0x1_0000_0000_0000_0000 == edges.len()
            * 0x1_0000_0000_0000_0000) by (nonlinear_arith);
    }
}

/// Endpoints of every edge name an existing node.
pub open spec fn edges_in_range(edges: Seq<GraphEdge>, n: int) -> bool {
    forall|j: int| 0 <= j < edges.len() ==> (#[trigger] edges[j]).0 < n && edges[j].1 < n
}

/// A well-formed graph has its edges in range.
pub proof fn lemma_wf_in_range(edges: Seq<GraphEdge>, n: int)
    requires
        graph_wf(edges, n),
    ensures
        edges_in_range(edges, n),
{
}

/// A walk grows by one edge at its end.
pub proof fn lemma_walk_extend(
    edges: Seq<GraphEdge>,
    eids: Seq<int>,
    s: int,
    u: int,
    j: int,
    v: int,
)
    requires
        is_walk(edges, eids, s, u),
        0 <= j < edges.len(),
        edge_links(edges[j], u, v),
    ensures
        is_walk(edges, eids.push(j), s, v),
    decreases eids.len(),
{
    if eids.len() == 0 {
        assert(eids =~= Seq::<int>::empty());
        let one = eids.push(j);
        assert(one[0] == j);
        assert(one.drop_first() =~= Seq::<int>::empty());
        assert(is_walk(edges, one, s, v)) by {
            reveal_with_fuel(is_walk, 3);
        }
    } else {
        let e = edges[eids[0]];
        if e.0 == s && is_walk(edges, eids.drop_first(), e.1 as int, u) {
            lemma_walk_extend(edges, eids.drop_first(), e.1 as int, u, j, v);
        } else {
            lemma_walk_extend(edges, eids.drop_first(), e.0 as int, u, j, v);
        }
        assert(eids.push(j).drop_first() =~= eids.drop_first().push(j));
        assert(eids.push(j)[0] == eids[0]);
    }
}

/// A walk can be crossed backwards: reachability is symmetric.
proof fn lemma_walk_reverse(edges: Seq<GraphEdge>, eids: Seq<int>, s: int, t: int)
    requires
        is_walk(edges, eids, s, t),
    ensures
        reachable(edges, t, s),
    decreases eids.len(),
{
    if eids.len() == 0 {
        lemma_reachable_self(edges, t);
    } else {
        let e = edges[eids[0]];
        if e.0 == s && is_walk(edges, eids.drop_first(), e.1 as int, t) {
            lemma_walk_reverse(edges, eids.drop_first(), e.1 as int, t);
            let back = choose|back: Seq<int>| is_walk(edges, back, t, e.1 as int);
            assert(edge_links(edges[eids[0]], e.1 as int, s));
            lemma_walk_extend(edges, back, t, e.1 as int, eids[0], s);
        } else {
            lemma_walk_reverse(edges, eids.drop_first(), e.0 as int, t);
            let back = choose|back: Seq<int>| is_walk(edges, back, t, e.0 as int);
            assert(edge_links(edges[eids[0]], e.0 as int, s));
            lemma_walk_extend(edges, back, t, e.0 as int, eids[0], s);
        }
    }
}

/// Reachability is symmetric: the edges are undirected.
pub proof fn lemma_reachable_symmetric(edges: Seq<GraphEdge>, s: int, t: int)
    requires
        reachable(edges, s, t),
    ensures
        reachable(edges, t, s),
{
    let eids = choose|eids: Seq<int>| is_walk(edges, eids, s, t);
    lemma_walk_reverse(edges, eids, s, t);
}

/// Two walks joined end to start form one walk.
proof fn lemma_walk_concat(
    edges: Seq<GraphEdge>,
    w1: Seq<int>,
    w2: Seq<int>,
    s: int,
    m: int,
    t: int,
)
    requires
        is_walk(edges, w1, s, m),
        is_walk(edges, w2, m, t),
    ensures
        is_walk(edges, w1 + w2, s, t),
    decreases w1.len(),
{
    if w1.len() == 0 {
        assert(w1 + w2 =~= w2);
    } else {
        let e = edges[w1[0]];
        if e.0 == s && is_walk(edges, w1.drop_first(), e.1 as int, m) {
            lemma_walk_concat(edges, w1.drop_first(), w2, e.1 as int, m, t);
        } else {
            lemma_walk_concat(edges, w1.drop_first(), w2, e.0 as int, m, t);
        }
        assert((w1 + w2).drop_first() =~= w1.drop_first() + w2);
        assert((w1 + w2)[0] == w1[0]);
    }
}

/// Reachability is transitive.
pub proof fn lemma_reachable_trans(edges: Seq<GraphEdge>, s: int, m: int, t: int)
    requires
        reachable(edges, s, m),
        reachable(edges, m, t),
    ensures
        reachable(edges, s, t),
{
    let w1 = choose|w1: Seq<int>| is_walk(edges, w1, s, m);
    let w2 = choose|w2: Seq<int>| is_walk(edges, w2, m, t);
    lemma_walk_concat(edges, w1, w2, s, m, t);
}

/// Every node reaches itself, by the empty walk.
pub proof fn lemma_reachable_self(edges: Seq<GraphEdge>, s: int)
    ensures
        reachable(edges, s, s),
{
    let eids = Seq::<int>::empty();
    assert(is_walk(edges, eids, s, s));
}

/// Walk costs are non-negative.
pub proof fn lemma_walk_cost_nonneg(edges: Seq<GraphEdge>, eids: Seq<int>)
    ensures
        walk_cost(edges, eids) >= 0,
    decreases eids.len(),
{
    if eids.len() > 0 {
        lemma_walk_cost_nonneg(edges, eids.drop_first());
    }
}

/// Shortest distances are unique.
pub proof fn lemma_shortest_dist_unique(edges: Seq<GraphEdge>, s: int, t: int, d1: int, d2: int)
    requires
        is_shortest_dist(edges, s, t, d1),
        is_shortest_dist(edges, s, t, d2),
    ensures
        d1 == d2,
{
}

/// If some `d` is a shortest distance, `shortest_dist` equals it.
pub proof fn lemma_shortest_dist_is(edges: Seq<GraphEdge>, s: int, t: int, d: int)
    requires
        is_shortest_dist(edges, s, t, d),
    ensures
        shortest_dist(edges, s, t) == d,
{
    let d2 = shortest_dist(edges, s, t);
    assert(is_shortest_dist(edges, s, t, d2)) by {
        assert(exists|x: int| is_shortest_dist(edges, s, t, x));
    }
    lemma_shortest_dist_unique(edges, s, t, d, d2);
}

/// A node of degree zero reaches only itself.
pub proof fn lemma_isolated_reaches_only_self(edges: Seq<GraphEdge>, s: int, t: int)
    requires
        degree(edges, s) == 0,
        reachable(edges, s, t),
    ensures
        t == s,
{
    if t != s {
        let eids = choose|eids: Seq<int>| is_walk(edges, eids, s, t);
        assert(eids.len() > 0);
        let j = eids[0];
        assert(edge_mentions(edges[j], s));
        lemma_mentions_degree(edges, s, j);
    }
}

/// If some edge mentions `u`, the degree of `u` is positive.
proof fn lemma_mentions_degree(edges: Seq<GraphEdge>, u: int, j: int)
    requires
        0 <= j < edges.len(),
        edge_mentions(edges[j], u),
    ensures
        degree(edges, u) > 0,
{
    let pred = |e: GraphEdge| edge_mentions(e, u);
    edges.lemma_filter_contains(pred, j);
    assert(edges.filter(pred).contains(edges[j]));
}

/// The node reached after the first `p` steps of a walk. An edge is left
/// through its far endpoint (either endpoint of a self-loop).
pub open spec fn walk_node_at(edges: Seq<GraphEdge>, eids: Seq<int>, s: int, p: int) -> int
    decreases p,
{
    if p <= 0 {
        s
    } else {
        let x = walk_node_at(edges, eids, s, p - 1);
        let e = edges[eids[p - 1]];
        if e.0 == x {
            e.1 as int
        } else {
            e.0 as int
        }
    }
}

/// Stepping once and then walking is walking with a shifted start.
proof fn lemma_node_at_shift(edges: Seq<GraphEdge>, eids: Seq<int>, s: int, p: int)
    requires
        1 <= p <= eids.len(),
    ensures
        walk_node_at(edges, eids, s, p) == walk_node_at(
            edges,
            eids.drop_first(),
            walk_node_at(edges, eids, s, 1),
            p - 1,
        ),
    decreases p,
{
    if p > 1 {
        lemma_node_at_shift(edges, eids, s, p - 1);
        assert(eids.drop_first()[p - 2] == eids[p - 1]);
    }
}

/// A walk splits at any position into two walks through the node reached
/// there, and its cost splits with it.
proof fn lemma_walk_split(edges: Seq<GraphEdge>, eids: Seq<int>, s: int, t: int, p: int)
    requires
        is_walk(edges, eids, s, t),
        0 <= p <= eids.len(),
    ensures
        is_walk(edges, eids.take(p), s, walk_node_at(edges, eids, s, p)),
        is_walk(edges, eids.skip(p), walk_node_at(edges, eids, s, p), t),
        walk_cost(edges, eids) == walk_cost(edges, eids.take(p)) + walk_cost(edges, eids.skip(p)),
    decreases p,
{
    if p == 0 {
        assert(eids.take(0) =~= Seq::<int>::empty());
        assert(eids.skip(0) =~= eids);
    } else {
        let e = edges[eids[0]];
        let m = walk_node_at(edges, eids, s, 1);
        assert(walk_node_at(edges, eids, s, 0) == s);
        assert(m == if e.0 == s {
            e.1 as int
        } else {
            e.0 as int
        });
        assert(is_walk(edges, eids.drop_first(), m, t)) by {
            if e.0 == s && is_walk(edges, eids.drop_first(), e.1 as int, t) {
                assert(m == e.1 as int);
            } else {
                assert(e.1 == s && is_walk(edges, eids.drop_first(), e.0 as int, t));
                if e.0 == s {
                    // both endpoints equal the start, so the far end is the same node
                    assert(e.0 as int == e.1 as int);
                    assert(m == e.1 as int);
                } else {
                    assert(m == e.0 as int);
                }
            }
        }
        lemma_node_at_shift(edges, eids, s, p);
        lemma_walk_split(edges, eids.drop_first(), m, t, p - 1);
        assert(eids.take(p).drop_first() =~= eids.drop_first().take(p - 1));
        assert(eids.take(p)[0] == eids[0]);
        assert(eids.skip(p) =~= eids.drop_first().skip(p - 1));
    }
}

/// A walk that crosses some edge twice can be cut short around the two
/// crossings.
proof fn lemma_walk_shorten(
    edges: Seq<GraphEdge>,
    eids: Seq<int>,
    s: int,
    t: int,
    p1: int,
    p2: int,
)
    requires
        is_walk(edges, eids, s, t),
        0 <= p1 < p2 < eids.len(),
        eids[p1] == eids[p2],
    ensures
        exists|w: Seq<int>| is_walk(edges, w, s, t) && w.len() < eids.len(),
{
    let e = edges[eids[p1]];
    lemma_walk_split(edges, eids, s, t, p1);
    lemma_walk_split(edges, eids, s, t, p2);
    lemma_walk_split(edges, eids, s, t, p2 + 1);
    let x1 = walk_node_at(edges, eids, s, p1);
    let x2 = walk_node_at(edges, eids, s, p2);
    let y2 = walk_node_at(edges, eids, s, p2 + 1);
    assert(eids.skip(p1)[0] == eids[p1]);
    assert(eids.skip(p2)[0] == eids[p2]);
    assert(e.0 == x1 || e.1 == x1);
    assert(y2 == if e.0 == x2 {
        e.1 as int
    } else {
        e.0 as int
    });
    if x1 == x2 {
        let w = eids.take(p1) + eids.skip(p2);
        lemma_walk_concat(edges, eids.take(p1), eids.skip(p2), s, x1, t);
        assert(is_walk(edges, w, s, t) && w.len() < eids.len());
    } else {
        assert(x1 == y2);
        let w = eids.take(p1) + eids.skip(p2 + 1);
        lemma_walk_concat(edges, eids.take(p1), eids.skip(p2 + 1), s, x1, t);
        assert(is_walk(edges, w, s, t) && w.len() < eids.len());
    }
}

/// Wherever a walk leads, a walk that crosses no edge twice leads too.
proof fn lemma_walk_dedup(edges: Seq<GraphEdge>, eids: Seq<int>, s: int, t: int)
    requires
        is_walk(edges, eids, s, t),
    ensures
        exists|w: Seq<int>| is_walk(edges, w, s, t) && w.no_duplicates(),
    decreases eids.len(),
{
    if eids.no_duplicates() {
        assert(is_walk(edges, eids, s, t) && eids.no_duplicates());
    } else {
        let (p1, p2) = choose|p1: int, p2: int|
            0 <= p1 < p2 < eids.len() && eids[p1] == eids[p2];
        lemma_walk_shorten(edges, eids, s, t, p1, p2);
        let w = choose|w: Seq<int>| is_walk(edges, w, s, t) && w.len() < eids.len();
        lemma_walk_dedup(edges, w, s, t);
    }
}

/// Every step of a walk names an existing edge.
proof fn lemma_walk_ids_in_range(edges: Seq<GraphEdge>, eids: Seq<int>, s: int, t: int)
    requires
        is_walk(edges, eids, s, t),
    ensures
        forall|k: int| 0 <= k < eids.len() ==> 0 <= #[trigger] eids[k] < edges.len(),
    decreases eids.len(),
{
    if eids.len() > 0 {
        let e = edges[eids[0]];
        if e.0 == s && is_walk(edges, eids.drop_first(), e.1 as int, t) {
            lemma_walk_ids_in_range(edges, eids.drop_first(), e.1 as int, t);
        } else {
            lemma_walk_ids_in_range(edges, eids.drop_first(), e.0 as int, t);
        }
        assert forall|k: int| 0 <= k < eids.len() implies 0 <= #[trigger] eids[k] < edges.len() by {
            if k >= 1 {
                assert(eids[k] == eids.drop_first()[k - 1]);
            }
        }
    }
}

/// Removing one step removes exactly its weight from the cost.
proof fn lemma_cost_remove(edges: Seq<GraphEdge>, eids: Seq<int>, p: int)
    requires
        0 <= p < eids.len(),
    ensures
        walk_cost(edges, eids.remove(p)) == walk_cost(edges, eids) - edge_weight(edges[eids[p]]),
    decreases eids.len(),
{
    if p == 0 {
        assert(eids.remove(0) =~= eids.drop_first());
    } else {
        assert(eids.remove(p).drop_first() =~= eids.drop_first().remove(p - 1));
        assert(eids.remove(p)[0] == eids[0]);
        assert(eids.drop_first()[p - 1] == eids[p]);
        lemma_cost_remove(edges, eids.drop_first(), p - 1);
    }
}

/// A cost over steps that avoid the last edge ignores that edge.
proof fn lemma_cost_drop_last_edge(edges: Seq<GraphEdge>, eids: Seq<int>)
    requires
        edges.len() >= 1,
        forall|k: int| 0 <= k < eids.len() ==> 0 <= #[trigger] eids[k] < edges.len() - 1,
    ensures
        walk_cost(edges.drop_last(), eids) == walk_cost(edges, eids),
    decreases eids.len(),
{
    if eids.len() > 0 {
        assert(edges.drop_last()[eids[0]] == edges[eids[0]]);
        assert(forall|k: int|
            0 <= k < eids.drop_first().len() ==> eids.drop_first()[k] == #[trigger] eids[k + 1]);
        lemma_cost_drop_last_edge(edges, eids.drop_first());
    }
}

/// Steps that cross no edge twice cost at most the sum of all weights.
proof fn lemma_distinct_cost_le_total(edges: Seq<GraphEdge>, eids: Seq<int>)
    requires
        eids.no_duplicates(),
        forall|k: int| 0 <= k < eids.len() ==> 0 <= #[trigger] eids[k] < edges.len(),
    ensures
        walk_cost(edges, eids) <= total_weight(edges),
    decreases edges.len(),
{
    lemma_walk_cost_nonneg(edges, eids);
    if edges.len() == 0 {
        assert(eids.len() == 0);
    } else {
        let last = edges.len() - 1;
        if eids.contains(last) {
            let p = choose|p: int| 0 <= p < eids.len() && eids[p] == last;
            let rest = eids.remove(p);
            eids.remove_ensures(p);
            lemma_cost_remove(edges, eids, p);
            assert(rest.no_duplicates()) by {
                assert forall|i: int, j: int| 0 <= i < j < rest.len() implies rest[i] != rest[j] by {
                    let i0 = if i < p {
                        i
                    } else {
                        i + 1
                    };
                    let j0 = if j < p {
                        j
                    } else {
                        j + 1
                    };
                    assert(rest[i] == eids[i0] && rest[j] == eids[j0]);
                }
            }
            assert(forall|k: int| 0 <= k < rest.len() ==> 0 <= #[trigger] rest[k] < last) by {
                assert forall|k: int| 0 <= k < rest.len() implies 0 <= #[trigger] rest[k] < last by {
                    let k0 = if k < p {
                        k
                    } else {
                        k + 1
                    };
                    assert(rest[k] == eids[k0]);
                    assert(eids[k0] != eids[p]);
                }
            }
            lemma_cost_drop_last_edge(edges, rest);
            lemma_distinct_cost_le_total(edges.drop_last(), rest);
        } else {
            assert(forall|k: int| 0 <= k < eids.len() ==> 0 <= #[trigger] eids[k] < last) by {
                assert forall|k: int| 0 <= k < eids.len() implies 0 <= #[trigger] eids[k] < last by {
                    assert(eids[k] != last);
                }
            }
            lemma_cost_drop_last_edge(edges, eids);
            lemma_distinct_cost_le_total(edges.drop_last(), eids);
        }
        lemma_total_weight_nonneg_last(edges);
    }
}

/// The last weight is non-negative.
proof fn lemma_total_weight_nonneg_last(edges: Seq<GraphEdge>)
    requires
        edges.len() >= 1,
    ensures
        total_weight(edges) == total_weight(edges.drop_last()) + edge_weight(edges.last()),
        edge_weight(edges.last()) >= 0,
{
}

/// A shortest distance never exceeds the sum of all edge weights: some
/// walk of minimal cost crosses no edge twice.
pub proof fn lemma_shortest_le_total(edges: Seq<GraphEdge>, s: int, t: int, d: int)
    requires
        is_shortest_dist(edges, s, t, d),
    ensures
        d <= total_weight(edges),
{
    let w0 = choose|w0: Seq<int>| is_walk(edges, w0, s, t) && walk_cost(edges, w0) == d;
    lemma_walk_dedup(edges, w0, s, t);
    let w = choose|w: Seq<int>| is_walk(edges, w, s, t) && w.no_duplicates();
    lemma_walk_ids_in_range(edges, w, s, t);
    lemma_distinct_cost_le_total(edges, w);
    assert(walk_cost(edges, w) >= d);
}

/// The shortest distance from a node to itself is zero when no walk has
/// negative cost, in particular from any node at all.
pub proof fn lemma_shortest_self_zero(edges: Seq<GraphEdge>, s: int)
    ensures
        is_shortest_dist(edges, s, s, 0),
{
    let eids = Seq::<int>::empty();
    assert(is_walk(edges, eids, s, s) && walk_cost(edges, eids) == 0);
    assert forall|w: Seq<int>| is_walk(edges, w, s, s) implies walk_cost(edges, w) >= 0 by {
        lemma_walk_cost_nonneg(edges, w);
    }
}

} // verus!
