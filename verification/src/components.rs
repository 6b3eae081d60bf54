//! Connected components: an exhaustive reachability search partitions the
//! nodes into clusters, each a maximal set of mutually reachable nodes.

use vstd::prelude::*;
use crate::pairs::lemma_map_values_push;
use crate::paths::{
    edge_links, edges_in_range, is_walk, lemma_reachable_self, lemma_reachable_symmetric,
    lemma_reachable_trans, lemma_walk_extend, reachable, GraphEdge,
};
use crate::pgraph::{
    edges_of, graph_edges_vec, graph_node_count, graph_node_payload, nodes_of, NeoGraph,
};

verus! {

/// How often node `v` occurs in one cluster.
pub open spec fn occ_in(cl: Seq<int>, v: int) -> nat {
    cl.to_multiset().count(v)
}

/// How often node `v` occurs over all clusters.
pub open spec fn occ_total(part: Seq<Seq<int>>, v: int) -> nat
    decreases part.len(),
{
    if part.len() == 0 {
        0
    } else {
        occ_total(part.drop_last(), v) + occ_in(part.last(), v)
    }
}

/// The sum of the cluster sizes.
pub open spec fn size_total(part: Seq<Seq<int>>) -> int
    decreases part.len(),
{
    if part.len() == 0 {
        0
    } else {
        size_total(part.drop_last()) + part.last().len()
    }
}

/// No edge leads out of the cluster.
pub open spec fn cluster_closed(edges: Seq<GraphEdge>, cl: Seq<int>) -> bool {
    forall|k: int, j: int|
        #![trigger cl[k], edges[j]]
        0 <= k < cl.len() && 0 <= j < edges.len() ==> {
            let e = edges[j];
            (e.0 == cl[k] ==> cl.contains(e.1 as int)) && (e.1 == cl[k] ==> cl.contains(
                e.0 as int,
            ))
        }
}

/// `part` lists the connected components of a graph of `n` nodes, by node
/// index: nonempty clusters covering every node exactly once, each
/// reachable from its own first element and closed under edges. Closure
/// and reachability together make every cluster one whole component.
pub open spec fn components_ok(edges: Seq<GraphEdge>, n: int, part: Seq<Seq<int>>) -> bool {
    &&& forall|c: int| 0 <= c < part.len() ==> (#[trigger] part[c]).len() > 0
    &&& forall|c: int, k: int|
        #![trigger part[c][k]]
        0 <= c < part.len() && 0 <= k < part[c].len() ==> 0 <= part[c][k] < n
    &&& forall|v: int| 0 <= v < n ==> occ_total(part, v) == 1
    &&& forall|c: int, k: int|
        #![trigger part[c][k]]
        0 <= c < part.len() && 0 <= k < part[c].len() ==> reachable(edges, part[c][0], part[c][k])
    &&& forall|c: int| 0 <= c < part.len() ==> cluster_closed(edges, #[trigger] part[c])
}

/// Every edge at node `w` leads to a visited node.
pub open spec fn node_processed(edges: Seq<GraphEdge>, vs: Seq<bool>, w: int) -> bool {
    forall|j: int|
        0 <= j < edges.len() ==> {
            let e = #[trigger] edges[j];
            (e.0 == w ==> vs[e.1 as int]) && (e.1 == w ==> vs[e.0 as int])
        }
}

/// How many entries are true.
pub open spec fn count_true(vs: Seq<bool>) -> int
    decreases vs.len(),
{
    if vs.len() == 0 {
        0
    } else {
        count_true(vs.drop_last()) + (if vs.last() {
            1int
        } else {
            0int
        })
    }
}

proof fn lemma_count_true_bound(vs: Seq<bool>)
    ensures
        0 <= count_true(vs) <= vs.len(),
    decreases vs.len(),
{
    if vs.len() > 0 {
        lemma_count_true_bound(vs.drop_last());
    }
}

proof fn lemma_count_true_false(vs: Seq<bool>)
    requires
        forall|k: int| 0 <= k < vs.len() ==> !vs[k],
    ensures
        count_true(vs) == 0,
    decreases vs.len(),
{
    if vs.len() > 0 {
        assert(forall|k: int| 0 <= k < vs.drop_last().len() ==> vs.drop_last()[k] == vs[k]);
        lemma_count_true_false(vs.drop_last());
    }
}

proof fn lemma_count_true_full(vs: Seq<bool>)
    requires
        forall|k: int| 0 <= k < vs.len() ==> vs[k],
    ensures
        count_true(vs) == vs.len(),
    decreases vs.len(),
{
    if vs.len() > 0 {
        assert(forall|k: int| 0 <= k < vs.drop_last().len() ==> vs.drop_last()[k] == vs[k]);
        lemma_count_true_full(vs.drop_last());
    }
}

proof fn lemma_count_true_update(vs: Seq<bool>, i: int)
    requires
        0 <= i < vs.len(),
        !vs[i],
    ensures
        count_true(vs.update(i, true)) == count_true(vs) + 1,
    decreases vs.len(),
{
    let upd = vs.update(i, true);
    if i == vs.len() - 1 {
        assert(upd.drop_last() =~= vs.drop_last());
    } else {
        assert(upd.drop_last() =~= vs.drop_last().update(i, true));
        assert(upd.last() == vs.last());
        lemma_count_true_update(vs.drop_last(), i);
    }
}

/// Appending one cluster adds its occurrences and its size.
proof fn lemma_part_push(part: Seq<Seq<int>>, cl: Seq<int>)
    ensures
        forall|v: int|
            occ_total(part.push(cl), v) == occ_total(part, v) + #[trigger] occ_in(cl, v),
        size_total(part.push(cl)) == size_total(part) + cl.len(),
{
    assert(part.push(cl).drop_last() =~= part);
    assert(part.push(cl).last() == cl);
    assert forall|v: int|
        occ_total(part.push(cl), v) == occ_total(part, v) + #[trigger] occ_in(cl, v) by {
        assert(occ_total(part.push(cl), v) == occ_total(part.push(cl).drop_last(), v) + occ_in(
            part.push(cl).last(),
            v,
        ));
    }
}

/// A node that occurs somewhere lies in some cluster.
proof fn lemma_occ_some_cluster(part: Seq<Seq<int>>, v: int) -> (c: int)
    requires
        occ_total(part, v) > 0,
    ensures
        0 <= c < part.len(),
        part[c].contains(v),
    decreases part.len(),
{
    if occ_in(part.last(), v) > 0 {
        part.last().to_multiset_ensures();
        part.len() - 1
    } else {
        let c = lemma_occ_some_cluster(part.drop_last(), v);
        assert(part.drop_last()[c] == part[c]);
        c
    }
}

/// A node of some cluster occurs in the total count.
proof fn lemma_cluster_occ(part: Seq<Seq<int>>, c: int, v: int)
    requires
        0 <= c < part.len(),
        part[c].contains(v),
    ensures
        occ_total(part, v) > 0,
    decreases part.len(),
{
    if c == part.len() - 1 {
        part.last().to_multiset_ensures();
    } else {
        assert(part.drop_last()[c] == part[c]);
        lemma_cluster_occ(part.drop_last(), c, v);
    }
}

/// Marking one more node visited never unprocesses a node.
proof fn lemma_processed_monotone(edges: Seq<GraphEdge>, vs: Seq<bool>, i: int, w: int)
    requires
        0 <= i < vs.len(),
        edges_in_range(edges, vs.len() as int),
        node_processed(edges, vs, w),
    ensures
        node_processed(edges, vs.update(i, true), w),
{
    let upd = vs.update(i, true);
    assert forall|j: int| 0 <= j < edges.len() implies {
        let e = #[trigger] edges[j];
        (e.0 == w ==> upd[e.1 as int]) && (e.1 == w ==> upd[e.0 as int])
    } by {
        let e = edges[j];
        assert((e.0 == w ==> vs[e.1 as int]) && (e.1 == w ==> vs[e.0 as int]));
    }
}

/// Partitions the nodes into connected components by exhaustive
/// reachability search, in node order: each cluster lists the payloads of
/// one component's nodes; every node lands in exactly one cluster, and the
/// cluster sizes add up to the node count.
pub fn connected_components(g: &NeoGraph) -> (clusters: Vec<Vec<u32>>)
    requires
        edges_in_range(edges_of(*g), nodes_of(*g).len() as int),
    ensures
        exists|part: Seq<Seq<int>>|
            {
                &&& #[trigger] components_ok(edges_of(*g), nodes_of(*g).len() as int, part)
                &&& size_total(part) == nodes_of(*g).len()
                &&& clusters@.len() == part.len()
                &&& forall|c: int|
                    0 <= c < part.len() ==> (#[trigger] clusters@[c])@ == part[c].map_values(
                        |x: int| nodes_of(*g)[x],
                    )
            },
{
    let n = graph_node_count(g);
    let edges_v = graph_edges_vec(g);
    let ghost edges = edges_of(*g);
    let ghost pay = |x: int| nodes_of(*g)[x];
    let mut visited: Vec<bool> = Vec::new();
    let mut i: usize = 0;
    while i < n
        invariant
            i <= n,
            visited@.len() == i,
            forall|k: int| 0 <= k < i ==> !(#[trigger] visited@[k]),
        decreases n - i,
    {
        visited.push(false);
        i += 1;
    }
    let mut clusters: Vec<Vec<u32>> = Vec::new();
    let ghost mut ipart: Seq<Seq<int>> = Seq::empty();
    let mut count: usize = 0;
    proof {
        lemma_count_true_false(visited@);
    }
    let mut seed: usize = 0;
    while seed < n
        invariant
            seed <= n,
            n == nodes_of(*g).len(),
            edges == edges_of(*g),
            edges_v@ == edges,
            edges_in_range(edges, n as int),
            pay == (|x: int| nodes_of(*g)[x]),
            visited@.len() == n,
            clusters@.len() == ipart.len(),
            forall|c: int|
                0 <= c < ipart.len() ==> (#[trigger] clusters@[c])@ == ipart[c].map_values(pay),
            forall|c: int| 0 <= c < ipart.len() ==> (#[trigger] ipart[c]).len() > 0,
            forall|c: int, k: int|
                #![trigger ipart[c][k]]
                0 <= c < ipart.len() && 0 <= k < ipart[c].len() ==> 0 <= ipart[c][k] < n,
            forall|v: int|
                0 <= v < n ==> occ_total(ipart, v) == (if visited@[v] {
                    1nat
                } else {
                    0nat
                }),
            forall|c: int, k: int|
                #![trigger ipart[c][k]]
                0 <= c < ipart.len() && 0 <= k < ipart[c].len() ==> reachable(
                    edges,
                    ipart[c][0],
                    ipart[c][k],
                ),
            forall|c: int| 0 <= c < ipart.len() ==> cluster_closed(edges, #[trigger] ipart[c]),
            forall|w: int|
                0 <= w < n && visited@[w] ==> node_processed(edges, visited@, w),
            count == count_true(visited@),
            count <= n,
            size_total(ipart) == count,
            forall|v: int| 0 <= v < seed ==> visited@[v],
        decreases n - seed,
    {
        if !visited[seed] {
            let ghost vs_before = visited@;
            proof {
                lemma_count_true_update(visited@, seed as int);
                lemma_count_true_bound(visited@.update(seed as int, true));
            }
            visited.set(seed, true);
            proof {
                assert forall|w: int|
                    0 <= w < n && vs_before[w] implies node_processed(edges, visited@, w) by {
                    lemma_processed_monotone(edges, vs_before, seed as int, w);
                }
            }
            count += 1;
            let mut cl: Vec<u32> = Vec::new();
            cl.push(graph_node_payload(g, seed));
            let ghost mut icl: Seq<int> = Seq::empty().push(seed as int);
            let mut stack: Vec<usize> = Vec::new();
            stack.push(seed);
            proof {
                assert(stack@[0] == seed);
                assert(stack@.contains(seed));
                lemma_reachable_self(edges, seed as int);
                assert(icl[0] == seed as int);
                assert(icl.contains(seed as int));
                Seq::<int>::empty().to_multiset_ensures();
                assert forall|v: int| #[trigger] occ_in(icl, v) == (if v == seed as int {
                    1nat
                } else {
                    0nat
                }) by {
                    assert(Seq::<int>::empty().push(seed as int).to_multiset()
                        =~= Seq::<int>::empty().to_multiset().insert(seed as int));
                }
                assert(cl@ =~= icl.map_values(pay));
            }
            while stack.len() > 0
                invariant
                    n == nodes_of(*g).len(),
                    edges == edges_of(*g),
                    edges_v@ == edges,
                    edges_in_range(edges, n as int),
                    pay == (|x: int| nodes_of(*g)[x]),
                    visited@.len() == n,
                    seed < n,
                    clusters@.len() == ipart.len(),
                    forall|c: int|
                        0 <= c < ipart.len() ==> (#[trigger] clusters@[c])@ == ipart[c].map_values(
                            pay,
                        ),
                    forall|c: int| 0 <= c < ipart.len() ==> (#[trigger] ipart[c]).len() > 0,
                    forall|c: int, k: int|
                        #![trigger ipart[c][k]]
                        0 <= c < ipart.len() && 0 <= k < ipart[c].len() ==> 0 <= ipart[c][k] < n,
                    forall|v: int|
                        0 <= v < n ==> occ_total(ipart, v) + occ_in(icl, v) == (if visited@[v] {
                            1nat
                        } else {
                            0nat
                        }),
                    forall|c: int, k: int|
                        #![trigger ipart[c][k]]
                        0 <= c < ipart.len() && 0 <= k < ipart[c].len() ==> reachable(
                            edges,
                            ipart[c][0],
                            ipart[c][k],
                        ),
                    forall|c: int|
                        0 <= c < ipart.len() ==> cluster_closed(edges, #[trigger] ipart[c]),
                    icl.len() > 0,
                    icl[0] == seed as int,
                    forall|k: int| 0 <= k < icl.len() ==> 0 <= #[trigger] icl[k] < n,
                    forall|k: int| 0 <= k < icl.len() ==> visited@[#[trigger] icl[k]],
                    forall|k: int|
                        0 <= k < icl.len() ==> reachable(edges, seed as int, #[trigger] icl[k]),
                    cl@ == icl.map_values(pay),
                    forall|k: int|
                        0 <= k < stack@.len() ==> (#[trigger] stack@[k]) < n
                            && visited@[stack@[k] as int] && icl.contains(stack@[k] as int),
                    forall|k1: int, k2: int|
                        0 <= k1 < k2 < stack@.len() ==> #[trigger] stack@[k1] != #[trigger] stack@[k2],
                    forall|w: int|
                        0 <= w < n && visited@[w] && !stack@.contains(w as usize) ==> node_processed(
                            edges,
                            visited@,
                            w,
                        ),
                    count == count_true(visited@),
                    count <= n,
                    size_total(ipart) + icl.len() == count,
                    forall|v: int| 0 <= v < seed ==> visited@[v],
                decreases n - count, stack@.len(),
            {
                let ghost stack_before = stack@;
                let ghost count_at_pop = count as int;
                let u = stack.pop().unwrap();
                proof {
                    assert(stack@ =~= stack_before.drop_last());
                    assert(u == stack_before[stack_before.len() - 1]);
                    assert(!stack@.contains(u)) by {
                        if stack@.contains(u) {
                            let k = choose|k: int| 0 <= k < stack@.len() && stack@[k] == u;
                            assert(stack_before[k] == u);
                        }
                    }
                    assert forall|w: int|
                        0 <= w < n && visited@[w] && !stack@.contains(w as usize) && w != u as int
                        implies node_processed(edges, visited@, w) by {
                        assert(!stack_before.contains(w as usize)) by {
                            if stack_before.contains(w as usize) {
                                let k = choose|k: int|
                                    0 <= k < stack_before.len() && stack_before[k] == w as usize;
                                if k < stack_before.len() - 1 {
                                    assert(stack@[k] == w as usize);
                                }
                            }
                        }
                    }
                }
                let mut j: usize = 0;
                while j < edges_v.len()
                    invariant
                        j <= edges_v@.len(),
                        n == nodes_of(*g).len(),
                        edges == edges_of(*g),
                        edges_v@ == edges,
                        edges_in_range(edges, n as int),
                        pay == (|x: int| nodes_of(*g)[x]),
                        visited@.len() == n,
                        seed < n,
                        u < n,
                        visited@[u as int],
                        icl.contains(u as int),
                        !stack@.contains(u),
                        clusters@.len() == ipart.len(),
                        forall|c: int|
                            0 <= c < ipart.len() ==> (#[trigger] clusters@[c])@
                                == ipart[c].map_values(pay),
                        forall|c: int| 0 <= c < ipart.len() ==> (#[trigger] ipart[c]).len() > 0,
                        forall|c: int, k: int|
                            #![trigger ipart[c][k]]
                            0 <= c < ipart.len() && 0 <= k < ipart[c].len() ==> 0 <= ipart[c][k]
                                < n,
                        forall|v: int|
                            0 <= v < n ==> occ_total(ipart, v) + occ_in(icl, v) == (
                            if visited@[v] {
                                1nat
                            } else {
                                0nat
                            }),
                        forall|c: int, k: int|
                            #![trigger ipart[c][k]]
                            0 <= c < ipart.len() && 0 <= k < ipart[c].len() ==> reachable(
                                edges,
                                ipart[c][0],
                                ipart[c][k],
                            ),
                        forall|c: int|
                            0 <= c < ipart.len() ==> cluster_closed(edges, #[trigger] ipart[c]),
                        icl.len() > 0,
                        icl[0] == seed as int,
                        forall|k: int| 0 <= k < icl.len() ==> 0 <= #[trigger] icl[k] < n,
                        forall|k: int| 0 <= k < icl.len() ==> visited@[#[trigger] icl[k]],
                        forall|k: int|
                            0 <= k < icl.len() ==> reachable(edges, seed as int, #[trigger] icl[k]),
                        cl@ == icl.map_values(pay),
                        forall|k: int|
                            0 <= k < stack@.len() ==> (#[trigger] stack@[k]) < n
                                && visited@[stack@[k] as int] && icl.contains(stack@[k] as int),
                        forall|k1: int, k2: int|
                            0 <= k1 < k2 < stack@.len() ==> #[trigger] stack@[k1]
                                != #[trigger] stack@[k2],
                        forall|w: int|
                            0 <= w < n && visited@[w] && !stack@.contains(w as usize) && w != u
                                ==> node_processed(edges, visited@, w),
                        forall|jj: int|
                            0 <= jj < j ==> {
                                let e = #[trigger] edges[jj];
                                (e.0 == u as int ==> visited@[e.1 as int]) && (e.1 == u as int
                                    ==> visited@[e.0 as int])
                            },
                        count == count_true(visited@),
                        count <= n,
                        count_at_pop <= count,
                        stack@.len() == stack_before.len() - 1 + (count - count_at_pop),
                        size_total(ipart) + icl.len() == count,
                        forall|v: int| 0 <= v < seed ==> visited@[v],
                    decreases edges_v@.len() - j,
                {
                    let e = edges_v[j];
                    let a = e.0 as usize;
                    let b = e.1 as usize;
                    if a == u || b == u {
                        let v = if a == u {
                            b
                        } else {
                            a
                        };
                        if !visited[v] {
                            proof {
                                assert(icl.contains(u as int));
                                let k = choose|k: int|
                                    0 <= k < icl.len() && icl[k] == u as int;
                                assert(reachable(edges, seed as int, u as int));
                                let w = choose|w: Seq<int>|
                                    is_walk(edges, w, seed as int, u as int);
                                assert(edge_links(edges[j as int], u as int, v as int));
                                lemma_walk_extend(
                                    edges,
                                    w,
                                    seed as int,
                                    u as int,
                                    j as int,
                                    v as int,
                                );
                                lemma_count_true_update(visited@, v as int);
                                lemma_count_true_bound(visited@.update(v as int, true));
                                icl.to_multiset_ensures();
                                lemma_map_values_push(icl, v as int, pay);
                            }
                            let ghost icl_old = icl;
                            let ghost vs_old = visited@;
                            visited.set(v, true);
                            proof {
                                assert forall|w: int|
                                    0 <= w < n && vs_old[w] && node_processed(edges, vs_old, w)
                                    implies node_processed(edges, visited@, w) by {
                                    lemma_processed_monotone(edges, vs_old, v as int, w);
                                }
                            }
                            count += 1;
                            cl.push(graph_node_payload(g, v));
                            proof {
                                icl = icl.push(v as int);
                                assert(icl.contains(u as int)) by {
                                    let k = choose|k: int|
                                        0 <= k < icl_old.len() && icl_old[k] == u as int;
                                    assert(icl[k] == u as int);
                                }
                                assert(icl.contains(v as int)) by {
                                    assert(icl[icl.len() - 1] == v as int);
                                }
                                assert forall|x: int| #[trigger] icl.contains(x) implies icl_old.contains(x)
                                    || x == v as int by {
                                    let k = choose|k: int| 0 <= k < icl.len() && icl[k] == x;
                                    if k < icl_old.len() {
                                        assert(icl_old[k] == x);
                                    }
                                }
                                assert forall|x: int| #[trigger] icl_old.contains(x) implies icl.contains(
                                    x,
                                ) by {
                                    let k = choose|k: int| 0 <= k < icl_old.len() && icl_old[k] == x;
                                    assert(icl[k] == x);
                                }
                            }
                            let ghost stack_old = stack@;
                            stack.push(v);
                            proof {
                                assert(stack@[stack@.len() - 1] == v);
                                assert(stack@.contains(v));
                                assert forall|x: usize| #[trigger] stack_old.contains(x)
                                    implies stack@.contains(x) by {
                                    let k = choose|k: int|
                                        0 <= k < stack_old.len() && stack_old[k] == x;
                                    assert(stack@[k] == x);
                                }
                            }
                        }
                    }
                    j += 1;
                }
                proof {
                    assert(node_processed(edges, visited@, u as int));
                }
            }
            // the round is over: the cluster it grew is closed under edges
            proof {
                icl.to_multiset_ensures();
                assert forall|k: int, j: int|
                    #![trigger icl[k], edges[j]]
                    0 <= k < icl.len() && 0 <= j < edges.len() implies {
                    let e = edges[j];
                    (e.0 == icl[k] ==> icl.contains(e.1 as int)) && (e.1 == icl[k]
                        ==> icl.contains(e.0 as int))
                } by {
                    let wnode = icl[k];
                    assert(visited@[wnode] && !stack@.contains(wnode as usize));
                    assert(node_processed(edges, visited@, wnode));
                    let e = edges[j];
                    assert(icl.contains(wnode));
                    if e.0 == wnode {
                        assert(edge_links(edges[j], wnode, e.1 as int));
                        assert(visited@[e.1 as int]);
                        lemma_round_absorbs(edges, ipart, icl, visited@, n as int, wnode, e.1 as int);
                    }
                    if e.1 == wnode {
                        assert(edge_links(edges[j], wnode, e.0 as int));
                        assert(visited@[e.0 as int]);
                        lemma_round_absorbs(edges, ipart, icl, visited@, n as int, wnode, e.0 as int);
                    }
                }
                lemma_part_push(ipart, icl);
                ipart = ipart.push(icl);
            }
            clusters.push(cl);
        }
        seed += 1;
    }
    proof {
        lemma_count_true_full(visited@);
        assert(components_ok(edges, n as int, ipart));
        assert(clusters@.len() == ipart.len());
    }
    clusters
}

/// A walk that starts inside a closed cluster never leaves it.
proof fn lemma_walk_stays_in_cluster(
    edges: Seq<GraphEdge>,
    cl: Seq<int>,
    eids: Seq<int>,
    x: int,
    y: int,
)
    requires
        cluster_closed(edges, cl),
        cl.contains(x),
        is_walk(edges, eids, x, y),
    ensures
        cl.contains(y),
    decreases eids.len(),
{
    if eids.len() > 0 {
        let e = edges[eids[0]];
        let k = choose|k: int| 0 <= k < cl.len() && cl[k] == x;
        assert(cl[k] == x);
        if e.0 == x && is_walk(edges, eids.drop_first(), e.1 as int, y) {
            assert(cl.contains(e.1 as int));
            lemma_walk_stays_in_cluster(edges, cl, eids.drop_first(), e.1 as int, y);
        } else {
            assert(cl.contains(e.0 as int));
            lemma_walk_stays_in_cluster(edges, cl, eids.drop_first(), e.0 as int, y);
        }
    }
}

/// Each cluster of a component partition is one whole connected component:
/// a node of the graph lies in the cluster of `x` exactly when it is
/// reachable from `x`. In particular, component membership does not depend
/// on how the search traversed the graph.
pub proof fn lemma_cluster_is_component(
    edges: Seq<GraphEdge>,
    n: int,
    part: Seq<Seq<int>>,
    c: int,
    x: int,
    y: int,
)
    requires
        components_ok(edges, n, part),
        0 <= c < part.len(),
        part[c].contains(x),
        0 <= y < n,
    ensures
        part[c].contains(y) <==> reachable(edges, x, y),
{
    let seed = part[c][0];
    let kx = choose|kx: int| 0 <= kx < part[c].len() && part[c][kx] == x;
    assert(reachable(edges, seed, part[c][kx]));
    if part[c].contains(y) {
        let ky = choose|ky: int| 0 <= ky < part[c].len() && part[c][ky] == y;
        assert(reachable(edges, seed, part[c][ky]));
        lemma_reachable_symmetric(edges, seed, x);
        lemma_reachable_trans(edges, x, seed, y);
    }
    if reachable(edges, x, y) {
        let eids = choose|eids: Seq<int>| is_walk(edges, eids, x, y);
        assert(cluster_closed(edges, part[c]));
        lemma_walk_stays_in_cluster(edges, part[c], eids, x, y);
    }
}

/// At the end of a search round, a visited neighbour of a cluster member
/// lies in that same cluster: it cannot lie in an earlier one, since
/// earlier clusters are closed and cover their members exactly once.
proof fn lemma_round_absorbs(
    edges: Seq<GraphEdge>,
    ipart: Seq<Seq<int>>,
    icl: Seq<int>,
    vs: Seq<bool>,
    n: int,
    wnode: int,
    other: int,
)
    requires
        0 <= wnode < n,
        0 <= other < n,
        vs.len() == n,
        icl.contains(wnode),
        vs[other],
        forall|v: int|
            0 <= v < n ==> occ_total(ipart, v) + occ_in(icl, v) == (if vs[v] {
                1nat
            } else {
                0nat
            }),
        forall|c: int| 0 <= c < ipart.len() ==> cluster_closed(edges, #[trigger] ipart[c]),
        exists|j: int| 0 <= j < edges.len() && edge_links(#[trigger] edges[j], wnode, other),
    ensures
        icl.contains(other),
{
    icl.to_multiset_ensures();
    if !icl.contains(other) {
        assert(occ_in(icl, other) == 0);
        assert(occ_total(ipart, other) == 1);
        let c = lemma_occ_some_cluster(ipart, other);
        let j = choose|j: int| 0 <= j < edges.len() && edge_links(#[trigger] edges[j], wnode, other);
        let kd = choose|kd: int| 0 <= kd < ipart[c].len() && ipart[c][kd] == other;
        assert(cluster_closed(edges, ipart[c]));
        assert(ipart[c].contains(wnode)) by {
            let e = edges[j];
            assert(ipart[c][kd] == other);
            if e.0 == other {
                assert(ipart[c].contains(e.1 as int));
            } else {
                assert(ipart[c].contains(e.0 as int));
            }
        }
        lemma_cluster_occ(ipart, c, wnode);
        assert(occ_in(icl, wnode) > 0);
        assert(occ_total(ipart, wnode) + occ_in(icl, wnode) >= 2);
    }
}

} // verus!
