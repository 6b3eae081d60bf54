//! The hazard-comparison graph: the records passing a dual threshold
//! (minimum distance at most δ, relative velocity at least v), joined into
//! a complete simple graph whose edge weights are the exact absolute
//! differences of hazard scores.

use vstd::prelude::*;
use crate::pairs::{
    lemma_filter_push, lemma_map_values_push, lemma_row_pairs_elems, lemma_rows_below_elems,
    row_pairs, rows_below, tri_pairs,
};
use crate::paths::{edges_in_range, GraphEdge};
use crate::pgraph::{
    edges_of, graph_add_edge, graph_add_node, graph_new, nodes_of, NeoGraph,
};
use crate::proximity::abs_gap;
use crate::score::{hazard_of, hazard_score, AsteroidData, Hazard};

verus! {

/// The exact absolute difference of two hazard scores, as a rational
/// `(numerator, denominator)` pair. A denominator of 0 stands for an
/// unbounded difference (one score unbounded, the other not); two
/// unbounded scores compare equal, so their difference is zero.
pub open spec fn hazard_gap(a: Hazard, b: Hazard) -> (u128, u128) {
    match (a, b) {
        (Hazard::Infinite, Hazard::Infinite) => (0, 1),
        (Hazard::Infinite, Hazard::Ratio { .. }) => (1, 0),
        (Hazard::Ratio { .. }, Hazard::Infinite) => (1, 0),
        (Hazard::Ratio { vel: v1, dist: d1 }, Hazard::Ratio { vel: v2, dist: d2 }) => (
            abs_gap(v1 * d2, v2 * d1) as u128,
            (d1 * d2) as u128,
        ),
    }
}

/// Computes the exact absolute difference of two hazard scores.
pub fn hazard_gap_exec(a: &Hazard, b: &Hazard) -> (w: (u128, u128))
    ensures
        w == hazard_gap(*a, *b),
{
    match (a, b) {
        (Hazard::Infinite, Hazard::Infinite) => (0, 1),
        (Hazard::Infinite, Hazard::Ratio { .. }) => (1, 0),
        (Hazard::Ratio { .. }, Hazard::Infinite) => (1, 0),
        (Hazard::Ratio { vel: v1, dist: d1 }, Hazard::Ratio { vel: v2, dist: d2 }) => {
            proof {
                vstd::arithmetic::mul::lemma_mul_upper_bound(
                    *v1 as int,
                    0xffff_ffff_ffff_ffff,
                    *d2 as int,
                    0xffff_ffff_ffff_ffff,
                );
                vstd::arithmetic::mul::lemma_mul_upper_bound(
                    *v2 as int,
                    0xffff_ffff_ffff_ffff,
                    *d1 as int,
                    0xffff_ffff_ffff_ffff,
                );
                vstd::arithmetic::mul::lemma_mul_upper_bound(
                    *d1 as int,
                    0xffff_ffff_ffff_ffff,
                    *d2 as int,
                    0xffff_ffff_ffff_ffff,
                );
            }
            let p1: u128 = (*v1 as u128) * (*d2 as u128);
            let p2: u128 = (*v2 as u128) * (*d1 as u128);
            let num: u128 = if p1 >= p2 {
                p1 - p2
            } else {
                p2 - p1
            };
            let den: u128 = (*d1 as u128) * (*d2 as u128);
            (num, den)
        },
    }
}

/// Row `i` passes the dual threshold: a known minimum distance of at most
/// `dmax`, and a relative velocity of at least `vmin`.
pub open spec fn hazard_qualifies(data: Seq<AsteroidData>, dmax: int, vmin: int, i: int) -> bool {
    &&& data[i].dist_min is Some
    &&& data[i].dist_min->0 <= dmax
    &&& data[i].v_rel >= vmin
}

/// The dual-threshold predicate, as one function value.
pub open spec fn hazard_pred(data: Seq<AsteroidData>, dmax: int, vmin: int) -> spec_fn(int) -> bool {
    |i: int| hazard_qualifies(data, dmax, vmin, i)
}

/// The row indices `0 .. n`, in order.
pub open spec fn idx_seq(n: int) -> Seq<int> {
    Seq::new(n as nat, |k: int| k)
}

/// The rows passing the dual threshold, in input order.
pub open spec fn hazard_rows(data: Seq<AsteroidData>, dmax: int, vmin: int) -> Seq<int> {
    idx_seq(data.len() as int).filter(hazard_pred(data, dmax, vmin))
}

/// The edge between the kept rows at positions `p.0` and `p.1`: its
/// endpoints are the positions, its weight the exact score difference.
pub open spec fn hazard_edge(data: Seq<AsteroidData>, kept: Seq<int>, p: (int, int)) -> GraphEdge {
    (
        p.0 as u32,
        p.1 as u32,
        hazard_gap(hazard_score(data[kept[p.0]]), hazard_score(data[kept[p.1]])),
    )
}

/// The edge constructor, as one function value.
pub open spec fn hazard_edge_map(data: Seq<AsteroidData>, kept: Seq<int>) -> spec_fn(
    (int, int),
) -> GraphEdge {
    |p: (int, int)| hazard_edge(data, kept, p)
}

/// The hazard edges arising from the position pairs `ps`, in order.
pub open spec fn hazard_built(
    data: Seq<AsteroidData>,
    kept: Seq<int>,
    ps: Seq<(int, int)>,
) -> Seq<GraphEdge> {
    ps.map_values(hazard_edge_map(data, kept))
}

/// The full hazard edge sequence: every unordered pair of kept rows
/// exactly once, in upper-triangular order.
pub open spec fn hazard_edges(data: Seq<AsteroidData>, dmax: int, vmin: int) -> Seq<GraphEdge> {
    let kept = hazard_rows(data, dmax, vmin);
    hazard_built(data, kept, tri_pairs(kept.len() as int))
}

/// Builds the hazard-comparison graph over the rows passing the dual
/// threshold: one node per kept row, carrying its row key, and one edge
/// per unordered pair of kept rows, weighted by the exact absolute
/// difference of their hazard scores. The node count equals the number of
/// qualifying rows exactly.
///
/// The row-count bound keeps every pair index within the graph's `u32`
/// index type.
pub fn build_hazard_graph(
    data: &Vec<AsteroidData>,
    dist_threshold: u64,
    velocity_threshold: u64,
) -> (g: NeoGraph)
    requires
        data@.len() <= 0xffff,
    ensures
        nodes_of(g) == hazard_rows(data@, dist_threshold as int, velocity_threshold as int)
            .map_values(|i: int| i as u32),
        nodes_of(g).len() == hazard_rows(
            data@,
            dist_threshold as int,
            velocity_threshold as int,
        ).len(),
        edges_of(g) == hazard_edges(data@, dist_threshold as int, velocity_threshold as int),
        edges_in_range(edges_of(g), nodes_of(g).len() as int),
{
    let n = data.len();
    let ghost dmax = dist_threshold as int;
    let ghost vmin = velocity_threshold as int;
    let ghost pred = hazard_pred(data@, dmax, vmin);
    let mut kept: Vec<usize> = Vec::new();
    proof {
        assert(idx_seq(0) =~= Seq::<int>::empty());
        assert(idx_seq(0).filter(pred) =~= Seq::<int>::empty());
        assert(kept@.map_values(|u: usize| u as int) =~= Seq::<int>::empty());
    }
    let mut i: usize = 0;
    while i < n
        invariant
            i <= n,
            n == data@.len(),
            kept@.map_values(|u: usize| u as int) == idx_seq(i as int).filter(pred),
            dmax == dist_threshold as int,
            vmin == velocity_threshold as int,
            pred == hazard_pred(data@, dmax, vmin),
            forall|m: int| 0 <= m < kept@.len() ==> (#[trigger] kept@[m]) < i,
        decreases n - i,
    {
        proof {
            assert(idx_seq(i + 1) =~= idx_seq(i as int).push(i as int));
            lemma_filter_push(idx_seq(i as int), i as int, pred);
        }
        let keep = match data[i].dist_min {
            Some(d) => d <= dist_threshold && data[i].v_rel >= velocity_threshold,
            None => false,
        };
        proof {
            let r = data@[i as int];
            if keep {
                assert(r.dist_min is Some);
                assert(r.dist_min->0 <= dmax);
                assert(r.v_rel >= vmin);
                assert(hazard_qualifies(data@, dmax, vmin, i as int));
            } else {
                assert(!hazard_qualifies(data@, dmax, vmin, i as int));
            }
            assert(pred(i as int) == hazard_qualifies(data@, dmax, vmin, i as int));
        }
        if keep {
            proof {
                lemma_map_values_push(kept@, i, |u: usize| u as int);
            }
            kept.push(i);
        }
        i += 1;
    }
    proof {
        assert(idx_seq(n as int).filter(pred) == hazard_rows(data@, dmax, vmin));
    }
    let ghost krows = hazard_rows(data@, dmax, vmin);
    let m = kept.len();
    let mut g = graph_new();
    proof {
        Seq::lemma_filter_len(idx_seq(n as int), pred);
        assert(krows.map_values(|i: int| i as u32).take(0) =~= Seq::<u32>::empty());
    }
    let mut a: usize = 0;
    while a < m
        invariant
            a <= m,
            m == kept@.len(),
            m <= n,
            n == data@.len(),
            n <= 0xffff,
            kept@.map_values(|u: usize| u as int) == krows,
            forall|q: int| 0 <= q < kept@.len() ==> (#[trigger] kept@[q]) < n,
            nodes_of(g) == krows.map_values(|i: int| i as u32).take(a as int),
            edges_of(g) == Seq::<GraphEdge>::empty(),
        decreases m - a,
    {
        proof {
            assert(krows[a as int] == kept@[a as int] as int);
            assert(krows.map_values(|i: int| i as u32).take(a + 1) =~= krows.map_values(
                |i: int| i as u32,
            ).take(a as int).push(kept@[a as int] as u32));
        }
        graph_add_node(&mut g, kept[a] as u32);
        a += 1;
    }
    proof {
        assert(krows.map_values(|i: int| i as u32).take(m as int) =~= krows.map_values(
            |i: int| i as u32,
        ));
        assert(rows_below(m as int, 0) == Seq::<(int, int)>::empty());
        assert(hazard_built(data@, krows, rows_below(m as int, 0)) =~= Seq::<GraphEdge>::empty());
    }
    let mut a: usize = 0;
    while a < m
        invariant
            a <= m,
            m == kept@.len(),
            m <= n,
            n == data@.len(),
            n <= 0xffff,
            kept@.map_values(|u: usize| u as int) == krows,
            forall|q: int| 0 <= q < kept@.len() ==> (#[trigger] kept@[q]) < n,
            nodes_of(g) == krows.map_values(|i: int| i as u32),
            edges_of(g) == hazard_built(data@, krows, rows_below(m as int, a as int)),
        decreases m - a,
    {
        let mut b: usize = a + 1;
        proof {
            assert(row_pairs(a as int, b as int) == Seq::<(int, int)>::empty());
            assert(rows_below(m as int, a as int) + row_pairs(a as int, b as int) =~= rows_below(
                m as int,
                a as int,
            ));
        }
        while b < m
            invariant
                a < m,
                a + 1 <= b <= m,
                m == kept@.len(),
                m <= n,
                n == data@.len(),
                n <= 0xffff,
                kept@.map_values(|u: usize| u as int) == krows,
                forall|q: int| 0 <= q < kept@.len() ==> (#[trigger] kept@[q]) < n,
                nodes_of(g) == krows.map_values(|i: int| i as u32),
                edges_of(g) == hazard_built(
                    data@,
                    krows,
                    rows_below(m as int, a as int) + row_pairs(a as int, b as int),
                ),
            decreases m - b,
        {
            let ghost ps_old = rows_below(m as int, a as int) + row_pairs(a as int, b as int);
            let ghost pr = (a as int, b as int);
            proof {
                assert(row_pairs(a as int, b as int + 1) == row_pairs(a as int, b as int).push(pr));
                assert(rows_below(m as int, a as int) + row_pairs(a as int, b as int + 1)
                    =~= ps_old.push(pr));
                lemma_map_values_push(ps_old, pr, hazard_edge_map(data@, krows));
                // the edge store stays within its index type
                lemma_rows_below_elems(m as int, a as int);
                lemma_row_pairs_elems(a as int, b as int);
                vstd::arithmetic::mul::lemma_mul_upper_bound(a as int, 0xffff, m as int, 0xffff);
                assert(krows[a as int] == kept@[a as int] as int);
                assert(krows[b as int] == kept@[b as int] as int);
            }
            let sa = hazard_of(&data[kept[a]]);
            let sb = hazard_of(&data[kept[b]]);
            let w = hazard_gap_exec(&sa, &sb);
            graph_add_edge(&mut g, a, b, w);
            b += 1;
        }
        proof {
            assert(rows_below(m as int, a as int + 1) == rows_below(m as int, a as int)
                + row_pairs(a as int, m as int));
        }
        a += 1;
    }
    proof {
        lemma_rows_below_elems(m as int, m as int);
        assert forall|k: int| 0 <= k < edges_of(g).len() implies (#[trigger] edges_of(g)[k]).0
            < nodes_of(g).len() && edges_of(g)[k].1 < nodes_of(g).len() by {
            let p = tri_pairs(m as int)[k];
            assert(edges_of(g)[k] == hazard_edge(data@, krows, p));
            assert(0 <= p.0 < m && p.0 < p.1 < m);
        }
    }
    g
}

} // verus!
