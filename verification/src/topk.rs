//! Top-K selection: the K records with the smallest approach distance,
//! via a full stable sort followed by truncation.

use vstd::prelude::*;
use crate::score::AsteroidData;

verus! {

/// Strict order on optional distances: known before unknown, smaller
/// first.
pub open spec fn dist_lt(a: Option<u64>, b: Option<u64>) -> bool {
    match (a, b) {
        (Some(x), Some(y)) => x < y,
        (Some(x), None) => true,
        (None, _) => false,
    }
}

/// Equal optional distances: both unknown, or the same known value.
pub open spec fn dist_eq(a: Option<u64>, b: Option<u64>) -> bool {
    match (a, b) {
        (Some(x), Some(y)) => x == y,
        (None, None) => true,
        _ => false,
    }
}

/// Row `i` sorts strictly before row `j` by closeness: a strictly smaller
/// distance (unknown distances last), or an equal one and the earlier
/// input position. A strict total order on distinct rows.
pub open spec fn closest_before(data: Seq<AsteroidData>, i: int, j: int) -> bool {
    dist_lt(data[i].dist, data[j].dist) || (dist_eq(data[i].dist, data[j].dist) && i < j)
}

/// Compares two rows by closeness.
fn closest_before_exec(data: &Vec<AsteroidData>, i: usize, j: usize) -> (r: bool)
    requires
        i < data@.len(),
        j < data@.len(),
    ensures
        r == closest_before(data@, i as int, j as int),
{
    match (data[i].dist, data[j].dist) {
        (Some(x), Some(y)) => x < y || (x == y && i < j),
        (Some(_), None) => true,
        (None, None) => i < j,
        (None, Some(_)) => false,
    }
}

/// `perm` reorders all rows of `data` into closeness order.
pub open spec fn closest_permutation(data: Seq<AsteroidData>, perm: Seq<int>) -> bool {
    &&& perm.len() == data.len()
    &&& forall|m: int| 0 <= m < perm.len() ==> 0 <= #[trigger] perm[m] < data.len()
    &&& forall|m1: int, m2: int|
        0 <= m1 < m2 < perm.len() ==> #[trigger] perm[m1] != #[trigger] perm[m2]
    &&& forall|v: int| 0 <= v < data.len() ==> #[trigger] perm.contains(v)
    &&& forall|m1: int, m2: int|
        0 <= m1 < m2 < perm.len() ==> closest_before(data, #[trigger] perm[m1], #[trigger] perm[m2])
}

/// Sorts the row indices of `data` into closeness order.
fn sort_closest_indices(data: &Vec<AsteroidData>) -> (idxs: Vec<usize>)
    ensures
        idxs@.len() == data@.len(),
        forall|m: int| 0 <= m < idxs@.len() ==> (#[trigger] idxs@[m]) < data@.len(),
        closest_permutation(data@, idxs@.map_values(|u: usize| u as int)),
{
    let n = data.len();
    let mut idxs: Vec<usize> = Vec::new();
    let mut i: usize = 0;
    while i < n
        invariant
            i <= n,
            idxs@.len() == i,
            forall|m: int| 0 <= m < i ==> #[trigger] idxs@[m] == m,
        decreases n - i,
    {
        idxs.push(i);
        i += 1;
    }
    proof {
        assert forall|v: usize| v < n implies #[trigger] idxs@.contains(v) by {
            assert(idxs@[v as int] == v);
        }
    }
    if n == 0 {
        proof {
            finish_permutation(data@, idxs@);
        }
        return idxs;
    }
    let mut s: usize = 1;
    while s < n
        invariant
            1 <= s <= n,
            n == data@.len(),
            idxs@.len() == n,
            forall|m: int| 0 <= m < n ==> (#[trigger] idxs@[m]) < n,
            forall|m1: int, m2: int|
                0 <= m1 < m2 < n ==> #[trigger] idxs@[m1] != #[trigger] idxs@[m2],
            forall|v: usize| v < n ==> #[trigger] idxs@.contains(v),
            forall|m1: int, m2: int|
                0 <= m1 < m2 < s ==> closest_before(
                    data@,
                    #[trigger] idxs@[m1] as int,
                    #[trigger] idxs@[m2] as int,
                ),
        decreases n - s,
    {
        let mut t: usize = s;
        while t > 0 && closest_before_exec(data, idxs[t], idxs[t - 1])
            invariant
                0 <= t <= s < n,
                n == data@.len(),
                idxs@.len() == n,
                forall|m: int| 0 <= m < n ==> (#[trigger] idxs@[m]) < n,
                forall|m1: int, m2: int|
                    0 <= m1 < m2 < n ==> #[trigger] idxs@[m1] != #[trigger] idxs@[m2],
                forall|v: usize| v < n ==> #[trigger] idxs@.contains(v),
                forall|m1: int, m2: int|
                    0 <= m1 < m2 <= s && m1 != t && m2 != t ==> closest_before(
                        data@,
                        #[trigger] idxs@[m1] as int,
                        #[trigger] idxs@[m2] as int,
                    ),
                forall|m: int|
                    t < m <= s ==> closest_before(
                        data@,
                        idxs@[t as int] as int,
                        #[trigger] idxs@[m] as int,
                    ),
            decreases t,
        {
            let ghost old_seq = idxs@;
            let moved = idxs[t];
            let other = idxs[t - 1];
            idxs.set(t, other);
            idxs.set(t - 1, moved);
            proof {
                assert(idxs@ == old_seq.update(t as int, other).update(t - 1, moved));
                assert forall|v: usize| v < n implies #[trigger] idxs@.contains(v) by {
                    assert(old_seq.contains(v));
                    let m = choose|m: int| 0 <= m < old_seq.len() && old_seq[m] == v;
                    if m == t as int {
                        assert(idxs@[t - 1] == v);
                    } else if m == t - 1 {
                        assert(idxs@[t as int] == v);
                    } else {
                        assert(idxs@[m] == v);
                    }
                }
            }
            t -= 1;
        }
        proof {
            let ghost fixed = idxs@;
            assert forall|m1: int, m2: int| 0 <= m1 < m2 <= s implies closest_before(
                data@,
                (#[trigger] fixed[m1]) as int,
                (#[trigger] fixed[m2]) as int,
            ) by {
                if m2 == t && m1 != t {
                    if m1 != t - 1 {
                        assert(closest_before(data@, fixed[m1] as int, fixed[t - 1] as int));
                    }
                }
            }
        }
        s += 1;
    }
    proof {
        finish_permutation(data@, idxs@);
    }
    idxs
}

/// Packages the sorted-index facts as a permutation statement.
proof fn finish_permutation(data: Seq<AsteroidData>, idxs: Seq<usize>)
    requires
        data.len() <= usize::MAX,
        idxs.len() == data.len(),
        forall|m: int| 0 <= m < idxs.len() ==> (#[trigger] idxs[m]) < data.len(),
        forall|m1: int, m2: int|
            0 <= m1 < m2 < idxs.len() ==> #[trigger] idxs[m1] != #[trigger] idxs[m2],
        forall|v: usize| v < data.len() ==> #[trigger] idxs.contains(v),
        forall|m1: int, m2: int|
            0 <= m1 < m2 < idxs.len() ==> closest_before(
                data,
                #[trigger] idxs[m1] as int,
                #[trigger] idxs[m2] as int,
            ),
    ensures
        closest_permutation(data, idxs.map_values(|u: usize| u as int)),
{
    let perm = idxs.map_values(|u: usize| u as int);
    assert forall|v: int| 0 <= v < data.len() implies #[trigger] perm.contains(v) by {
        assert(idxs.contains(v as usize));
        let q = choose|q: int| 0 <= q < idxs.len() && idxs[q] == v as usize;
        assert(perm[q] == v);
    }
}

/// The K records closest by nominal approach distance, smallest first,
/// ties in input order, unknown distances last: the first `min(k, n)`
/// entries of the unique stable closeness ordering of all rows.
pub fn top_k_closest(data: &Vec<AsteroidData>, k: usize) -> (out: Vec<AsteroidData>)
    ensures
        out@.len() == if (k as int) < data@.len() {
            k as int
        } else {
            data@.len() as int
        },
        exists|perm: Seq<int>|
            closest_permutation(data@, perm) && (forall|m: int|
                0 <= m < out@.len() ==> #[trigger] out@[m] == data@[perm[m]]),
{
    let n = data.len();
    let idxs = sort_closest_indices(data);
    let take = if k < n {
        k
    } else {
        n
    };
    let mut out: Vec<AsteroidData> = Vec::new();
    let mut m: usize = 0;
    while m < take
        invariant
            m <= take,
            take <= n,
            n == data@.len(),
            idxs@.len() == n,
            forall|q: int| 0 <= q < n ==> (#[trigger] idxs@[q]) < n,
            closest_permutation(data@, idxs@.map_values(|u: usize| u as int)),
            out@.len() == m,
            forall|q: int| 0 <= q < m ==> #[trigger] out@[q] == data@[idxs@[q] as int],
        decreases take - m,
    {
        let row = idxs[m];
        out.push(data[row].clone());
        m += 1;
    }
    proof {
        let perm = idxs@.map_values(|u: usize| u as int);
        assert(forall|q: int| 0 <= q < out@.len() ==> #[trigger] out@[q] == data@[perm[q]]);
    }
    out
}

} // verus!
