//! Hazard scoring and ranking: one ranked entry per record, in descending
//! score order, ties broken by input order.

use vstd::prelude::*;
use crate::score::{
    hazard_eqv, hazard_le, hazard_le_exec, hazard_lt, hazard_of, hazard_score,
    lemma_hazard_le_total, lemma_hazard_le_trans, lemma_hazard_score_wf, AsteroidData, Hazard,
};

verus! {

/// One ranked record: its designation, exact hazard score, minimum
/// distance and approach date.
pub struct RankedEntry {
    /// Designation of the record.
    pub des: String,
    /// The record's hazard score.
    pub score: Hazard,
    /// Minimum approach distance; `None` when the source value was malformed.
    pub dist_min: Option<u64>,
    /// Close-approach calendar date.
    pub cd: String,
}

impl Clone for RankedEntry {
    /// An exact copy: the clone equals the original.
    fn clone(&self) -> (res: Self)
        ensures
            res == *self,
    {
        RankedEntry {
            des: self.des.clone(),
            score: self.score,
            dist_min: self.dist_min,
            cd: self.cd.clone(),
        }
    }
}

/// The ranked entry derived from one record.
pub open spec fn entry_of(r: AsteroidData) -> RankedEntry {
    RankedEntry { des: r.des, score: hazard_score(r), dist_min: r.dist_min, cd: r.cd }
}

/// Builds the ranked entry for one record.
pub fn make_entry(r: &AsteroidData) -> (e: RankedEntry)
    ensures
        e == entry_of(*r),
{
    RankedEntry { des: r.des.clone(), score: hazard_of(r), dist_min: r.dist_min, cd: r.cd.clone() }
}

/// Finds the first ranked entry carrying a designation: its position when
/// one exists, in ranked order, and `None` exactly when none does.
pub fn find_ranked_entry(entries: &Vec<RankedEntry>, des: &String) -> (r: Option<usize>)
    ensures
        r is Some ==> r->0 < entries@.len() && entries@[r->0 as int].des@ == des@ && (forall|k: int|
            0 <= k < r->0 ==> (#[trigger] entries@[k]).des@ != des@),
        r is None ==> forall|k: int|
            0 <= k < entries@.len() ==> (#[trigger] entries@[k]).des@ != des@,
{
    let n = entries.len();
    let mut i: usize = 0;
    while i < n
        invariant
            i <= n,
            n == entries@.len(),
            forall|k: int| 0 <= k < i ==> (#[trigger] entries@[k]).des@ != des@,
        decreases n - i,
    {
        if entries[i].des == *des {
            return Some(i);
        }
        i += 1;
    }
    None
}

/// Row `i` is ranked strictly before row `j`: a strictly greater score, or
/// an equal score and the earlier input position. A strict total order on
/// distinct rows.
pub open spec fn rank_before(data: Seq<AsteroidData>, i: int, j: int) -> bool {
    hazard_lt(hazard_score(data[j]), hazard_score(data[i])) || (hazard_eqv(
        hazard_score(data[i]),
        hazard_score(data[j]),
    ) && i < j)
}

/// On two distinct rows, the ranking order runs one way or the other.
pub proof fn lemma_rank_total(data: Seq<AsteroidData>, i: int, j: int)
    requires
        i != j,
    ensures
        rank_before(data, i, j) || rank_before(data, j, i),
{
    lemma_hazard_le_total(hazard_score(data[i]), hazard_score(data[j]));
}

/// The ranking order is transitive.
pub proof fn lemma_rank_trans(data: Seq<AsteroidData>, i: int, j: int, k: int)
    requires
        rank_before(data, i, j),
        rank_before(data, j, k),
    ensures
        rank_before(data, i, k),
{
    let si = hazard_score(data[i]);
    let sj = hazard_score(data[j]);
    let sk = hazard_score(data[k]);
    lemma_hazard_score_wf(data[i]);
    lemma_hazard_score_wf(data[j]);
    lemma_hazard_score_wf(data[k]);
    lemma_hazard_le_total(si, sj);
    lemma_hazard_le_total(sj, sk);
    lemma_hazard_le_total(si, sk);
    if hazard_le(sk, si) && hazard_le(si, sj) {
        lemma_hazard_le_trans(sk, si, sj);
    }
    if hazard_le(si, sk) && hazard_le(sk, sj) {
        lemma_hazard_le_trans(si, sk, sj);
    }
    if hazard_le(sj, si) && hazard_le(si, sk) {
        lemma_hazard_le_trans(sj, si, sk);
    }
    if hazard_le(sk, sj) && hazard_le(sj, si) {
        lemma_hazard_le_trans(sk, sj, si);
    }
}

/// Compares two rows in ranking order.
fn rank_before_exec(data: &Vec<AsteroidData>, i: usize, j: usize) -> (r: bool)
    requires
        i < data@.len(),
        j < data@.len(),
    ensures
        r == rank_before(data@, i as int, j as int),
{
    let si = hazard_of(&data[i]);
    let sj = hazard_of(&data[j]);
    let le_ij = hazard_le_exec(&si, &sj);
    let le_ji = hazard_le_exec(&sj, &si);
    if !le_ij {
        true
    } else {
        le_ji && i < j
    }
}

/// `perm` reorders the rows of `data` into ranking order, and `out` lists
/// the ranked entries in that order.
pub open spec fn rank_permutation(
    data: Seq<AsteroidData>,
    out: Seq<RankedEntry>,
    perm: Seq<int>,
) -> bool {
    &&& perm.len() == data.len()
    &&& out.len() == data.len()
    &&& forall|m: int| 0 <= m < perm.len() ==> 0 <= #[trigger] perm[m] < data.len()
    &&& forall|m1: int, m2: int|
        0 <= m1 < m2 < perm.len() ==> #[trigger] perm[m1] != #[trigger] perm[m2]
    &&& forall|v: int| 0 <= v < data.len() ==> #[trigger] perm.contains(v)
    &&& forall|m: int| 0 <= m < out.len() ==> #[trigger] out[m] == entry_of(data[perm[m]])
    &&& forall|m1: int, m2: int|
        0 <= m1 < m2 < perm.len() ==> rank_before(data, #[trigger] perm[m1], #[trigger] perm[m2])
}

/// Sorts the row indices of `data` into ranking order.
fn sort_rank_indices(data: &Vec<AsteroidData>) -> (idxs: Vec<usize>)
    ensures
        idxs@.len() == data@.len(),
        forall|m: int| 0 <= m < idxs@.len() ==> (#[trigger] idxs@[m]) < data@.len(),
        forall|m1: int, m2: int|
            0 <= m1 < m2 < idxs@.len() ==> #[trigger] idxs@[m1] != #[trigger] idxs@[m2],
        forall|v: usize| v < data@.len() ==> #[trigger] idxs@.contains(v),
        forall|m1: int, m2: int|
            0 <= m1 < m2 < idxs@.len() ==> rank_before(
                data@,
                #[trigger] idxs@[m1] as int,
                #[trigger] idxs@[m2] as int,
            ),
{
    let n = data.len();
    let mut idxs: Vec<usize> = Vec::new();
    let mut i: usize = 0;
    while i < n
        invariant
            i <= n,
            idxs@.len() == i,
            forall|m: int| 0 <= m < i ==> #[trigger] idxs@[m] == m,
        decreases n - i,
    {
        idxs.push(i);
        i += 1;
    }
    proof {
        assert forall|v: usize| v < n implies #[trigger] idxs@.contains(v) by {
            assert(idxs@[v as int] == v);
        }
    }
    if n == 0 {
        return idxs;
    }
    let mut s: usize = 1;
    while s < n
        invariant
            1 <= s <= n,
            n == data@.len(),
            idxs@.len() == n,
            forall|m: int| 0 <= m < n ==> (#[trigger] idxs@[m]) < n,
            forall|m1: int, m2: int|
                0 <= m1 < m2 < n ==> #[trigger] idxs@[m1] != #[trigger] idxs@[m2],
            forall|v: usize| v < n ==> #[trigger] idxs@.contains(v),
            forall|m1: int, m2: int|
                0 <= m1 < m2 < s ==> rank_before(
                    data@,
                    #[trigger] idxs@[m1] as int,
                    #[trigger] idxs@[m2] as int,
                ),
        decreases n - s,
    {
        let mut t: usize = s;
        while t > 0 && rank_before_exec(data, idxs[t], idxs[t - 1])
            invariant
                0 <= t <= s < n,
                n == data@.len(),
                idxs@.len() == n,
                forall|m: int| 0 <= m < n ==> (#[trigger] idxs@[m]) < n,
                forall|m1: int, m2: int|
                    0 <= m1 < m2 < n ==> #[trigger] idxs@[m1] != #[trigger] idxs@[m2],
                forall|v: usize| v < n ==> #[trigger] idxs@.contains(v),
                forall|m1: int, m2: int|
                    0 <= m1 < m2 <= s && m1 != t && m2 != t ==> rank_before(
                        data@,
                        #[trigger] idxs@[m1] as int,
                        #[trigger] idxs@[m2] as int,
                    ),
                forall|m: int|
                    t < m <= s ==> rank_before(data@, idxs@[t as int] as int, #[trigger] idxs@[m] as int),
            decreases t,
        {
            let ghost old_seq = idxs@;
            let moved = idxs[t];
            let other = idxs[t - 1];
            idxs.set(t, other);
            idxs.set(t - 1, moved);
            proof {
                assert(idxs@ == old_seq.update(t as int, other).update(t - 1, moved));
                assert forall|v: usize| v < n implies #[trigger] idxs@.contains(v) by {
                    assert(old_seq.contains(v));
                    let m = choose|m: int| 0 <= m < old_seq.len() && old_seq[m] == v;
                    if m == t as int {
                        assert(idxs@[t - 1] == v);
                    } else if m == t - 1 {
                        assert(idxs@[t as int] == v);
                    } else {
                        assert(idxs@[m] == v);
                    }
                }
            }
            t -= 1;
        }
        proof {
            if t > 0 {
                // the loop stopped on the comparison: the left neighbour stays
                assert(!rank_before(data@, idxs@[t as int] as int, idxs@[t - 1] as int));
                assert(idxs@[t - 1] != idxs@[t as int]);
                lemma_rank_total(data@, idxs@[t - 1] as int, idxs@[t as int] as int);
                assert(rank_before(data@, idxs@[t - 1] as int, idxs@[t as int] as int));
            }
            let ghost fixed = idxs@;
            assert forall|m1: int, m2: int| 0 <= m1 < m2 <= s implies rank_before(
                data@,
                (#[trigger] fixed[m1]) as int,
                (#[trigger] fixed[m2]) as int,
            ) by {
                if m1 == t && m2 > t {
                    // covered by the tail invariant
                } else if m2 == t {
                    // m1 < t, so t > 0 and the left neighbour is ordered
                    if m1 == t - 1 {
                    } else {
                        assert(rank_before(data@, fixed[m1] as int, fixed[t - 1] as int));
                        lemma_rank_trans(
                            data@,
                            fixed[m1] as int,
                            fixed[t - 1] as int,
                            fixed[t as int] as int,
                        );
                    }
                }
            }
        }
        s += 1;
    }
    idxs
}

/// Ranks the records by hazard score, descending, ties in input order:
/// some reordering of the rows is simultaneously a ranking order and the
/// source of the output entries, so the output is the unique stable
/// descending ranking. A record with a zero or unknown minimum distance
/// scores `Infinite` and sorts first.
pub fn rank_hazardous_asteroids(data: &Vec<AsteroidData>) -> (ranked: Vec<RankedEntry>)
    ensures
        ranked@.len() == data@.len(),
        exists|perm: Seq<int>| rank_permutation(data@, ranked@, perm),
        forall|m1: int, m2: int|
            0 <= m1 <= m2 < ranked@.len() ==> hazard_le(
                (#[trigger] ranked@[m2]).score,
                (#[trigger] ranked@[m1]).score,
            ),
        (exists|i: int| 0 <= i < data@.len() && hazard_score(data@[i]) == Hazard::Infinite)
            ==> ranked@.len() > 0 && ranked@[0].score == Hazard::Infinite,
{
    let n = data.len();
    let idxs = sort_rank_indices(data);
    let mut ranked: Vec<RankedEntry> = Vec::new();
    let mut m: usize = 0;
    while m < n
        invariant
            m <= n,
            n == data@.len(),
            idxs@.len() == n,
            forall|q: int| 0 <= q < n ==> (#[trigger] idxs@[q]) < n,
            ranked@.len() == m,
            forall|q: int| 0 <= q < m ==> #[trigger] ranked@[q] == entry_of(data@[idxs@[q] as int]),
        decreases n - m,
    {
        let row = idxs[m];
        ranked.push(make_entry(&data[row]));
        m += 1;
    }
    proof {
        let perm = idxs@.map_values(|u: usize| u as int);
        assert forall|v: int| 0 <= v < data@.len() implies #[trigger] perm.contains(v) by {
            assert(idxs@.contains(v as usize));
            let q = choose|q: int| 0 <= q < idxs@.len() && idxs@[q] == v as usize;
            assert(perm[q] == v);
        }
        assert(rank_permutation(data@, ranked@, perm));
        assert forall|m1: int, m2: int| 0 <= m1 <= m2 < ranked@.len() implies hazard_le(
            (#[trigger] ranked@[m2]).score,
            (#[trigger] ranked@[m1]).score,
        ) by {
            lemma_hazard_le_total(ranked@[m1].score, ranked@[m2].score);
            if m1 < m2 {
                assert(rank_before(data@, perm[m1], perm[m2]));
            }
        }
        if exists|i: int| 0 <= i < data@.len() && hazard_score(data@[i]) == Hazard::Infinite {
            let i = choose|i: int|
                0 <= i < data@.len() && hazard_score(data@[i]) == Hazard::Infinite;
            assert(perm.contains(i));
            let q = choose|q: int| 0 <= q < perm.len() && perm[q] == i;
            assert(ranked@[q].score == Hazard::Infinite);
            assert(hazard_le(ranked@[q].score, ranked@[0].score));
        }
    }
    ranked
}

} // verus!
