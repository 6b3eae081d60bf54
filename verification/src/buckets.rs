//! Risk buckets: a fixed, ordered set of half-open hazard-score bands
//! partitioning `[0, +infinity)`, and the assignment of ranked entries to
//! them in ranked order.

use vstd::prelude::*;
use crate::pairs::lemma_filter_push;
use crate::rank::RankedEntry;
use crate::score::{hazard_lt, hazard_lt_exec, Hazard};

verus! {

/// The four risk bands, in ascending order of hazard. The bounds are
/// raw-ratio scores: `[0, 10)`, `[10, 50)`, `[50, 100)`, `[100, +inf)`,
/// each lower-inclusive and upper-exclusive.
#[derive(Clone, Copy, Debug, PartialEq, Eq, Structural)]
pub enum RiskBand {
    /// Scores in `[0, 10)`.
    Negligible,
    /// Scores in `[10, 50)`.
    Low,
    /// Scores in `[50, 100)`.
    Moderate,
    /// Scores in `[100, +inf)`, among them the unbounded score.
    Highest,
}

/// The band a score falls in: bands are lower-inclusive, upper-exclusive,
/// so a score exactly on a bound falls in the higher band.
pub open spec fn band_of(h: Hazard) -> RiskBand {
    if hazard_lt(h, Hazard::Ratio { vel: 10, dist: 1 }) {
        RiskBand::Negligible
    } else if hazard_lt(h, Hazard::Ratio { vel: 50, dist: 1 }) {
        RiskBand::Low
    } else if hazard_lt(h, Hazard::Ratio { vel: 100, dist: 1 }) {
        RiskBand::Moderate
    } else {
        RiskBand::Highest
    }
}

/// Computes the band of a score.
pub fn band_of_exec(h: &Hazard) -> (b: RiskBand)
    ensures
        b == band_of(*h),
{
    if hazard_lt_exec(h, &Hazard::Ratio { vel: 10, dist: 1 }) {
        RiskBand::Negligible
    } else if hazard_lt_exec(h, &Hazard::Ratio { vel: 50, dist: 1 }) {
        RiskBand::Low
    } else if hazard_lt_exec(h, &Hazard::Ratio { vel: 100, dist: 1 }) {
        RiskBand::Moderate
    } else {
        RiskBand::Highest
    }
}

impl RiskBand {
    /// The display label of the band.
    pub fn label(&self) -> (s: String)
        ensures
            s@ == band_label(*self),
    {
        match self {
            RiskBand::Negligible => "Negligible Risk".to_owned(),
            RiskBand::Low => "Low Risk".to_owned(),
            RiskBand::Moderate => "Moderate Risk".to_owned(),
            RiskBand::Highest => "Highest Risk".to_owned(),
        }
    }
}

/// The display label of each band.
pub open spec fn band_label(b: RiskBand) -> Seq<char> {
    match b {
        RiskBand::Negligible => "Negligible Risk"@,
        RiskBand::Low => "Low Risk"@,
        RiskBand::Moderate => "Moderate Risk"@,
        RiskBand::Highest => "Highest Risk"@,
    }
}

/// Membership in one band, as one function value.
pub open spec fn band_pred(b: RiskBand) -> spec_fn(RankedEntry) -> bool {
    |e: RankedEntry| band_of(e.score) == b
}

/// The ranked entries falling into one band, in their ranked order.
pub open spec fn band_entries(entries: Seq<RankedEntry>, b: RiskBand) -> Seq<RankedEntry> {
    entries.filter(band_pred(b))
}

/// The risk-bucket assignment: every entry in the bucket of its band, in
/// ranked order; all four buckets present even when empty.
pub struct RiskClusters {
    /// Entries with scores in `[0, 10)`.
    pub negligible: Vec<RankedEntry>,
    /// Entries with scores in `[10, 50)`.
    pub low: Vec<RankedEntry>,
    /// Entries with scores in `[50, 100)`.
    pub moderate: Vec<RankedEntry>,
    /// Entries with scores in `[100, +inf)`.
    pub highest: Vec<RankedEntry>,
}

impl RiskClusters {
    /// The bucket of one band.
    pub fn band(&self, b: RiskBand) -> (v: &Vec<RankedEntry>)
        ensures
            *v == self.bucket(b),
    {
        match b {
            RiskBand::Negligible => &self.negligible,
            RiskBand::Low => &self.low,
            RiskBand::Moderate => &self.moderate,
            RiskBand::Highest => &self.highest,
        }
    }

    /// The bucket of one band, as a value.
    pub open spec fn bucket(&self, b: RiskBand) -> Vec<RankedEntry> {
        match b {
            RiskBand::Negligible => self.negligible,
            RiskBand::Low => self.low,
            RiskBand::Moderate => self.moderate,
            RiskBand::Highest => self.highest,
        }
    }

    /// How many buckets there are: one per band, always.
    pub fn band_count(&self) -> (n: usize)
        ensures
            n == 4,
    {
        4
    }
}

/// The label of the bucket a ranked entry falls in. Bucket membership is
/// by score band, so the lookup needs no search of the buckets themselves.
pub fn bucket_label_of(e: &RankedEntry) -> (s: String)
    ensures
        s@ == band_label(band_of(e.score)),
{
    band_of_exec(&e.score).label()
}

/// Assigns every ranked entry to the bucket of its score band, keeping the
/// ranked order inside each bucket. Buckets exist even when empty.
pub fn cluster_asteroids_by_hazard(data: &Vec<RankedEntry>) -> (c: RiskClusters)
    ensures
        c.negligible@ == band_entries(data@, RiskBand::Negligible),
        c.low@ == band_entries(data@, RiskBand::Low),
        c.moderate@ == band_entries(data@, RiskBand::Moderate),
        c.highest@ == band_entries(data@, RiskBand::Highest),
{
    let n = data.len();
    let mut c = RiskClusters {
        negligible: Vec::new(),
        low: Vec::new(),
        moderate: Vec::new(),
        highest: Vec::new(),
    };
    proof {
        assert(data@.take(0) =~= Seq::<RankedEntry>::empty());
        assert(Seq::<RankedEntry>::empty().filter(band_pred(RiskBand::Negligible))
            =~= Seq::<RankedEntry>::empty());
        assert(Seq::<RankedEntry>::empty().filter(band_pred(RiskBand::Low))
            =~= Seq::<RankedEntry>::empty());
        assert(Seq::<RankedEntry>::empty().filter(band_pred(RiskBand::Moderate))
            =~= Seq::<RankedEntry>::empty());
        assert(Seq::<RankedEntry>::empty().filter(band_pred(RiskBand::Highest))
            =~= Seq::<RankedEntry>::empty());
    }
    let mut i: usize = 0;
    while i < n
        invariant
            i <= n,
            n == data@.len(),
            c.negligible@ == band_entries(data@.take(i as int), RiskBand::Negligible),
            c.low@ == band_entries(data@.take(i as int), RiskBand::Low),
            c.moderate@ == band_entries(data@.take(i as int), RiskBand::Moderate),
            c.highest@ == band_entries(data@.take(i as int), RiskBand::Highest),
        decreases n - i,
    {
        proof {
            assert(data@.take(i + 1) =~= data@.take(i as int).push(data@[i as int]));
            lemma_filter_push(data@.take(i as int), data@[i as int], band_pred(RiskBand::Negligible));
            lemma_filter_push(data@.take(i as int), data@[i as int], band_pred(RiskBand::Low));
            lemma_filter_push(data@.take(i as int), data@[i as int], band_pred(RiskBand::Moderate));
            lemma_filter_push(data@.take(i as int), data@[i as int], band_pred(RiskBand::Highest));
        }
        let e = &data[i];
        let entry = e.clone();
        match band_of_exec(&e.score) {
            RiskBand::Negligible => c.negligible.push(entry),
            RiskBand::Low => c.low.push(entry),
            RiskBand::Moderate => c.moderate.push(entry),
            RiskBand::Highest => c.highest.push(entry),
        }
        i += 1;
    }
    proof {
        assert(data@.take(n as int) =~= data@);
    }
    c
}

/// The buckets partition the ranked list: every entry falls in exactly one
/// bucket (its band's), and the bucket sizes add up to the number of
/// entries.
pub proof fn lemma_buckets_partition(entries: Seq<RankedEntry>)
    ensures
        band_entries(entries, RiskBand::Negligible).len() + band_entries(entries, RiskBand::Low).len()
            + band_entries(entries, RiskBand::Moderate).len() + band_entries(
            entries,
            RiskBand::Highest,
        ).len() == entries.len(),
    decreases entries.len(),
{
    reveal(Seq::filter);
    if entries.len() > 0 {
        lemma_buckets_partition(entries.drop_last());
    }
}

} // verus!
