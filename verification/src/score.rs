//! The record model and the hazard score: exact fixed-point quantities,
//! the score as an exact rational, its total order, and the risk bands.

use vstd::prelude::*;

verus! {

/// One close-approach record.
///
/// Physical quantities are fixed-point integers sharing one scale (for
/// example, millionths of the source unit: an approach distance of 0.02 AU
/// is stored as 20_000 when the scale is millionths). Because velocity and
/// distance share the scale, the ratio of two stored values equals the
/// ratio of the physical values exactly. A distance the source data could
/// not supply (a malformed or missing number) is `None`.
pub struct AsteroidData {
    /// Designation: the record's natural key.
    pub des: String,
    /// Orbit identifier.
    pub orbit_id: String,
    /// Observation epoch, fixed-point day count.
    pub jd: u64,
    /// Close-approach calendar date.
    pub cd: String,
    /// Nominal approach distance; `None` when the source value was malformed.
    pub dist: Option<u64>,
    /// Minimum approach distance; `None` when the source value was malformed.
    pub dist_min: Option<u64>,
    /// Maximum approach distance; `None` when the source value was malformed.
    pub dist_max: Option<u64>,
    /// Relative velocity.
    pub v_rel: u64,
    /// Approach velocity at infinity.
    pub v_inf: u64,
    /// Time-uncertainty indicator.
    pub t_sigma_f: String,
}

impl Clone for AsteroidData {
    /// An exact copy: the clone equals the original.
    fn clone(&self) -> (res: Self)
        ensures
            res == *self,
    {
        AsteroidData {
            des: self.des.clone(),
            orbit_id: self.orbit_id.clone(),
            jd: self.jd,
            cd: self.cd.clone(),
            dist: self.dist,
            dist_min: self.dist_min,
            dist_max: self.dist_max,
            v_rel: self.v_rel,
            v_inf: self.v_inf,
            t_sigma_f: self.t_sigma_f.clone(),
        }
    }
}

/// A hazard score: the exact ratio of relative velocity to minimum approach
/// distance, or unbounded when that distance is zero or unknown.
#[derive(Clone, Copy, Debug, PartialEq, Eq, Structural)]
pub enum Hazard {
    /// A zero or unknown minimum distance: maximal, certain hazard.
    Infinite,
    /// The exact ratio `vel / dist`, with `dist > 0`.
    Ratio { vel: u64, dist: u64 },
}

/// A `Ratio` score only ever carries a positive denominator.
pub open spec fn hazard_wf(h: Hazard) -> bool {
    match h {
        Hazard::Infinite => true,
        Hazard::Ratio { vel, dist } => dist > 0,
    }
}

/// Order on hazard scores: `a <= b` as exact rational values (by
/// cross-multiplication), with `Infinite` above every ratio.
pub open spec fn hazard_le(a: Hazard, b: Hazard) -> bool {
    match (a, b) {
        (_, Hazard::Infinite) => true,
        (Hazard::Infinite, Hazard::Ratio { .. }) => false,
        (Hazard::Ratio { vel: v1, dist: d1 }, Hazard::Ratio { vel: v2, dist: d2 }) => v1 * d2
            <= v2 * d1,
    }
}

/// Strict order on hazard scores.
pub open spec fn hazard_lt(a: Hazard, b: Hazard) -> bool {
    !hazard_le(b, a)
}

/// Two scores with the same rational value.
pub open spec fn hazard_eqv(a: Hazard, b: Hazard) -> bool {
    hazard_le(a, b) && hazard_le(b, a)
}

/// The order on hazard scores is total.
pub proof fn lemma_hazard_le_total(a: Hazard, b: Hazard)
    ensures
        hazard_le(a, b) || hazard_le(b, a),
{
    match (a, b) {
        (Hazard::Ratio { vel: v1, dist: d1 }, Hazard::Ratio { vel: v2, dist: d2 }) => {
            assert(v1 * d2 <= v2 * d1 || v2 * d1 <= v1 * d2);
        },
        _ => {},
    }
}

/// The order on hazard scores is transitive (on well-formed scores).
pub proof fn lemma_hazard_le_trans(a: Hazard, b: Hazard, c: Hazard)
    requires
        hazard_wf(a),
        hazard_wf(b),
        hazard_wf(c),
        hazard_le(a, b),
        hazard_le(b, c),
    ensures
        hazard_le(a, c),
{
    match (a, b, c) {
        (
            Hazard::Ratio { vel: v1, dist: d1 },
            Hazard::Ratio { vel: v2, dist: d2 },
            Hazard::Ratio { vel: v3, dist: d3 },
        ) => {
            assert(v1 * d3 <= v3 * d1) by (nonlinear_arith)
                requires
                    v1 * d2 <= v2 * d1,
                    v2 * d3 <= v3 * d2,
                    d1 > 0,
                    d2 > 0,
                    d3 > 0,
            ;
        },
        _ => {},
    }
}

/// Compares two hazard scores exactly, by cross-multiplication.
pub fn hazard_le_exec(a: &Hazard, b: &Hazard) -> (r: bool)
    ensures
        r == hazard_le(*a, *b),
{
    match (a, b) {
        (_, Hazard::Infinite) => true,
        (Hazard::Infinite, Hazard::Ratio { .. }) => false,
        (Hazard::Ratio { vel: v1, dist: d1 }, Hazard::Ratio { vel: v2, dist: d2 }) => {
            proof {
                vstd::arithmetic::mul::lemma_mul_upper_bound(
                    *v1 as int,
                    0xffff_ffff_ffff_ffff,
                    *d2 as int,
                    0xffff_ffff_ffff_ffff,
                );
                vstd::arithmetic::mul::lemma_mul_upper_bound(
                    *v2 as int,
                    0xffff_ffff_ffff_ffff,
                    *d1 as int,
                    0xffff_ffff_ffff_ffff,
                );
            }
            let left: u128 = (*v1 as u128) * (*d2 as u128);
            let right: u128 = (*v2 as u128) * (*d1 as u128);
            left <= right
        },
    }
}

/// Compares two hazard scores strictly.
pub fn hazard_lt_exec(a: &Hazard, b: &Hazard) -> (r: bool)
    ensures
        r == hazard_lt(*a, *b),
{
    !hazard_le_exec(b, a)
}

/// The hazard score of a record: relative velocity over minimum distance
/// when that distance is positive, else unbounded. A missing minimum
/// distance counts as zero here: it denotes certain hazard, never a `NaN`
/// score.
pub open spec fn hazard_score(r: AsteroidData) -> Hazard {
    match r.dist_min {
        Some(d) => if d > 0 {
            Hazard::Ratio { vel: r.v_rel, dist: d }
        } else {
            Hazard::Infinite
        },
        None => Hazard::Infinite,
    }
}

/// Every score this library derives carries a positive denominator.
pub proof fn lemma_hazard_score_wf(r: AsteroidData)
    ensures
        hazard_wf(hazard_score(r)),
{
}

/// Computes the hazard score of a record.
pub fn hazard_of(r: &AsteroidData) -> (h: Hazard)
    ensures
        h == hazard_score(*r),
{
    match r.dist_min {
        Some(d) => if d > 0 {
            Hazard::Ratio { vel: r.v_rel, dist: d }
        } else {
            Hazard::Infinite
        },
        None => Hazard::Infinite,
    }
}

} // verus!
