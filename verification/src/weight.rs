use vstd::prelude::*;
use crate::SCALE;

verus! {

/// Effective distance of an edge: an exact zero is read as the smallest
/// representable distance (one thousandth), so inverting it is defined.
pub open spec fn eff_dist(d: u64) -> int {
    if d == 0 {
        1
    } else {
        d as int
    }
}

/// Fixed-point inverse distance: `1 / eff_dist`, in thousandths.
pub open spec fn inv_dist(d: u64) -> int {
    (SCALE * SCALE) / eff_dist(d)
}

/// Pheromone laid on a traversed edge: the cubed inverse distance,
/// in thousandths.
pub open spec fn reinforcement_of(d: u64) -> int {
    inv_dist(d) * inv_dist(d) * inv_dist(d) / (SCALE * SCALE)
}

/// Selection weight of an edge: cubed inverse distance plus squared
/// pheromone level.  Weights only matter in proportion to one another,
/// so they are held in billionths rather than thousandths, which keeps
/// faint candidates in play.  A weight that does not fit the value type
/// is clamped to zero, as an unrepresentable weight must not dominate
/// the draw.
///
/// The resolution sets the supported distance range: the distance term
/// is positive exactly for effective distances up to one thousand whole
/// units (a billionth is `(1/1000)^3`); on longer edges only an already
/// positive pheromone level keeps a candidate drawable, and a walk whose
/// candidates all weigh zero ends in `NoReachableNode`.
pub open spec fn weight_of(d: u64, p: u64) -> int {
    let w = 1_000_000_000_000_000_000int / (eff_dist(d) * eff_dist(d) * eff_dist(d)) + 1000 * (p
        * p);
    if w > u64::MAX {
        0
    } else {
        w
    }
}

proof fn lemma_inv_dist_bound(d: u64)
    ensures
        0 <= inv_dist(d) <= SCALE * SCALE,
{
    assert(0 <= (SCALE * SCALE) / eff_dist(d) <= SCALE * SCALE) by (nonlinear_arith)
        requires eff_dist(d) >= 1,
    ;
}

/// The pheromone laid on one edge never exceeds the reinforcement of
/// the smallest representable distance, one million whole units.
pub proof fn lemma_reinforcement_bound(d: u64)
    ensures
        0 <= reinforcement_of(d) <= 1_000_000_000_000,
{
    lemma_inv_dist_bound(d);
    let i = inv_dist(d);
    assert(0 <= i * i * i <= 1_000_000_000_000_000_000) by (nonlinear_arith)
        requires 0 <= i <= 1_000_000,
    ;
    assert(0 <= (i * i * i) / (SCALE * SCALE) <= 1_000_000_000_000) by (nonlinear_arith)
        requires 0 <= i * i * i <= 1_000_000_000_000_000_000,
    ;
}

pub proof fn lemma_weight_of_nonneg(d: u64, p: u64)
    ensures
        weight_of(d, p) >= 0,
{
    assert(1_000_000_000_000_000_000int / (eff_dist(d) * eff_dist(d) * eff_dist(d)) >= 0
        && 1000 * ((p as int) * (p as int)) >= 0) by (nonlinear_arith)
        requires eff_dist(d) >= 1,
    ;
}

/// Selection weight of an edge with distance `d` and pheromone level `p`.
pub fn edge_weight(d: u64, p: u64) -> (r: u64)
    ensures
        r == weight_of(d, p),
{
    let eff: u64 = if d == 0 { 1 } else { d };
    let t1: u128 = if eff > 1_000_000 {
        proof {
            assert(1_000_000_000_000_000_000int / ((eff as int) * (eff as int) * (eff as int))
                == 0) by (nonlinear_arith)
                requires eff > 1_000_000,
            ;
        }
        0
    } else {
        let e: u128 = eff as u128;
        proof {
            assert(e * e <= 1_000_000_000_000 && 1 <= e * e * e <= 1_000_000_000_000_000_000)
                by (nonlinear_arith)
                requires 1 <= e <= 1_000_000,
            ;
        }
        1_000_000_000_000_000_000u128 / (e * e * e)
    };
    let pw: u128 = p as u128;
    proof {
        assert(pw * pw < u128::MAX) by (nonlinear_arith)
            requires pw <= u64::MAX,
        ;
    }
    let pp: u128 = pw * pw;
    if pp > ((u64::MAX / 1000) as u128) {
        proof {
            assert(1000 * (pw * pw) > u64::MAX) by (nonlinear_arith)
                requires pw * pw > (u64::MAX as int) / 1000,
            ;
        }
        0
    } else {
        proof {
            assert(1000 * pp + 1_000_000_000_000_000_000 < u128::MAX) by (nonlinear_arith)
                requires 0 <= pp <= (u64::MAX as int) / 1000,
            ;
        }
        let w: u128 = t1 + 1000 * pp;
        if w > (u64::MAX as u128) {
            0
        } else {
            w as u64
        }
    }
}

/// Pheromone reinforcement for a traversed edge with distance `d`.
pub fn edge_reinforcement(d: u64) -> (r: u64)
    ensures
        r == reinforcement_of(d),
        r <= 1_000_000_000_000,
{
    let eff: u64 = if d == 0 { 1 } else { d };
    let inv: u64 = (SCALE * SCALE) / eff;
    proof {
        lemma_inv_dist_bound(d);
        lemma_reinforcement_bound(d);
    }
    let iw: u128 = inv as u128;
    proof {
        assert(iw * iw <= 1_000_000_000_000 && iw * iw * iw <= 1_000_000_000_000_000_000) by (nonlinear_arith)
            requires 0 <= iw <= 1_000_000,
        ;
    }
    let inv3: u128 = iw * iw * iw / ((SCALE as u128) * (SCALE as u128));
    inv3 as u64
}

} // verus!
