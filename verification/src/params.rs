//! Run parameters in fixed point, and the per-iteration annealed context.
//!
//! Tunable parameters are carried in thousandths ("milli-units"): an
//! `alpha` of two is `alpha_m == 2000`. As the run progresses the context
//! shifts weight from distance-driven exploration toward trail-driven
//! exploitation: `alpha` grows, `beta` and `rho` shrink.

use vstd::prelude::*;

verus! {

/// Upper bound on a candidate's selection weight; products that would pass
/// it saturate here, the fixed-point stand-in for overflow to infinity.
pub const WEIGHT_CAP: u64 = 0xFFFF_FFFF;

/// Numerator of the deposit influence: the fixed-point form of `1 / cost`.
pub const INFLUENCE_NUM: u128 = 1_000_000_000_000_000_000;

/// Largest accepted milli-unit parameter value (one million, in units).
pub const PARAM_LIMIT: u64 = 1_000_000_000;

/// Iteration index at which annealing saturates: progress is
/// `min(j, PROGRESS_CAP) / PROGRESS_CAP`.
pub const PROGRESS_CAP: u64 = 1000;

/// The configuration surface of a run, all in milli-units except `pheta`,
/// which scales the deposit influence directly.
pub struct Params {
    pub alpha_m: u64,
    pub beta_m: u64,
    pub rho_m: u64,
    pub pheta: u64,
}

impl Params {
    /// Positive `alpha`, `beta` and `pheta` within the accepted magnitude;
    /// `rho` a fraction strictly below one.
    pub open spec fn wf(&self) -> bool {
        &&& 1 <= self.alpha_m <= PARAM_LIMIT
        &&& 1 <= self.beta_m <= PARAM_LIMIT
        &&& self.rho_m < 1000
        &&& 1 <= self.pheta <= PARAM_LIMIT
    }
}

/// Progress through the annealing schedule at iteration `j`, in
/// thousandths: `j` capped at `PROGRESS_CAP`.
pub open spec fn progress_of(j: u64) -> u64 {
    if j < PROGRESS_CAP {
        j
    } else {
        PROGRESS_CAP
    }
}

/// Annealed `alpha`: grows linearly from `alpha` to `2 * alpha`.
pub open spec fn annealed_alpha(alpha_m: u64, progress_m: u64) -> u64 {
    ((alpha_m * (1000 + progress_m)) / 1000) as u64
}

/// Annealed `beta`: shrinks linearly from `beta` to `beta / 2`.
pub open spec fn annealed_beta(beta_m: u64, progress_m: u64) -> u64 {
    ((beta_m * (2000 - progress_m)) / 2000) as u64
}

/// Annealed `rho`: shrinks linearly from `rho` to `rho / 2`.
pub open spec fn annealed_rho(rho_m: u64, progress_m: u64) -> u64 {
    ((rho_m * (2000 - progress_m)) / 2000) as u64
}

/// A milli-unit value rounded to the nearest whole unit, used as an
/// integer exponent.
pub open spec fn rounded_exponent(m: u64) -> u64 {
    ((m + 500) / 1000) as u64
}

/// The deposit exponent at a given progress: `1 + progress / 2`, rounded
/// to the nearest whole unit.
pub open spec fn deposit_exponent(progress_m: u64) -> u64 {
    rounded_exponent((1000 + progress_m / 2) as u64)
}

/// The parameters one iteration runs under, derived from the configured
/// parameters and the iteration index.
pub struct IterationContext {
    pub progress_m: u64,
    pub alpha_m: u64,
    pub beta_m: u64,
    pub rho_m: u64,
    pub alpha_e: u64,
    pub beta_e: u64,
    pub deposit_e: u64,
    pub pheta: u64,
}

impl IterationContext {
    pub open spec fn wf(&self) -> bool {
        &&& self.progress_m <= 1000
        &&& self.alpha_m <= 2 * PARAM_LIMIT
        &&& self.beta_m <= PARAM_LIMIT
        &&& self.rho_m < 1000
        &&& self.alpha_e <= 3 * PARAM_LIMIT
        &&& self.beta_e <= PARAM_LIMIT
        &&& 1 <= self.deposit_e <= 2
        &&& 1 <= self.pheta <= PARAM_LIMIT
    }

    /// Derive the context of iteration `j`: anneal the three schedule
    /// parameters by the progress fraction and round the two selection
    /// exponents to whole units.
    pub fn derive(params: &Params, j: u64) -> (ctx: IterationContext)
        requires
            params.wf(),
        ensures
            ctx.wf(),
            ctx.progress_m == progress_of(j),
            ctx.alpha_m == annealed_alpha(params.alpha_m, progress_of(j)),
            ctx.beta_m == annealed_beta(params.beta_m, progress_of(j)),
            ctx.rho_m == annealed_rho(params.rho_m, progress_of(j)),
            ctx.alpha_e == rounded_exponent(ctx.alpha_m),
            ctx.beta_e == rounded_exponent(ctx.beta_m),
            ctx.deposit_e == deposit_exponent(ctx.progress_m),
            ctx.pheta == params.pheta,
    {
        let progress_m: u64 = if j < PROGRESS_CAP { j } else { PROGRESS_CAP };
        proof {
            assert(params.alpha_m * (1000 + progress_m) <= PARAM_LIMIT * 2000) by (nonlinear_arith)
                requires params.alpha_m <= PARAM_LIMIT && progress_m <= 1000;
            assert(params.beta_m * (2000 - progress_m) <= PARAM_LIMIT * 2000) by (nonlinear_arith)
                requires params.beta_m <= PARAM_LIMIT && progress_m <= 1000;
            assert(params.rho_m * (2000 - progress_m) <= 1000 * 2000) by (nonlinear_arith)
                requires params.rho_m < 1000 && progress_m <= 1000;
            assert(params.rho_m * (2000 - progress_m) / 2000 <= params.rho_m) by (nonlinear_arith)
                requires params.rho_m < 1000 && progress_m <= 1000;
            assert(params.alpha_m * (1000 + progress_m) / 1000 <= 2 * params.alpha_m) by (nonlinear_arith)
                requires params.alpha_m <= PARAM_LIMIT && progress_m <= 1000;
            assert(params.beta_m * (2000 - progress_m) / 2000 <= params.beta_m) by (nonlinear_arith)
                requires params.beta_m <= PARAM_LIMIT && progress_m <= 1000;
        }
        let alpha_m: u64 = ((params.alpha_m as u128 * (1000 + progress_m) as u128) / 1000) as u64;
        let beta_m: u64 = ((params.beta_m as u128 * (2000 - progress_m) as u128) / 2000) as u64;
        let rho_m: u64 = ((params.rho_m as u128 * (2000 - progress_m) as u128) / 2000) as u64;
        let alpha_e: u64 = (alpha_m + 500) / 1000;
        let beta_e: u64 = (beta_m + 500) / 1000;
        let deposit_e: u64 = ((1000 + progress_m / 2) + 500) / 1000;
        IterationContext {
            progress_m,
            alpha_m,
            beta_m,
            rho_m,
            alpha_e,
            beta_e,
            deposit_e,
            pheta: params.pheta,
        }
    }
}

/// The annealing law: as progress grows, the annealed `alpha` never
/// shrinks while the annealed `beta` and `rho` never grow — emphasis
/// moves from distance-driven exploration toward trail-driven
/// exploitation over the course of a run.
pub proof fn lemma_annealing_monotone(alpha_m: u64, beta_m: u64, rho_m: u64, p1: u64, p2: u64)
    requires
        alpha_m <= PARAM_LIMIT,
        beta_m <= PARAM_LIMIT,
        rho_m < 1000,
        p1 <= p2 <= 1000,
    ensures
        annealed_alpha(alpha_m, p1) <= annealed_alpha(alpha_m, p2),
        annealed_beta(beta_m, p2) <= annealed_beta(beta_m, p1),
        annealed_rho(rho_m, p2) <= annealed_rho(rho_m, p1),
{
    assert(alpha_m * (1000 + p1) <= alpha_m * (1000 + p2)) by (nonlinear_arith)
        requires p1 <= p2;
    assert(beta_m * (2000 - p2) <= beta_m * (2000 - p1)) by (nonlinear_arith)
        requires p1 <= p2 <= 1000;
    assert(rho_m * (2000 - p2) <= rho_m * (2000 - p1)) by (nonlinear_arith)
        requires p1 <= p2 <= 1000;
    vstd::arithmetic::div_mod::lemma_div_is_ordered(
        (alpha_m * (1000 + p1)) as int, (alpha_m * (1000 + p2)) as int, 1000);
    vstd::arithmetic::div_mod::lemma_div_is_ordered(
        (beta_m * (2000 - p2)) as int, (beta_m * (2000 - p1)) as int, 2000);
    vstd::arithmetic::div_mod::lemma_div_is_ordered(
        (rho_m * (2000 - p2)) as int, (rho_m * (2000 - p1)) as int, 2000);
    assert(alpha_m * (1000 + p2) / 1000 <= 2 * PARAM_LIMIT) by (nonlinear_arith)
        requires alpha_m <= PARAM_LIMIT && p2 <= 1000;
    assert(alpha_m * (1000 + p1) / 1000 <= 2 * PARAM_LIMIT) by (nonlinear_arith)
        requires alpha_m <= PARAM_LIMIT && p1 <= 1000;
    assert(beta_m * (2000 - p1) / 2000 <= PARAM_LIMIT) by (nonlinear_arith)
        requires beta_m <= PARAM_LIMIT && p1 <= 1000;
    assert(beta_m * (2000 - p2) / 2000 <= PARAM_LIMIT) by (nonlinear_arith)
        requires beta_m <= PARAM_LIMIT && p2 <= 1000;
    assert(rho_m * (2000 - p1) / 2000 <= rho_m) by (nonlinear_arith)
        requires rho_m < 1000 && p1 <= 1000;
    assert(rho_m * (2000 - p2) / 2000 <= rho_m) by (nonlinear_arith)
        requires rho_m < 1000 && p2 <= 1000;
}

/// `base` raised to `e`, saturating at `WEIGHT_CAP`.
pub open spec fn pow_capped(base: u64, e: nat) -> u64
    decreases e,
{
    if e == 0 {
        1
    } else {
        let prev = pow_capped(base, (e - 1) as nat);
        if prev * base > WEIGHT_CAP {
            WEIGHT_CAP
        } else {
            (prev * base) as u64
        }
    }
}

/// A capped power never passes the cap (for any positive exponent), and
/// `e == 0` gives one.
pub proof fn lemma_pow_capped_bound(base: u64, e: nat)
    ensures
        pow_capped(base, e) <= if e == 0 { 1u64 } else { WEIGHT_CAP },
        e >= 1 && base <= WEIGHT_CAP ==> pow_capped(base, e) <= WEIGHT_CAP,
    decreases e,
{
    if e > 0 {
        lemma_pow_capped_bound(base, (e - 1) as nat);
    }
}

/// Compute `base` to the `e`, saturating at `WEIGHT_CAP`.
pub fn pow_capped_exec(base: u64, e: u64) -> (r: u64)
    ensures
        r == pow_capped(base, e as nat),
{
    let mut acc: u64 = 1;
    let mut i: u64 = 0;
    while i < e
        invariant
            0 <= i <= e,
            acc == pow_capped(base, i as nat),
        decreases e - i,
    {
        proof {
            lemma_pow_capped_bound(base, i as nat);
            assert(acc * base <= WEIGHT_CAP * u64::MAX) by (nonlinear_arith)
                requires acc <= WEIGHT_CAP && base <= u64::MAX;
        }
        let wide: u128 = acc as u128 * base as u128;
        if wide > WEIGHT_CAP as u128 {
            acc = WEIGHT_CAP;
        } else {
            acc = wide as u64;
        }
        i = i + 1;
    }
    acc
}

/// `x` floor-divided by `c`, `e` times over.
pub open spec fn div_pow(x: u128, c: u128, e: nat) -> u128
    decreases e,
{
    if e == 0 {
        x
    } else {
        div_pow(x / c, c, (e - 1) as nat)
    }
}

/// Repeated division by a positive value never grows the dividend.
pub proof fn lemma_div_pow_bound(x: u128, c: u128, e: nat)
    requires
        c >= 1,
    ensures
        div_pow(x, c, e) <= x,
    decreases e,
{
    if e > 0 {
        lemma_div_pow_bound(x / c, c, (e - 1) as nat);
    }
}

/// The deposit influence of an iteration-best tour of cost `cost`:
/// `pheta * (1 / cost)` in fixed point, sharpened to `(1 / cost)^2` as
/// the deposit exponent anneals up.
pub open spec fn influence_of(pheta: u64, cost: u128, deposit_e: u64) -> u128 {
    let denom = if cost >= 1 { cost } else { 1u128 };
    div_pow((pheta * INFLUENCE_NUM) as u128, denom, deposit_e as nat)
}

/// Compute the deposit influence for an iteration-best cost.
pub fn influence_for(pheta: u64, cost: u128, deposit_e: u64) -> (r: u128)
    requires
        1 <= pheta <= PARAM_LIMIT,
    ensures
        r == influence_of(pheta, cost, deposit_e),
        r <= PARAM_LIMIT * INFLUENCE_NUM,
    {
        proof {
            assert(pheta * INFLUENCE_NUM <= PARAM_LIMIT * INFLUENCE_NUM) by (nonlinear_arith)
                requires 1 <= pheta <= PARAM_LIMIT;
        }
        let denom: u128 = if cost >= 1 { cost } else { 1 };
        let mut x: u128 = pheta as u128 * INFLUENCE_NUM;
        proof {
            lemma_div_pow_bound(x, denom, deposit_e as nat);
        }
        let ghost x0: u128 = x;
        let mut i: u64 = 0;
        while i < deposit_e
            invariant
                denom >= 1,
                0 <= i <= deposit_e,
                div_pow(x, denom, (deposit_e - i) as nat) == div_pow(x0, denom, deposit_e as nat),
                x <= x0,
            decreases deposit_e - i,
        {
            proof {
                lemma_div_pow_bound(x / denom, denom, (deposit_e - i - 1) as nat);
            }
            x = x / denom;
            i = i + 1;
        }
        x
    }

} // verus!
