//! Single-agent path construction: the stochastic ant walk and the
//! deterministic nearest-neighbour baseline.

use vstd::prelude::*;
use crate::graph::Graph;
use crate::params::{IterationContext, WEIGHT_CAP, pow_capped, pow_capped_exec};
use crate::pheromone::Pheromones;
use crate::rng::{agent_stream, draw_below};
use crate::sampling::{select_weighted, sum_prefix, sum_weights,
                      lemma_sum_prefix_push, lemma_sum_prefix_mono};

verus! {

/// How many entries of a visited table are set.
pub open spec fn count_true(s: Seq<bool>) -> int
    decreases s.len(),
{
    if s.len() == 0 {
        0
    } else {
        count_true(s.drop_last()) + if s[s.len() - 1] { 1int } else { 0int }
    }
}

/// The count lies between zero and the table's length.
pub proof fn lemma_count_true_bounds(s: Seq<bool>)
    ensures
        0 <= count_true(s) <= s.len(),
    decreases s.len(),
{
    if s.len() > 0 {
        lemma_count_true_bounds(s.drop_last());
    }
}

/// Marking an unset entry raises the count by exactly one.
pub proof fn lemma_count_true_set(s: Seq<bool>, i: int)
    requires
        0 <= i < s.len(),
        !s[i],
    ensures
        count_true(s.update(i, true)) == count_true(s) + 1,
    decreases s.len(),
{
    let t = s.update(i, true);
    if i == s.len() - 1 {
        assert(t.drop_last() =~= s.drop_last());
    } else {
        assert(t.drop_last() =~= s.drop_last().update(i, true));
        lemma_count_true_set(s.drop_last(), i);
    }
}

/// An untouched table has count zero.
pub proof fn lemma_count_true_none_set(s: Seq<bool>)
    requires
        forall|i: int| 0 <= i < s.len() ==> !s[i],
    ensures
        count_true(s) == 0,
    decreases s.len(),
{
    if s.len() > 0 {
        lemma_count_true_none_set(s.drop_last());
    }
}

/// A table whose count equals its length is fully set.
pub proof fn lemma_count_true_saturated(s: Seq<bool>)
    requires
        count_true(s) == s.len(),
    ensures
        forall|i: int| 0 <= i < s.len() ==> s[i],
    decreases s.len(),
{
    if s.len() > 0 {
        lemma_count_true_bounds(s.drop_last());
        lemma_count_true_saturated(s.drop_last());
        assert forall|i: int| 0 <= i < s.len() implies s[i] by {
            if i < s.len() - 1 {
                assert(s.drop_last()[i] == s[i]);
            }
        }
    }
}

/// A fully set table has count equal to its length; so a count short of
/// the length leaves some entry unset.
pub proof fn lemma_count_true_all_set(s: Seq<bool>)
    requires
        forall|i: int| 0 <= i < s.len() ==> s[i],
    ensures
        count_true(s) == s.len(),
    decreases s.len(),
{
    if s.len() > 0 {
        lemma_count_true_all_set(s.drop_last());
    }
}

/// If the count is short of the length, some entry is unset.
pub proof fn lemma_count_true_missing(s: Seq<bool>)
    requires
        count_true(s) < s.len(),
    ensures
        exists|i: int| 0 <= i < s.len() && !s[i],
{
    if forall|i: int| 0 <= i < s.len() ==> s[i] {
        lemma_count_true_all_set(s);
    }
}

/// Appending to a sequence keeps everything it contained and adds the new
/// element.
pub proof fn lemma_push_contains(s: Seq<usize>, x: usize, y: usize)
    ensures
        s.push(x).contains(y) <==> (s.contains(y) || y == x),
{
    if s.contains(y) {
        let i = choose|i: int| 0 <= i < s.len() && s[i] == y;
        assert(s.push(x)[i] == y);
    }
    if y == x {
        assert(s.push(x)[s.len() as int] == y);
    }
    if s.push(x).contains(y) {
        let i = choose|i: int| 0 <= i < s.push(x).len() && s.push(x)[i] == y;
        if i < s.len() {
            assert(s[i] == y);
        }
    }
}

/// The unjittered desirability of stepping to a candidate: the trail
/// strength raised to the `alpha` exponent times the inverse distance (in
/// fixed point) raised to the `beta` exponent, saturating at
/// `WEIGHT_CAP`.
pub open spec fn raw_desirability(pher: u64, dist: u64, alpha_e: u64, beta_e: u64) -> u64 {
    let inv = (WEIGHT_CAP as int / (dist + 1)) as u64;
    let prod = pow_capped(pher, alpha_e as nat) * pow_capped(inv, beta_e as nat);
    if prod > WEIGHT_CAP {
        WEIGHT_CAP
    } else {
        prod as u64
    }
}

/// A desirability after its multiplicative jitter of `jit` thousandths,
/// floored at one — the epsilon substitution that keeps a degenerate
/// candidate selectable — and capped at `WEIGHT_CAP`.
pub open spec fn jittered_weight(w0: u64, jit: u64) -> u64 {
    let jw = (w0 * (1000 + jit)) / 1000;
    if jw < 1 {
        1u64
    } else if jw > WEIGHT_CAP {
        WEIGHT_CAP
    } else {
        jw as u64
    }
}

/// Compute one candidate's selection weight.
fn candidate_weight(g: &Graph, p: &Pheromones, curr: usize, next: usize,
                    ctx: &IterationContext, jit: u64) -> (w: u64)
    requires
        g.wf(),
        p.wf(),
        p.n == g.n,
        curr < g.n,
        next < g.n,
        jit < 1000,
    ensures
        w == jittered_weight(
            raw_desirability(p.strength(curr as int, next as int),
                             g.weight(curr as int, next as int),
                             ctx.alpha_e, ctx.beta_e),
            jit),
        1 <= w <= WEIGHT_CAP,
{
    let pher: u64 = p.entry(curr, next);
    let dist: u64 = g.edge(curr, next);
    let inv: u64 = (WEIGHT_CAP as u128 / (dist as u128 + 1)) as u64;
    let d1: u64 = pow_capped_exec(pher, ctx.alpha_e);
    let d2: u64 = pow_capped_exec(inv, ctx.beta_e);
    proof {
        crate::params::lemma_pow_capped_bound(pher, ctx.alpha_e as nat);
        crate::params::lemma_pow_capped_bound(inv, ctx.beta_e as nat);
        assert(d1 * d2 <= WEIGHT_CAP * WEIGHT_CAP) by (nonlinear_arith)
            requires d1 <= WEIGHT_CAP && d2 <= WEIGHT_CAP;
    }
    let prod: u128 = d1 as u128 * d2 as u128;
    let w0: u64 = if prod > WEIGHT_CAP as u128 {
        WEIGHT_CAP
    } else {
        prod as u64
    };
    proof {
        assert(w0 * (1000 + jit) <= WEIGHT_CAP * 2000) by (nonlinear_arith)
            requires w0 <= WEIGHT_CAP && jit < 1000;
    }
    let jw: u128 = (w0 as u128 * (1000 + jit) as u128) / 1000;
    if jw < 1 {
        1
    } else if jw > WEIGHT_CAP as u128 {
        WEIGHT_CAP
    } else {
        jw as u64
    }
}

/// One agent's closed tour and its total cost.
pub struct AntResult {
    pub path: Vec<usize>,
    pub cost: u128,
}

/// Build one stochastic tour: starting at `start`, repeatedly sample the
/// next node among the unvisited ones with probability proportional to
/// its jittered desirability, then close the cycle back to `start`.
///
/// Whatever the agent's random stream yields, the walk makes exactly
/// `n - 1` sampling steps, never re-selects a visited node, visits every
/// node exactly once, and reports the literal sum of the traversed edge
/// weights, closing edge included.
#[verifier::loop_isolation(false)]
pub fn find_path(g: &Graph, p: &Pheromones, start: usize, ctx: &IterationContext,
                 seed: [u8; 32]) -> (r: AntResult)
    requires
        g.wf(),
        p.wf(),
        p.n == g.n,
        1 <= g.n <= 0xFFFF_FFFF,
        start < g.n,
    ensures
        g.tour_ok(r.path@),
        r.path@.len() == g.n + 1,
        r.path@[0] == start,
        r.cost == g.path_cost(r.path@),
{
    let n: usize = g.n;
    let mut rng = agent_stream(seed);
    let mut path: Vec<usize> = Vec::new();
    path.push(start);
    let mut visited: Vec<bool> = vec![false; n];
    proof {
        assert(forall|i: int| 0 <= i < n ==> !visited@[i]);
        lemma_count_true_none_set(visited@);
    }
    let ghost v0: Seq<bool> = visited@;
    visited.set(start, true);
    proof {
        lemma_count_true_set(v0, start as int);
        assert(path@[0] == start);
    }
    let mut curr: usize = start;
    let mut cost: u128 = 0;

    while path.len() < n
        invariant
            visited@.len() == n,
            1 <= path@.len() <= n,
            path@[0] == start,
            path@[path@.len() - 1] == curr,
            curr < n,
            g.nodes_in_range(path@),
            path@.no_duplicates(),
            forall|v: int| 0 <= v < n ==> (visited@[v] <==> path@.contains(v as usize)),
            count_true(visited@) == path@.len(),
            cost == g.cost_of_first_edges(path@, path@.len() - 1),
        decreases n - path@.len(),
    {
        let mut choices: Vec<usize> = Vec::new();
        let mut weights: Vec<u64> = Vec::new();
        let mut total: u64 = 0;
        let mut cand: usize = 0;
        while cand < n
            invariant
                choices@.len() == weights@.len(),
                choices@.len() <= cand <= n,
                total == sum_weights(weights@),
                total <= choices@.len() * (WEIGHT_CAP as int),
                forall|k: int| 0 <= k < choices@.len()
                    ==> #[trigger] choices@[k] < n && !visited@[choices@[k] as int],
                forall|k: int| 0 <= k < weights@.len() ==> 1 <= #[trigger] weights@[k] <= WEIGHT_CAP,
                forall|v: int| 0 <= v < cand && !visited@[v]
                    ==> choices@.contains(v as usize),
            decreases n - cand,
        {
            if !visited[cand] {
                let jit: u64 = 10 + draw_below(&mut rng, 40);
                let w: u64 = candidate_weight(g, p, curr, cand, ctx, jit);
                proof {
                    lemma_sum_prefix_push(weights@, w, weights@.len() as int);
                    assert((choices@.len() + 1) * (WEIGHT_CAP as int)
                        == choices@.len() * (WEIGHT_CAP as int) + WEIGHT_CAP) by (nonlinear_arith);
                    assert(n * (WEIGHT_CAP as int) <= 0xFFFF_FFFFu64 * (WEIGHT_CAP as int))
                        by (nonlinear_arith)
                        requires n <= 0xFFFF_FFFFu64;
                    assert((choices@.len() + 1) * (WEIGHT_CAP as int) <= n * (WEIGHT_CAP as int))
                        by (nonlinear_arith)
                        requires choices@.len() + 1 <= n;
                    assert forall|v: int| 0 <= v < cand + 1 && !visited@[v]
                        implies choices@.push(cand).contains(v as usize) by {
                        lemma_push_contains(choices@, cand, v as usize);
                    }
                    assert forall|k: int| 0 <= k < choices@.push(cand).len()
                        implies #[trigger] choices@.push(cand)[k] < n
                            && !visited@[choices@.push(cand)[k] as int] by {
                        if k < choices@.len() {
                            assert(choices@.push(cand)[k] == choices@[k]);
                        }
                    }
                }
                choices.push(cand);
                weights.push(w);
                total = total + w;
            } else {
                proof {
                    assert forall|v: int| 0 <= v < cand + 1 && !visited@[v]
                        implies choices@.contains(v as usize) by {
                    }
                }
            }
            cand = cand + 1;
        }
        proof {
            lemma_count_true_bounds(visited@);
            lemma_count_true_missing(visited@);
            let u = choose|u: int| 0 <= u < n && !visited@[u];
            assert(choices@.contains(u as usize));
            assert(choices@.len() >= 1);
            assert(weights@[0] >= 1);
            assert(sum_prefix(weights@, 0) == 0);
            assert(sum_prefix(weights@, 1) >= 1);
            lemma_sum_prefix_mono(weights@, 1, weights@.len() as int);
        }
        let r_draw: u64 = draw_below(&mut rng, total);
        let k: usize = select_weighted(&weights, r_draw);
        let next_node: usize = choices[k];
        let w_edge: u64 = g.edge(curr, next_node);
        proof {
            g.lemma_cost_of_first_edges_bound(path@, path@.len() - 1);
            assert((path@.len() - 1) * (u64::MAX as int) + (u64::MAX as int)
                <= n * (u64::MAX as int)) by (nonlinear_arith)
                requires 1 <= path@.len() <= n;
            assert(n * (u64::MAX as int) < u128::MAX) by (nonlinear_arith)
                requires n <= u64::MAX;
        }
        cost = cost + w_edge as u128;
        proof {
            let old_path = path@;
            let new_path = path@.push(next_node);
            g.lemma_cost_of_first_edges_push(old_path, next_node, old_path.len() - 1);
            assert(new_path[new_path.len() - 2] == curr);
            assert(g.cost_of_first_edges(new_path, new_path.len() - 1)
                == g.cost_of_first_edges(old_path, old_path.len() - 1)
                    + g.weight(curr as int, next_node as int));
            lemma_count_true_set(visited@, next_node as int);
            assert forall|v: int| 0 <= v < n
                implies (visited@.update(next_node as int, true)[v]
                    <==> new_path.contains(v as usize)) by {
                lemma_push_contains(old_path, next_node, v as usize);
            }
            assert forall|i: int, j: int|
                0 <= i < new_path.len() && 0 <= j < new_path.len() && i != j
                implies new_path[i] != new_path[j] by {
                if i < old_path.len() && j < old_path.len() {
                    assert(old_path[i] == new_path[i] && old_path[j] == new_path[j]);
                } else if i == old_path.len() {
                    assert(new_path[i] == next_node);
                    assert(!old_path.contains(next_node));
                    assert(old_path[j] == new_path[j]);
                } else {
                    assert(new_path[j] == next_node);
                    assert(!old_path.contains(next_node));
                    assert(old_path[i] == new_path[i]);
                }
            }
            assert(new_path.no_duplicates());
        }
        visited.set(next_node, true);
        path.push(next_node);
        curr = next_node;
    }

    let w_back: u64 = g.edge(curr, start);
    proof {
        g.lemma_cost_of_first_edges_bound(path@, path@.len() - 1);
        assert((path@.len() - 1) * (u64::MAX as int) + (u64::MAX as int)
            <= n * (u64::MAX as int)) by (nonlinear_arith)
            requires 1 <= path@.len() <= n;
        assert(n * (u64::MAX as int) < u128::MAX) by (nonlinear_arith)
            requires n <= u64::MAX;
    }
    cost = cost + w_back as u128;
    proof {
        let old_path = path@;
        let closed = path@.push(start);
        g.lemma_cost_of_first_edges_push(old_path, start, old_path.len() - 1);
        assert(closed[closed.len() - 2] == curr);
        assert(g.cost_of_first_edges(closed, closed.len() - 1)
            == g.cost_of_first_edges(old_path, old_path.len() - 1)
                + g.weight(curr as int, start as int));
        assert(closed.subrange(0, n as int) =~= old_path);
        lemma_count_true_saturated(visited@);
        assert forall|v: int| 0 <= v < n
            implies #[trigger] closed.subrange(0, n as int).contains(v as usize) by {
            assert(visited@[v]);
        }
    }
    path.push(start);
    AntResult { path, cost }
}

/// The node a nearest-neighbour step moves to from `curr`, the nodes of
/// `prefix` already visited: an unvisited node at minimal distance, the
/// lowest-numbered one on ties.
pub open spec fn is_nearest_next(g: Graph, prefix: Seq<usize>, curr: usize, next: usize) -> bool {
    &&& next < g.n
    &&& !prefix.contains(next)
    &&& forall|j: usize| #![trigger prefix.contains(j)]
          j < g.n && !prefix.contains(j)
              ==> g.weight(curr as int, next as int) <= g.weight(curr as int, j as int)
    &&& forall|j: usize| #![trigger prefix.contains(j)]
          j < next && !prefix.contains(j)
              ==> g.weight(curr as int, j as int) > g.weight(curr as int, next as int)
}

/// Build the deterministic nearest-neighbour baseline tour: from `start`,
/// always move to the closest unvisited node (the lowest-numbered on
/// ties), then close the cycle back to `start`.
///
/// The tour visits every node exactly once, returns to `start`, and its
/// reported cost is the literal sum of the matrix entries along its
/// recorded edges; every step taken is the nearest unvisited one.
#[verifier::loop_isolation(false)]
pub fn greedy_path(g: &Graph, start: usize) -> (r: (Vec<usize>, u128))
    requires
        g.wf(),
        1 <= g.n <= 0xFFFF_FFFF,
        start < g.n,
    ensures
        g.tour_ok(r.0@),
        r.0@.len() == g.n + 1,
        r.0@[0] == start,
        r.1 == g.path_cost(r.0@),
        forall|i: int| 0 <= i < g.n - 1
            ==> #[trigger] is_nearest_next(*g, r.0@.subrange(0, i + 1), r.0@[i], r.0@[i + 1]),
{
    let n: usize = g.n;
    let mut path: Vec<usize> = Vec::new();
    path.push(start);
    let mut visited: Vec<bool> = vec![false; n];
    proof {
        assert(forall|i: int| 0 <= i < n ==> !visited@[i]);
        lemma_count_true_none_set(visited@);
    }
    let ghost v0: Seq<bool> = visited@;
    visited.set(start, true);
    proof {
        lemma_count_true_set(v0, start as int);
        assert(path@[0] == start);
    }
    let mut curr: usize = start;
    let mut cost: u128 = 0;

    while path.len() < n
        invariant
            visited@.len() == n,
            1 <= path@.len() <= n,
            path@[0] == start,
            path@[path@.len() - 1] == curr,
            curr < n,
            g.nodes_in_range(path@),
            path@.no_duplicates(),
            forall|v: int| 0 <= v < n ==> (visited@[v] <==> path@.contains(v as usize)),
            count_true(visited@) == path@.len(),
            cost == g.cost_of_first_edges(path@, path@.len() - 1),
            forall|i: int| 0 <= i < path@.len() - 1
                ==> #[trigger] is_nearest_next(*g, path@.subrange(0, i + 1), path@[i], path@[i + 1]),
        decreases n - path@.len(),
    {
        let mut best: usize = 0;
        let mut best_d: u64 = 0;
        let mut found: bool = false;
        let mut i: usize = 0;
        while i < n
            invariant
                0 <= i <= n,
                found ==> best < n && !visited@[best as int]
                    && best_d == g.weight(curr as int, best as int),
                found ==> forall|j: int| 0 <= j < i && !visited@[j]
                    ==> best_d <= g.weight(curr as int, j),
                found ==> forall|j: int| 0 <= j < best && !visited@[j]
                    ==> g.weight(curr as int, j) > best_d,
                !found ==> forall|j: int| 0 <= j < i ==> visited@[j],
                found ==> best < i,
            decreases n - i,
        {
            if !visited[i] {
                let d: u64 = g.edge(curr, i);
                if !found || d < best_d {
                    best = i;
                    best_d = d;
                    found = true;
                }
            }
            i = i + 1;
        }
        proof {
            lemma_count_true_bounds(visited@);
            lemma_count_true_missing(visited@);
            let u = choose|u: int| 0 <= u < n && !visited@[u];
            assert(found);
        }
        let next_node: usize = best;
        let w_edge: u64 = g.edge(curr, next_node);
        proof {
            g.lemma_cost_of_first_edges_bound(path@, path@.len() - 1);
            assert((path@.len() - 1) * (u64::MAX as int) + (u64::MAX as int)
                <= n * (u64::MAX as int)) by (nonlinear_arith)
                requires 1 <= path@.len() <= n;
            assert(n * (u64::MAX as int) < u128::MAX) by (nonlinear_arith)
                requires n <= u64::MAX;
        }
        cost = cost + w_edge as u128;
        proof {
            let old_path = path@;
            let new_path = path@.push(next_node);
            g.lemma_cost_of_first_edges_push(old_path, next_node, old_path.len() - 1);
            assert(new_path[new_path.len() - 2] == curr);
            assert(g.cost_of_first_edges(new_path, new_path.len() - 1)
                == g.cost_of_first_edges(old_path, old_path.len() - 1)
                    + g.weight(curr as int, next_node as int));
            lemma_count_true_set(visited@, next_node as int);
            assert forall|v: int| 0 <= v < n
                implies (visited@.update(next_node as int, true)[v]
                    <==> new_path.contains(v as usize)) by {
                lemma_push_contains(old_path, next_node, v as usize);
            }
            assert forall|i2: int, j2: int|
                0 <= i2 < new_path.len() && 0 <= j2 < new_path.len() && i2 != j2
                implies new_path[i2] != new_path[j2] by {
                if i2 < old_path.len() && j2 < old_path.len() {
                    assert(old_path[i2] == new_path[i2] && old_path[j2] == new_path[j2]);
                } else if i2 == old_path.len() {
                    assert(new_path[i2] == next_node);
                    assert(!old_path.contains(next_node));
                    assert(old_path[j2] == new_path[j2]);
                } else {
                    assert(new_path[j2] == next_node);
                    assert(!old_path.contains(next_node));
                    assert(old_path[i2] == new_path[i2]);
                }
            }
            assert(new_path.no_duplicates());
            // The chosen step is the nearest unvisited one, phrased over
            // the visited prefix rather than the visited table.
            let prefix = new_path.subrange(0, old_path.len() as int);
            assert(prefix =~= old_path);
            assert forall|j: usize| j < g.n && !old_path.contains(j)
                implies g.weight(curr as int, next_node as int) <= g.weight(curr as int, j as int) by {
                assert(!visited@[j as int]);
            }
            assert forall|j: usize| j < next_node && !old_path.contains(j)
                implies g.weight(curr as int, j as int) > g.weight(curr as int, next_node as int) by {
                assert(!visited@[j as int]);
            }
            assert(is_nearest_next(*g, old_path, curr, next_node));
            assert forall|i2: int| 0 <= i2 < new_path.len() - 1
                implies #[trigger] is_nearest_next(*g, new_path.subrange(0, i2 + 1), new_path[i2],
                                        new_path[i2 + 1]) by {
                if i2 < old_path.len() - 1 {
                    assert(new_path.subrange(0, i2 + 1) =~= old_path.subrange(0, i2 + 1));
                    assert(new_path[i2] == old_path[i2] && new_path[i2 + 1] == old_path[i2 + 1]);
                } else {
                    assert(new_path.subrange(0, i2 + 1) =~= old_path);
                }
            }
        }
        visited.set(next_node, true);
        path.push(next_node);
        curr = next_node;
    }

    let w_back: u64 = g.edge(curr, start);
    proof {
        g.lemma_cost_of_first_edges_bound(path@, path@.len() - 1);
        assert((path@.len() - 1) * (u64::MAX as int) + (u64::MAX as int)
            <= n * (u64::MAX as int)) by (nonlinear_arith)
            requires 1 <= path@.len() <= n;
        assert(n * (u64::MAX as int) < u128::MAX) by (nonlinear_arith)
            requires n <= u64::MAX;
    }
    cost = cost + w_back as u128;
    proof {
        let old_path = path@;
        let closed = path@.push(start);
        g.lemma_cost_of_first_edges_push(old_path, start, old_path.len() - 1);
        assert(closed[closed.len() - 2] == curr);
        assert(g.cost_of_first_edges(closed, closed.len() - 1)
            == g.cost_of_first_edges(old_path, old_path.len() - 1)
                + g.weight(curr as int, start as int));
        assert(closed.subrange(0, n as int) =~= old_path);
        lemma_count_true_saturated(visited@);
        assert forall|v: int| 0 <= v < n
            implies #[trigger] closed.subrange(0, n as int).contains(v as usize) by {
            assert(visited@[v]);
        }
        assert forall|i2: int| 0 <= i2 < n - 1
            implies #[trigger] is_nearest_next(*g, closed.subrange(0, i2 + 1), closed[i2],
                                    closed[i2 + 1]) by {
            assert(closed.subrange(0, i2 + 1) =~= old_path.subrange(0, i2 + 1));
            assert(closed[i2] == old_path[i2] && closed[i2 + 1] == old_path[i2 + 1]);
        }
    }
    path.push(start);
    (path, cost)
}

} // verus!
