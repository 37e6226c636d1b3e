//! The iteration driver: fan the agents out in parallel over a snapshot
//! of the trail, reduce their tours to an iteration best, track the
//! global best, and apply the trail update the stagnation state calls
//! for.

use vstd::prelude::*;
use rayon::iter::IntoParallelRefIterator;
use rayon::iter::ParallelIterator;
use crate::agent::{AntResult, find_path};
use crate::graph::Graph;
use crate::params::{IterationContext, Params, PARAM_LIMIT, INFLUENCE_NUM, influence_for};
use crate::pheromone::Pheromones;
use crate::rng::{master_stream, next_seed, pick_start};
use crate::stagnation::{StagnationController, TrailAction};
use crate::tracker::BestSolutionTracker;

verus! {

/// One agent's assignment for an iteration: its own seed and start node,
/// both drawn from the master stream before the fan-out.
pub struct AntTask {
    pub seed: [u8; 32],
    pub start: usize,
}

/// What every agent's output satisfies: a closed tour over the graph
/// whose reported cost is the literal sum of its edge weights.
pub open spec fn ant_ok(g: Graph, r: AntResult) -> bool {
    &&& g.tour_ok(r.path@)
    &&& r.cost == g.path_cost(r.path@)
}

/// Relies on rayon's parallel iterator `map`/`collect` over a slice: the
/// closure runs once per task, independently, and the outputs are
/// collected in task order, one per task. The closure itself only calls
/// this crate's verified `find_path`, so each output meets `find_path`'s
/// contract for its task.
#[verifier::external_body]
fn build_paths_parallel(g: &Graph, p: &Pheromones, ctx: &IterationContext,
                        tasks: &Vec<AntTask>) -> (results: Vec<AntResult>)
    requires
        g.wf(),
        p.wf(),
        p.n == g.n,
        1 <= g.n <= 0xFFFF_FFFF,
        forall|i: int| 0 <= i < tasks@.len() ==> #[trigger] tasks@[i].start < g.n,
    ensures
        results@.len() == tasks@.len(),
        forall|i: int| 0 <= i < results@.len() ==> ant_ok(*g, #[trigger] results@[i]),
{
    tasks.par_iter().map(|t| find_path(g, p, t.start, ctx, t.seed)).collect()
}

/// The index of the iteration-best tour: minimal cost, ties broken by
/// first occurrence in collection order.
fn best_of(results: &Vec<AntResult>) -> (b: usize)
    requires
        results@.len() >= 1,
    ensures
        b < results@.len(),
        forall|i: int| 0 <= i < results@.len()
            ==> results@[b as int].cost <= #[trigger] results@[i].cost,
        forall|i: int| 0 <= i < b ==> #[trigger] results@[i].cost > results@[b as int].cost,
{
    let mut b: usize = 0;
    let mut i: usize = 1;
    while i < results.len()
        invariant
            results@.len() >= 1,
            b < i <= results@.len(),
            forall|k: int| 0 <= k < i
                ==> results@[b as int].cost <= #[trigger] results@[k].cost,
            forall|k: int| 0 <= k < b ==> #[trigger] results@[k].cost > results@[b as int].cost,
        decreases results@.len() - i,
    {
        if results[i].cost < results[b].cost {
            b = i;
        }
        i = i + 1;
    }
    b
}

/// Among the first `e` edges of `p`, how many times an edge — taken in
/// both directions, the trail being undirected — lands on flat index `k`.
pub open spec fn edge_hits(p: Seq<usize>, n: int, k: int, e: int) -> int
    decreases e,
{
    if e <= 0 {
        0
    } else {
        edge_hits(p, n, k, e - 1)
            + (if p[e - 1] * n + p[e] == k { 1int } else { 0int })
            + (if p[e] * n + p[e - 1] == k { 1int } else { 0int })
    }
}

/// At most two hits per edge.
pub proof fn lemma_edge_hits_bound(p: Seq<usize>, n: int, k: int, e: int)
    ensures
        0 <= edge_hits(p, n, k, e) <= 2 * (if e <= 0 { 0int } else { e }),
    decreases e,
{
    if e > 0 {
        lemma_edge_hits_bound(p, n, k, e - 1);
    }
}

/// Accumulate the elitist deposit into a fresh delta table: for every
/// consecutive edge `(u, v)` of the tour, add `influence` to both the
/// `(u, v)` and the `(v, u)` entry.
#[verifier::loop_isolation(false)]
fn accumulate_deposit(deltas: &mut Vec<u128>, path: &Vec<usize>, n: usize, influence: u128)
    requires
        old(deltas)@.len() == n * n,
        forall|k: int| 0 <= k < old(deltas)@.len() ==> #[trigger] old(deltas)@[k] == 0,
        1 <= path@.len() <= n + 1,
        forall|i: int| 0 <= i < path@.len() ==> #[trigger] path@[i] < n,
        influence <= PARAM_LIMIT * INFLUENCE_NUM,
        n <= 0xFFFF_FFFF,
    ensures
        final(deltas)@.len() == n * n,
        forall|k: int| 0 <= k < final(deltas)@.len()
            ==> #[trigger] final(deltas)@[k]
                == influence * edge_hits(path@, n as int, k, path@.len() - 1),
        forall|k: int| 0 <= k < final(deltas)@.len()
            ==> #[trigger] final(deltas)@[k] <= u128::MAX - u64::MAX,
{
    let len: usize = path.len();
    let mut i: usize = 0;
    proof {
        assert forall|k: int| 0 <= k < deltas@.len()
            implies #[trigger] deltas@[k] == influence * edge_hits(path@, n as int, k, 0) by {
        }
    }
    while i < len - 1
        invariant
            deltas@.len() == n * n,
            0 <= i <= len - 1,
            forall|k: int| 0 <= k < deltas@.len()
                ==> #[trigger] deltas@[k] == influence * edge_hits(path@, n as int, k, i as int),
        decreases len - 1 - i,
    {
        let u: usize = path[i];
        let v: usize = path[i + 1];
        // Binding the length to a machine word bounds `n * n`, so the
        // flat indices below cannot overflow.
        let dl: usize = deltas.len();
        proof {
            crate::graph::lemma_flat_index_in_range(u as int, v as int, n as int);
            crate::graph::lemma_flat_index_in_range(v as int, u as int, n as int);
        }
        let idx1: usize = u * n + v;
        let idx2: usize = v * n + u;
        let ghost before: Seq<u128> = deltas@;
        proof {
            lemma_edge_hits_bound(path@, n as int, idx1 as int, i as int);
            lemma_edge_hits_bound(path@, n as int, idx2 as int, i as int);
            assert(influence * edge_hits(path@, n as int, idx1 as int, i as int)
                + 2 * influence <= u128::MAX) by (nonlinear_arith)
                requires
                    influence <= PARAM_LIMIT * INFLUENCE_NUM,
                    0 <= edge_hits(path@, n as int, idx1 as int, i as int) <= 2 * i as int,
                    i as int <= n,
                    n <= 0xFFFF_FFFF;
            assert(influence * edge_hits(path@, n as int, idx2 as int, i as int)
                + 2 * influence <= u128::MAX) by (nonlinear_arith)
                requires
                    influence <= PARAM_LIMIT * INFLUENCE_NUM,
                    0 <= edge_hits(path@, n as int, idx2 as int, i as int) <= 2 * i as int,
                    i as int <= n,
                    n <= 0xFFFF_FFFF;
        }
        let bumped1: u128 = deltas[idx1] + influence;
        deltas.set(idx1, bumped1);
        let bumped2: u128 = deltas[idx2] + influence;
        deltas.set(idx2, bumped2);
        proof {
            assert forall|k: int| 0 <= k < deltas@.len()
                implies #[trigger] deltas@[k]
                    == influence * edge_hits(path@, n as int, k, i as int + 1) by {
                let h = edge_hits(path@, n as int, k, i as int);
                let h1 = edge_hits(path@, n as int, k, i as int + 1);
                if k == idx1 && k == idx2 {
                    assert(h1 == h + 2);
                    assert(deltas@[k] == before[k] + 2 * influence);
                    assert(influence * (h + 2) == influence * h + 2 * influence)
                        by (nonlinear_arith);
                } else if k == idx1 || k == idx2 {
                    assert(h1 == h + 1);
                    assert(deltas@[k] == before[k] + influence);
                    assert(influence * (h + 1) == influence * h + influence)
                        by (nonlinear_arith);
                } else {
                    assert(h1 == h);
                    assert(deltas@[k] == before[k]);
                }
            }
        }
        i = i + 1;
    }
    proof {
        assert forall|k: int| 0 <= k < deltas@.len()
            implies #[trigger] deltas@[k] <= u128::MAX - u64::MAX by {
            lemma_edge_hits_bound(path@, n as int, k, path@.len() - 1);
            assert(influence * edge_hits(path@, n as int, k, path@.len() - 1)
                <= u128::MAX - u64::MAX) by (nonlinear_arith)
                requires
                    influence <= PARAM_LIMIT * INFLUENCE_NUM,
                    0 <= edge_hits(path@, n as int, k, path@.len() - 1) <= 2 * (path@.len() - 1),
                    path@.len() <= n + 1,
                    n <= 0xFFFF_FFFF;
        }
    }
}

/// The outcome of a run: the best tour found, how many iterations
/// completed, and the tracked best cost at the end of each of them.
/// `found` is false only when no iteration completed, and the result then
/// records an explicitly empty solution rather than omitting one.
pub struct RunResult {
    pub path: Vec<usize>,
    pub cost: u128,
    pub found: bool,
    pub iterations: u64,
    pub history: Vec<u128>,
}

/// Drive the colony: per iteration, derive the annealed context, draw
/// each agent's seed and start from the master stream, fan the agents
/// out in parallel against the current trail snapshot, fold the results
/// into the global best, and let the stagnation state pick the trail
/// update — evaporation with elitist deposit, amplified evaporation, or
/// a full reset. The loop stops at the iteration budget, or at the first
/// iteration boundary after the cancellation flag is raised; an
/// iteration in flight always completes first.
#[verifier::loop_isolation(false)]
pub fn run(g: &Graph, p: &mut Pheromones, n_iters: u64, n_ants: usize, params: &Params,
           amplify_threshold: u64, reset_threshold: u64, seed: &[u8; 32],
           cancel: &core::sync::atomic::AtomicBool) -> (r: RunResult)
    requires
        g.wf(),
        old(p).wf(),
        old(p).n == g.n,
        1 <= g.n <= 0xFFFF_FFFF,
        params.wf(),
        n_ants >= 1,
        reset_threshold >= 1,
    ensures
        final(p).wf(),
        final(p).n == g.n,
        r.iterations <= n_iters,
        r.found <==> r.iterations > 0,
        r.found ==> g.tour_ok(r.path@) && r.cost == g.path_cost(r.path@),
        !r.found ==> r.path@.len() == 0,
        r.history@.len() == r.iterations,
        forall|a: int, b: int| 0 <= a <= b < r.history@.len()
            ==> #[trigger] r.history@[b] <= #[trigger] r.history@[a],
        r.found ==> r.cost == r.history@[r.history@.len() - 1],
{
    let mut master = master_stream(*seed);
    let mut tracker = BestSolutionTracker::new();
    let mut stag = StagnationController::new(amplify_threshold, reset_threshold);
    let mut history: Vec<u128> = Vec::new();
    let mut j: u64 = 0;
    let mut done: bool = false;

    while j < n_iters && !done
        invariant
            p.wf(),
            p.n == g.n,
            j <= n_iters,
            stag.wf(),
            tracker.has_solution <==> j > 0,
            tracker.has_solution
                ==> g.tour_ok(tracker.path@) && tracker.cost == g.path_cost(tracker.path@),
            !tracker.has_solution ==> tracker.path@.len() == 0,
            history@.len() == j,
            forall|a: int, b: int| 0 <= a <= b < history@.len()
                ==> #[trigger] history@[b] <= #[trigger] history@[a],
            tracker.has_solution ==> tracker.cost == history@[history@.len() - 1],
        decreases n_iters - j, (if done { 0int } else { 1int }),
    {
        if cancel.load(core::sync::atomic::Ordering::SeqCst) {
            done = true;
            continue;
        }

        let ctx = IterationContext::derive(params, j);

        let mut tasks: Vec<AntTask> = Vec::new();
        let mut a: usize = 0;
        while a < n_ants
            invariant
                tasks@.len() == a,
                a <= n_ants,
                forall|i: int| 0 <= i < tasks@.len() ==> #[trigger] tasks@[i].start < g.n,
            decreases n_ants - a,
        {
            let s: [u8; 32] = next_seed(&mut master);
            let st: usize = pick_start(&mut master, g.n);
            tasks.push(AntTask { seed: s, start: st });
            a = a + 1;
        }

        let results = build_paths_parallel(g, p, &ctx, &tasks);
        let b: usize = best_of(&results);
        let best_cost: u128 = results[b].cost;
        let improved: bool = tracker.observe(&results[b].path, best_cost);
        let action: TrailAction = stag.observe(improved);

        if action == TrailAction::Reset {
            p.reset();
        } else {
            // Doubling the annealed rate can reach full evaporation;
            // the clamp in the update keeps every entry at the floor then.
            let rho_raw: u64 = if action == TrailAction::DepositAmplified {
                let doubled: u64 = ctx.rho_m * 2;
                if doubled > 1000 { 1000 } else { doubled }
            } else {
                ctx.rho_m
            };
            let influence: u128 = influence_for(ctx.pheta, best_cost, ctx.deposit_e);
            let total: usize = p.values.len();
            let mut deltas: Vec<u128> = vec![0u128; total];
            accumulate_deposit(&mut deltas, &results[b].path, g.n, influence);
            p.update(&deltas, rho_raw);
        }

        history.push(tracker.cost);
        j = j + 1;
    }

    let found: bool = tracker.has_solution;
    RunResult {
        path: tracker.path,
        cost: tracker.cost,
        found,
        iterations: j,
        history,
    }
}

} // verus!
