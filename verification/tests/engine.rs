use std::sync::atomic::{AtomicBool, Ordering};

use abfs::agent::find_path;
use abfs::colony::run;
use abfs::graph::Graph;
use abfs::params::{pow_capped_exec, influence_for, IterationContext, Params, WEIGHT_CAP};
use abfs::pheromone::Pheromones;
use abfs::sampling::select_weighted;
use abfs::stagnation::{StagnationController, TrailAction};
use abfs::tracker::BestSolutionTracker;

fn four_node_graph() -> Graph {
    Graph::new(
        vec![
            0, 1, 2, 3, //
            1, 0, 4, 5, //
            2, 4, 0, 6, //
            3, 5, 6, 0,
        ],
        4,
    )
}

fn default_params() -> Params {
    Params { alpha_m: 2000, beta_m: 5000, rho_m: 500, pheta: 1000 }
}

fn assert_tour(path: &[usize], n: usize, cost: u128, g: &Graph) {
    assert_eq!(path.len(), n + 1);
    assert_eq!(path[0], path[n]);
    let mut seen = vec![false; n];
    for &v in &path[..n] {
        assert!(v < n);
        assert!(!seen[v], "node visited twice");
        seen[v] = true;
    }
    assert!(seen.iter().all(|&s| s));
    assert_eq!(g.calc_distance(&path.to_vec(), n), cost);
}

#[test]
fn greedy_four_node_scenario() {
    let g = four_node_graph();
    let (path, cost) = abfs::agent::greedy_path(&g, 0);
    assert_eq!(path, vec![0, 1, 2, 3, 0]);
    assert_eq!(cost, 14);
}

#[test]
fn greedy_visits_all_from_any_start() {
    let g = four_node_graph();
    for start in 0..4 {
        let (path, cost) = abfs::agent::greedy_path(&g, start);
        assert_tour(&path, 4, cost, &g);
        assert_eq!(path[0], start);
    }
}

#[test]
fn greedy_breaks_ties_toward_lower_index() {
    // From node 0 both neighbours cost 5: the lower-numbered one wins.
    let g = Graph::new(vec![0, 5, 5, 5, 0, 9, 5, 9, 0], 3);
    let (path, cost) = abfs::agent::greedy_path(&g, 0);
    assert_eq!(path, vec![0, 1, 2, 0]);
    assert_eq!(cost, 5 + 9 + 5);
}

#[test]
fn calc_distance_matches_recorded_cost() {
    let g = four_node_graph();
    assert_eq!(g.calc_distance(&vec![0, 1, 2, 3, 0], 4), 14);
    assert_eq!(g.calc_distance(&vec![0, 2, 1, 3, 0], 4), 2 + 4 + 5 + 3);
}

#[test]
fn ant_builds_valid_tour() {
    let g = four_node_graph();
    let p = Pheromones::new(4, 14, 1, 1_000_000_000_000);
    let ctx = IterationContext::derive(&default_params(), 0);
    let seed = [7u8; 32];
    for start in 0..4 {
        let r = find_path(&g, &p, start, &ctx, seed);
        assert_tour(&r.path, 4, r.cost, &g);
        assert_eq!(r.path[0], start);
    }
}

#[test]
fn ant_handles_zero_distance_and_zero_trail_floor() {
    // Degenerate weights: every distance zero; the epsilon substitution
    // must still let construction finish with a valid tour.
    let g = Graph::new(vec![0; 9], 3);
    let p = Pheromones::new(3, 0, 1, 10);
    let r = find_path(&g, &p, 0, &IterationContext::derive(&default_params(), 5), [1u8; 32]);
    assert_tour(&r.path, 3, r.cost, &g);
    assert_eq!(r.cost, 0);
}

#[test]
fn selection_bands_are_proportional() {
    let weights = vec![1u64, 2, 3];
    assert_eq!(select_weighted(&weights, 0), 0);
    assert_eq!(select_weighted(&weights, 1), 1);
    assert_eq!(select_weighted(&weights, 2), 1);
    assert_eq!(select_weighted(&weights, 3), 2);
    assert_eq!(select_weighted(&weights, 4), 2);
    assert_eq!(select_weighted(&weights, 5), 2);
}

#[test]
fn selection_skips_zero_weight() {
    let weights = vec![0u64, 4, 0, 1];
    assert_eq!(select_weighted(&weights, 0), 1);
    assert_eq!(select_weighted(&weights, 3), 1);
    assert_eq!(select_weighted(&weights, 4), 3);
}

#[test]
fn capped_power_exact_and_saturating() {
    assert_eq!(pow_capped_exec(2, 10), 1024);
    assert_eq!(pow_capped_exec(2, 0), 1);
    assert_eq!(pow_capped_exec(0, 3), 0);
    assert_eq!(pow_capped_exec(2, 40), WEIGHT_CAP);
}

#[test]
fn influence_is_scaled_inverse_cost() {
    assert_eq!(influence_for(1000, 2, 1), 500_000_000_000_000_000_000);
    assert_eq!(influence_for(1000, 2, 2), 250_000_000_000_000_000_000);
    assert_eq!(influence_for(7, 0, 1), 7_000_000_000_000_000_000);
}

#[test]
fn annealing_shifts_parameters() {
    let params = default_params();
    let start = IterationContext::derive(&params, 0);
    assert_eq!(start.progress_m, 0);
    assert_eq!(start.alpha_m, 2000);
    assert_eq!(start.beta_m, 5000);
    assert_eq!(start.rho_m, 500);
    assert_eq!(start.alpha_e, 2);
    assert_eq!(start.beta_e, 5);
    assert_eq!(start.deposit_e, 1);

    let late = IterationContext::derive(&params, 5000);
    assert_eq!(late.progress_m, 1000);
    assert_eq!(late.alpha_m, 4000);
    assert_eq!(late.beta_m, 2500);
    assert_eq!(late.rho_m, 250);
    assert_eq!(late.alpha_e, 4);
    assert_eq!(late.beta_e, 3);
    assert_eq!(late.deposit_e, 2);
}

#[test]
fn trail_starts_uniform_and_resets() {
    let mut p = Pheromones::new(2, 2_000_000_000_000, 1, 1_000_000_000_000);
    assert_eq!(p.values, vec![1_000_000; 4]);
    let deltas = vec![500u128; 4];
    p.update(&deltas, 1000);
    assert_eq!(p.values, vec![500; 4]);
    p.reset();
    assert_eq!(p.values, vec![1_000_000; 4]);
}

#[test]
fn trail_update_evaporates_deposits_and_clamps() {
    let mut p = Pheromones::new(2, 2_000_000_000_000, 1, 1_000_000_000_000);
    // Half evaporation, then a deposit of 250 on one entry, an
    // adversarially huge one on another, and none on the rest.
    let deltas = vec![250u128, u64::MAX as u128, 0, 0];
    p.update(&deltas, 500);
    assert_eq!(p.values[0], 500_000 + 250);
    assert_eq!(p.values[1], 1_000_000_000_000); // clamped to the ceiling
    assert_eq!(p.values[2], 500_000);
    assert_eq!(p.values[3], 500_000);
    // Full evaporation with no deposit collapses to the floor.
    p.update(&vec![0u128; 4], 1000);
    assert_eq!(p.values, vec![1; 4]);
}

#[test]
fn tracker_replaces_only_on_strict_improvement() {
    let mut t = BestSolutionTracker::new();
    assert!(!t.has_solution);
    assert!(t.observe(&vec![0, 1, 0], 10));
    assert_eq!(t.cost, 10);
    assert!(!t.observe(&vec![0, 2, 0], 12));
    assert_eq!(t.cost, 10);
    assert!(!t.observe(&vec![0, 2, 0], 10));
    assert_eq!(t.cost, 10);
    assert_eq!(t.path, vec![0, 1, 0]);
    assert!(t.observe(&vec![0, 3, 0], 9));
    assert_eq!(t.cost, 9);
    assert_eq!(t.path, vec![0, 3, 0]);
}

#[test]
fn stagnation_counts_amplifies_and_resets_once_per_crossing() {
    let mut s = StagnationController::new(2, 4);
    assert_eq!(s.observe(false), TrailAction::Deposit);
    assert_eq!(s.count, 1);
    assert_eq!(s.observe(false), TrailAction::DepositAmplified);
    assert_eq!(s.count, 2);
    assert_eq!(s.observe(false), TrailAction::DepositAmplified);
    assert_eq!(s.count, 3);
    assert_eq!(s.observe(false), TrailAction::Reset);
    assert_eq!(s.count, 0, "the reset rezeroes the counter");
    assert_eq!(s.observe(false), TrailAction::Deposit);
    assert_eq!(s.count, 1);
    assert_eq!(s.observe(true), TrailAction::Deposit);
    assert_eq!(s.count, 0, "a strict improvement rezeroes the counter");
}

#[test]
fn run_finds_valid_tour_and_monotone_history() {
    let g = four_node_graph();
    let mut p = Pheromones::new(4, 14, 1, 1_000_000_000_000);
    let cancel = AtomicBool::new(false);
    let r = run(&g, &mut p, 5, 3, &default_params(), 50, 150, &[3u8; 32], &cancel);
    assert!(r.found);
    assert_eq!(r.iterations, 5);
    assert_eq!(r.history.len(), 5);
    assert_tour(&r.path, 4, r.cost, &g);
    for w in r.history.windows(2) {
        assert!(w[1] <= w[0], "tracked cost may never increase");
    }
    assert_eq!(*r.history.last().unwrap(), r.cost);
}

#[test]
fn run_reproduces_exactly_under_a_fixed_seed() {
    let g = four_node_graph();
    let seed = [9u8; 32];
    let cancel = AtomicBool::new(false);

    let mut p1 = Pheromones::new(4, 14, 1, 1_000_000_000_000);
    let r1 = run(&g, &mut p1, 1, 1, &default_params(), 50, 150, &seed, &cancel);
    let mut p2 = Pheromones::new(4, 14, 1, 1_000_000_000_000);
    let r2 = run(&g, &mut p2, 1, 1, &default_params(), 50, 150, &seed, &cancel);

    assert!(r1.found && r2.found);
    assert_eq!(r1.path, r2.path);
    assert_eq!(r1.cost, r2.cost);
    assert_eq!(p1.values, p2.values, "the resulting trail state matches too");
}

#[test]
fn run_observes_cancellation_at_iteration_boundary() {
    let g = four_node_graph();
    let mut p = Pheromones::new(4, 14, 1, 1_000_000_000_000);
    let cancel = AtomicBool::new(true);
    let r = run(&g, &mut p, 1_000_000, 2, &default_params(), 50, 150, &[5u8; 32], &cancel);
    assert!(!r.found, "no iteration ran, so the result is explicitly empty");
    assert_eq!(r.iterations, 0);
    assert!(r.path.is_empty());
    assert_eq!(r.history.len(), 0);
    cancel.store(false, Ordering::SeqCst);
}

#[test]
fn run_single_node_graph() {
    let g = Graph::new(vec![0], 1);
    let mut p = Pheromones::new(1, 1, 1, 1_000_000_000_000);
    let cancel = AtomicBool::new(false);
    let r = run(&g, &mut p, 2, 1, &default_params(), 50, 150, &[1u8; 32], &cancel);
    assert!(r.found);
    assert_eq!(r.path, vec![0, 0]);
    assert_eq!(r.cost, 0);
}

#[test]
fn run_triggers_full_reset_under_stagnation() {
    // With one node the cost is always zero: after the first iteration
    // nothing improves, so the counter climbs to the reset threshold and
    // the trail returns to its uniform reset value.
    let g = Graph::new(vec![0], 1);
    let mut p = Pheromones::new(1, 2_000_000_000_000, 1, 1_000_000_000_000);
    let reset_value = p.reset_value;
    let cancel = AtomicBool::new(false);
    let r = run(&g, &mut p, 3, 1, &default_params(), 50, 2, &[1u8; 32], &cancel);
    assert!(r.found);
    // Iteration one improves (first solution); iteration two bumps the
    // counter to one; iteration three crosses the threshold of two and
    // resets, leaving the trail at its uniform value.
    assert_eq!(p.values, vec![reset_value]);
}
