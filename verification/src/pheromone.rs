//! The pheromone trail: a mutable `n` x `n` table of positive trail
//! strengths, every entry held inside `[floor, ceiling]` by every update.

use vstd::prelude::*;
use crate::graph::lemma_flat_index_in_range;

verus! {

/// Numerator for the initial trail strength: the fixed-point form of
/// scaling a trail of magnitude two by the greedy baseline cost, so the
/// trail starts out numerically comparable to edge costs.
pub const INITIAL_TRAIL_NUM: u128 = 2_000_000_000_000_000_000;

/// What one update cycle leaves in a single entry: geometric evaporation by
/// `rho_m` thousandths, then the deposit `d`, then the clamp into
/// `[floor, ceiling]`.
pub open spec fn updated_entry(e: u64, rho_m: u64, d: u128, floor: u64, ceiling: u64) -> u64 {
    let x = (e * (1000 - rho_m)) / 1000 + d;
    if x < floor {
        floor
    } else if x > ceiling {
        ceiling
    } else {
        x as u64
    }
}

/// An `n` x `n` table of trail strengths, stored row-major in a flat
/// vector, with its clamp bounds and the uniform value a full reset
/// restores.
pub struct Pheromones {
    pub values: Vec<u64>,
    pub n: usize,
    pub floor: u64,
    pub ceiling: u64,
    pub reset_value: u64,
}

impl Pheromones {
    /// The table is `n * n` entries long, the bounds are ordered and
    /// positive, and every entry lies inside them.
    pub open spec fn wf(&self) -> bool {
        &&& self.values@.len() == self.n * self.n
        &&& 1 <= self.floor <= self.ceiling
        &&& self.floor <= self.reset_value <= self.ceiling
        &&& forall|k: int| 0 <= k < self.values@.len()
              ==> self.floor <= #[trigger] self.values@[k] <= self.ceiling
    }

    /// The trail strength of the directed edge from `i` to `j`.
    pub open spec fn strength(&self, i: int, j: int) -> u64 {
        self.values@[i * self.n + j]
    }

    /// A fresh trail, every entry the initial strength derived from the
    /// greedy baseline cost: `INITIAL_TRAIL_NUM / greedy_cost`, clamped
    /// into `[floor, ceiling]`. A full reset later restores this value.
    pub fn new(n: usize, greedy_cost: u128, floor: u64, ceiling: u64) -> (p: Pheromones)
        requires
            1 <= floor <= ceiling,
            n * n <= usize::MAX,
        ensures
            p.wf(),
            p.n == n,
            p.floor == floor,
            p.ceiling == ceiling,
            p.values@.len() == n * n,
            forall|k: int| 0 <= k < p.values@.len() ==> #[trigger] p.values@[k] == p.reset_value,
            p.reset_value == clamp_initial(greedy_cost, floor, ceiling),
    {
        let denom: u128 = if greedy_cost >= 1 { greedy_cost } else { 1 };
        let raw: u128 = INITIAL_TRAIL_NUM / denom;
        let init: u64 = if raw < floor as u128 {
            floor
        } else if raw > ceiling as u128 {
            ceiling
        } else {
            raw as u64
        };
        let total: usize = n * n;
        let values: Vec<u64> = vec![init; total];
        Pheromones { values, n, floor, ceiling, reset_value: init }
    }

    /// Look up the trail strength of the edge from `i` to `j`.
    pub fn entry(&self, i: usize, j: usize) -> (s: u64)
        requires
            self.wf(),
            i < self.n,
            j < self.n,
        ensures
            s == self.strength(i as int, j as int),
            self.floor <= s <= self.ceiling,
    {
        // Binding the length to a machine word bounds `n * n`, so the
        // flat index below cannot overflow.
        let len: usize = self.values.len();
        proof {
            lemma_flat_index_in_range(i as int, j as int, self.n as int);
        }
        self.values[i * self.n + j]
    }

    /// Restore every entry to the uniform reset value: the full-reset arm
    /// of stagnation handling.
    pub fn reset(&mut self)
        requires
            old(self).wf(),
        ensures
            final(self).wf(),
            final(self).n == old(self).n,
            final(self).floor == old(self).floor,
            final(self).ceiling == old(self).ceiling,
            final(self).reset_value == old(self).reset_value,
            final(self).values@.len() == old(self).values@.len(),
            forall|k: int| 0 <= k < final(self).values@.len()
                ==> #[trigger] final(self).values@[k] == final(self).reset_value,
    {
        let len: usize = self.values.len();
        let mut k: usize = 0;
        while k < len
            invariant
                self.values@.len() == len,
                self.n == old(self).n,
                self.floor == old(self).floor,
                self.ceiling == old(self).ceiling,
                self.reset_value == old(self).reset_value,
                old(self).wf(),
                len == old(self).values@.len(),
                0 <= k <= len,
                self.floor <= self.reset_value <= self.ceiling,
                forall|i: int| 0 <= i < k ==> #[trigger] self.values@[i] == self.reset_value,
                forall|i: int| k <= i < len ==> #[trigger] self.values@[i] == old(self).values@[i],
            decreases len - k,
        {
            let v: u64 = self.reset_value;
            self.values.set(k, v);
            k = k + 1;
        }
    }

    /// One update cycle: evaporate every entry by `rho_m` thousandths,
    /// add its deposit from `deltas`, and clamp into `[floor, ceiling]`.
    pub fn update(&mut self, deltas: &Vec<u128>, rho_m: u64)
        requires
            old(self).wf(),
            rho_m <= 1000,
            deltas@.len() == old(self).values@.len(),
            forall|k: int| 0 <= k < deltas@.len()
                ==> #[trigger] deltas@[k] <= u128::MAX - u64::MAX,
        ensures
            final(self).wf(),
            final(self).n == old(self).n,
            final(self).floor == old(self).floor,
            final(self).ceiling == old(self).ceiling,
            final(self).reset_value == old(self).reset_value,
            final(self).values@.len() == old(self).values@.len(),
            forall|k: int| 0 <= k < final(self).values@.len()
                ==> #[trigger] final(self).values@[k]
                    == updated_entry(old(self).values@[k], rho_m, deltas@[k],
                                     old(self).floor, old(self).ceiling),
    {
        let len: usize = self.values.len();
        let mut k: usize = 0;
        while k < len
            invariant
                self.values@.len() == len,
                self.n == old(self).n,
                self.floor == old(self).floor,
                self.ceiling == old(self).ceiling,
                self.reset_value == old(self).reset_value,
                old(self).wf(),
                rho_m <= 1000,
                deltas@.len() == len,
                len == old(self).values@.len(),
                forall|i: int| 0 <= i < deltas@.len()
                    ==> #[trigger] deltas@[i] <= u128::MAX - u64::MAX,
                0 <= k <= len,
                forall|i: int| 0 <= i < k
                    ==> #[trigger] self.values@[i]
                        == updated_entry(old(self).values@[i], rho_m, deltas@[i],
                                         old(self).floor, old(self).ceiling),
                forall|i: int| k <= i < len ==> #[trigger] self.values@[i] == old(self).values@[i],
            decreases len - k,
        {
            let e: u64 = self.values[k];
            proof {
                assert(e * (1000 - rho_m) <= u64::MAX * 1000) by (nonlinear_arith)
                    requires e <= u64::MAX && rho_m <= 1000;
            }
            let evaporated: u128 = (e as u128 * (1000 - rho_m) as u128) / 1000;
            let x: u128 = evaporated + deltas[k];
            let clamped: u64 = if x < self.floor as u128 {
                self.floor
            } else if x > self.ceiling as u128 {
                self.ceiling
            } else {
                x as u64
            };
            self.values.set(k, clamped);
            k = k + 1;
        }
    }
}

/// The initial trail strength for a given greedy baseline cost.
pub open spec fn clamp_initial(greedy_cost: u128, floor: u64, ceiling: u64) -> u64 {
    let denom = if greedy_cost >= 1 { greedy_cost as int } else { 1 };
    let raw = INITIAL_TRAIL_NUM as int / denom;
    if raw < floor {
        floor
    } else if raw > ceiling {
        ceiling
    } else {
        raw as u64
    }
}

/// However a sequence of evaporation and deposit operations unfolds — the
/// deposit adversarially zero or as large as an update can carry — a single
/// update cycle leaves any entry inside `[floor, ceiling]`, so by
/// induction every entry of the trail stays inside the bounds after every
/// cycle.
pub proof fn lemma_updated_entry_in_bounds(e: u64, rho_m: u64, d: u128, floor: u64, ceiling: u64)
    requires
        1 <= floor <= ceiling,
    ensures
        floor <= updated_entry(e, rho_m, d, floor, ceiling) <= ceiling,
{
}

} // verus!
