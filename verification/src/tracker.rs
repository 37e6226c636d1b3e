//! The running global optimum: the lowest-cost tour seen over all
//! iterations, replaced only on strict improvement.

use vstd::prelude::*;

verus! {

/// The tracked cost after offering a candidate of cost `cost`: the
/// candidate's cost if the tracker was empty or strictly beaten, the old
/// cost otherwise.
pub open spec fn tracked_cost_after(had: bool, old_cost: u128, cost: u128) -> u128 {
    if !had || cost < old_cost {
        cost
    } else {
        old_cost
    }
}

/// The cross-iteration best solution. `has_solution` is false only before
/// the first candidate is offered.
pub struct BestSolutionTracker {
    pub path: Vec<usize>,
    pub cost: u128,
    pub has_solution: bool,
}

impl BestSolutionTracker {
    /// An empty tracker: no solution yet.
    pub fn new() -> (t: BestSolutionTracker)
        ensures
            !t.has_solution,
            t.path@.len() == 0,
    {
        BestSolutionTracker { path: Vec::new(), cost: 0, has_solution: false }
    }

    /// Offer a candidate tour. The tracker replaces its contents exactly
    /// when it was empty or the candidate's cost is a strict improvement;
    /// otherwise it is left untouched. Either way the tracked cost never
    /// increases.
    pub fn observe(&mut self, path: &Vec<usize>, cost: u128) -> (improved: bool)
        ensures
            improved <==> (!old(self).has_solution || cost < old(self).cost),
            final(self).has_solution,
            final(self).cost == tracked_cost_after(old(self).has_solution, old(self).cost, cost),
            improved ==> final(self).path@ == path@ && final(self).cost == cost,
            !improved ==> final(self).path@ == old(self).path@
                && final(self).cost == old(self).cost,
            old(self).has_solution ==> final(self).cost <= old(self).cost,
    {
        if !self.has_solution || cost < self.cost {
            self.path = path.clone();
            self.cost = cost;
            self.has_solution = true;
            true
        } else {
            false
        }
    }
}

/// The tracking law: once a solution is held, offering any candidate
/// leaves the tracked cost the same or lower — it strictly drops exactly
/// when the candidate strictly improves on it.
pub proof fn lemma_tracked_cost_non_increasing(old_cost: u128, cost: u128)
    ensures
        tracked_cost_after(true, old_cost, cost) <= old_cost,
        tracked_cost_after(true, old_cost, cost) < old_cost <==> cost < old_cost,
{
}

} // verus!
