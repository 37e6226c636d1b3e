//! Stagnation handling: a counter of consecutive non-improving iterations
//! that first amplifies evaporation and finally forces a full trail reset.

use vstd::prelude::*;

verus! {

/// What the trail update of one iteration should do, as decided by the
/// stagnation state after that iteration's result is known.
#[derive(PartialEq, Eq, Structural, Clone, Copy, Debug)]
pub enum TrailAction {
    /// Evaporate at the annealed rate, then deposit along the iteration
    /// best.
    Deposit,
    /// Evaporate at twice the annealed rate, then deposit: the counter has
    /// crossed the amplification threshold.
    DepositAmplified,
    /// Restore the whole trail to the uniform reset value and skip the
    /// deposit: the counter has reached the reset threshold.
    Reset,
}

/// The counter value after observing one iteration: zero on a strict
/// improvement and after a reset-triggering crossing, one more otherwise.
pub open spec fn next_count(count: u64, improved: bool, reset_threshold: u64) -> u64 {
    if improved {
        0u64
    } else if count + 1 >= reset_threshold {
        0u64
    } else {
        (count + 1) as u64
    }
}

/// The action taken after observing one iteration, driven by the counter
/// value the observation produces.
pub open spec fn action_of(count: u64, improved: bool, amplify_threshold: u64,
                           reset_threshold: u64) -> TrailAction {
    if improved {
        if amplify_threshold == 0 {
            TrailAction::DepositAmplified
        } else {
            TrailAction::Deposit
        }
    } else if count + 1 >= reset_threshold {
        TrailAction::Reset
    } else if count + 1 >= amplify_threshold {
        TrailAction::DepositAmplified
    } else {
        TrailAction::Deposit
    }
}

/// Tracks consecutive non-improving iterations and turns them into trail
/// actions: amplified evaporation past one threshold, a full reset at the
/// other.
pub struct StagnationController {
    pub count: u64,
    pub amplify_threshold: u64,
    pub reset_threshold: u64,
}

impl StagnationController {
    /// The reset threshold is positive and the counter sits below it.
    pub open spec fn wf(&self) -> bool {
        &&& 1 <= self.reset_threshold
        &&& self.count < self.reset_threshold
    }

    pub fn new(amplify_threshold: u64, reset_threshold: u64) -> (c: StagnationController)
        requires
            1 <= reset_threshold,
        ensures
            c.wf(),
            c.count == 0,
            c.amplify_threshold == amplify_threshold,
            c.reset_threshold == reset_threshold,
    {
        StagnationController { count: 0, amplify_threshold, reset_threshold }
    }

    /// Observe whether the iteration strictly improved the global best:
    /// reset the counter to exactly zero on improvement, increment it by
    /// exactly one otherwise, and answer what the trail update must do —
    /// `Reset` exactly when the incremented counter reaches the reset
    /// threshold, which also rezeroes the counter.
    pub fn observe(&mut self, improved: bool) -> (action: TrailAction)
        requires
            old(self).wf(),
        ensures
            final(self).wf(),
            final(self).amplify_threshold == old(self).amplify_threshold,
            final(self).reset_threshold == old(self).reset_threshold,
            final(self).count == next_count(old(self).count, improved, old(self).reset_threshold),
            action == action_of(old(self).count, improved, old(self).amplify_threshold,
                                old(self).reset_threshold),
    {
        if improved {
            self.count = 0;
            if self.amplify_threshold == 0 {
                TrailAction::DepositAmplified
            } else {
                TrailAction::Deposit
            }
        } else {
            let bumped: u64 = self.count + 1;
            if bumped >= self.reset_threshold {
                self.count = 0;
                TrailAction::Reset
            } else {
                self.count = bumped;
                if bumped >= self.amplify_threshold {
                    TrailAction::DepositAmplified
                } else {
                    TrailAction::Deposit
                }
            }
        }
    }
}

/// The stagnation law: a strict improvement rezeroes the counter exactly;
/// a non-improving iteration increments it by exactly one until the reset
/// threshold; and each crossing of the reset threshold yields exactly one
/// `Reset` action together with a counter rezero — never a `Reset`
/// without the crossing.
pub proof fn lemma_stagnation_step(count: u64, improved: bool, amplify_threshold: u64,
                                   reset_threshold: u64)
    requires
        1 <= reset_threshold,
        count < reset_threshold,
    ensures
        improved ==> next_count(count, improved, reset_threshold) == 0,
        !improved && count + 1 < reset_threshold
            ==> next_count(count, improved, reset_threshold) == count + 1,
        (action_of(count, improved, amplify_threshold, reset_threshold) == TrailAction::Reset)
            <==> (!improved && count + 1 == reset_threshold),
        action_of(count, improved, amplify_threshold, reset_threshold) == TrailAction::Reset
            ==> next_count(count, improved, reset_threshold) == 0,
{
}

} // verus!
