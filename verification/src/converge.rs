//! The convergence loop's decision logic.
//!
//! The loop runs {invoke build tool, parse, classify, collect, patch} cycles
//! and stops on one of four outcomes: the plan emptied (success), dry-run
//! completed its single cycle, two consecutive cycles produced the same
//! non-empty plan (no progress), or the iteration ceiling was reached. The
//! decision after each cycle is a pure function of the driver state and the
//! cycle's plan; the caller performs the outside work and feeds the plan
//! back in.

use vstd::prelude::*;
use crate::plan::EditPlan;
use crate::plan::plan_eq;

verus! {

/// The terminal outcomes of a migration run.
#[derive(Debug, Clone, Copy, PartialEq, Eq, Structural)]
pub enum RunOutcome {
    /// A cycle's plan was empty: the migration is complete.
    Converged,
    /// Dry-run mode performed its single cycle and reported the plan.
    DryRunComplete,
    /// Two consecutive cycles produced the same non-empty plan; continuing
    /// would loop forever reproducing the same ineffective edit.
    NoProgress,
    /// The iteration ceiling was exceeded before the plan emptied.
    CeilingExceeded,
}

/// What the loop does after a cycle completes.
#[derive(Debug, Clone, Copy, PartialEq, Eq, Structural)]
pub enum CycleAction {
    Stop(RunOutcome),
    RunAnother,
}

/// The state the loop carries across cycles: the previous cycle's plan (once
/// one has run) and the count of completed follow-up cycles.
pub struct Driver {
    pub dry_run: bool,
    pub max_iterations: usize,
    pub depth: usize,
    pub started: bool,
    pub last: EditPlan,
}

impl Driver {
    /// The state invariant: the counter never passes the ceiling.
    pub open spec fn inv(self) -> bool {
        self.depth <= self.max_iterations
    }

    /// The decision the loop takes when a cycle ends with `plan`, checked in
    /// priority order: dry-run stops after the first cycle unconditionally; a
    /// repeated non-empty plan stops as no progress; an empty plan stops as
    /// converged; a counter about to pass the ceiling stops the run; anything
    /// else runs another cycle.
    pub open spec fn spec_on_cycle(self, plan: EditPlan) -> CycleAction {
        if !self.started && self.dry_run {
            CycleAction::Stop(RunOutcome::DryRunComplete)
        } else if self.started && self.last.view_plan() == plan.view_plan() {
            CycleAction::Stop(RunOutcome::NoProgress)
        } else if plan.spec_is_empty() {
            CycleAction::Stop(RunOutcome::Converged)
        } else if self.started && self.depth >= self.max_iterations {
            CycleAction::Stop(RunOutcome::CeilingExceeded)
        } else {
            CycleAction::RunAnother
        }
    }

    /// The state after a cycle the loop continues past: the cycle's plan
    /// becomes the previous plan, and the counter advances once the first
    /// cycle is behind.
    pub open spec fn spec_step(self, plan: EditPlan) -> Driver {
        Driver {
            dry_run: self.dry_run,
            max_iterations: self.max_iterations,
            depth: if self.started {
                (self.depth + 1) as usize
            } else {
                0
            },
            started: true,
            last: plan,
        }
    }

    /// A fresh driver that has run no cycle.
    pub fn new(dry_run: bool, max_iterations: usize) -> (d: Driver)
        ensures
            d.dry_run == dry_run,
            d.max_iterations == max_iterations,
            d.depth == 0,
            !d.started,
            d.inv(),
    {
        Driver { dry_run, max_iterations, depth: 0, started: false, last: EditPlan { files: Vec::new() } }
    }

    /// Record a completed cycle's plan and decide what to do next.
    pub fn on_cycle(&mut self, plan: EditPlan) -> (act: CycleAction)
        requires
            old(self).inv(),
        ensures
            act == old(self).spec_on_cycle(plan),
            final(self).inv(),
            final(self).dry_run == old(self).dry_run,
            final(self).max_iterations == old(self).max_iterations,
            act is RunAnother ==> *final(self) == old(self).spec_step(plan),
    {
        if !self.started && self.dry_run {
            return CycleAction::Stop(RunOutcome::DryRunComplete);
        }
        if self.started && plan_eq(&self.last, &plan) {
            return CycleAction::Stop(RunOutcome::NoProgress);
        }
        let was_started = self.started;
        let empty = plan.is_empty();
        self.last = plan;
        self.started = true;
        if empty {
            return CycleAction::Stop(RunOutcome::Converged);
        }
        if was_started {
            if self.depth >= self.max_iterations {
                return CycleAction::Stop(RunOutcome::CeilingExceeded);
            }
            self.depth = self.depth + 1;
        } else {
            self.depth = 0;
        }
        CycleAction::RunAnother
    }
}

/// Law: dry-run performs exactly one cycle. Whatever the first cycle's plan
/// holds, a dry-run driver stops there, so no second cycle ever runs.
pub proof fn lemma_dry_run_single_cycle(d: Driver, plan: EditPlan)
    requires
        d.dry_run,
        !d.started,
    ensures
        d.spec_on_cycle(plan) == CycleAction::Stop(RunOutcome::DryRunComplete),
{
}

/// Law: the loop terminates. Once the counter reaches the ceiling, the next
/// cycle stops whatever its plan; and every cycle that continues raises the
/// counter (after the first), so no run makes more than `max_iterations`
/// follow-up cycles beyond the first two.
pub proof fn lemma_ceiling_terminates(d: Driver, plan: EditPlan)
    requires
        d.started,
        d.depth >= d.max_iterations,
    ensures
        d.spec_on_cycle(plan) is Stop,
{
}

/// Law: a run never continues past the ceiling: whenever the decision is to
/// run another cycle, the counter is still within the configured maximum.
pub proof fn lemma_run_within_ceiling(d: Driver, plan: EditPlan)
    requires
        d.spec_on_cycle(plan) is RunAnother,
    ensures
        !d.started || d.depth < d.max_iterations,
{
}


/// How many cycles a run makes when the successive cycles produce the given
/// plans: the count up to and including the first stopping decision, or all
/// of them if none stops within the supplied plans.
pub open spec fn run_length(d: Driver, plans: Seq<EditPlan>) -> int
    decreases plans.len(),
{
    if plans.len() == 0 {
        0
    } else {
        match d.spec_on_cycle(plans.first()) {
            CycleAction::Stop(_) => 1,
            CycleAction::RunAnother => 1 + run_length(
                d.spec_step(plans.first()),
                plans.drop_first(),
            ),
        }
    }
}

/// Helper for the run bound, generalized over a driver mid-run.
proof fn lemma_run_bounded_from(d: Driver, plans: Seq<EditPlan>)
    requires
        d.inv(),
    ensures
        run_length(d, plans) <= (if d.started {
            d.max_iterations - d.depth + 1
        } else {
            d.max_iterations + 2
        }),
    decreases plans.len(),
{
    if plans.len() > 0 {
        match d.spec_on_cycle(plans.first()) {
            CycleAction::Stop(_) => {},
            CycleAction::RunAnother => {
                let d2 = d.spec_step(plans.first());
                lemma_run_bounded_from(d2, plans.drop_first());
            },
        }
    }
}

/// Law: the iteration ceiling bounds every run. Starting from a fresh
/// driver, however many cycles the caller is prepared to run and whatever
/// plans they produce, a stopping decision comes within
/// `max_iterations + 2` cycles: one first cycle, at most `max_iterations`
/// progress cycles, and the cycle the ceiling stops.
pub proof fn lemma_run_bounded(d: Driver, plans: Seq<EditPlan>)
    requires
        !d.started,
        d.inv(),
    ensures
        run_length(d, plans) <= d.max_iterations + 2,
{
    lemma_run_bounded_from(d, plans);
}

} // verus!
