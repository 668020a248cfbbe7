use vstd::prelude::*;

use crate::dag::CommitId;
use crate::rewrite::{RebasePlan, RebaseStep};
use crate::sync::ExecuteRebasePlanResult;

verus! {

/// What came of carrying out the current step of a plan.
#[derive(Clone, Copy, Debug, PartialEq, Eq, Structural)]
pub enum StepEvent {
    /// The step applied cleanly; for a pick or a merge, `new_commit` is the
    /// rewritten commit.
    Applied { new_commit: CommitId },
    /// The step met a merge conflict.
    Conflict,
    /// A process run for the step failed with this exit code.
    ProcessFailed { exit_code: isize },
}

/// Where the execution of a plan stands.
#[derive(Clone, Copy, Debug, PartialEq, Eq, Structural)]
pub enum ExecutionState {
    /// Step `next` is to be applied.
    Applying { next: usize },
    /// Step `at` met a conflict; execution resumes there once it is resolved.
    Conflicted { at: usize },
    /// Every step applied.
    Succeeded,
    /// A process failed with this exit code.
    Failed { exit_code: isize },
}

/// The execution of one plan, driven one step at a time.
pub struct PlanExecution {
    pub state: ExecutionState,
    /// Old and new id of every commit rewritten so far, in step order.
    pub rewritten: Vec<(CommitId, CommitId)>,
}

impl PlanExecution {
    /// State invariant: a step index stays within the plan.
    pub open spec fn wf(&self, plan: &RebasePlan) -> bool {
        match self.state {
            ExecutionState::Applying { next } => next < plan.steps@.len(),
            ExecutionState::Conflicted { at } => at < plan.steps@.len(),
            _ => true,
        }
    }

    /// Starts executing `plan`: an empty plan has succeeded at once.
    pub fn start(plan: &RebasePlan) -> (r: PlanExecution)
        ensures
            r.wf(plan),
            r.rewritten@ == Seq::<(CommitId, CommitId)>::empty(),
            plan.steps@.len() == 0 ==> r.state == ExecutionState::Succeeded,
            plan.steps@.len() > 0 ==> r.state == (ExecutionState::Applying { next: 0 }),
    {
        let state = if plan.steps.len() == 0 {
            ExecutionState::Succeeded
        } else {
            ExecutionState::Applying { next: 0 }
        };
        PlanExecution { state, rewritten: Vec::new() }
    }

    /// The step to carry out now, if execution is applying steps.
    pub fn current_step(&self, plan: &RebasePlan) -> (r: Option<RebaseStep>)
        requires
            self.wf(plan),
        ensures
            self.state matches ExecutionState::Applying { next } ==> r == Some(plan.steps@[next as int]),
            !(self.state is Applying) ==> r is None,
    {
        match self.state {
            ExecutionState::Applying { next } => Some(plan.steps[next]),
            _ => None,
        }
    }

    /// Takes in what came of the current step. A conflict halts execution
    /// in a resumable state; a failed process ends it.
    pub fn handle(&mut self, plan: &RebasePlan, event: StepEvent)
        requires
            old(self).wf(plan),
        ensures
            final(self).wf(plan),
            !(old(self).state is Applying) ==> *final(self) == *old(self),
            old(self).state matches ExecutionState::Applying { next } ==> match event {
                StepEvent::Applied { new_commit } => {
                    &&& final(self).state == if next + 1 == plan.steps@.len() {
                        ExecutionState::Succeeded
                    } else {
                        ExecutionState::Applying { next: (next + 1) as usize }
                    }
                    &&& final(self).rewritten@ == if plan.steps@[next as int] is Skip {
                        old(self).rewritten@
                    } else {
                        old(self).rewritten@.push((plan.steps@[next as int].commit_of(), new_commit))
                    }
                },
                StepEvent::Conflict => final(self).state == (ExecutionState::Conflicted { at: next })
                    && final(self).rewritten@ == old(self).rewritten@,
                StepEvent::ProcessFailed { exit_code } => final(self).state == (ExecutionState::Failed { exit_code })
                    && final(self).rewritten@ == old(self).rewritten@,
            },
    {
        if let ExecutionState::Applying { next } = self.state {
            match event {
                StepEvent::Applied { new_commit } => {
                    let step = plan.steps[next];
                    match step {
                        RebaseStep::Skip { .. } => {},
                        _ => {
                            self.rewritten.push((step.commit(), new_commit));
                        },
                    }
                    if next == plan.steps.len() - 1 {
                        self.state = ExecutionState::Succeeded;
                    } else {
                        self.state = ExecutionState::Applying { next: next + 1 };
                    }
                },
                StepEvent::Conflict => {
                    self.state = ExecutionState::Conflicted { at: next };
                },
                StepEvent::ProcessFailed { exit_code } => {
                    self.state = ExecutionState::Failed { exit_code };
                },
            }
        }
    }

    /// Resumes a conflicted execution at the step that met the conflict,
    /// once the conflict was resolved.
    pub fn resume(&mut self, plan: &RebasePlan)
        requires
            old(self).wf(plan),
        ensures
            final(self).wf(plan),
            final(self).rewritten@ == old(self).rewritten@,
            old(self).state matches ExecutionState::Conflicted { at } ==> final(self).state
                == (ExecutionState::Applying { next: at }),
            !(old(self).state is Conflicted) ==> final(self).state == old(self).state,
    {
        if let ExecutionState::Conflicted { at } = self.state {
            self.state = ExecutionState::Applying { next: at };
        }
    }

    /// The outcome of the execution, once it has stopped.
    pub fn result(&self) -> (r: Option<ExecuteRebasePlanResult>)
        ensures
            self.state is Succeeded ==> r == Some(ExecuteRebasePlanResult::Succeeded),
            self.state is Conflicted ==> r == Some(ExecuteRebasePlanResult::DeclinedToMerge),
            self.state matches ExecutionState::Failed { exit_code } ==> r
                == Some(ExecuteRebasePlanResult::Failed { exit_code }),
            self.state is Applying ==> r is None,
    {
        match self.state {
            ExecutionState::Applying { .. } => None,
            ExecutionState::Conflicted { .. } => Some(ExecuteRebasePlanResult::DeclinedToMerge),
            ExecutionState::Succeeded => Some(ExecuteRebasePlanResult::Succeeded),
            ExecutionState::Failed { exit_code } => Some(ExecuteRebasePlanResult::Failed { exit_code }),
        }
    }
}

} // verus!
