use branchless::execute::{ExecutionState, PlanExecution, StepEvent};
use branchless::rewrite::{RebasePlan, RebaseStep};
use branchless::eventlog::EventReplayer;
use branchless::sync::{ExecuteRebasePlanResult, SyncEvent, SyncRun, SyncStage};

fn plan() -> RebasePlan {
    RebasePlan {
        root: 2,
        new_parents: vec![1],
        steps: vec![
            RebaseStep::Skip { commit: 2 },
            RebaseStep::Pick { commit: 3 },
            RebaseStep::Merge { commit: 4 },
        ],
    }
}

#[test]
fn plan_runs_to_success() {
    let plan = plan();
    let mut ex = PlanExecution::start(&plan);
    assert_eq!(ex.current_step(&plan), Some(RebaseStep::Skip { commit: 2 }));
    ex.handle(&plan, StepEvent::Applied { new_commit: 1 });
    assert_eq!(ex.current_step(&plan), Some(RebaseStep::Pick { commit: 3 }));
    ex.handle(&plan, StepEvent::Applied { new_commit: 10 });
    ex.handle(&plan, StepEvent::Applied { new_commit: 11 });
    assert_eq!(ex.state, ExecutionState::Succeeded);
    assert_eq!(ex.rewritten, vec![(3, 10), (4, 11)]);
    assert_eq!(ex.result(), Some(ExecuteRebasePlanResult::Succeeded));
    assert_eq!(ex.current_step(&plan), None);
}

#[test]
fn conflict_halts_and_resumes() {
    let plan = plan();
    let mut ex = PlanExecution::start(&plan);
    ex.handle(&plan, StepEvent::Applied { new_commit: 1 });
    ex.handle(&plan, StepEvent::Conflict);
    assert_eq!(ex.state, ExecutionState::Conflicted { at: 1 });
    assert_eq!(ex.result(), Some(ExecuteRebasePlanResult::DeclinedToMerge));
    ex.handle(&plan, StepEvent::Applied { new_commit: 99 });
    assert_eq!(ex.state, ExecutionState::Conflicted { at: 1 });
    ex.resume(&plan);
    assert_eq!(ex.state, ExecutionState::Applying { next: 1 });
    assert_eq!(ex.result(), None);
    ex.handle(&plan, StepEvent::Applied { new_commit: 20 });
    ex.handle(&plan, StepEvent::Applied { new_commit: 21 });
    assert_eq!(ex.rewritten, vec![(3, 20), (4, 21)]);
}

#[test]
fn failed_process_ends_execution() {
    let plan = plan();
    let mut ex = PlanExecution::start(&plan);
    ex.handle(&plan, StepEvent::ProcessFailed { exit_code: 128 });
    assert_eq!(ex.result(), Some(ExecuteRebasePlanResult::Failed { exit_code: 128 }));
    ex.resume(&plan);
    assert_eq!(ex.state, ExecutionState::Failed { exit_code: 128 });
}

#[test]
fn empty_plan_succeeds_at_once() {
    let plan = RebasePlan { root: 0, new_parents: vec![], steps: vec![] };
    let ex = PlanExecution::start(&plan);
    assert_eq!(ex.state, ExecutionState::Succeeded);
}

#[test]
fn sync_stages_with_pull() {
    let s = SyncStage::start();
    let s = s.next(true, SyncEvent::SelectorsChecked { valid: true });
    assert_eq!(s, SyncStage::Fetch);
    let s = s.next(true, SyncEvent::FetchFinished { exit_code: 0 });
    assert_eq!(s, SyncStage::SyncMain);
    let s = s.next(true, SyncEvent::MainSynced { exit_code: 0 });
    assert_eq!(s, SyncStage::SyncStacks);
    let s = s.next(true, SyncEvent::StacksSynced { exit_code: 0 });
    assert_eq!(s, SyncStage::Done { exit_code: 0 });
}

#[test]
fn sync_stages_stop_early() {
    let s = SyncStage::start();
    assert_eq!(s.next(true, SyncEvent::SelectorsChecked { valid: false }), SyncStage::Done { exit_code: 1 });
    assert_eq!(s.next(false, SyncEvent::SelectorsChecked { valid: true }), SyncStage::SyncStacks);
    assert_eq!(SyncStage::Fetch.next(true, SyncEvent::FetchFinished { exit_code: 128 }), SyncStage::Done { exit_code: 128 });
    assert_eq!(SyncStage::SyncMain.next(true, SyncEvent::MainSynced { exit_code: 1 }), SyncStage::Done { exit_code: 1 });
    assert_eq!(SyncStage::Fetch.next(true, SyncEvent::StacksSynced { exit_code: 0 }), SyncStage::Fetch);
}

#[test]
fn every_sync_logs_a_transaction() {
    let mut log = EventReplayer::new();
    let mut run = SyncRun::start(&mut log).unwrap();
    assert_eq!(run.fetch_tx_id, 1);
    assert_eq!(run.sync_tx_id, None);
    run.advance(&mut log, false, SyncEvent::SelectorsChecked { valid: false });
    assert_eq!(run.stage, SyncStage::Done { exit_code: 1 });
    assert_eq!(run.sync_tx_id, None);

    let mut run = SyncRun::start(&mut log).unwrap();
    assert_eq!(run.fetch_tx_id, 2);
    run.advance(&mut log, true, SyncEvent::SelectorsChecked { valid: true });
    assert_eq!(run.stage, SyncStage::Fetch);
    assert_eq!(run.sync_tx_id, None);
    run.advance(&mut log, true, SyncEvent::FetchFinished { exit_code: 0 });
    assert_eq!(run.stage, SyncStage::SyncMain);
    assert_eq!(run.sync_tx_id, Some(3));
    run.advance(&mut log, true, SyncEvent::MainSynced { exit_code: 0 });
    assert_eq!(run.stage, SyncStage::SyncStacks);
    assert_eq!(run.sync_tx_id, Some(3));
    assert_eq!(log.make_transaction_id(), Some(4));
}
