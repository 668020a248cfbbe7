use branchless::dag::{Commit, Dag};
use branchless::rewrite::{
    BuildRebasePlanError, BuildRebasePlanOptions, PatchIndex, PolicyError, RebasePlanBuilder,
    RebasePlanPermissions, RebaseStep,
};
use branchless::sync::{
    build_sync_plans, plan_main_branch_sync, summarize_outcomes, ExecuteRebasePlanResult,
    MainBranchAction, SyncOutcome, SyncPlanError, SyncReport,
};

fn commit(parents: Vec<usize>, patch_id: u64, public: bool) -> Commit {
    Commit { parents, patch_id, public, visible: true }
}

fn options(force: bool, detect: bool) -> BuildRebasePlanOptions {
    BuildRebasePlanOptions {
        force_rewrite_public_commits: force,
        detect_duplicate_commits_via_patch_id: detect,
    }
}

/// Main moved from 0 to 1 (public, patch 100); draft 2 (patch 100) <- 3 sits on 0.
fn moved_main() -> Dag {
    Dag {
        commits: vec![
            commit(vec![], 1, true),
            commit(vec![0], 100, true),
            commit(vec![0], 100, false),
            commit(vec![2], 7, false),
        ],
    }
}

#[test]
fn duplicate_patch_is_skipped() {
    let dag = moved_main();
    let perms = RebasePlanPermissions::verify_rewrite_set(&dag, &options(false, true), &vec![2]).ok().unwrap();
    let mut builder = RebasePlanBuilder::new(options(false, true), perms);
    builder.move_subtree(2, vec![1]);
    let plan = builder.build(&dag).unwrap().unwrap();
    assert_eq!(plan.root, 2);
    assert_eq!(plan.new_parents, vec![1]);
    assert_eq!(plan.steps, vec![RebaseStep::Skip { commit: 2 }, RebaseStep::Pick { commit: 3 }]);
}

#[test]
fn duplicates_kept_without_detection() {
    let dag = moved_main();
    let perms = RebasePlanPermissions::verify_rewrite_set(&dag, &options(false, false), &vec![2]).ok().unwrap();
    let mut builder = RebasePlanBuilder::new(options(false, false), perms);
    builder.move_subtree(2, vec![1]);
    let plan = builder.build(&dag).unwrap().unwrap();
    assert_eq!(plan.steps, vec![RebaseStep::Pick { commit: 2 }, RebaseStep::Pick { commit: 3 }]);
}

#[test]
fn merge_commit_becomes_merge_step() {
    let dag = Dag {
        commits: vec![
            commit(vec![], 1, true),
            commit(vec![0], 2, true),
            commit(vec![0], 3, false),
            commit(vec![0], 4, false),
            commit(vec![2, 3], 5, false),
        ],
    };
    let perms = RebasePlanPermissions::verify_rewrite_set(&dag, &options(false, true), &vec![2]).ok().unwrap();
    let mut builder = RebasePlanBuilder::new(options(false, true), perms);
    builder.move_subtree(2, vec![1]);
    let plan = builder.build(&dag).unwrap().unwrap();
    assert_eq!(plan.steps, vec![RebaseStep::Pick { commit: 2 }, RebaseStep::Merge { commit: 4 }]);
    assert_eq!(plan.steps[1].commit(), 4);
}

#[test]
fn public_commit_refused_without_override() {
    let dag = moved_main();
    let r = RebasePlanPermissions::verify_rewrite_set(&dag, &options(false, true), &vec![2, 1]);
    assert!(matches!(r, Err(PolicyError::PublicCommit { commit: 1 })));
    let r = RebasePlanPermissions::verify_rewrite_set(&dag, &options(true, true), &vec![2, 1]);
    assert!(r.is_ok());
    let r = build_sync_plans(&dag, &options(false, true), &vec![vec![1]], 0);
    assert!(matches!(r, Err(SyncPlanError::Policy { error: PolicyError::PublicCommit { commit: 1 } })));
    assert_eq!(dag.commits.len(), 4);
    assert!(dag.commits[1].public);
}

#[test]
fn already_in_place_builds_nothing() {
    let dag = moved_main();
    let perms = RebasePlanPermissions::verify_rewrite_set(&dag, &options(false, true), &vec![2]).ok().unwrap();
    let mut builder = RebasePlanBuilder::new(options(false, true), perms);
    assert!(matches!(builder.build(&dag), Ok(None)));
    builder.move_subtree(2, vec![0]);
    assert!(matches!(builder.build(&dag), Ok(None)));
}

#[test]
fn build_errors() {
    let dag = moved_main();
    let perms = RebasePlanPermissions::verify_rewrite_set(&dag, &options(false, true), &vec![2]).ok().unwrap();
    let mut builder = RebasePlanBuilder::new(options(false, true), perms);
    builder.move_subtree(9, vec![1]);
    assert!(matches!(builder.build(&dag), Err(BuildRebasePlanError::UnresolvedCommit { commit: 9 })));
    builder.move_subtree(2, vec![8]);
    assert!(matches!(builder.build(&dag), Err(BuildRebasePlanError::UnresolvedCommit { commit: 8 })));
    builder.move_subtree(3, vec![1]);
    assert!(matches!(builder.build(&dag), Err(BuildRebasePlanError::NotPermitted { commit: 3 })));
    let r = build_sync_plans(&dag, &options(false, true), &vec![], 7);
    assert!(matches!(r, Err(SyncPlanError::Build { error: BuildRebasePlanError::UnresolvedCommit { commit: 7 } })));
}

#[test]
fn stack_on_main_is_skipped() {
    let dag = moved_main();
    let entries = build_sync_plans(&dag, &options(false, true), &vec![], 0).ok().unwrap();
    assert_eq!(entries.len(), 1);
    assert_eq!(entries[0].0, 2);
    assert!(entries[0].1.is_none());
    let outcomes = vec![(2usize, None)];
    match summarize_outcomes(&outcomes) {
        SyncOutcome::Finished { report } => {
            assert_eq!(report.skipped, vec![2]);
            assert!(report.succeeded.is_empty());
            assert!(report.merge_conflicts.is_empty());
        }
        SyncOutcome::Aborted { .. } => panic!("unexpected abort"),
    }
}

#[test]
fn stacks_move_onto_new_main() {
    let dag = moved_main();
    let entries = build_sync_plans(&dag, &options(false, true), &vec![], 1).ok().unwrap();
    assert_eq!(entries.len(), 1);
    let plan = entries[0].1.as_ref().unwrap();
    assert_eq!(plan.root, 2);
    assert_eq!(plan.steps, vec![RebaseStep::Skip { commit: 2 }, RebaseStep::Pick { commit: 3 }]);
    let selected = build_sync_plans(&dag, &options(false, true), &vec![vec![3], vec![3]], 1).ok().unwrap();
    assert_eq!(selected.len(), 1);
    assert_eq!(selected[0].0, 3);
}

#[test]
fn second_sync_skips_every_stack() {
    // Both stacks already sit on main 1.
    let dag = Dag {
        commits: vec![
            commit(vec![], 1, true),
            commit(vec![0], 2, true),
            commit(vec![1], 3, false),
            commit(vec![1], 4, false),
        ],
    };
    let entries = build_sync_plans(&dag, &options(false, true), &vec![], 1).ok().unwrap();
    assert_eq!(entries.len(), 2);
    assert!(entries.iter().all(|e| e.1.is_none()));
    let outcomes: Vec<(usize, Option<ExecuteRebasePlanResult>)> = entries.iter().map(|e| (e.0, None)).collect();
    match summarize_outcomes(&outcomes) {
        SyncOutcome::Finished { report } => assert_eq!(report.skipped, vec![2, 3]),
        SyncOutcome::Aborted { .. } => panic!("unexpected abort"),
    }
}

#[test]
fn one_conflict_does_not_stop_the_others() {
    let outcomes = vec![
        (1usize, Some(ExecuteRebasePlanResult::Succeeded)),
        (2usize, Some(ExecuteRebasePlanResult::DeclinedToMerge)),
        (3usize, None),
    ];
    match summarize_outcomes(&outcomes) {
        SyncOutcome::Finished { report } => {
            assert_eq!(report.succeeded, vec![1]);
            assert_eq!(report.merge_conflicts, vec![2]);
            assert_eq!(report.skipped, vec![3]);
        }
        SyncOutcome::Aborted { .. } => panic!("unexpected abort"),
    }
}

#[test]
fn failed_execution_aborts_with_its_code() {
    let outcomes = vec![
        (1usize, Some(ExecuteRebasePlanResult::Succeeded)),
        (2usize, Some(ExecuteRebasePlanResult::Failed { exit_code: 128 })),
        (3usize, Some(ExecuteRebasePlanResult::Failed { exit_code: 2 })),
    ];
    assert!(matches!(summarize_outcomes(&outcomes), SyncOutcome::Aborted { exit_code: 128 }));
    let mut report = SyncReport::new();
    assert_eq!(report.record(5, Some(ExecuteRebasePlanResult::Failed { exit_code: 3 })), Some(3));
    assert!(report.succeeded.is_empty() && report.skipped.is_empty());
    assert_eq!(report.record(5, Some(ExecuteRebasePlanResult::Succeeded)), None);
    assert_eq!(report.succeeded, vec![5]);
}

#[test]
fn main_branch_fast_forward() {
    // Local main 1, upstream main 2 on top of it.
    let dag = Dag {
        commits: vec![
            commit(vec![], 1, true),
            commit(vec![0], 2, true),
            commit(vec![1], 3, true),
        ],
    };
    assert!(matches!(
        plan_main_branch_sync(&dag, &options(false, true), Some(1), 2),
        MainBranchAction::FastForward { target: 2 }
    ));
    assert!(matches!(
        plan_main_branch_sync(&dag, &options(false, true), Some(2), 2),
        MainBranchAction::NotUpdating { target: 2 }
    ));
    assert!(matches!(
        plan_main_branch_sync(&dag, &options(false, true), None, 2),
        MainBranchAction::FastForward { target: 2 }
    ));
}

#[test]
fn main_branch_with_own_commits_is_rebased() {
    // Upstream main 2 and local main 3 both grew from 1.
    let dag = Dag {
        commits: vec![
            commit(vec![], 1, true),
            commit(vec![0], 2, true),
            commit(vec![1], 3, true),
            commit(vec![1], 4, true),
        ],
    };
    match plan_main_branch_sync(&dag, &options(false, true), Some(3), 2) {
        MainBranchAction::Rebase { plan } => {
            assert_eq!(plan.root, 3);
            assert_eq!(plan.new_parents, vec![2]);
            assert_eq!(plan.steps, vec![RebaseStep::Pick { commit: 3 }]);
        }
        _ => panic!("expected a rebase"),
    }
    // Local main's own commit already sits on upstream main.
    let dag = Dag {
        commits: vec![
            commit(vec![], 1, true),
            commit(vec![0], 2, true),
            commit(vec![1], 3, true),
        ],
    };
    assert!(matches!(
        plan_main_branch_sync(&dag, &options(false, true), Some(2), 1),
        MainBranchAction::UpToDate { root: 2 }
    ));
}

#[test]
fn shared_index_gives_the_same_plan() {
    let dag = moved_main();
    let index = PatchIndex::new(&dag, &vec![1]);
    let perms = RebasePlanPermissions::verify_rewrite_set(&dag, &options(false, true), &vec![2, 3]).ok().unwrap();
    let mut builder = RebasePlanBuilder::new(options(false, true), perms);
    builder.move_subtree(2, vec![1]);
    let first = builder.build_with_index(&dag, &index).unwrap().unwrap();
    assert_eq!(first.steps, vec![RebaseStep::Skip { commit: 2 }, RebaseStep::Pick { commit: 3 }]);
    builder.move_subtree(3, vec![1]);
    let second = builder.build_with_index(&dag, &index).unwrap().unwrap();
    assert_eq!(second.steps, vec![RebaseStep::Pick { commit: 3 }]);
}

#[test]
fn moving_onto_own_descendant_is_a_cycle() {
    // 0 <- 1 <- 2
    let dag = Dag {
        commits: vec![
            commit(vec![], 1, false),
            commit(vec![0], 2, false),
            commit(vec![1], 3, false),
        ],
    };
    let perms = RebasePlanPermissions::verify_rewrite_set(&dag, &options(false, true), &vec![1]).ok().unwrap();
    let mut builder = RebasePlanBuilder::new(options(false, true), perms);
    builder.move_subtree(1, vec![2]);
    assert!(matches!(builder.build(&dag), Err(BuildRebasePlanError::Cycle { commit: 2 })));
    builder.move_subtree(1, vec![1]);
    assert!(matches!(builder.build(&dag), Err(BuildRebasePlanError::Cycle { commit: 1 })));
    let r = build_sync_plans(&dag, &options(true, true), &vec![vec![1]], 2);
    assert!(matches!(r, Err(SyncPlanError::Build { error: BuildRebasePlanError::Cycle { commit: 2 } })));
}

#[test]
fn main_branch_moves_only_its_own_commits() {
    // Upstream main 2 and local main 3 both grew from 1.
    let dag = Dag {
        commits: vec![
            commit(vec![], 1, true),
            commit(vec![0], 2, true),
            commit(vec![1], 3, true),
            commit(vec![1], 4, true),
        ],
    };
    assert!(matches!(
        plan_main_branch_sync(&dag, &options(false, true), Some(3), 2),
        MainBranchAction::Rebase { .. }
    ));
    // Local main 2's own commit already sits on upstream main 1.
    assert!(matches!(
        plan_main_branch_sync(&dag, &options(false, true), Some(2), 1),
        MainBranchAction::UpToDate { root: 2 }
    ));
}
