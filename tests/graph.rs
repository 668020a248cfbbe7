use branchless::dag::{Commit, Dag, GraphError};
use branchless::eventlog::{Event, EventKind, EventReplayer};

fn commit(parents: Vec<usize>, patch_id: u64, public: bool) -> Commit {
    Commit { parents, patch_id, public, visible: true }
}

/// 0 (public main) with two draft chains: 1 <- 2 and 3 <- 4.
fn two_chains() -> Dag {
    Dag {
        commits: vec![
            commit(vec![], 10, true),
            commit(vec![0], 11, false),
            commit(vec![1], 12, false),
            commit(vec![0], 13, false),
            commit(vec![3], 14, false),
        ],
    }
}

#[test]
fn roots_of_two_disjoint_draft_chains() {
    let dag = two_chains();
    let drafts = dag.query_draft_commits();
    assert_eq!(drafts, vec![1, 2, 3, 4]);
    assert_eq!(dag.roots(&drafts), Ok(vec![1, 3]));
    assert_eq!(branchless::sync::get_stack_roots(&dag), vec![1, 3]);
}

#[test]
fn roots_keep_input_order() {
    let dag = two_chains();
    assert_eq!(dag.roots(&vec![4, 3, 2]), Ok(vec![3, 2]));
    assert_eq!(dag.roots(&vec![]), Ok(Vec::<usize>::new()));
    assert_eq!(dag.roots(&vec![1, 7]), Err(GraphError::UnresolvedCommit));
}

#[test]
fn ancestors_and_only() {
    let dag = two_chains();
    assert_eq!(dag.ancestors(&vec![2]), Ok(vec![0, 1, 2]));
    assert_eq!(dag.ancestors(&vec![2, 4]), Ok(vec![0, 1, 2, 3, 4]));
    assert_eq!(dag.only(&vec![2], &vec![3]), Ok(vec![1, 2]));
    assert_eq!(dag.only(&vec![1], &vec![2]), Ok(Vec::<usize>::new()));
    assert_eq!(dag.descendants(1), Ok(vec![1, 2]));
    assert_eq!(dag.descendants(0), Ok(vec![0, 1, 2, 3, 4]));
    assert_eq!(dag.ancestors(&vec![5]), Err(GraphError::UnresolvedCommit));
    assert_eq!(dag.only(&vec![2], &vec![9]), Err(GraphError::UnresolvedCommit));
    assert_eq!(dag.descendants(5), Err(GraphError::UnresolvedCommit));
}

#[test]
fn hidden_and_public_commits_are_not_drafts() {
    let mut dag = two_chains();
    dag.commits[4].visible = false;
    assert_eq!(dag.query_draft_commits(), vec![1, 2, 3]);
}

#[test]
fn merge_commit_has_two_roots_below() {
    let dag = Dag {
        commits: vec![
            commit(vec![], 1, true),
            commit(vec![0], 2, false),
            commit(vec![0], 3, false),
            commit(vec![1, 2], 4, false),
        ],
    };
    assert_eq!(branchless::sync::get_stack_roots(&dag), vec![1, 2]);
    assert_eq!(dag.ancestors(&vec![3]), Ok(vec![0, 1, 2, 3]));
}

#[test]
fn well_formedness_check() {
    assert!(two_chains().is_well_formed());
    let bad = Dag { commits: vec![commit(vec![0], 1, false)] };
    assert!(!bad.is_well_formed());
    let dag = two_chains();
    assert!(dag.is_valid_set(&vec![0, 4]));
    assert!(!dag.is_valid_set(&vec![5]));
}

#[test]
fn later_events_override_earlier_ones() {
    let mut log = EventReplayer::new();
    let tx = log.make_transaction_id().unwrap();
    let tx2 = log.make_transaction_id().unwrap();
    assert_ne!(tx, tx2);
    log.add_event(Event { tx_id: tx, timestamp: 1, kind: EventKind::Hide { commit: 1 } });
    log.add_event(Event { tx_id: tx, timestamp: 2, kind: EventKind::Rewrite { old_commit: 2, new_commit: 3 } });
    log.add_event(Event { tx_id: tx2, timestamp: 3, kind: EventKind::Unhide { commit: 1 } });
    let cursor = log.make_default_cursor();
    assert_eq!(cursor, 3);
    assert_eq!(log.visibility(cursor, 4), vec![true, true, false, true]);
    assert_eq!(log.visibility(2, 4), vec![true, false, false, true]);
    assert_eq!(log.visibility(0, 4), vec![true, true, true, true]);
}

#[test]
fn snapshot_takes_visibility_from_the_log() {
    let mut log = EventReplayer::new();
    let tx = log.make_transaction_id().unwrap();
    log.add_event(Event { tx_id: tx, timestamp: 1, kind: EventKind::Hide { commit: 2 } });
    let parents = vec![vec![], vec![0], vec![1]];
    let dag = Dag::open_and_sync(&parents, &vec![5, 6, 7], &vec![true, false, false], &log, 1);
    assert_eq!(dag.len(), 3);
    assert_eq!(dag.commits[1].parents, vec![0]);
    assert_eq!(dag.commits[2].patch_id, 7);
    assert!(dag.commits[0].public);
    assert!(!dag.commits[2].visible);
    assert_eq!(dag.query_draft_commits(), vec![1]);
    let before = Dag::open_and_sync(&parents, &vec![5, 6, 7], &vec![true, false, false], &log, 0);
    assert!(before.commits[2].visible);
}

#[test]
fn fetched_commit_is_added() {
    let mut dag = two_chains();
    assert_eq!(dag.add_commit(vec![0], 20, true), Ok(5));
    assert_eq!(dag.len(), 6);
    assert_eq!(dag.ancestors(&vec![5]), Ok(vec![0, 5]));
    assert_eq!(dag.add_commit(vec![9], 21, true), Err(GraphError::UnresolvedCommit));
    assert_eq!(dag.len(), 6);
}
