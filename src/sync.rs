use vstd::prelude::*;

use crate::dag::{increasing, lemma_filter_increasing, CommitId, Dag};
use crate::eventlog::{EventReplayer, EventTransactionId};
use crate::rewrite::{
    is_plan_for, BuildRebasePlanError, BuildRebasePlanOptions, PatchIndex, PolicyError,
    RebasePlan, RebasePlanBuilder, RebasePlanPermissions,
};

verus! {

/// The draft commits of `dag`.
pub open spec fn draft_set(dag: &Dag) -> Set<CommitId> {
    Set::new(|c: CommitId| dag.is_draft(c))
}

/// Stack roots: draft commits with no draft parent.
pub open spec fn stack_root_set(dag: &Dag) -> Set<CommitId> {
    Set::new(|c: CommitId| dag.is_draft(c) && !dag.has_parent_in(c, draft_set(dag)))
}

/// The roots of `s`: its commits with no parent in `s`.
pub open spec fn root_set(dag: &Dag, s: Set<CommitId>) -> Set<CommitId> {
    Set::new(|c: CommitId| s.contains(c) && !dag.has_parent_in(c, s))
}

/// The roots of a sequence of commits, in its order, as a set.
proof fn lemma_roots_as_set(dag: &Dag, s: Seq<CommitId>, r: Seq<CommitId>)
    requires
        increasing(s),
        r == s.filter(|c: CommitId| !dag.has_parent_in(c, s.to_set())),
    ensures
        increasing(r),
        r.to_set() == root_set(dag, s.to_set()),
{
    let pred = |c: CommitId| !dag.has_parent_in(c, s.to_set());
    lemma_filter_increasing(s, pred);
    assert forall|c: CommitId| #[trigger] r.to_set().contains(c) == root_set(dag, s.to_set()).contains(c) by {
        if r.contains(c) {
            s.lemma_filter_contains_rev(pred, c);
            let i = choose|i: int| 0 <= i < r.len() && r[i] == c;
            s.lemma_filter_pred(pred, i);
        }
        if root_set(dag, s.to_set()).contains(c) {
            let i = choose|i: int| 0 <= i < s.len() && s[i] == c;
            s.lemma_filter_contains(pred, i);
        }
    }
    assert(r.to_set() =~= root_set(dag, s.to_set()));
}

/// The roots of all draft stacks, in increasing (topological) order.
pub fn get_stack_roots(dag: &Dag) -> (r: Vec<CommitId>)
    requires
        dag.wf(),
    ensures
        r@.to_set() == stack_root_set(dag),
        increasing(r@),
        dag.valid_set(r@),
{
    let drafts = dag.query_draft_commits();
    // Two roots below one merge commit are still moved as separate stacks.
    let r = dag.valid_roots(&drafts);
    proof {
        lemma_roots_as_set(dag, drafts@, r@);
        assert(root_set(dag, drafts@.to_set()) =~= stack_root_set(dag));
        assert forall|t: int| 0 <= t < r@.len() implies #[trigger] r@[t] < dag.size() by {
            assert(r@.to_set().contains(r@[t]));
        }
    }
    r
}

/// The union of the commit sets, in increasing order.
pub fn union_all(dag: &Dag, sets: &Vec<Vec<CommitId>>) -> (r: Vec<CommitId>)
    requires
        forall|i: int| 0 <= i < sets@.len() ==> dag.valid_set(#[trigger] sets@[i]@),
    ensures
        increasing(r@),
        dag.valid_set(r@),
        forall|c: CommitId| #[trigger] r@.contains(c)
            <==> exists|i: int| 0 <= i < sets@.len() && #[trigger] sets@[i]@.contains(c),
{
    let n = dag.len();
    let mut m: Vec<bool> = Vec::new();
    let mut j: usize = 0;
    while j < n
        invariant
            j <= n == dag.size(),
            m@.len() == j,
            forall|c: int| 0 <= c < j ==> !m@[c],
        decreases n - j,
    {
        m.push(false);
        j = j + 1;
    }
    let mut i: usize = 0;
    while i < sets.len()
        invariant
            forall|i: int| 0 <= i < sets@.len() ==> dag.valid_set(#[trigger] sets@[i]@),
            m@.len() == n == dag.size(),
            i <= sets@.len(),
            forall|c: CommitId| c < n ==> (#[trigger] m@[c as int]
                <==> exists|k: int| 0 <= k < i && #[trigger] sets@[k]@.contains(c)),
        decreases sets.len() - i,
    {
        let set = &sets[i];
        assert(dag.valid_set(sets@[i as int]@));
        let mut k: usize = 0;
        while k < set.len()
            invariant
                dag.valid_set(set@),
                set@ == sets@[i as int]@,
                i < sets@.len(),
                m@.len() == n == dag.size(),
                k <= set@.len(),
                forall|c: CommitId| c < n ==> (#[trigger] m@[c as int]
                    <==> (exists|u: int| 0 <= u < i && #[trigger] sets@[u]@.contains(c))
                        || set@.take(k as int).contains(c)),
            decreases set.len() - k,
        {
            let x = set[k];
            assert(x < n);
            let ghost before = m@;
            m.set(x, true);
            assert forall|c: CommitId| c < n implies (#[trigger] m@[c as int]
                <==> (exists|u: int| 0 <= u < i && #[trigger] sets@[u]@.contains(c))
                    || set@.take(k + 1).contains(c)) by {
                assert(set@.take(k + 1)[k as int] == x);
                assert(before[c as int] <==> (exists|u: int| 0 <= u < i && #[trigger] sets@[u]@.contains(c))
                    || set@.take(k as int).contains(c));
                if set@.take(k as int).contains(c) {
                    let t = choose|t: int| 0 <= t < k && set@.take(k as int)[t] == c;
                    assert(set@.take(k + 1)[t] == c);
                }
                if set@.take(k + 1).contains(c) && c != x {
                    let t = choose|t: int| 0 <= t < k + 1 && #[trigger] set@.take(k + 1)[t] == c;
                    assert(set@.take(k as int)[t] == c);
                }
            }
            k = k + 1;
        }
        assert forall|c: CommitId| c < n implies (#[trigger] m@[c as int]
            <==> exists|u: int| 0 <= u < i + 1 && #[trigger] sets@[u]@.contains(c)) by {
            assert(set@.take(set@.len() as int) == set@);
            if exists|u: int| 0 <= u < i + 1 && #[trigger] sets@[u]@.contains(c) {
                let u = choose|u: int| 0 <= u < i + 1 && #[trigger] sets@[u]@.contains(c);
                if u < i {
                    assert(exists|u: int| 0 <= u < i && #[trigger] sets@[u]@.contains(c));
                }
            }
        }
        i = i + 1;
    }
    let r = Dag::collect_marked(&m);
    assert forall|c: CommitId| #[trigger] r@.contains(c)
        <==> exists|k: int| 0 <= k < sets@.len() && #[trigger] sets@[k]@.contains(c) by {
        if exists|k: int| 0 <= k < sets@.len() && #[trigger] sets@[k]@.contains(c) {
            let k = choose|k: int| 0 <= k < sets@.len() && #[trigger] sets@[k]@.contains(c);
            let t = choose|t: int| 0 <= t < sets@[k]@.len() && sets@[k]@[t] == c;
            assert(dag.valid_set(sets@[k]@));
            assert(c < n);
            assert(m@[c as int]);
        }
        if r@.contains(c) {
            assert(c < n && m@[c as int]);
        }
    }
    r
}


/// Why no plans could be built for the stacks.
#[allow(inconsistent_fields)]
pub enum SyncPlanError {
    /// A root to be moved is public and rewriting public commits was not allowed.
    Policy { error: PolicyError },
    /// A plan could not be built.
    Build { error: BuildRebasePlanError },
}

/// The commits of the selected sets.
pub open spec fn selected_set(selected: Seq<Vec<CommitId>>) -> Set<CommitId> {
    Set::new(|c: CommitId| exists|i: int| 0 <= i < selected.len() && #[trigger] selected[i]@.contains(c))
}

/// The roots that a sync moves: the roots of the selected commits, or the
/// roots of all draft stacks when nothing is selected.
pub open spec fn sync_targets(dag: &Dag, selected: Seq<Vec<CommitId>>) -> Set<CommitId> {
    if selected.len() == 0 {
        stack_root_set(dag)
    } else {
        root_set(dag, selected_set(selected))
    }
}

/// The plan entry for `root`: none when the root's only parent is already
/// `main`, else a plan that moves its subtree onto `main`.
pub open spec fn plan_entry_ok(
    dag: &Dag,
    options: BuildRebasePlanOptions,
    main: CommitId,
    root: CommitId,
    plan: Option<RebasePlan>,
) -> bool {
    match plan {
        None => dag.parents_of(root) == seq![main],
        Some(p) => dag.parents_of(root) != seq![main] && p.root == root && p.new_parents@ == seq![main]
            && is_plan_for(dag, options, root, set![main], p.steps@),
    }
}

/// The policy refuses the move: a target root is public and rewriting
/// public commits was not allowed.
pub open spec fn policy_refuses(dag: &Dag, options: BuildRebasePlanOptions, selected: Seq<Vec<CommitId>>) -> bool {
    !options.force_rewrite_public_commits
        && exists|c: CommitId| #[trigger] sync_targets(dag, selected).contains(c) && dag.commits@[c as int].public
}

/// The roots of `entries` are exactly the commits of `targets`.
pub open spec fn covers<T>(targets: Set<CommitId>, entries: Seq<(CommitId, T)>) -> bool {
    forall|c: CommitId| #[trigger] targets.contains(c)
        <==> exists|i: int| 0 <= i < entries.len() && #[trigger] entries[i].0 == c
}

/// Whether the only parent of `c` is `p`.
fn has_only_parent(dag: &Dag, c: CommitId, p: CommitId) -> (r: bool)
    requires
        c < dag.size(),
    ensures
        r == (dag.parents_of(c) == seq![p]),
{
    let ps = &dag.commits[c].parents;
    let r = ps.len() == 1 && ps[0] == p;
    assert(r ==> ps@ =~= seq![p]);
    r
}

/// Builds one plan per target root that moves its stack onto `main`, in
/// increasing order of the roots. A root whose only parent is already `main`
/// gets no plan.
pub fn build_sync_plans(
    dag: &Dag,
    options: &BuildRebasePlanOptions,
    selected: &Vec<Vec<CommitId>>,
    main: CommitId,
) -> (r: Result<Vec<(CommitId, Option<RebasePlan>)>, SyncPlanError>)
    requires
        dag.wf(),
        forall|i: int| 0 <= i < selected@.len() ==> dag.valid_set(#[trigger] selected@[i]@),
    ensures
        (r matches Err(SyncPlanError::Policy { .. })) <==> policy_refuses(dag, *options, selected@),
        r matches Err(SyncPlanError::Policy { error: PolicyError::PublicCommit { commit } })
            ==> sync_targets(dag, selected@).contains(commit) && dag.commits@[commit as int].public,
        (r matches Err(SyncPlanError::Build { .. })) <==> !policy_refuses(dag, *options, selected@)
            && ((main >= dag.size() && exists|c: CommitId| #[trigger] sync_targets(dag, selected@).contains(c))
                || exists|c: CommitId| #[trigger] sync_targets(dag, selected@).contains(c)
                    && dag.descendants_of(c).contains(main)),
        r matches Err(SyncPlanError::Build { error })
            ==> error == (BuildRebasePlanError::UnresolvedCommit { commit: main })
                || error == (BuildRebasePlanError::Cycle { commit: main }),
        r matches Ok(entries) ==> forall|a: int, b: int| 0 <= a < b < entries@.len() ==> entries@[a].0 < entries@[b].0,
        r matches Ok(entries) ==> covers(sync_targets(dag, selected@), entries@),
        r matches Ok(entries) ==> forall|i: int| 0 <= i < entries@.len()
            ==> plan_entry_ok(dag, *options, main, #[trigger] entries@[i].0, entries@[i].1),
{
    let targets = if selected.len() == 0 {
        get_stack_roots(dag)
    } else {
        let u = union_all(dag, selected);
        let t = dag.valid_roots(&u);
        proof {
            lemma_roots_as_set(dag, u@, t@);
            assert(u@.to_set() =~= selected_set(selected@));
            assert forall|k: int| 0 <= k < t@.len() implies #[trigger] t@[k] < dag.size() by {
                assert(t@.to_set().contains(t@[k]));
            }
        }
        t
    };
    let ghost tset = sync_targets(dag, selected@);
    assert(targets@.to_set() == tset);
    let permissions = match RebasePlanPermissions::verify_rewrite_set(dag, options, &targets) {
        Ok(p) => p,
        Err(error) => {
            proof {
                let commit = match error { PolicyError::PublicCommit { commit } => commit };
                assert(tset.contains(commit));
            }
            return Err(SyncPlanError::Policy { error });
        },
    };
    proof {
        assert forall|c: CommitId| #[trigger] tset.contains(c) implies !options.force_rewrite_public_commits
            ==> !dag.commits@[c as int].public by {
            assert(targets@.to_set().contains(c));
            let k = choose|k: int| 0 <= k < targets@.len() && targets@[k] == c;
        }
    }
    let mut builder = RebasePlanBuilder::new(*options, permissions);
    // Every stack moves onto `main`: its lineage is indexed once for all of them.
    let mut dests: Vec<CommitId> = Vec::new();
    dests.push(main);
    assert(dests@ =~= seq![main]);
    let index = if main < dag.len() {
        assert(dag.valid_set(dests@)) by {
            assert forall|t: int| 0 <= t < dests@.len() implies #[trigger] dests@[t] < dag.size() by {}
        }
        PatchIndex::new(dag, &dests)
    } else {
        PatchIndex::empty()
    };
    let mut entries: Vec<(CommitId, Option<RebasePlan>)> = Vec::new();
    let mut i: usize = 0;
    while i < targets.len()
        invariant
            dag.wf(),
            dag.valid_set(targets@),
            increasing(targets@),
            builder.options() == *options,
            builder.allowed_set() == targets@,
            i <= targets@.len(),
            entries@.len() == i,
            forall|t: int| 0 <= t < i ==> #[trigger] entries@[t].0 == targets@[t],
            forall|t: int| 0 <= t < i
                ==> plan_entry_ok(dag, *options, main, #[trigger] entries@[t].0, entries@[t].1),
            main >= dag.size() ==> i == 0,
            main < dag.size() ==> index.is_index_for(dag, seq![main]),
            forall|t: int| 0 <= t < i ==> !dag.descendants_of(#[trigger] targets@[t]).contains(main),
            tset == sync_targets(dag, selected@),
            targets@.to_set() == tset,
            !(!options.force_rewrite_public_commits
                && exists|c: CommitId| #[trigger] tset.contains(c) && dag.commits@[c as int].public),
        decreases targets.len() - i,
    {
        let root = targets[i];
        assert(root < dag.size());
        if has_only_parent(dag, root, main) {
            entries.push((root, None));
            proof {
                assert(dag.commits@[root as int].parents@[0] < root);
                if dag.descendants_of(root).contains(main) {
                    dag.lemma_descendant_not_smaller(root, main);
                }
            }
        } else {
            let mut ps: Vec<CommitId> = Vec::new();
            ps.push(main);
            assert(ps@ == seq![main]);
            builder.move_subtree(root, ps);
            assert(targets@.contains(root));
            assert(dag.valid_set(seq![main]) ==> main < dag.size()) by {
                assert(seq![main][0] == main);
            }
            match builder.build_with_index(dag, &index) {
                Ok(plan) => {
                    assert(seq![main][0] == main);
                    assert(seq![main].to_set() =~= set![main]) by {
                        assert(seq![main][0] == main);
                    }
                    entries.push((root, plan));
                },
                Err(error) => {
                    assert(tset.contains(root));
                    assert(seq![main][0] == main);
                    if let BuildRebasePlanError::Cycle { commit } = error {
                        assert(seq![main].contains(commit));
                        assert(commit == main);
                    }
                    return Err(SyncPlanError::Build { error });
                },
            }
        }
        i = i + 1;
    }
    proof {
        assert forall|c: CommitId| tset.contains(c)
            <==> exists|k: int| 0 <= k < entries@.len() && #[trigger] entries@[k].0 == c by {
            if tset.contains(c) {
                assert(targets@.to_set().contains(c));
                let k = choose|k: int| 0 <= k < targets@.len() && targets@[k] == c;
                assert(entries@[k].0 == c);
            }
            if exists|k: int| 0 <= k < entries@.len() && #[trigger] entries@[k].0 == c {
                let k = choose|k: int| 0 <= k < entries@.len() && #[trigger] entries@[k].0 == c;
                assert(targets@.to_set().contains(targets@[k]));
            }
        }
        assert forall|a: int, b: int| 0 <= a < b < entries@.len() implies entries@[a].0 < entries@[b].0 by {
            assert(entries@[a].0 == targets@[a]);
            assert(entries@[b].0 == targets@[b]);
        }
        assert forall|c: CommitId| #[trigger] tset.contains(c) implies !dag.descendants_of(c).contains(main) by {
            assert(targets@.to_set().contains(c));
            let k = choose|k: int| 0 <= k < targets@.len() && targets@[k] == c;
        }
        if main >= dag.size() && exists|c: CommitId| #[trigger] tset.contains(c) {
            let c = choose|c: CommitId| #[trigger] tset.contains(c);
            assert(targets@.to_set().contains(c));
            let k = choose|k: int| 0 <= k < targets@.len() && targets@[k] == c;
            assert(false);
        }
        assert(!(main >= dag.size() && exists|c: CommitId| #[trigger] tset.contains(c)));
        assert forall|c: CommitId| #[trigger] tset.contains(c)
            <==> exists|i: int| 0 <= i < entries@.len() && #[trigger] entries@[i].0 == c by {
            assert(tset.contains(c) <==> exists|k: int| 0 <= k < entries@.len() && #[trigger] entries@[k].0 == c);
        }
    }
    assert(covers(tset, entries@));
    Ok(entries)
}


/// What executing one plan came to.
#[derive(Clone, Copy, Debug, PartialEq, Eq, Structural)]
pub enum ExecuteRebasePlanResult {
    /// Every step applied.
    Succeeded,
    /// A step met a merge conflict; the plan halted in a resumable state.
    DeclinedToMerge,
    /// A process that the executor ran failed with this exit code.
    Failed { exit_code: isize },
}

/// The report bucket of one stack.
#[derive(Clone, Copy, Debug, PartialEq, Eq, Structural)]
pub enum Bucket {
    Synced,
    MergeConflict,
    Skipped,
}

/// The bucket of a stack whose plan had outcome `o`; `None` means that
/// there was no plan to execute. A failure has no bucket.
pub open spec fn bucket_of(o: Option<ExecuteRebasePlanResult>) -> Option<Bucket> {
    match o {
        None => Some(Bucket::Skipped),
        Some(ExecuteRebasePlanResult::Succeeded) => Some(Bucket::Synced),
        Some(ExecuteRebasePlanResult::DeclinedToMerge) => Some(Bucket::MergeConflict),
        Some(ExecuteRebasePlanResult::Failed { .. }) => None,
    }
}

/// The roots of `entries` whose outcome falls in bucket `b`, in order.
pub open spec fn bucket(entries: Seq<(CommitId, Option<ExecuteRebasePlanResult>)>, b: Bucket) -> Seq<CommitId>
    decreases entries.len(),
{
    if entries.len() == 0 {
        Seq::empty()
    } else {
        let rest = bucket(entries.drop_last(), b);
        if bucket_of(entries.last().1) == Some(b) {
            rest.push(entries.last().0)
        } else {
            rest
        }
    }
}

/// The exit code of the first failed execution in `entries`.
pub open spec fn first_failure(entries: Seq<(CommitId, Option<ExecuteRebasePlanResult>)>) -> Option<isize>
    decreases entries.len(),
{
    if entries.len() == 0 {
        None
    } else {
        match first_failure(entries.drop_last()) {
            Some(code) => Some(code),
            None => match entries.last().1 {
                Some(ExecuteRebasePlanResult::Failed { exit_code }) => Some(exit_code),
                _ => None,
            },
        }
    }
}

/// The stacks of a sync, by outcome.
pub struct SyncReport {
    pub succeeded: Vec<CommitId>,
    pub merge_conflicts: Vec<CommitId>,
    pub skipped: Vec<CommitId>,
}

/// How a sync ended.
pub enum SyncOutcome {
    /// Every plan ran; the stacks by outcome.
    Finished { report: SyncReport },
    /// An execution failed: the sync stops with its exit code.
    Aborted { exit_code: isize },
}

impl SyncReport {
    pub open spec fn of(entries: Seq<(CommitId, Option<ExecuteRebasePlanResult>)>, r: &SyncReport) -> bool {
        &&& r.succeeded@ == bucket(entries, Bucket::Synced)
        &&& r.merge_conflicts@ == bucket(entries, Bucket::MergeConflict)
        &&& r.skipped@ == bucket(entries, Bucket::Skipped)
    }

    pub fn new() -> (r: SyncReport)
        ensures
            SyncReport::of(Seq::empty(), &r),
    {
        SyncReport { succeeded: Vec::new(), merge_conflicts: Vec::new(), skipped: Vec::new() }
    }

    /// Records the outcome of the stack at `root` (`None`: it had no plan).
    /// A failed execution is not recorded: its exit code is returned, and
    /// the sync stops there.
    pub fn record(&mut self, root: CommitId, outcome: Option<ExecuteRebasePlanResult>) -> (abort: Option<isize>)
        ensures
            outcome matches Some(ExecuteRebasePlanResult::Failed { exit_code }) ==> abort == Some(exit_code)
                && final(self).succeeded@ == old(self).succeeded@
                && final(self).merge_conflicts@ == old(self).merge_conflicts@
                && final(self).skipped@ == old(self).skipped@,
            bucket_of(outcome) is Some ==> abort is None,
            final(self).succeeded@ == if bucket_of(outcome) == Some(Bucket::Synced) {
                old(self).succeeded@.push(root) } else { old(self).succeeded@ },
            final(self).merge_conflicts@ == if bucket_of(outcome) == Some(Bucket::MergeConflict) {
                old(self).merge_conflicts@.push(root) } else { old(self).merge_conflicts@ },
            final(self).skipped@ == if bucket_of(outcome) == Some(Bucket::Skipped) {
                old(self).skipped@.push(root) } else { old(self).skipped@ },
    {
        match outcome {
            None => {
                self.skipped.push(root);
                None
            },
            Some(ExecuteRebasePlanResult::Succeeded) => {
                self.succeeded.push(root);
                None
            },
            Some(ExecuteRebasePlanResult::DeclinedToMerge) => {
                self.merge_conflicts.push(root);
                None
            },
            Some(ExecuteRebasePlanResult::Failed { exit_code }) => Some(exit_code),
        }
    }
}

/// Sorts the stacks by the outcome of their plans, in order; the first
/// failed execution ends the sync with its exit code.
pub fn summarize_outcomes(entries: &Vec<(CommitId, Option<ExecuteRebasePlanResult>)>) -> (r: SyncOutcome)
    ensures
        first_failure(entries@) matches Some(code) ==> r == (SyncOutcome::Aborted { exit_code: code }),
        first_failure(entries@) is None ==> (r matches SyncOutcome::Finished { report }
            && SyncReport::of(entries@, &report)),
{
    let mut report = SyncReport::new();
    let mut i: usize = 0;
    while i < entries.len()
        invariant
            i <= entries@.len(),
            first_failure(entries@.take(i as int)) is None,
            SyncReport::of(entries@.take(i as int), &report),
        decreases entries.len() - i,
    {
        let (root, outcome) = entries[i];
        let abort = report.record(root, outcome);
        assert(entries@.take(i + 1).drop_last() == entries@.take(i as int));
        if let Some(exit_code) = abort {
            proof {
                lemma_first_failure_prefix(entries@, i + 1);
            }
            return SyncOutcome::Aborted { exit_code };
        }
        i = i + 1;
    }
    assert(entries@.take(entries@.len() as int) == entries@);
    SyncOutcome::Finished { report }
}

/// A failure in a prefix is the first failure of the whole sequence.
proof fn lemma_first_failure_prefix(entries: Seq<(CommitId, Option<ExecuteRebasePlanResult>)>, k: int)
    requires
        0 <= k <= entries.len(),
        first_failure(entries.take(k)) is Some,
    ensures
        first_failure(entries) == first_failure(entries.take(k)),
    decreases entries.len() - k,
{
    if k < entries.len() {
        assert(entries.take(k + 1).drop_last() == entries.take(k));
        lemma_first_failure_prefix(entries, k + 1);
    } else {
        assert(entries.take(k) == entries);
    }
}

/// Every root in bucket `b` comes from an entry whose outcome falls in `b`.
proof fn lemma_bucket_source(entries: Seq<(CommitId, Option<ExecuteRebasePlanResult>)>, b: Bucket, x: CommitId)
    requires
        bucket(entries, b).contains(x),
    ensures
        exists|j: int| 0 <= j < entries.len() && #[trigger] entries[j].0 == x && bucket_of(entries[j].1) == Some(b),
    decreases entries.len(),
{
    let rest = entries.drop_last();
    if bucket(rest, b).contains(x) {
        lemma_bucket_source(rest, b, x);
        let j = choose|j: int| 0 <= j < rest.len() && #[trigger] rest[j].0 == x && bucket_of(rest[j].1) == Some(b);
        assert(entries[j] == rest[j]);
    } else {
        let k = entries.len() - 1;
        assert(entries[k].0 == x);
    }
}

/// Every entry whose outcome falls in bucket `b` has its root in `b`.
proof fn lemma_bucket_holds(entries: Seq<(CommitId, Option<ExecuteRebasePlanResult>)>, b: Bucket, i: int)
    requires
        0 <= i < entries.len(),
        bucket_of(entries[i].1) == Some(b),
    ensures
        bucket(entries, b).contains(entries[i].0),
    decreases entries.len(),
{
    let rest = entries.drop_last();
    if i < entries.len() - 1 {
        assert(rest[i] == entries[i]);
        lemma_bucket_holds(rest, b, i);
        let j = choose|j: int| 0 <= j < bucket(rest, b).len() && bucket(rest, b)[j] == entries[i].0;
        assert(bucket(entries, b)[j] == entries[i].0);
    } else {
        assert(bucket(entries, b).last() == entries[i].0);
    }
}

/// No-op detection: with distinct roots, a stack that got no plan is reported
/// as skipped, and neither as synced nor as a merge conflict.
pub proof fn lemma_unplanned_stack_only_skipped(entries: Seq<(CommitId, Option<ExecuteRebasePlanResult>)>, i: int)
    requires
        0 <= i < entries.len(),
        entries[i].1 is None,
        forall|a: int, b: int| 0 <= a < entries.len() && 0 <= b < entries.len() && a != b
            ==> #[trigger] entries[a].0 != #[trigger] entries[b].0,
    ensures
        bucket(entries, Bucket::Skipped).contains(entries[i].0),
        !bucket(entries, Bucket::Synced).contains(entries[i].0),
        !bucket(entries, Bucket::MergeConflict).contains(entries[i].0),
{
    lemma_bucket_holds(entries, Bucket::Skipped, i);
    if bucket(entries, Bucket::Synced).contains(entries[i].0) {
        lemma_bucket_source(entries, Bucket::Synced, entries[i].0);
        let j = choose|j: int| 0 <= j < entries.len() && #[trigger] entries[j].0 == entries[i].0
            && bucket_of(entries[j].1) == Some(Bucket::Synced);
        assert(j != i);
    }
    if bucket(entries, Bucket::MergeConflict).contains(entries[i].0) {
        lemma_bucket_source(entries, Bucket::MergeConflict, entries[i].0);
        let j = choose|j: int| 0 <= j < entries.len() && #[trigger] entries[j].0 == entries[i].0
            && bucket_of(entries[j].1) == Some(Bucket::MergeConflict);
        assert(j != i);
    }
}

/// Conflict containment: when no execution failed, every stack lands in the
/// bucket of its outcome, and the three buckets together hold exactly as
/// many entries as there are stacks: a conflict loses none of the others.
pub proof fn lemma_every_stack_reported_once(entries: Seq<(CommitId, Option<ExecuteRebasePlanResult>)>)
    requires
        first_failure(entries) is None,
    ensures
        bucket(entries, Bucket::Synced).len() + bucket(entries, Bucket::MergeConflict).len()
            + bucket(entries, Bucket::Skipped).len() == entries.len(),
        forall|i: int| 0 <= i < entries.len() ==> (#[trigger] bucket_of(entries[i].1)) is Some
            && bucket(entries, bucket_of(entries[i].1)->Some_0).contains(entries[i].0),
    decreases entries.len(),
{
    if entries.len() > 0 {
        let rest = entries.drop_last();
        lemma_every_stack_reported_once(rest);
        let last = entries.last();
        assert(bucket_of(last.1) is Some);
        assert forall|i: int| 0 <= i < entries.len() implies (#[trigger] bucket_of(entries[i].1)) is Some
            && bucket(entries, bucket_of(entries[i].1)->Some_0).contains(entries[i].0) by {
            if i < entries.len() - 1 {
                assert(rest[i] == entries[i]);
                let b = bucket_of(entries[i].1)->Some_0;
                let j = choose|j: int| 0 <= j < bucket(rest, b).len() && bucket(rest, b)[j] == entries[i].0;
                assert(bucket(entries, b)[j] == entries[i].0);
            } else {
                let b = bucket_of(last.1)->Some_0;
                assert(bucket(entries, b).last() == last.0);
            }
        }
    }
}


/// What to do with the local main branch once upstream has been fetched.
pub enum MainBranchAction {
    /// Local main already is the upstream tip: the reference is written again
    /// with the same commit.
    NotUpdating { target: CommitId },
    /// Local main has no commit of its own: its reference moves straight to
    /// the upstream tip, and no plan is built.
    FastForward { target: CommitId },
    /// The commits of local main's own do not have exactly one root: nothing
    /// is done.
    NoSingleRoot,
    /// The root of local main's own commits already has the upstream tip as
    /// its only parent: nothing is done.
    UpToDate { root: CommitId },
    /// Move local main's own commits onto the upstream tip with this plan.
    Rebase { plan: RebasePlan },
    /// No plan can be built: the error says why.
    BuildFailed { error: BuildRebasePlanError },
}

/// The commit ids of an optional commit.
pub open spec fn opt_set(c: Option<CommitId>) -> Set<CommitId> {
    match c {
        Some(x) => set![x],
        None => Set::empty(),
    }
}

/// The commits reachable from local main but not from upstream main.
pub open spec fn main_unique_set(dag: &Dag, local_main: Option<CommitId>, upstream_main: CommitId) -> Set<CommitId> {
    dag.ancestors_of(opt_set(local_main)).difference(dag.ancestors_of(set![upstream_main]))
}

/// The build options for moving main: its commits are public by definition,
/// so rewriting public commits is allowed.
pub open spec fn main_options(options: BuildRebasePlanOptions) -> BuildRebasePlanOptions {
    BuildRebasePlanOptions {
        force_rewrite_public_commits: true,
        detect_duplicate_commits_via_patch_id: options.detect_duplicate_commits_via_patch_id,
    }
}

/// Decides how the local main branch follows upstream main.
pub fn plan_main_branch_sync(
    dag: &Dag,
    options: &BuildRebasePlanOptions,
    local_main: Option<CommitId>,
    upstream_main: CommitId,
) -> (r: MainBranchAction)
    requires
        dag.wf(),
        upstream_main < dag.size(),
        local_main matches Some(l) ==> l < dag.size(),
    ensures
        main_unique_set(dag, local_main, upstream_main).is_empty() ==> if local_main == Some(upstream_main) {
            r == (MainBranchAction::NotUpdating { target: upstream_main })
        } else {
            r == (MainBranchAction::FastForward { target: upstream_main })
        },
        !main_unique_set(dag, local_main, upstream_main).is_empty() ==> {
            let roots = root_set(dag, main_unique_set(dag, local_main, upstream_main));
            &&& (r is NoSingleRoot) <==> !exists|c: CommitId| roots == set![c]
            &&& (r is BuildFailed) <==> exists|c: CommitId| roots == set![c]
                && #[trigger] dag.descendants_of(c).contains(upstream_main)
            &&& r matches MainBranchAction::BuildFailed { error } ==> error
                == (BuildRebasePlanError::Cycle { commit: upstream_main })
            &&& r matches MainBranchAction::UpToDate { root } ==> roots == set![root]
                && dag.parents_of(root) == seq![upstream_main]
            &&& r matches MainBranchAction::Rebase { plan } ==> roots == set![plan.root]
                && !dag.descendants_of(plan.root).contains(upstream_main)
                && dag.parents_of(plan.root) != seq![upstream_main]
                && plan.new_parents@ == seq![upstream_main]
                && is_plan_for(dag, main_options(*options), plan.root, set![upstream_main], plan.steps@)
            &&& !(r is NotUpdating) && !(r is FastForward)
        },
{
    let mut local: Vec<CommitId> = Vec::new();
    if let Some(l) = local_main {
        local.push(l);
    }
    let mut up: Vec<CommitId> = Vec::new();
    up.push(upstream_main);
    proof {
        assert(local@.to_set() =~= opt_set(local_main)) by {
            if let Some(l) = local_main {
                assert(local@[0] == l);
            }
        }
        assert(up@[0] == upstream_main);
        assert(up@.to_set() =~= set![upstream_main]);
    }
    let unique = dag.valid_only(&local, &up);
    let ghost uset = main_unique_set(dag, local_main, upstream_main);
    assert(unique@.to_set() == uset);
    if unique.len() == 0 {
        assert(uset =~= Set::<CommitId>::empty());
        if local_main == Some(upstream_main) {
            return MainBranchAction::NotUpdating { target: upstream_main };
        } else {
            return MainBranchAction::FastForward { target: upstream_main };
        }
    }
    assert(uset.contains(unique@[0]));
    assert(dag.valid_set(unique@)) by {
        assert forall|t: int| 0 <= t < unique@.len() implies #[trigger] unique@[t] < dag.size() by {
            assert(uset.contains(unique@[t]));
        }
    }
    let main_opts = BuildRebasePlanOptions {
        force_rewrite_public_commits: true,
        detect_duplicate_commits_via_patch_id: options.detect_duplicate_commits_via_patch_id,
    };
    let permissions = match RebasePlanPermissions::verify_rewrite_set(dag, &main_opts, &unique) {
        Ok(p) => p,
        Err(_) => {
            proof {
                assert(false);
            }
            return MainBranchAction::NoSingleRoot;
        },
    };
    let roots = dag.valid_roots(&unique);
    let ghost rset = root_set(dag, uset);
    proof {
        lemma_roots_as_set(dag, unique@, roots@);
    }
    if roots.len() != 1 {
        proof {
            if exists|c: CommitId| rset == set![c] {
                let c = choose|c: CommitId| rset == set![c];
                if roots@.len() == 0 {
                    assert(rset.contains(c));
                    assert(roots@.to_set().contains(c));
                } else {
                    assert(roots@[0] < roots@[1]);
                    assert(roots@.to_set().contains(roots@[0]));
                    assert(roots@.to_set().contains(roots@[1]));
                }
            }
        }
        return MainBranchAction::NoSingleRoot;
    }
    let root = roots[0];
    proof {
        assert(roots@.to_set() =~= set![root]) by {
            assert forall|x: CommitId| roots@.to_set().contains(x) implies x == root by {
                let t = choose|t: int| 0 <= t < roots@.len() && roots@[t] == x;
            }
            assert(roots@.to_set().contains(roots@[0]));
        }
        assert(rset.contains(root));
        assert(uset.contains(root));
        assert(unique@.to_set().contains(root));
    }
    let mut builder = RebasePlanBuilder::new(main_opts, permissions);
    let mut ps: Vec<CommitId> = Vec::new();
    ps.push(upstream_main);
    proof {
        assert(ps@ =~= seq![upstream_main]);
        assert(ps@[0] == upstream_main);
    }
    builder.move_subtree(root, ps);
    match builder.build(dag) {
        Ok(None) => MainBranchAction::UpToDate { root },
        Ok(Some(plan)) => {
            assert(seq![upstream_main].to_set() =~= set![upstream_main]) by {
                assert(seq![upstream_main][0] == upstream_main);
            }
            MainBranchAction::Rebase { plan }
        },
        Err(error) => {
            proof {
                assert(seq![upstream_main][0] == upstream_main);
                if let BuildRebasePlanError::Cycle { commit } = error {
                    assert(seq![upstream_main].contains(commit));
                    assert(commit == upstream_main);
                }
            }
            MainBranchAction::BuildFailed { error }
        },
    }
}


/// Idempotence: when every target stack already sits directly on `main`, as
/// a completed sync leaves it, no plan is built for any stack, nothing is
/// executed, and every stack is reported as skipped, in order.
pub proof fn lemma_resync_skips_every_stack(
    dag: &Dag,
    options: BuildRebasePlanOptions,
    main: CommitId,
    plans: Seq<(CommitId, Option<RebasePlan>)>,
    outcomes: Seq<(CommitId, Option<ExecuteRebasePlanResult>)>,
)
    requires
        forall|i: int| 0 <= i < plans.len() ==> plan_entry_ok(dag, options, main, #[trigger] plans[i].0, plans[i].1),
        forall|i: int| 0 <= i < plans.len() ==> dag.parents_of(#[trigger] plans[i].0) == seq![main],
        outcomes.len() == plans.len(),
        forall|i: int| 0 <= i < plans.len() ==> #[trigger] outcomes[i].0 == plans[i].0
            && (plans[i].1 is None ==> outcomes[i].1 is None),
    ensures
        forall|i: int| 0 <= i < plans.len() ==> (#[trigger] plans[i]).1 is None,
        first_failure(outcomes) is None,
        bucket(outcomes, Bucket::Skipped) == plans.map_values(|e: (CommitId, Option<RebasePlan>)| e.0),
        bucket(outcomes, Bucket::Synced).len() == 0,
        bucket(outcomes, Bucket::MergeConflict).len() == 0,
    decreases plans.len(),
{
    assert forall|i: int| 0 <= i < plans.len() implies (#[trigger] plans[i]).1 is None by {
        assert(plan_entry_ok(dag, options, main, plans[i].0, plans[i].1));
        assert(dag.parents_of(plans[i].0) == seq![main]);
    }
    if plans.len() > 0 {
        let n = plans.len() - 1;
        assert forall|i: int| 0 <= i < n implies #[trigger] outcomes.drop_last()[i].0 == plans.drop_last()[i].0
            && (plans.drop_last()[i].1 is None ==> outcomes.drop_last()[i].1 is None) by {
            assert(outcomes[i].0 == plans[i].0);
        }
        assert forall|i: int| 0 <= i < n implies plan_entry_ok(dag, options, main, #[trigger] plans.drop_last()[i].0, plans.drop_last()[i].1) by {
            assert(plan_entry_ok(dag, options, main, plans[i].0, plans[i].1));
        }
        assert forall|i: int| 0 <= i < n implies dag.parents_of(#[trigger] plans.drop_last()[i].0) == seq![main] by {
            assert(dag.parents_of(plans[i].0) == seq![main]);
        }
        lemma_resync_skips_every_stack(dag, options, main, plans.drop_last(), outcomes.drop_last());
        assert(plans[n].1 is None);
        assert(outcomes[n].0 == plans[n].0);
        assert(plans.map_values(|e: (CommitId, Option<RebasePlan>)| e.0)
            =~= plans.drop_last().map_values(|e: (CommitId, Option<RebasePlan>)| e.0).push(plans[n].0));
    } else {
        assert(plans.map_values(|e: (CommitId, Option<RebasePlan>)| e.0) =~= Seq::<CommitId>::empty());
    }
}


/// The stages of one sync.
#[derive(Clone, Copy, Debug, PartialEq, Eq, Structural)]
pub enum SyncStage {
    /// Check the syntax of the user's commit selectors, before any side effect.
    CheckSelectors,
    /// Fetch from the remotes.
    Fetch,
    /// Bring the local main branch up to upstream main.
    SyncMain,
    /// Move every selected stack onto main.
    SyncStacks,
    /// The sync is over, with this exit code.
    Done { exit_code: isize },
}

/// What the work of a stage came to.
#[derive(Clone, Copy, Debug, PartialEq, Eq, Structural)]
pub enum SyncEvent {
    SelectorsChecked { valid: bool },
    FetchFinished { exit_code: isize },
    MainSynced { exit_code: isize },
    StacksSynced { exit_code: isize },
}

/// The stage that follows `stage` on `event`; `pull` asks for fetching and
/// for syncing the main branch.
pub open spec fn next_stage(stage: SyncStage, pull: bool, event: SyncEvent) -> SyncStage {
    match (stage, event) {
        (SyncStage::CheckSelectors, SyncEvent::SelectorsChecked { valid }) =>
            if !valid { SyncStage::Done { exit_code: 1 } }
            else if pull { SyncStage::Fetch }
            else { SyncStage::SyncStacks },
        (SyncStage::Fetch, SyncEvent::FetchFinished { exit_code }) =>
            if exit_code == 0 { SyncStage::SyncMain } else { SyncStage::Done { exit_code } },
        (SyncStage::SyncMain, SyncEvent::MainSynced { exit_code }) =>
            if exit_code == 0 { SyncStage::SyncStacks } else { SyncStage::Done { exit_code } },
        (SyncStage::SyncStacks, SyncEvent::StacksSynced { exit_code }) => SyncStage::Done { exit_code },
        _ => stage,
    }
}

impl SyncStage {
    /// The first stage of a sync.
    pub fn start() -> (r: SyncStage)
        ensures
            r == SyncStage::CheckSelectors,
    {
        SyncStage::CheckSelectors
    }

    /// Moves to the stage that follows on `event`. An event that does not
    /// belong to the current stage changes nothing.
    pub fn next(self, pull: bool, event: SyncEvent) -> (r: SyncStage)
        ensures
            r == next_stage(self, pull, event),
    {
        match (self, event) {
            (SyncStage::CheckSelectors, SyncEvent::SelectorsChecked { valid }) => {
                if !valid {
                    SyncStage::Done { exit_code: 1 }
                } else if pull {
                    SyncStage::Fetch
                } else {
                    SyncStage::SyncStacks
                }
            },
            (SyncStage::Fetch, SyncEvent::FetchFinished { exit_code }) => {
                if exit_code == 0 {
                    SyncStage::SyncMain
                } else {
                    SyncStage::Done { exit_code }
                }
            },
            (SyncStage::SyncMain, SyncEvent::MainSynced { exit_code }) => {
                if exit_code == 0 {
                    SyncStage::SyncStacks
                } else {
                    SyncStage::Done { exit_code }
                }
            },
            (SyncStage::SyncStacks, SyncEvent::StacksSynced { exit_code }) => SyncStage::Done { exit_code },
            _ => self,
        }
    }
}

/// Without `pull`, a sync never reaches the fetch or the main branch
/// stage: from any other stage, no event leads there.
pub proof fn lemma_no_fetch_without_pull(s: SyncStage, e: SyncEvent)
    requires
        !(s is Fetch),
        !(s is SyncMain),
    ensures
        !(next_stage(s, false, e) is Fetch),
        !(next_stage(s, false, e) is SyncMain),
{
}


/// One run of a sync: its stage and the transactions that it logs under.
pub struct SyncRun {
    pub stage: SyncStage,
    /// Transaction of the fetch, allocated when the run starts.
    pub fetch_tx_id: EventTransactionId,
    /// Transaction of the rewrites, allocated once the run moves past the
    /// fetch.
    pub sync_tx_id: Option<EventTransactionId>,
}

impl SyncRun {
    /// Starts a sync, allocating the transaction of its fetch: every run
    /// logs at least one transaction, whatever it goes on to do.
    pub fn start(log: &mut EventReplayer) -> (r: Option<SyncRun>)
        ensures
            final(log).events() == old(log).events(),
            old(log).next_tx_id() < u64::MAX ==> (r matches Some(run) && run.stage == SyncStage::CheckSelectors
                && run.fetch_tx_id == old(log).next_tx_id() && run.sync_tx_id is None
                && final(log).next_tx_id() == old(log).next_tx_id() + 1),
            old(log).next_tx_id() == u64::MAX ==> r is None,
    {
        match log.make_transaction_id() {
            Some(id) => Some(SyncRun { stage: SyncStage::start(), fetch_tx_id: id, sync_tx_id: None }),
            None => None,
        }
    }

    /// Moves to the stage that follows on `event`. Entering the main branch
    /// or the stacks stage allocates the transaction of the rewrites; when
    /// no id is left, the run ends with exit code 1.
    pub fn advance(&mut self, log: &mut EventReplayer, pull: bool, event: SyncEvent)
        ensures
            final(log).events() == old(log).events(),
            final(self).fetch_tx_id == old(self).fetch_tx_id,
            ({
                let n = next_stage(old(self).stage, pull, event);
                let entering = (n is SyncMain || n is SyncStacks) && old(self).sync_tx_id is None;
                &&& entering && old(log).next_tx_id() < u64::MAX ==> final(self).stage == n
                    && final(self).sync_tx_id == Some(old(log).next_tx_id())
                    && final(log).next_tx_id() == old(log).next_tx_id() + 1
                &&& entering && old(log).next_tx_id() == u64::MAX ==> final(self).stage
                    == (SyncStage::Done { exit_code: 1 })
                &&& !entering ==> final(self).stage == n && final(self).sync_tx_id == old(self).sync_tx_id
                    && final(log).next_tx_id() == old(log).next_tx_id()
            }),
    {
        let n = self.stage.next(pull, event);
        let entering = match n {
            SyncStage::SyncMain => true,
            SyncStage::SyncStacks => true,
            _ => false,
        } && self.sync_tx_id.is_none();
        if entering {
            match log.make_transaction_id() {
                Some(id) => {
                    self.sync_tx_id = Some(id);
                    self.stage = n;
                },
                None => {
                    self.stage = SyncStage::Done { exit_code: 1 };
                },
            }
        } else {
            self.stage = n;
        }
    }
}

} // verus!
