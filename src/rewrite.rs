use vstd::prelude::*;

use crate::dag::{increasing, CommitId, Dag};

verus! {

/// Options that govern how a rebase plan is built.
#[derive(Clone, Copy, Debug)]
pub struct BuildRebasePlanOptions {
    /// Allow rewriting commits classified as public.
    pub force_rewrite_public_commits: bool,
    /// Skip commits whose patch is already present on the destination lineage.
    pub detect_duplicate_commits_via_patch_id: bool,
}

/// A commit set was checked against the public-commit policy and refused.
#[derive(Clone, Copy, Debug, PartialEq, Eq, Structural)]
pub enum PolicyError {
    /// The set holds a public commit and rewriting public commits was not allowed.
    PublicCommit { commit: CommitId },
}

/// Proof that a commit set was checked against the public-commit policy.
pub struct RebasePlanPermissions {
    allowed: Vec<CommitId>,
}

impl RebasePlanPermissions {
    pub closed spec fn allowed_set(&self) -> Seq<CommitId> {
        self.allowed@
    }

    /// Checks every commit of `targets`: the check fails on a public commit
    /// unless `force_rewrite_public_commits` is set.
    pub fn verify_rewrite_set(
        dag: &Dag,
        options: &BuildRebasePlanOptions,
        targets: &Vec<CommitId>,
    ) -> (r: Result<RebasePlanPermissions, PolicyError>)
        requires
            dag.valid_set(targets@),
        ensures
            (r is Ok) <==> (options.force_rewrite_public_commits
                || forall|i: int| 0 <= i < targets@.len() ==> !dag.commits@[#[trigger] targets@[i] as int].public),
            r matches Ok(p) ==> p.allowed_set() == targets@,
            r matches Err(PolicyError::PublicCommit { commit }) ==> targets@.contains(commit)
                && dag.commits@[commit as int].public,
    {
        if !options.force_rewrite_public_commits {
            let mut i: usize = 0;
            while i < targets.len()
                invariant
                    !options.force_rewrite_public_commits,
                    dag.valid_set(targets@),
                    i <= targets@.len(),
                    forall|t: int| 0 <= t < i ==> !dag.commits@[#[trigger] targets@[t] as int].public,
                decreases targets.len() - i,
            {
                let c = targets[i];
                assert(c < dag.size());
                if dag.commits[c].public {
                    assert(dag.commits@[targets@[i as int] as int].public);
                    return Err(PolicyError::PublicCommit { commit: c });
                }
                i = i + 1;
            }
        }
        Ok(RebasePlanPermissions { allowed: targets.clone() })
    }

    /// Whether `c` was among the checked commits.
    pub fn allows(&self, c: CommitId) -> (r: bool)
        ensures
            r == self.allowed_set().contains(c),
    {
        let mut i: usize = 0;
        while i < self.allowed.len()
            invariant
                i <= self.allowed@.len(),
                forall|t: int| 0 <= t < i ==> self.allowed@[t] != c,
            decreases self.allowed.len() - i,
        {
            if self.allowed[i] == c {
                return true;
            }
            i = i + 1;
        }
        false
    }
}


/// One operation of a rebase plan.
#[derive(Clone, Copy, Debug, PartialEq, Eq, Structural)]
pub enum RebaseStep {
    /// Re-apply the commit's patch onto the current head.
    Pick { commit: CommitId },
    /// The commit's patch is already on the destination lineage: leave it out.
    Skip { commit: CommitId },
    /// Recreate a merge commit, combining the heads of all its parent lineages.
    Merge { commit: CommitId },
}

impl RebaseStep {
    pub open spec fn commit_of(self) -> CommitId {
        match self {
            RebaseStep::Pick { commit } => commit,
            RebaseStep::Skip { commit } => commit,
            RebaseStep::Merge { commit } => commit,
        }
    }

    /// The commit that the step is about.
    pub fn commit(&self) -> (r: CommitId)
        ensures
            r == self.commit_of(),
    {
        match self {
            RebaseStep::Pick { commit } => *commit,
            RebaseStep::Skip { commit } => *commit,
            RebaseStep::Merge { commit } => *commit,
        }
    }
}

/// An ordered sequence of operations that relocates the subtree at `root`
/// onto `new_parents`. It holds plain values only.
pub struct RebasePlan {
    pub root: CommitId,
    pub new_parents: Vec<CommitId>,
    pub steps: Vec<RebaseStep>,
}

/// A structural error met while building a plan.
#[derive(Clone, Copy, Debug, PartialEq, Eq, Structural)]
pub enum BuildRebasePlanError {
    /// The id names no commit of the graph.
    UnresolvedCommit { commit: CommitId },
    /// The commit was not among those checked by the public-commit policy.
    NotPermitted { commit: CommitId },
    /// A new parent lies in the subtree that would move onto it.
    Cycle { commit: CommitId },
}

/// Some new parent in `ps` lies in the subtree of `root`: moving the subtree
/// there would make a cycle.
pub open spec fn moves_onto_own_subtree(dag: &Dag, root: CommitId, ps: Seq<CommitId>) -> bool {
    exists|p: CommitId| ps.contains(p) && #[trigger] dag.descendants_of(root).contains(p)
}

/// A commit with the same patch identity as `c` lies on the lineage of `dests`.
pub open spec fn is_duplicate(dag: &Dag, dests: Set<CommitId>, c: CommitId) -> bool {
    exists|d: CommitId| #[trigger] dag.ancestors_of(dests).contains(d)
        && dag.commits@[d as int].patch_id == dag.commits@[c as int].patch_id
}

/// The step that a plan holds for commit `c` when its subtree moves onto `dests`.
pub open spec fn expected_step(dag: &Dag, options: BuildRebasePlanOptions, dests: Set<CommitId>, c: CommitId) -> RebaseStep {
    if options.detect_duplicate_commits_via_patch_id && is_duplicate(dag, dests, c) {
        RebaseStep::Skip { commit: c }
    } else if dag.parents_of(c).len() > 1 {
        RebaseStep::Merge { commit: c }
    } else {
        RebaseStep::Pick { commit: c }
    }
}

/// `steps` moves the subtree at `root` onto `dests`: one step per commit of
/// the subtree, parents before children, each the expected one.
pub open spec fn is_plan_for(
    dag: &Dag,
    options: BuildRebasePlanOptions,
    root: CommitId,
    dests: Set<CommitId>,
    steps: Seq<RebaseStep>,
) -> bool {
    &&& forall|a: int, b: int| 0 <= a < b < steps.len() ==> steps[a].commit_of() < steps[b].commit_of()
    &&& forall|c: CommitId| dag.descendants_of(root).contains(c)
        <==> exists|i: int| 0 <= i < steps.len() && #[trigger] steps[i].commit_of() == c
    &&& forall|i: int| 0 <= i < steps.len() ==> #[trigger] steps[i] == expected_step(dag, options, dests, steps[i].commit_of())
}

/// Whether two id sequences are equal.
fn same_ids(a: &Vec<CommitId>, b: &Vec<CommitId>) -> (r: bool)
    ensures
        r == (a@ == b@),
{
    if a.len() != b.len() {
        return false;
    }
    let mut i: usize = 0;
    while i < a.len()
        invariant
            a@.len() == b@.len(),
            i <= a@.len(),
            forall|t: int| 0 <= t < i ==> a@[t] == b@[t],
        decreases a.len() - i,
    {
        if a[i] != b[i] {
            return false;
        }
        i = i + 1;
    }
    assert(a@ =~= b@);
    true
}

/// Whether some commit of `lineage` has the patch identity `patch`.
fn has_patch(dag: &Dag, lineage: &Vec<CommitId>, patch: u64) -> (r: bool)
    requires
        dag.valid_set(lineage@),
    ensures
        r == exists|t: int| 0 <= t < lineage@.len() && dag.commits@[#[trigger] lineage@[t] as int].patch_id == patch,
{
    let mut i: usize = 0;
    while i < lineage.len()
        invariant
            dag.valid_set(lineage@),
            i <= lineage@.len(),
            forall|t: int| 0 <= t < i ==> dag.commits@[#[trigger] lineage@[t] as int].patch_id != patch,
        decreases lineage.len() - i,
    {
        let d = lineage[i];
        assert(d < dag.size());
        if dag.commits[d].patch_id == patch {
            assert(dag.commits@[lineage@[i as int] as int].patch_id == patch);
            return true;
        }
        i = i + 1;
    }
    false
}

/// The lineage of a set of destination commits, whose patch identities
/// tell which commits are already applied there. It is computed once and
/// shared by every plan that moves onto the same destinations.
pub struct PatchIndex {
    dests: Vec<CommitId>,
    lineage: Vec<CommitId>,
}

impl PatchIndex {
    pub closed spec fn dests(&self) -> Seq<CommitId> {
        self.dests@
    }

    pub closed spec fn lineage(&self) -> Seq<CommitId> {
        self.lineage@
    }

    /// The index holds the lineage of `dests` in `dag`.
    pub open spec fn is_index_for(&self, dag: &Dag, dests: Seq<CommitId>) -> bool {
        &&& self.dests() == dests
        &&& self.lineage().to_set() == dag.ancestors_of(dests.to_set())
        &&& dag.valid_set(self.lineage())
    }

    /// Computes the lineage of `dests`.
    pub fn new(dag: &Dag, dests: &Vec<CommitId>) -> (r: PatchIndex)
        requires
            dag.wf(),
            dag.valid_set(dests@),
        ensures
            r.is_index_for(dag, dests@),
    {
        let lineage = dag.valid_ancestors(dests);
        assert(dag.valid_set(lineage@)) by {
            assert forall|t: int| 0 <= t < lineage@.len() implies #[trigger] lineage@[t] < dag.size() by {
                assert(lineage@.to_set().contains(lineage@[t]));
            }
        }
        PatchIndex { dests: dests.clone(), lineage }
    }

    /// An index of no destination.
    pub fn empty() -> (r: PatchIndex)
        ensures
            r.dests() == Seq::<CommitId>::empty(),
            r.lineage() == Seq::<CommitId>::empty(),
    {
        PatchIndex { dests: Vec::new(), lineage: Vec::new() }
    }
}

/// Collects the intent to move a subtree and turns it into a plan.
pub struct RebasePlanBuilder {
    options: BuildRebasePlanOptions,
    permissions: RebasePlanPermissions,
    source_root: Option<CommitId>,
    new_parents: Vec<CommitId>,
}

impl RebasePlanBuilder {
    pub closed spec fn options(&self) -> BuildRebasePlanOptions {
        self.options
    }

    pub closed spec fn allowed_set(&self) -> Seq<CommitId> {
        self.permissions.allowed_set()
    }

    pub closed spec fn source_root(&self) -> Option<CommitId> {
        self.source_root
    }

    pub closed spec fn new_parents(&self) -> Seq<CommitId> {
        self.new_parents@
    }

    pub fn new(options: BuildRebasePlanOptions, permissions: RebasePlanPermissions) -> (r: Self)
        ensures
            r.options() == options,
            r.allowed_set() == permissions.allowed_set(),
            r.source_root() is None,
    {
        RebasePlanBuilder { options, permissions, source_root: None, new_parents: Vec::new() }
    }

    /// Registers the intent to relocate the subtree at `source_root` so that
    /// its parents become `new_parents`. It replaces any earlier intent.
    pub fn move_subtree(&mut self, source_root: CommitId, new_parents: Vec<CommitId>)
        ensures
            final(self).options() == old(self).options(),
            final(self).allowed_set() == old(self).allowed_set(),
            final(self).source_root() == Some(source_root),
            final(self).new_parents() == new_parents@,
    {
        self.source_root = Some(source_root);
        self.new_parents = new_parents;
    }

    /// What building the registered intent against `dag` gives.
    pub open spec fn build_outcome(&self, dag: &Dag, r: Result<Option<RebasePlan>, BuildRebasePlanError>) -> bool {
        match self.source_root() {
            None => r matches Ok(None),
            Some(root) => {
                let ps = self.new_parents();
                let resolved = root < dag.size() && dag.valid_set(ps);
                &&& (r matches Err(BuildRebasePlanError::UnresolvedCommit { commit })) <==> !resolved
                &&& r matches Err(BuildRebasePlanError::UnresolvedCommit { commit }) ==> commit >= dag.size()
                    && (commit == root || ps.contains(commit))
                &&& (r matches Err(BuildRebasePlanError::NotPermitted { commit })) <==> resolved
                    && !self.allowed_set().contains(root)
                &&& r matches Err(BuildRebasePlanError::NotPermitted { commit }) ==> commit == root
                &&& (r matches Err(BuildRebasePlanError::Cycle { commit })) <==> resolved
                    && self.allowed_set().contains(root) && moves_onto_own_subtree(dag, root, ps)
                &&& r matches Err(BuildRebasePlanError::Cycle { commit }) ==> ps.contains(commit)
                    && dag.descendants_of(root).contains(commit)
                &&& (r matches Ok(None)) <==> resolved && self.allowed_set().contains(root)
                    && !moves_onto_own_subtree(dag, root, ps) && ps == dag.parents_of(root)
                &&& r matches Ok(Some(plan)) ==> plan.root == root && plan.new_parents@ == ps
                    && is_plan_for(dag, self.options(), root, ps.to_set(), plan.steps@)
            },
        }
    }

    /// Turns the registered intent into a plan. `Ok(None)` means that nothing
    /// is to be done: no intent, or the root already has exactly the
    /// intended parents.
    pub fn build(&self, dag: &Dag) -> (r: Result<Option<RebasePlan>, BuildRebasePlanError>)
        requires
            dag.wf(),
        ensures
            self.build_outcome(dag, r),
    {
        if dag.is_valid_set(&self.new_parents) {
            let index = PatchIndex::new(dag, &self.new_parents);
            self.build_with_index(dag, &index)
        } else {
            self.build_with_index(dag, &PatchIndex::empty())
        }
    }

    /// Like [`RebasePlanBuilder::build`], with the patch index of the new
    /// parents' lineage computed beforehand and shared between builds.
    pub fn build_with_index(&self, dag: &Dag, index: &PatchIndex) -> (r: Result<Option<RebasePlan>, BuildRebasePlanError>)
        requires
            dag.wf(),
            dag.valid_set(self.new_parents()) ==> index.is_index_for(dag, self.new_parents()),
        ensures
            self.build_outcome(dag, r),
    {
        let root = match self.source_root {
            None => return Ok(None),
            Some(root) => root,
        };
        if root >= dag.len() {
            return Err(BuildRebasePlanError::UnresolvedCommit { commit: root });
        }
        let mut k: usize = 0;
        while k < self.new_parents.len()
            invariant
                self.source_root() == Some(root),
                k <= self.new_parents@.len(),
                forall|t: int| 0 <= t < k ==> #[trigger] self.new_parents@[t] < dag.size(),
            decreases self.new_parents.len() - k,
        {
            let p = self.new_parents[k];
            if p >= dag.len() {
                assert(self.new_parents@.contains(p));
                return Err(BuildRebasePlanError::UnresolvedCommit { commit: p });
            }
            k = k + 1;
        }
        if !self.permissions.allows(root) {
            return Err(BuildRebasePlanError::NotPermitted { commit: root });
        }
        let subtree = dag.valid_descendants(root);
        let in_subtree = dag.mark_set(&subtree);
        let mut k: usize = 0;
        while k < self.new_parents.len()
            invariant
                self.source_root() == Some(root),
                dag.valid_set(self.new_parents@),
                in_subtree@.len() == dag.size(),
                forall|c: int| 0 <= c < in_subtree@.len() ==> in_subtree@[c] == subtree@.contains(c as CommitId),
                subtree@.to_set() == dag.descendants_of(root),
                root < dag.size(),
                self.allowed_set().contains(root),
                k <= self.new_parents@.len(),
                forall|t: int| 0 <= t < k ==> !dag.descendants_of(root).contains(#[trigger] self.new_parents@[t]),
            decreases self.new_parents.len() - k,
        {
            let p = self.new_parents[k];
            assert(p < dag.size());
            assert(in_subtree@[p as int] == subtree@.to_set().contains(p));
            if in_subtree[p] {
                assert(self.new_parents@.contains(p));
                assert(dag.descendants_of(root).contains(p));
                return Err(BuildRebasePlanError::Cycle { commit: p });
            }
            k = k + 1;
        }
        assert(!moves_onto_own_subtree(dag, root, self.new_parents@)) by {
            assert forall|p: CommitId| self.new_parents@.contains(p) implies !#[trigger] dag.descendants_of(root).contains(p) by {
                let t = choose|t: int| 0 <= t < self.new_parents@.len() && self.new_parents@[t] == p;
            }
        }
        if same_ids(&self.new_parents, &dag.commits[root].parents) {
            return Ok(None);
        }
        let ghost dests = self.new_parents@.to_set();
        let lineage = &index.lineage;
        assert(self.new_parents() == index.dests());
        let detect = self.options.detect_duplicate_commits_via_patch_id;
        let mut steps: Vec<RebaseStep> = Vec::new();
        let mut i: usize = 0;
        while i < subtree.len()
            invariant
                dag.wf(),
                dag.valid_set(subtree@),
                dag.valid_set(lineage@),
                lineage@.to_set() == dag.ancestors_of(dests),
                detect == self.options().detect_duplicate_commits_via_patch_id,
                i <= subtree@.len(),
                steps@.len() == i,
                forall|t: int| 0 <= t < i ==> #[trigger] steps@[t].commit_of() == subtree@[t],
                forall|t: int| 0 <= t < i ==> #[trigger] steps@[t] == expected_step(dag, self.options(), dests, steps@[t].commit_of()),
            decreases subtree.len() - i,
        {
            let c = subtree[i];
            assert(c < dag.size());
            let dup = detect && has_patch(dag, &lineage, dag.commits[c].patch_id);
            proof {
                if detect {
                    if dup {
                        let t = choose|t: int| 0 <= t < lineage@.len()
                            && dag.commits@[#[trigger] lineage@[t] as int].patch_id == dag.commits@[c as int].patch_id;
                        assert(lineage@.to_set().contains(lineage@[t]));
                        assert(dag.ancestors_of(dests).contains(lineage@[t]));
                    } else {
                        assert forall|d: CommitId| #[trigger] dag.ancestors_of(dests).contains(d) implies
                            dag.commits@[d as int].patch_id != dag.commits@[c as int].patch_id by {
                            assert(lineage@.to_set().contains(d));
                            let t = choose|t: int| 0 <= t < lineage@.len() && lineage@[t] == d;
                        }
                    }
                }
            }
            let step = if dup {
                RebaseStep::Skip { commit: c }
            } else if dag.commits[c].parents.len() > 1 {
                RebaseStep::Merge { commit: c }
            } else {
                RebaseStep::Pick { commit: c }
            };
            steps.push(step);
            i = i + 1;
        }
        proof {
            assert forall|c: CommitId| dag.descendants_of(root).contains(c)
                <==> exists|t: int| 0 <= t < steps@.len() && #[trigger] steps@[t].commit_of() == c by {
                if dag.descendants_of(root).contains(c) {
                    assert(subtree@.to_set().contains(c));
                    let t = choose|t: int| 0 <= t < subtree@.len() && subtree@[t] == c;
                    assert(steps@[t].commit_of() == c);
                }
                if exists|t: int| 0 <= t < steps@.len() && #[trigger] steps@[t].commit_of() == c {
                    let t = choose|t: int| 0 <= t < steps@.len() && #[trigger] steps@[t].commit_of() == c;
                    assert(subtree@.to_set().contains(subtree@[t]));
                }
            }
        }
        Ok(Some(RebasePlan { root, new_parents: self.new_parents.clone(), steps }))
    }
}

} // verus!
