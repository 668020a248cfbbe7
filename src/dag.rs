use vstd::prelude::*;

use crate::eventlog::{visible_after, EventReplayer};

verus! {

/// Identifier of a commit: its position in the commit table of a [`Dag`].
pub type CommitId = usize;

/// A commit of the graph.
pub struct Commit {
    /// Ids of the parent commits; each is smaller than the commit's own id.
    pub parents: Vec<CommitId>,
    /// Patch identity: a hash of the commit's normalized diff.
    pub patch_id: u64,
    /// Public commits are protected from rewriting by default.
    pub public: bool,
    /// Hidden commits are excluded from default traversal.
    pub visible: bool,
}

/// A query named a commit that the graph does not hold.
#[derive(Clone, Copy, Debug, PartialEq, Eq, Structural)]
pub enum GraphError {
    UnresolvedCommit,
}

/// Snapshot of the commit graph. Commits are stored in topological order:
/// every parent of a commit has a smaller id than the commit itself, so the
/// graph has no cycle.
pub struct Dag {
    pub commits: Vec<Commit>,
}

impl Dag {
    pub open spec fn wf(&self) -> bool {
        forall|c: int, k: int|
            0 <= c < self.commits@.len() && 0 <= k < self.commits@[c].parents@.len()
                ==> #[trigger] self.commits@[c].parents@[k] < c
    }

    pub open spec fn size(&self) -> nat {
        self.commits@.len()
    }

    pub open spec fn parents_of(&self, c: CommitId) -> Seq<CommitId> {
        self.commits@[c as int].parents@
    }

    /// `p` is a parent of `c`.
    pub open spec fn is_parent(&self, p: CommitId, c: CommitId) -> bool {
        c < self.size() && self.parents_of(c).contains(p)
    }

    /// Every element of `s` names a commit of the graph.
    pub open spec fn valid_set(&self, s: Seq<CommitId>) -> bool {
        forall|i: int| 0 <= i < s.len() ==> #[trigger] s[i] < self.size()
    }

    /// Some parent of `c` lies in `s`.
    pub open spec fn has_parent_in(&self, c: CommitId, s: Set<CommitId>) -> bool {
        exists|p: CommitId| self.is_parent(p, c) && #[trigger] s.contains(p)
    }

    /// The parents of every commit of `r` are in `r`.
    pub open spec fn parent_closed(&self, r: Set<CommitId>) -> bool {
        forall|p: CommitId, c: CommitId| #[trigger] self.is_parent(p, c) && r.contains(c) ==> r.contains(p)
    }

    /// The children of every commit of `r` are in `r`.
    pub open spec fn child_closed(&self, r: Set<CommitId>) -> bool {
        forall|p: CommitId, c: CommitId| #[trigger] self.is_parent(p, c) && r.contains(p) ==> r.contains(c)
    }

    /// The commits of `s` and all their ancestors: the least parent-closed set
    /// of commits that holds `s`.
    pub open spec fn ancestors_of(&self, s: Set<CommitId>) -> Set<CommitId> {
        Set::new(|c: CommitId| c < self.size() &&
            forall|r: Set<CommitId>| self.parent_closed(r) && s.subset_of(r) ==> #[trigger] r.contains(c))
    }

    /// The commit `root` and all its descendants: the least child-closed set
    /// of commits that holds `root`.
    pub open spec fn descendants_of(&self, root: CommitId) -> Set<CommitId> {
        Set::new(|c: CommitId| c < self.size() &&
            forall|r: Set<CommitId>| self.child_closed(r) && r.contains(root) ==> #[trigger] r.contains(c))
    }

    /// Draft commits: visible and not public.
    pub open spec fn is_draft(&self, c: CommitId) -> bool {
        c < self.size() && self.commits@[c as int].visible && !self.commits@[c as int].public
    }

    /// Builds the snapshot of `n` commits from their parents, patch
    /// identities and public marks; their visibility is what replaying `log`
    /// up to `cursor` gives.
    pub fn open_and_sync(
        parents: &Vec<Vec<CommitId>>,
        patch_ids: &Vec<u64>,
        public: &Vec<bool>,
        log: &EventReplayer,
        cursor: usize,
    ) -> (r: Dag)
        requires
            patch_ids@.len() == parents@.len(),
            public@.len() == parents@.len(),
            cursor <= log.events().len(),
        ensures
            r.size() == parents@.len(),
            forall|c: int| 0 <= c < parents@.len() ==> {
                &&& (#[trigger] r.commits@[c]).parents@ == parents@[c]@
                &&& r.commits@[c].patch_id == patch_ids@[c]
                &&& r.commits@[c].public == public@[c]
                &&& r.commits@[c].visible == visible_after(log.events().take(cursor as int), c as CommitId)
            },
    {
        let n = parents.len();
        let visible = log.visibility(cursor, n);
        let mut commits: Vec<Commit> = Vec::new();
        let mut i: usize = 0;
        while i < n
            invariant
                n == parents@.len(),
                patch_ids@.len() == n,
                public@.len() == n,
                visible@.len() == n,
                forall|c: int| 0 <= c < n ==> visible@[c] == visible_after(log.events().take(cursor as int), c as CommitId),
                i <= n,
                commits@.len() == i,
                forall|c: int| 0 <= c < i ==> {
                    &&& (#[trigger] commits@[c]).parents@ == parents@[c]@
                    &&& commits@[c].patch_id == patch_ids@[c]
                    &&& commits@[c].public == public@[c]
                    &&& commits@[c].visible == visible@[c]
                },
            decreases n - i,
        {
            commits.push(Commit {
                parents: parents[i].clone(),
                patch_id: patch_ids[i],
                public: public[i],
                visible: visible[i],
            });
            i = i + 1;
        }
        Dag { commits }
    }

    /// Takes in a commit that the snapshot did not hold, such as a freshly
    /// fetched upstream tip; it is visible and gets the next id.
    pub fn add_commit(&mut self, parents: Vec<CommitId>, patch_id: u64, public: bool) -> (r: Result<CommitId, GraphError>)
        requires
            old(self).wf(),
        ensures
            final(self).wf(),
            (r is Err) <==> !old(self).valid_set(parents@),
            r is Err ==> final(self).commits@ == old(self).commits@,
            r matches Ok(id) ==> id == old(self).size() && final(self).size() == old(self).size() + 1
                && final(self).commits@.take(id as int) == old(self).commits@
                && final(self).commits@[id as int].parents@ == parents@
                && final(self).commits@[id as int].patch_id == patch_id
                && final(self).commits@[id as int].public == public
                && final(self).commits@[id as int].visible,
    {
        if !self.is_valid_set(&parents) {
            return Err(GraphError::UnresolvedCommit);
        }
        let id = self.commits.len();
        let ghost before = self.commits@;
        self.commits.push(Commit { parents, patch_id, public, visible: true });
        assert(self.commits@.take(id as int) =~= before);
        assert forall|c: int, k: int|
            0 <= c < self.commits@.len() && 0 <= k < self.commits@[c].parents@.len()
                implies #[trigger] self.commits@[c].parents@[k] < c by {
            if c < id {
                assert(before[c] == self.commits@[c]);
            }
        }
        Ok(id)
    }

    pub fn len(&self) -> (r: usize)
        ensures
            r == self.size(),
    {
        self.commits.len()
    }

    /// Whether every parent id is smaller than its child's id.
    pub fn is_well_formed(&self) -> (r: bool)
        ensures
            r == self.wf(),
    {
        let mut c: usize = 0;
        while c < self.commits.len()
            invariant
                c <= self.commits@.len(),
                forall|x: int, k: int| 0 <= x < c && 0 <= k < self.commits@[x].parents@.len()
                    ==> #[trigger] self.commits@[x].parents@[k] < x,
            decreases self.commits.len() - c,
        {
            let ps = &self.commits[c].parents;
            let mut k: usize = 0;
            while k < ps.len()
                invariant
                    c < self.commits@.len(),
                    ps@ == self.commits@[c as int].parents@,
                    k <= ps@.len(),
                    forall|t: int| 0 <= t < k ==> #[trigger] ps@[t] < c,
                decreases ps.len() - k,
            {
                if ps[k] >= c {
                    return false;
                }
                k = k + 1;
            }
            c = c + 1;
        }
        true
    }

    /// Whether every element of `s` names a commit of the graph.
    pub fn is_valid_set(&self, s: &Vec<CommitId>) -> (r: bool)
        ensures
            r == self.valid_set(s@),
    {
        let mut i: usize = 0;
        while i < s.len()
            invariant
                i <= s@.len(),
                forall|t: int| 0 <= t < i ==> #[trigger] s@[t] < self.size(),
            decreases s.len() - i,
        {
            if s[i] >= self.commits.len() {
                return false;
            }
            i = i + 1;
        }
        true
    }

    /// Membership table of a commit set.
    pub(crate) fn mark_set(&self, s: &Vec<CommitId>) -> (m: Vec<bool>)
        requires
            self.valid_set(s@),
        ensures
            m@.len() == self.size(),
            forall|c: int| 0 <= c < m@.len() ==> m@[c] == s@.contains(c as CommitId),
    {
        let n = self.commits.len();
        let mut m: Vec<bool> = Vec::new();
        let mut i: usize = 0;
        while i < n
            invariant
                i <= n == self.size(),
                m@.len() == i,
                forall|c: int| 0 <= c < i ==> !m@[c],
            decreases n - i,
        {
            m.push(false);
            i = i + 1;
        }
        let mut j: usize = 0;
        while j < s.len()
            invariant
                self.valid_set(s@),
                m@.len() == n == self.size(),
                j <= s@.len(),
                forall|c: int| 0 <= c < n ==> m@[c] == s@.take(j as int).contains(c as CommitId),
            decreases s.len() - j,
        {
            let x = s[j];
            assert(x < n);
            let ghost before = m@;
            m.set(x, true);
            assert forall|c: int| 0 <= c < n implies m@[c] == s@.take(j + 1).contains(c as CommitId) by {
                assert(s@.take(j + 1) == s@.take(j as int).push(x));
                assert(s@.take(j + 1)[j as int] == x);
                assert(before[c] == s@.take(j as int).contains(c as CommitId));
                if s@.take(j as int).contains(c as CommitId) {
                    let t = choose|t: int| 0 <= t < j && s@.take(j as int)[t] == c as CommitId;
                    assert(s@.take(j + 1)[t] == c as CommitId);
                }
                if s@.take(j + 1).contains(c as CommitId) && c as CommitId != x {
                    let t = choose|t: int| 0 <= t < j + 1 && #[trigger] s@.take(j + 1)[t] == c as CommitId;
                    assert(s@.take(j as int)[t] == c as CommitId);
                }
            }
            j = j + 1;
        }
        assert(s@.take(s@.len() as int) == s@);
        m
    }

    /// Whether some parent of `c` is marked in `m`.
    fn has_marked_parent(&self, c: CommitId, m: &Vec<bool>) -> (r: bool)
        requires
            self.wf(),
            c < self.size(),
            m@.len() == self.size(),
        ensures
            r == exists|p: CommitId| self.is_parent(p, c) && #[trigger] m@[p as int],
    {
        let ps = &self.commits[c].parents;
        let mut k: usize = 0;
        while k < ps.len()
            invariant
                self.wf(),
                c < self.size(),
                m@.len() == self.size(),
                ps@ == self.parents_of(c),
                k <= ps@.len(),
                forall|t: int| 0 <= t < k ==> !m@[ps@[t] as int],
            decreases ps.len() - k,
        {
            let p = ps[k];
            assert(p < c) by { assert(self.commits@[c as int].parents@[k as int] < c); }
            if m[p] {
                assert(self.is_parent(p, c));
                return true;
            }
            k = k + 1;
        }
        assert forall|p: CommitId| self.is_parent(p, c) implies !#[trigger] m@[p as int] by {
            let t = choose|t: int| 0 <= t < ps@.len() && ps@[t] == p;
        }
        false
    }

    /// The elements of `s` with no parent in `s`, in the order of `s`.
    pub(crate) fn valid_roots(&self, s: &Vec<CommitId>) -> (r: Vec<CommitId>)
        requires
            self.wf(),
            self.valid_set(s@),
        ensures
            r@ == s@.filter(|c: CommitId| !self.has_parent_in(c, s@.to_set())),
    {
        let ghost pred = |c: CommitId| !self.has_parent_in(c, s@.to_set());
        let m = self.mark_set(s);
        let mut r: Vec<CommitId> = Vec::new();
        let mut i: usize = 0;
        while i < s.len()
            invariant
                self.wf(),
                self.valid_set(s@),
                m@.len() == self.size(),
                forall|c: int| 0 <= c < m@.len() ==> m@[c] == s@.contains(c as CommitId),
                i <= s@.len(),
                pred == (|c: CommitId| !self.has_parent_in(c, s@.to_set())),
                r@ == s@.take(i as int).filter(pred),
            decreases s.len() - i,
        {
            let c = s[i];
            assert(c < self.size());
            let found = self.has_marked_parent(c, &m);
            proof {
                assert(s@.take(i + 1).drop_last() == s@.take(i as int));
                reveal(Seq::filter);
                if found {
                    let p = choose|p: CommitId| self.is_parent(p, c) && #[trigger] m@[p as int];
                    assert(s@.to_set().contains(p));
                } else {
                    assert forall|p: CommitId| self.is_parent(p, c) implies !#[trigger] s@.to_set().contains(p) by {
                        assert(p < self.size());
                        assert(!m@[p as int]);
                    }
                }
            }
            if !found {
                r.push(c);
            }
            i = i + 1;
        }
        assert(s@.take(s@.len() as int) == s@);
        r
    }

    /// Every commit of `m` is in `s` or a parent of a later commit of `m`.
    pub open spec fn justified_by(&self, m: Set<CommitId>, s: Set<CommitId>) -> bool {
        forall|c: CommitId| #[trigger] m.contains(c) ==> c < self.size() && (s.contains(c)
            || exists|d: CommitId| c < d && self.is_parent(c, d) && #[trigger] m.contains(d))
    }

    /// A set justified by `s` lies inside every parent-closed superset of `s`.
    pub proof fn lemma_justified_within(&self, m: Set<CommitId>, s: Set<CommitId>, r: Set<CommitId>, c: CommitId)
        requires
            self.justified_by(m, s),
            self.parent_closed(r),
            s.subset_of(r),
            m.contains(c),
        ensures
            r.contains(c),
        decreases self.size() - c,
    {
        if !s.contains(c) {
            let d = choose|d: CommitId| c < d && self.is_parent(c, d) && #[trigger] m.contains(d);
            self.lemma_justified_within(m, s, r, d);
        }
    }

    /// A parent-closed set justified by `s` is the set of ancestors of `s`.
    pub proof fn lemma_ancestors_exact(&self, m: Set<CommitId>, s: Set<CommitId>)
        requires
            self.justified_by(m, s),
            self.parent_closed(m),
            s.subset_of(m),
        ensures
            m == self.ancestors_of(s),
    {
        assert forall|c: CommitId| m.contains(c) implies #[trigger] self.ancestors_of(s).contains(c) by {
            assert forall|r: Set<CommitId>| self.parent_closed(r) && s.subset_of(r) implies #[trigger] r.contains(c) by {
                self.lemma_justified_within(m, s, r, c);
            }
        }
        assert(m =~= self.ancestors_of(s));
    }

    /// Ids of the commits marked in `m`, in increasing order.
    pub(crate) fn collect_marked(m: &Vec<bool>) -> (r: Vec<CommitId>)
        ensures
            increasing(r@),
            forall|c: CommitId| r@.contains(c) <==> c < m@.len() && #[trigger] m@[c as int],
            forall|t: int| 0 <= t < r@.len() ==> #[trigger] r@[t] < m@.len(),
    {
        let mut r: Vec<CommitId> = Vec::new();
        let mut j: usize = 0;
        while j < m.len()
            invariant
                j <= m@.len(),
                increasing(r@),
                forall|t: int| 0 <= t < r@.len() ==> #[trigger] r@[t] < j,
                forall|c: CommitId| r@.contains(c) <==> c < j && #[trigger] m@[c as int],
            decreases m.len() - j,
        {
            if m[j] {
                let ghost before = r@;
                r.push(j);
                assert(r@[before.len() as int] == j);
                assert forall|c: CommitId| r@.contains(c) <==> c < j + 1 && #[trigger] m@[c as int] by {
                    if r@.contains(c) && c != j {
                        let t = choose|t: int| 0 <= t < r@.len() && r@[t] == c;
                        assert(before[t] == c);
                    }
                    if before.contains(c) {
                        let t = choose|t: int| 0 <= t < before.len() && before[t] == c;
                        assert(r@[t] == c);
                    }
                }
            }
            j = j + 1;
        }
        r
    }

    /// The commits of `s` and all their ancestors, in increasing (topological) order.
    pub(crate) fn valid_ancestors(&self, s: &Vec<CommitId>) -> (r: Vec<CommitId>)
        requires
            self.wf(),
            self.valid_set(s@),
        ensures
            r@.to_set() == self.ancestors_of(s@.to_set()),
            increasing(r@),
    {
        let n = self.commits.len();
        let mut m = self.mark_set(s);
        let mut i: usize = n;
        while i > 0
            invariant
                self.wf(),
                n == self.size(),
                m@.len() == n,
                i <= n,
                forall|c: CommitId| c < n && s@.contains(c) ==> #[trigger] m@[c as int],
                forall|c: CommitId| c < n && #[trigger] m@[c as int] ==> s@.contains(c)
                    || exists|d: CommitId| c < d && self.is_parent(c, d) && #[trigger] m@[d as int],
                forall|p: CommitId, c: CommitId| #[trigger] self.is_parent(p, c) && i <= c && m@[c as int] ==> m@[p as int],
            decreases i,
        {
            i = i - 1;
            if m[i] {
                let ps = &self.commits[i].parents;
                let mut k: usize = 0;
                while k < ps.len()
                    invariant
                        self.wf(),
                        n == self.size(),
                        m@.len() == n,
                        i < n,
                        m@[i as int],
                        ps@ == self.parents_of(i),
                        k <= ps@.len(),
                        forall|t: int| 0 <= t < k ==> m@[#[trigger] ps@[t] as int],
                        forall|c: CommitId| c < n && s@.contains(c) ==> #[trigger] m@[c as int],
                        forall|c: CommitId| c < n && #[trigger] m@[c as int] ==> s@.contains(c)
                            || exists|d: CommitId| c < d && self.is_parent(c, d) && #[trigger] m@[d as int],
                        forall|p: CommitId, c: CommitId| #[trigger] self.is_parent(p, c) && i + 1 <= c && m@[c as int] ==> m@[p as int],
                    decreases ps.len() - k,
                {
                    let p = ps[k];
                    assert(p < i) by { assert(self.commits@[i as int].parents@[k as int] < i); }
                    assert(self.is_parent(p, i));
                    let ghost before = m@;
                    m.set(p, true);
                    assert forall|c: CommitId| c < n && #[trigger] m@[c as int] implies s@.contains(c)
                        || exists|d: CommitId| c < d && self.is_parent(c, d) && #[trigger] m@[d as int] by {
                        if c != p {
                            assert(before[c as int]);
                            if !s@.contains(c) {
                                let d = choose|d: CommitId| c < d && self.is_parent(c, d) && #[trigger] before[d as int];
                                assert(m@[d as int]);
                            }
                        } else {
                            assert(m@[i as int]);
                        }
                    }
                    k = k + 1;
                }
                assert forall|p: CommitId| #[trigger] self.is_parent(p, i) implies m@[p as int] by {
                    let t = choose|t: int| 0 <= t < ps@.len() && ps@[t] == p;
                }
            }
        }
        let r = Self::collect_marked(&m);
        proof {
            let ms = Set::new(|c: CommitId| c < n && m@[c as int]);
            let ss = s@.to_set();
            assert forall|c: CommitId| #[trigger] ms.contains(c) implies c < self.size() && (ss.contains(c)
                || exists|d: CommitId| c < d && self.is_parent(c, d) && #[trigger] ms.contains(d)) by {
                if !ss.contains(c) {
                    let d = choose|d: CommitId| c < d && self.is_parent(c, d) && #[trigger] m@[d as int];
                    assert(ms.contains(d));
                }
            }
            assert forall|c: CommitId| #[trigger] ss.contains(c) implies ms.contains(c) by {
                let t = choose|t: int| 0 <= t < s@.len() && s@[t] == c;
                assert(c < n);
            }
            self.lemma_ancestors_exact(ms, ss);
            assert forall|c: CommitId| #[trigger] r@.to_set().contains(c) == ms.contains(c) by {
                if c < n {
                    assert(r@.contains(c) <==> m@[c as int]);
                } else if r@.contains(c) {
                    let t = choose|t: int| 0 <= t < r@.len() && r@[t] == c;
                }
            }
            assert(r@.to_set() =~= ms);
        }
        r
    }

    /// Commits reachable from `heads` but not from `excluded`, in increasing order.
    pub(crate) fn valid_only(&self, heads: &Vec<CommitId>, excluded: &Vec<CommitId>) -> (r: Vec<CommitId>)
        requires
            self.wf(),
            self.valid_set(heads@),
            self.valid_set(excluded@),
        ensures
            r@.to_set() == self.ancestors_of(heads@.to_set()).difference(self.ancestors_of(excluded@.to_set())),
            increasing(r@),
    {
        let a = self.valid_ancestors(heads);
        let e = self.valid_ancestors(excluded);
        assert(self.valid_set(e@)) by {
            assert forall|t: int| 0 <= t < e@.len() implies #[trigger] e@[t] < self.size() by {
                assert(e@.to_set().contains(e@[t]));
            }
        }
        assert(self.valid_set(a@)) by {
            assert forall|t: int| 0 <= t < a@.len() implies #[trigger] a@[t] < self.size() by {
                assert(a@.to_set().contains(a@[t]));
            }
        }
        let me = self.mark_set(&e);
        let mut r: Vec<CommitId> = Vec::new();
        let mut i: usize = 0;
        while i < a.len()
            invariant
                self.valid_set(a@),
                increasing(a@),
                me@.len() == self.size(),
                forall|c: int| 0 <= c < me@.len() ==> me@[c] == e@.contains(c as CommitId),
                i <= a@.len(),
                increasing(r@),
                r@.len() > 0 ==> forall|u: int| i <= u < a@.len() ==> r@.last() < #[trigger] a@[u],
                forall|c: CommitId| #[trigger] r@.contains(c) <==> a@.take(i as int).contains(c) && !e@.contains(c),
            decreases a.len() - i,
        {
            let c = a[i];
            assert(c < self.size());
            let ghost before = r@;
            assert(a@.take(i + 1) == a@.take(i as int).push(c));
            assert(me@[c as int] == e@.contains(c));
            if !me[c] {
                r.push(c);
            }
            assert forall|x: CommitId| #[trigger] r@.contains(x) <==> a@.take(i + 1).contains(x) && !e@.contains(x) by {
                assert(a@.take(i + 1)[i as int] == c);
                assert(before.contains(x) <==> a@.take(i as int).contains(x) && !e@.contains(x));
                if x == c && !e@.contains(c) {
                    assert(r@[before.len() as int] == c);
                }
                if before.contains(x) {
                    let t = choose|t: int| 0 <= t < before.len() && before[t] == x;
                    assert(r@[t] == x);
                }
                if r@.contains(x) && x != c {
                    let t = choose|t: int| 0 <= t < r@.len() && r@[t] == x;
                    assert(before[t] == x);
                }
                if a@.take(i as int).contains(x) {
                    let t = choose|t: int| 0 <= t < i && a@.take(i as int)[t] == x;
                    assert(a@.take(i + 1)[t] == x);
                }
                if a@.take(i + 1).contains(x) && x != c {
                    let t = choose|t: int| 0 <= t < i + 1 && #[trigger] a@.take(i + 1)[t] == x;
                    assert(a@.take(i as int)[t] == x);
                }
            }
            i = i + 1;
        }
        assert(a@.take(a@.len() as int) == a@);
        assert(r@.to_set() =~= self.ancestors_of(heads@.to_set()).difference(self.ancestors_of(excluded@.to_set()))) by {
            assert forall|x: CommitId| r@.to_set().contains(x) == (a@.to_set().contains(x) && !e@.to_set().contains(x)) by {
                assert(a@.take(a@.len() as int) == a@);
                assert(r@.contains(x) <==> a@.take(a@.len() as int).contains(x) && !e@.contains(x));
                assert(r@.to_set().contains(x) == r@.contains(x));
                assert(a@.to_set().contains(x) == a@.contains(x));
                assert(e@.to_set().contains(x) == e@.contains(x));
            }
        }
        r
    }

    /// The draft commits (visible and not public), in increasing order.
    pub fn query_draft_commits(&self) -> (r: Vec<CommitId>)
        ensures
            r@.to_set() == Set::new(|c: CommitId| self.is_draft(c)),
            increasing(r@),
            self.valid_set(r@),
    {
        let n = self.commits.len();
        let mut r: Vec<CommitId> = Vec::new();
        let mut i: usize = 0;
        while i < n
            invariant
                n == self.size(),
                i <= n,
                increasing(r@),
                forall|t: int| 0 <= t < r@.len() ==> #[trigger] r@[t] < i,
                forall|c: CommitId| #[trigger] r@.contains(c) <==> c < i && self.is_draft(c),
            decreases n - i,
        {
            let ghost before = r@;
            if self.commits[i].visible && !self.commits[i].public {
                r.push(i);
                assert(r@[before.len() as int] == i);
            }
            assert forall|c: CommitId| #[trigger] r@.contains(c) <==> c < i + 1 && self.is_draft(c) by {
                if before.contains(c) {
                    let t = choose|t: int| 0 <= t < before.len() && before[t] == c;
                    assert(r@[t] == c);
                }
                if r@.contains(c) && c != i {
                    let t = choose|t: int| 0 <= t < r@.len() && r@[t] == c;
                    assert(before[t] == c);
                }
            }
            i = i + 1;
        }
        assert(r@.to_set() =~= Set::new(|c: CommitId| self.is_draft(c)));
        r
    }

    /// A set whose commits are `root` or have a parent in the set lies inside
    /// every child-closed set that holds `root`.
    pub proof fn lemma_descends_within(&self, m: Set<CommitId>, root: CommitId, r: Set<CommitId>, c: CommitId)
        requires
            forall|x: CommitId| #[trigger] m.contains(x) ==> x == root
                || exists|p: CommitId| p < x && self.is_parent(p, x) && #[trigger] m.contains(p),
            self.child_closed(r),
            r.contains(root),
            m.contains(c),
        ensures
            r.contains(c),
        decreases c,
    {
        if c != root {
            let p = choose|p: CommitId| p < c && self.is_parent(p, c) && #[trigger] m.contains(p);
            self.lemma_descends_within(m, root, r, p);
        }
    }

    /// The commit `root` and all its descendants, in increasing (topological) order.
    pub(crate) fn valid_descendants(&self, root: CommitId) -> (r: Vec<CommitId>)
        requires
            self.wf(),
            root < self.size(),
        ensures
            r@.to_set() == self.descendants_of(root),
            increasing(r@),
            self.valid_set(r@),
    {
        let n = self.commits.len();
        let mut m: Vec<bool> = Vec::new();
        let mut j: usize = 0;
        while j < n
            invariant
                j <= n == self.size(),
                m@.len() == j,
                forall|c: int| 0 <= c < j ==> !m@[c],
            decreases n - j,
        {
            m.push(false);
            j = j + 1;
        }
        m.set(root, true);
        let mut i: usize = root + 1;
        while i < n
            invariant
                self.wf(),
                n == self.size(),
                root < i <= n,
                m@.len() == n,
                m@[root as int],
                forall|c: CommitId| c < n && c != root && (c < root || i <= c) ==> !#[trigger] m@[c as int],
                forall|c: CommitId| c < n && #[trigger] m@[c as int] ==> c == root
                    || exists|p: CommitId| p < c && self.is_parent(p, c) && #[trigger] m@[p as int],
                forall|p: CommitId, c: CommitId| #[trigger] self.is_parent(p, c) && c < i && m@[p as int] ==> m@[c as int],
            decreases n - i,
        {
            let found = self.has_marked_parent(i, &m);
            let ghost before = m@;
            m.set(i, found);
            proof {
                if found {
                    let p = choose|p: CommitId| self.is_parent(p, i) && #[trigger] before[p as int];
                    assert(p < i) by {
                        let k = choose|k: int| 0 <= k < self.parents_of(i).len() && self.parents_of(i)[k] == p;
                        assert(self.commits@[i as int].parents@[k] < i);
                    }
                    assert(m@[p as int]);
                }
                assert forall|c: CommitId| c < n && #[trigger] m@[c as int] implies c == root
                    || exists|q: CommitId| q < c && self.is_parent(q, c) && #[trigger] m@[q as int] by {
                    if c != i {
                        assert(before[c as int]);
                        if c != root {
                            let q = choose|q: CommitId| q < c && self.is_parent(q, c) && #[trigger] before[q as int];
                            assert(q != i);
                            assert(m@[q as int]);
                        }
                    }
                }
                assert forall|p: CommitId, c: CommitId| #[trigger] self.is_parent(p, c) && c < i + 1 && m@[p as int] implies m@[c as int] by {
                    assert(p < c) by {
                        let k = choose|k: int| 0 <= k < self.parents_of(c).len() && self.parents_of(c)[k] == p;
                        assert(self.commits@[c as int].parents@[k] < c);
                    }
                    if c == i {
                        assert(before[p as int]);
                    } else {
                        assert(before[p as int]);
                    }
                }
            }
            i = i + 1;
        }
        let r = Self::collect_marked(&m);
        proof {
            let ms = Set::new(|c: CommitId| c < n && m@[c as int]);
            assert forall|x: CommitId| #[trigger] ms.contains(x) implies x == root
                || exists|p: CommitId| p < x && self.is_parent(p, x) && #[trigger] ms.contains(p) by {
                if x != root {
                    let p = choose|p: CommitId| p < x && self.is_parent(p, x) && #[trigger] m@[p as int];
                    assert(ms.contains(p));
                }
            }
            assert forall|c: CommitId| #[trigger] self.descendants_of(root).contains(c) == ms.contains(c) by {
                if ms.contains(c) {
                    assert forall|r2: Set<CommitId>| self.child_closed(r2) && r2.contains(root) implies #[trigger] r2.contains(c) by {
                        self.lemma_descends_within(ms, root, r2, c);
                    }
                }
                if self.descendants_of(root).contains(c) {
                    assert(self.child_closed(ms));
                    assert(ms.contains(root));
                }
            }
            assert forall|c: CommitId| #[trigger] r@.to_set().contains(c) == ms.contains(c) by {
                if c < n {
                    assert(r@.contains(c) <==> m@[c as int]);
                } else if r@.contains(c) {
                    let t = choose|t: int| 0 <= t < r@.len() && r@[t] == c;
                }
            }
            assert(r@.to_set() =~= self.descendants_of(root));
        }
        r
    }

    /// The elements of `s` with no parent in `s`, in the order of `s`.
    pub fn roots(&self, s: &Vec<CommitId>) -> (r: Result<Vec<CommitId>, GraphError>)
        requires
            self.wf(),
        ensures
            (r is Err) <==> !self.valid_set(s@),
            r matches Ok(v) ==> v@ == s@.filter(|c: CommitId| !self.has_parent_in(c, s@.to_set())),
    {
        if !self.is_valid_set(s) {
            return Err(GraphError::UnresolvedCommit);
        }
        Ok(self.valid_roots(s))
    }

    /// The commits of `s` and all their ancestors, in increasing (topological) order.
    pub fn ancestors(&self, s: &Vec<CommitId>) -> (r: Result<Vec<CommitId>, GraphError>)
        requires
            self.wf(),
        ensures
            (r is Err) <==> !self.valid_set(s@),
            r matches Ok(v) ==> v@.to_set() == self.ancestors_of(s@.to_set()) && increasing(v@),
    {
        if !self.is_valid_set(s) {
            return Err(GraphError::UnresolvedCommit);
        }
        Ok(self.valid_ancestors(s))
    }

    /// Commits reachable from `heads` but not from `excluded`, in increasing order.
    pub fn only(&self, heads: &Vec<CommitId>, excluded: &Vec<CommitId>) -> (r: Result<Vec<CommitId>, GraphError>)
        requires
            self.wf(),
        ensures
            (r is Err) <==> !self.valid_set(heads@) || !self.valid_set(excluded@),
            r matches Ok(v) ==> v@.to_set() == self.ancestors_of(heads@.to_set()).difference(
                self.ancestors_of(excluded@.to_set())) && increasing(v@),
    {
        if !self.is_valid_set(heads) || !self.is_valid_set(excluded) {
            return Err(GraphError::UnresolvedCommit);
        }
        Ok(self.valid_only(heads, excluded))
    }

    /// The commit `root` and all its descendants, in increasing (topological) order.
    pub fn descendants(&self, root: CommitId) -> (r: Result<Vec<CommitId>, GraphError>)
        requires
            self.wf(),
        ensures
            (r is Err) <==> root >= self.size(),
            r matches Ok(v) ==> v@.to_set() == self.descendants_of(root) && increasing(v@),
    {
        if root >= self.commits.len() {
            return Err(GraphError::UnresolvedCommit);
        }
        Ok(self.valid_descendants(root))
    }

    /// A parent has a smaller id than its child.
    pub proof fn lemma_parent_smaller(&self, p: CommitId, c: CommitId)
        requires
            self.wf(),
            self.is_parent(p, c),
        ensures
            p < c,
    {
        let k = choose|k: int| 0 <= k < self.parents_of(c).len() && self.parents_of(c)[k] == p;
        assert(self.commits@[c as int].parents@[k] < c);
    }

    /// A descendant of `root` has an id no smaller than `root`.
    pub proof fn lemma_descendant_not_smaller(&self, root: CommitId, c: CommitId)
        requires
            self.wf(),
            self.descendants_of(root).contains(c),
        ensures
            root <= c,
    {
        let r = Set::new(|x: CommitId| root <= x);
        assert forall|p: CommitId, x: CommitId| #[trigger] self.is_parent(p, x) && r.contains(p) implies r.contains(x) by {
            self.lemma_parent_smaller(p, x);
        }
        assert(r.contains(c));
    }
}

/// Strictly increasing: sorted, with no element twice.
pub open spec fn increasing(s: Seq<CommitId>) -> bool {
    forall|a: int, b: int| 0 <= a < b < s.len() ==> s[a] < s[b]
}

/// Filtering keeps a sequence increasing.
pub proof fn lemma_filter_increasing(s: Seq<CommitId>, pred: spec_fn(CommitId) -> bool)
    requires
        increasing(s),
    ensures
        increasing(s.filter(pred)),
    decreases s.len(),
{
    reveal(Seq::filter);
    if s.len() > 0 {
        let rest = s.drop_last();
        assert(increasing(rest));
        lemma_filter_increasing(rest, pred);
        let f = rest.filter(pred);
        if pred(s.last()) {
            assert forall|a: int| 0 <= a < f.len() implies #[trigger] f[a] < s.last() by {
                assert(f.contains(f[a]));
                rest.lemma_filter_contains_rev(pred, f[a]);
                let j = choose|j: int| 0 <= j < rest.len() && rest[j] == f[a];
                assert(s[j] < s[s.len() - 1]);
            }
            assert(increasing(f.push(s.last())));
        }
    }
}

} // verus!
