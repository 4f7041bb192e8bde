use vstd::prelude::*;
use crate::graph::{CommitGraph, marked_from, list_marked, set_of};
use crate::plan::{ids_in, plan_move_commits, MovePlan, MoveRequest, MoveSpec};
use crate::order::rewrite_order;
use crate::destination::{
    RebaseError, check_rebase_destinations, compute_destination, destination_outcome, first_marked,
    first_marked_index, has_parent_in,
};
use crate::seqs::extend_with;

verus! {

/// Counts of what a move did to the commits it revisited.
#[derive(Debug, Clone, Copy, PartialEq, Eq, Structural)]
pub struct MoveCommitsStats {
    /// Target commits that were rebased.
    pub num_rebased_targets: u32,
    /// Commits outside the target set that were rebased.
    pub num_rebased_descendants: u32,
    /// Commits left alone because they were already in place.
    pub num_skipped_rebases: u32,
    /// Commits abandoned because the rebase emptied them.
    pub num_abandoned: u32,
}

impl MoveCommitsStats {
    pub open spec fn total(&self) -> int {
        self.num_rebased_targets + self.num_rebased_descendants + self.num_skipped_rebases + self.num_abandoned
    }

    pub open spec fn is_zero(&self) -> bool {
        &&& self.num_rebased_targets == 0
        &&& self.num_rebased_descendants == 0
        &&& self.num_skipped_rebases == 0
        &&& self.num_abandoned == 0
    }

    pub fn zero() -> (r: Self)
        ensures
            r.is_zero(),
    {
        MoveCommitsStats { num_rebased_targets: 0, num_rebased_descendants: 0, num_skipped_rebases: 0, num_abandoned: 0 }
    }
}

/// What came of rewriting one revisited commit.
#[derive(Debug, Clone, Copy, PartialEq, Eq, Structural)]
pub enum RewriteOutcome {
    /// Its parents were already the planned ones.
    Skipped,
    /// The rebase emptied it and it was dropped.
    Abandoned,
    /// It was rebased onto its planned parents.
    Rebased,
}

/// The classification of a rewrite: skipped when the parents did not
/// change, otherwise abandoned or rebased as the rewriter reports.
pub open spec fn outcome_of(parents_changed: bool, abandoned: bool) -> RewriteOutcome {
    if !parents_changed {
        RewriteOutcome::Skipped
    } else if abandoned {
        RewriteOutcome::Abandoned
    } else {
        RewriteOutcome::Rebased
    }
}

/// `stats` after one more rewrite of a commit with the given outcome.
pub open spec fn stats_after(stats: MoveCommitsStats, outcome: RewriteOutcome, is_target: bool) -> MoveCommitsStats {
    match outcome {
        RewriteOutcome::Skipped => MoveCommitsStats { num_skipped_rebases: (stats.num_skipped_rebases + 1) as u32, ..stats },
        RewriteOutcome::Abandoned => MoveCommitsStats { num_abandoned: (stats.num_abandoned + 1) as u32, ..stats },
        RewriteOutcome::Rebased => if is_target {
            MoveCommitsStats { num_rebased_targets: (stats.num_rebased_targets + 1) as u32, ..stats }
        } else {
            MoveCommitsStats { num_rebased_descendants: (stats.num_rebased_descendants + 1) as u32, ..stats }
        },
    }
}

/// A planned move being carried out: the commits of `order` are rewritten one
/// after the other onto their planned parents; `position` commits are done.
pub struct MoveCommits {
    pub plan: MovePlan,
    pub order: Vec<usize>,
    pub is_target: Vec<bool>,
    pub position: usize,
    pub stats: MoveCommitsStats,
}

impl MoveCommits {
    pub open spec fn wf(&self) -> bool {
        &&& self.plan.new_parents@.len() == self.plan.visit@.len()
        &&& self.is_target@.len() == self.plan.visit@.len()
        &&& self.plan.is_rewrite_order(self.order@)
        &&& self.order@.len() <= u32::MAX
        &&& self.position <= self.order@.len()
        &&& self.stats.total() == self.position
    }

    /// Whether every revisited commit has been rewritten.
    pub fn is_done(&self) -> (r: bool)
        requires
            self.wf(),
        ensures
            r == (self.position == self.order@.len()),
    {
        self.position == self.order.len()
    }

    /// The next commit to rewrite, with the parents planned for it.
    pub fn next_rewrite(&self) -> (r: Option<(usize, Vec<usize>)>)
        requires
            self.wf(),
        ensures
            r is None <==> self.position == self.order@.len(),
            r matches Some((c, ps)) ==> c == self.order@[self.position as int] && ps@ == self.plan.parents_after(c as int),
    {
        if self.position == self.order.len() {
            None
        } else {
            let c = self.order[self.position];
            let mut ps: Vec<usize> = Vec::new();
            extend_with(&mut ps, &self.plan.new_parents[c]);
            Some((c, ps))
        }
    }

    /// Records how the rewrite of the next commit went and moves on.
    pub fn record_rewrite(&mut self, parents_changed: bool, abandoned: bool) -> (outcome: RewriteOutcome)
        requires
            old(self).wf(),
            old(self).position < old(self).order@.len(),
        ensures
            final(self).wf(),
            outcome == outcome_of(parents_changed, abandoned),
            final(self).plan == old(self).plan,
            final(self).order == old(self).order,
            final(self).is_target == old(self).is_target,
            final(self).position == old(self).position + 1,
            final(self).stats == stats_after(
                old(self).stats,
                outcome,
                old(self).is_target@[old(self).order@[old(self).position as int] as int],
            ),
    {
        let c = self.order[self.position];
        let outcome = if !parents_changed {
            self.stats.num_skipped_rebases = self.stats.num_skipped_rebases + 1;
            RewriteOutcome::Skipped
        } else if abandoned {
            self.stats.num_abandoned = self.stats.num_abandoned + 1;
            RewriteOutcome::Abandoned
        } else if self.is_target[c] {
            self.stats.num_rebased_targets = self.stats.num_rebased_targets + 1;
            RewriteOutcome::Rebased
        } else {
            self.stats.num_rebased_descendants = self.stats.num_rebased_descendants + 1;
            RewriteOutcome::Rebased
        };
        self.position = self.position + 1;
        outcome
    }
}

/// No plan of `req` has an order in which its commits can be rewritten.
pub open spec fn no_rewrite_order(g: CommitGraph, req: MoveSpec) -> bool {
    forall|p: MovePlan, o: Seq<usize>| p.plans(g, req) ==> !#[trigger] p.is_rewrite_order(o)
}

/// Two plans of the same move agree on every commit.
proof fn lemma_rewrite_order_shared(g: CommitGraph, req: MoveSpec, p1: MovePlan, p2: MovePlan, o: Seq<usize>)
    requires
        p1.plans(g, req),
        p2.plans(g, req),
        p1.is_rewrite_order(o),
    ensures
        p2.is_rewrite_order(o),
{
    assert(p1.visit@ =~= p2.visit@);
    assert forall|c: int| 0 <= c < g.len() implies p1.parents_after(c) == p2.parents_after(c) by {
        if p1.visit@[c] {
        } else {
        }
    }
    assert forall|i: int, j: int|
        0 <= i < o.len() && 0 <= j < o.len() && #[trigger] p2.parents_after(o[i] as int).contains(#[trigger] o[j])
        implies j < i by {
        assert(p1.parents_after(o[i] as int) == p2.parents_after(o[i] as int));
    }
}

/// Plans the move of `req` and orders its rewrites; refused when the planned
/// parents would form a cycle.
pub fn move_commits(g: &CommitGraph, req: &MoveRequest) -> (r: Result<MoveCommits, RebaseError>)
    requires
        g.wf(),
        req@.valid_for(*g),
        g.len() <= u32::MAX,
    ensures
        r matches Ok(m) ==> m.wf() && m.plan.plans(*g, req@) && m.position == 0 && m.stats.is_zero()
            && forall|c: int| 0 <= c < g.len() ==> m.is_target@[c] == req@.targets.contains(c as usize),
        r is Err <==> no_rewrite_order(*g, req@),
        r matches Err(e) ==> e == RebaseError::CycleInPlan,
{
    let plan = plan_move_commits(g, req);
    let is_target = g.mask_of(&req.targets);
    match rewrite_order(&plan) {
        Some(order) => {
            proof {
                assert(!no_rewrite_order(*g, req@)) by {
                    assert(plan.plans(*g, req@) && plan.is_rewrite_order(order@));
                }
            }
            Ok(MoveCommits { plan, order, is_target, position: 0, stats: MoveCommitsStats::zero() })
        },
        None => {
            proof {
                assert forall|p: MovePlan, o: Seq<usize>| p.plans(*g, req@) implies !#[trigger] p.is_rewrite_order(o) by {
                    if p.is_rewrite_order(o) {
                        lemma_rewrite_order_shared(*g, req@, p, plan, o);
                    }
                }
            }
            Err(RebaseError::CycleInPlan)
        },
    }
}

/// `m` is a move of `req` within `g` that has not started yet.
pub open spec fn is_started_move(g: CommitGraph, req: MoveSpec, m: MoveCommits) -> bool {
    &&& m.wf()
    &&& m.plan.plans(g, req)
    &&& m.position == 0
    &&& m.stats.is_zero()
    &&& forall|c: int| 0 <= c < g.len() ==> m.is_target@[c] == req.targets.contains(c as usize)
}

/// `r` is what moving `req` gives: the move ready to run, or its refusal
/// because its planned parents form a cycle.
pub open spec fn is_move_of(g: CommitGraph, req: MoveSpec, r: Result<MoveCommits, RebaseError>) -> bool {
    match r {
        Ok(m) => is_started_move(g, req, m),
        Err(e) => e == RebaseError::CycleInPlan && no_rewrite_order(g, req),
    }
}

/// The move that rebases `roots` and their descendants onto `new_parents`.
pub open spec fn descendants_request(g: CommitGraph, new_parents: Seq<usize>, roots: Seq<usize>) -> MoveSpec {
    MoveSpec {
        new_parent_ids: new_parents,
        new_children: seq![],
        targets: marked_from(Seq::new(g.len(), |c: int| g.reaches(set_of(roots), c as usize)), 0),
        target_roots: roots,
    }
}

/// No new parent descends from `root`.
pub open spec fn root_may_move(g: CommitGraph, new_parents: Seq<usize>, root: usize) -> bool {
    forall|j: int| 0 <= j < new_parents.len() ==> !g.is_ancestor_spec(root, #[trigger] new_parents[j])
}

/// `i` is the first root onto one of whose descendants a rebase is asked.
pub open spec fn first_blocked_root(g: CommitGraph, new_parents: Seq<usize>, roots: Seq<usize>, i: int) -> bool {
    &&& 0 <= i < roots.len()
    &&& !root_may_move(g, new_parents, roots[i])
    &&& forall|k: int| 0 <= k < i ==> root_may_move(g, new_parents, #[trigger] roots[k])
}

/// `j` is the first new parent that descends from `root`.
pub open spec fn first_descendant_parent(g: CommitGraph, new_parents: Seq<usize>, root: usize, j: int) -> bool {
    &&& 0 <= j < new_parents.len()
    &&& g.is_ancestor_spec(root, new_parents[j])
    &&& forall|k: int| 0 <= k < j ==> !g.is_ancestor_spec(root, #[trigger] new_parents[k])
}

/// Why rebasing `roots` and their descendants is refused before any
/// planning, if it is.
pub open spec fn descendants_refusal(
    g: CommitGraph,
    new_parents: Seq<usize>,
    roots: Seq<usize>,
    immutable: Seq<bool>,
) -> Option<RebaseError> {
    if exists|i: int| 0 <= i < roots.len() && immutable[#[trigger] roots[i] as int] {
        Some(RebaseError::NotRewritable(roots[choose|i: int| first_marked(roots, immutable, i)]))
    } else if exists|i: int| 0 <= i < roots.len() && !root_may_move(g, new_parents, #[trigger] roots[i]) {
        let i = choose|i: int| first_blocked_root(g, new_parents, roots, i);
        let j = choose|j: int| first_descendant_parent(g, new_parents, roots[i], j);
        Some(RebaseError::CannotRebaseOntoDescendant(roots[i], new_parents[j]))
    } else {
        None
    }
}

/// What rebasing `roots` and their descendants onto `new_parents` gives.
pub open spec fn is_descendants_rebase(
    g: CommitGraph,
    new_parents: Seq<usize>,
    roots: Seq<usize>,
    immutable: Seq<bool>,
    r: Result<Option<MoveCommits>, RebaseError>,
) -> bool {
    if roots.len() == 0 {
        r matches Ok(None)
    } else {
        match descendants_refusal(g, new_parents, roots, immutable) {
            Some(e) => r == Err::<Option<MoveCommits>, RebaseError>(e),
            None => match r {
                Ok(Some(m)) => is_move_of(g, descendants_request(g, new_parents, roots), Ok(m)),
                Ok(None) => false,
                Err(e) => is_move_of(g, descendants_request(g, new_parents, roots), Err(e)),
            },
        }
    }
}

/// Rebases `roots` and all their descendants onto `new_parents`: nothing to
/// do without roots; refused when a root may not be rewritten or a new parent
/// descends from a root.
pub fn rebase_descendants(
    g: &CommitGraph,
    new_parents: &Vec<usize>,
    roots: &Vec<usize>,
    immutable: &Vec<bool>,
) -> (r: Result<Option<MoveCommits>, RebaseError>)
    requires
        g.wf(),
        g.len() <= u32::MAX,
        ids_in(*g, new_parents@),
        ids_in(*g, roots@),
        immutable@.len() == g.len(),
    ensures
        is_descendants_rebase(*g, new_parents@, roots@, immutable@, r),
{
    if roots.len() == 0 {
        return Ok(None);
    }
    match first_marked_index(roots, immutable) {
        Some(i) => {
            proof {
                let k = choose|k: int| first_marked(roots@, immutable@, k);
                assert(k == i) by {
                    if k < i {
                        assert(immutable@[roots@[k] as int]);
                    }
                    if i < k {
                        assert(!immutable@[roots@[i as int] as int]);
                    }
                }
            }
            return Err(RebaseError::NotRewritable(roots[i]));
        },
        None => {},
    }
    let mut i: usize = 0;
    while i < roots.len()
        invariant
            g.wf(),
            ids_in(*g, new_parents@),
            ids_in(*g, roots@),
            i <= roots@.len(),
            roots@.len() > 0,
            immutable@.len() == g.len(),
            forall|k: int| 0 <= k < roots@.len() ==> !immutable@[#[trigger] roots@[k] as int],
            forall|k: int| 0 <= k < i ==> root_may_move(*g, new_parents@, #[trigger] roots@[k]),
        decreases roots@.len() - i,
    {
        match check_rebase_destinations(g, new_parents, roots[i]) {
            Err(e) => {
                proof {
                    assert(first_blocked_root(*g, new_parents@, roots@, i as int));
                    let k = choose|k: int| first_blocked_root(*g, new_parents@, roots@, k);
                    assert(k == i) by {
                        if k < i {
                            assert(root_may_move(*g, new_parents@, roots@[k]));
                        }
                        if i < k {
                            assert(!root_may_move(*g, new_parents@, roots@[i as int]));
                        }
                    }
                    let j = choose|j: int|
                        0 <= j < new_parents@.len() && e == RebaseError::CannotRebaseOntoDescendant(roots@[i as int], new_parents@[j])
                            && g.is_ancestor_spec(roots@[i as int], new_parents@[j])
                            && forall|q: int| 0 <= q < j ==> !g.is_ancestor_spec(roots@[i as int], #[trigger] new_parents@[q]);
                    assert(first_descendant_parent(*g, new_parents@, roots@[i as int], j));
                    let j2 = choose|j2: int| first_descendant_parent(*g, new_parents@, roots@[i as int], j2);
                    assert(j2 == j) by {
                        if j2 < j {
                            assert(!g.is_ancestor_spec(roots@[i as int], new_parents@[j2]));
                        }
                        if j < j2 {
                            assert(!g.is_ancestor_spec(roots@[i as int], new_parents@[j]));
                        }
                    }
                    assert(exists|i: int| 0 <= i < roots@.len() && !root_may_move(*g, new_parents@, #[trigger] roots@[i]));
                }
                return Err(e);
            },
            Ok(()) => {},
        }
        i = i + 1;
    }
    let root_mask = g.mask_of(roots);
    let below = g.descendants_mask(&root_mask);
    let targets = list_marked(&below);
    proof {
        assert(below@ =~= Seq::new(g.len(), |c: int| g.reaches(set_of(roots@), c as usize)));
    }
    let mut parent_ids: Vec<usize> = Vec::new();
    extend_with(&mut parent_ids, new_parents);
    let mut root_ids: Vec<usize> = Vec::new();
    extend_with(&mut root_ids, roots);
    let req = MoveRequest { new_parent_ids: parent_ids, new_children: Vec::new(), targets, target_roots: root_ids };
    proof {
        assert(req@ == descendants_request(*g, new_parents@, roots@));
    }
    match move_commits(g, &req) {
        Ok(m) => Ok(Some(m)),
        Err(e) => Err(e),
    }
}

/// Rebasing the descendants of roots that already sit on exactly the new
/// parents, none of which descends from a root, plans no change of parents for
/// any commit: a rebase repeated with the same arguments finds every commit in
/// place.
pub proof fn lemma_rebase_descendants_in_place(g: CommitGraph, new_parents: Seq<usize>, roots: Seq<usize>, plan: MovePlan)
    requires
        g.wf(),
        ids_in(g, new_parents),
        ids_in(g, roots),
        roots.len() > 0,
        forall|i: int| 0 <= i < roots.len() ==> g.pars(#[trigger] roots[i]) == new_parents,
        forall|j: int| 0 <= j < new_parents.len() ==> !g.reaches(set_of(roots), #[trigger] new_parents[j]),
        plan.plans(g, descendants_request(g, new_parents, roots)),
    ensures
        forall|c: int| 0 <= c < g.len() ==> #[trigger] plan.new_parents@[c]@ == g.pars(c as usize),
{
    let req = descendants_request(g, new_parents, roots);
    let t = req.target_set();
    let below = Seq::new(g.len(), |c: int| g.reaches(set_of(roots), c as usize));
    assert forall|x: usize| #[trigger] t.contains(x) <==> (x < g.len() && g.reaches(set_of(roots), x)) by {
        crate::graph::lemma_marked_from_contains(below, 0, x);
    }
    assert forall|d: usize, k: int| d < g.len() && 0 <= k < g.pars(d).len() && !t.contains(d) implies !t.contains(
        #[trigger] g.pars(d)[k],
    ) by {
        g.lemma_reaches_step(set_of(roots), d);
    }
    assert forall|r: usize| r < g.len() && t.contains(r) && #[trigger] crate::plan::is_move_root(g, req, r) implies g.pars(r)
        == new_parents by {
        let i = choose|i: int| 0 <= i < roots.len() && roots[i] == r;
    }
    assert forall|i: int| 0 <= i < req.targets.len() implies req.targets[i] < g.len() by {
        assert(t.contains(req.targets[i]));
    }
    crate::plan::lemma_move_in_place(g, req, plan);
}

/// `c` is an ancestor of the branch but not of the new parents.
pub open spec fn in_branch_range(g: CommitGraph, new_parents: Seq<usize>, branch: Seq<usize>, c: usize) -> bool {
    g.reached_by(set_of(branch), c) && !g.reached_by(set_of(new_parents), c)
}

/// `c` is in the branch range and none of its parents is.
pub open spec fn is_branch_root(g: CommitGraph, new_parents: Seq<usize>, branch: Seq<usize>, c: usize) -> bool {
    &&& in_branch_range(g, new_parents, branch, c)
    &&& !has_parent_in(g, c, Set::new(|p: usize| p < g.len() && in_branch_range(g, new_parents, branch, p)))
}

/// The roots of the branch range, in decreasing index order.
pub open spec fn branch_roots_spec(g: CommitGraph, new_parents: Seq<usize>, branch: Seq<usize>) -> Seq<usize> {
    marked_from(Seq::new(g.len(), |c: int| is_branch_root(g, new_parents, branch, c as usize)), 0)
}

/// The roots of the commits that are ancestors of `branch` but not of
/// `new_parents`: the commits a branch rebase moves along with their
/// descendants.
pub fn branch_roots(g: &CommitGraph, new_parents: &Vec<usize>, branch: &Vec<usize>) -> (r: Vec<usize>)
    requires
        g.wf(),
        ids_in(*g, new_parents@),
        ids_in(*g, branch@),
    ensures
        r@ == branch_roots_spec(*g, new_parents@, branch@),
        ids_in(*g, r@),
{
    let n = g.num_commits();
    let bm = g.mask_of(branch);
    let pm = g.mask_of(new_parents);
    let above_branch = g.ancestors_mask(&bm);
    let above_parents = g.ancestors_mask(&pm);
    let ghost range = Set::new(|p: usize| p < g.len() && in_branch_range(*g, new_parents@, branch@, p));
    let mut roots: Vec<bool> = Vec::new();
    let mut c: usize = 0;
    while c < n
        invariant
            g.wf(),
            n == g.len(),
            c <= n,
            above_branch@.len() == n,
            above_parents@.len() == n,
            forall|j: int| 0 <= j < n ==> above_branch@[j] == g.reached_by(set_of(branch@), j as usize),
            forall|j: int| 0 <= j < n ==> above_parents@[j] == g.reached_by(set_of(new_parents@), j as usize),
            range == Set::new(|p: usize| p < g.len() && in_branch_range(*g, new_parents@, branch@, p)),
            roots@.len() == c,
            forall|j: int| 0 <= j < c ==> roots@[j] == is_branch_root(*g, new_parents@, branch@, j as usize),
        decreases n - c,
    {
        let mut is_root = above_branch[c] && !above_parents[c];
        if is_root {
            let ps = &g.parents[c];
            let mut k: usize = 0;
            while k < ps.len()
                invariant
                    g.wf(),
                    n == g.len(),
                    c < n,
                    above_branch@.len() == n,
                    above_parents@.len() == n,
                    forall|j: int| 0 <= j < n ==> above_branch@[j] == g.reached_by(set_of(branch@), j as usize),
                    forall|j: int| 0 <= j < n ==> above_parents@[j] == g.reached_by(set_of(new_parents@), j as usize),
                    range == Set::new(|p: usize| p < g.len() && in_branch_range(*g, new_parents@, branch@, p)),
                    *ps == g.parents@[c as int],
                    k <= ps@.len(),
                    is_root == (in_branch_range(*g, new_parents@, branch@, c)
                        && forall|q: int| 0 <= q < k ==> !range.contains(#[trigger] g.pars(c)[q])),
                decreases ps@.len() - k,
            {
                let p = ps[k];
                assert(g.parents@[c as int]@[k as int] < c);
                assert(g.pars(c)[k as int] == p);
                if above_branch[p] && !above_parents[p] {
                    is_root = false;
                }
                k = k + 1;
            }
        }
        roots.push(is_root);
        c = c + 1;
    }
    proof {
        assert(roots@ =~= Seq::new(g.len(), |c: int| is_branch_root(*g, new_parents@, branch@, c as usize)));
    }
    list_marked(&roots)
}

/// Rebases the branch of `branch` onto `new_parents`: the roots of what the
/// branch has beyond the new parents, and their descendants.
pub fn rebase_branch(
    g: &CommitGraph,
    new_parents: &Vec<usize>,
    branch: &Vec<usize>,
    immutable: &Vec<bool>,
) -> (r: Result<Option<MoveCommits>, RebaseError>)
    requires
        g.wf(),
        g.len() <= u32::MAX,
        ids_in(*g, new_parents@),
        ids_in(*g, branch@),
        immutable@.len() == g.len(),
    ensures
        is_descendants_rebase(*g, new_parents@, branch_roots_spec(*g, new_parents@, branch@), immutable@, r),
{
    let roots = branch_roots(g, new_parents, branch);
    rebase_descendants(g, new_parents, &roots, immutable)
}

/// What rebasing the revisions `targets` alone gives.
pub open spec fn is_revisions_rebase(
    g: CommitGraph,
    targets: Seq<usize>,
    destination: Seq<usize>,
    insert_after: Seq<usize>,
    insert_before: Seq<usize>,
    immutable: Seq<bool>,
    r: Result<Option<MoveCommits>, RebaseError>,
) -> bool {
    if exists|i: int| 0 <= i < targets.len() && immutable[#[trigger] targets[i] as int] {
        r == Err::<Option<MoveCommits>, RebaseError>(
            RebaseError::NotRewritable(targets[choose|i: int| first_marked(targets, immutable, i)]),
        )
    } else {
        match destination_outcome(g, targets, destination, insert_after, insert_before, false, immutable) {
            Err(e) => r == Err::<Option<MoveCommits>, RebaseError>(e),
            Ok((new_parents, new_children)) => if targets.len() == 0 {
                r matches Ok(None)
            } else {
                let req = MoveSpec {
                    new_parent_ids: new_parents,
                    new_children: new_children,
                    targets: targets,
                    target_roots: seq![],
                };
                match r {
                    Ok(Some(m)) => is_move_of(g, req, Ok(m)),
                    Ok(None) => false,
                    Err(e) => is_move_of(g, req, Err(e)),
                }
            },
        }
    }
}

/// Moves the revisions `targets` alone (their descendants stay and take
/// their place) to the destination given by `destination`, `insert_after`
/// and `insert_before`.
pub fn rebase_revisions(
    g: &CommitGraph,
    targets: &Vec<usize>,
    destination: &Vec<usize>,
    insert_after: &Vec<usize>,
    insert_before: &Vec<usize>,
    immutable: &Vec<bool>,
) -> (r: Result<Option<MoveCommits>, RebaseError>)
    requires
        g.wf(),
        g.len() <= u32::MAX,
        ids_in(*g, targets@),
        ids_in(*g, destination@),
        ids_in(*g, insert_after@),
        ids_in(*g, insert_before@),
        immutable@.len() == g.len(),
    ensures
        is_revisions_rebase(*g, targets@, destination@, insert_after@, insert_before@, immutable@, r),
{
    match first_marked_index(targets, immutable) {
        Some(i) => {
            proof {
                let k = choose|k: int| first_marked(targets@, immutable@, k);
                assert(k == i) by {
                    if k < i {
                        assert(immutable@[targets@[k] as int]);
                    }
                    if i < k {
                        assert(!immutable@[targets@[i as int] as int]);
                    }
                }
            }
            return Err(RebaseError::NotRewritable(targets[i]));
        },
        None => {},
    }
    let dest = compute_destination(g, targets, destination, insert_after, insert_before, false, immutable);
    match dest {
        Err(e) => Err(e),
        Ok((new_parents, new_children)) => {
            if targets.len() == 0 {
                return Ok(None);
            }
            proof {
                lemma_destination_in(*g, targets@, destination@, insert_after@, insert_before@, immutable@);
            }
            let mut target_ids: Vec<usize> = Vec::new();
            extend_with(&mut target_ids, targets);
            let req = MoveRequest { new_parent_ids: new_parents, new_children, targets: target_ids, target_roots: Vec::new() };
            match move_commits(g, &req) {
                Ok(m) => Ok(Some(m)),
                Err(e) => Err(e),
            }
        },
    }
}

/// The new parents and new children that the destination arguments resolve
/// to are commits of the graph.
proof fn lemma_destination_in(
    g: CommitGraph,
    targets: Seq<usize>,
    destination: Seq<usize>,
    insert_after: Seq<usize>,
    insert_before: Seq<usize>,
    immutable: Seq<bool>,
)
    requires
        g.wf(),
        ids_in(g, destination),
        ids_in(g, insert_after),
        ids_in(g, insert_before),
    ensures
        destination_outcome(g, targets, destination, insert_after, insert_before, false, immutable) matches Ok((p, c))
            ==> ids_in(g, p) && ids_in(g, c),
{
    crate::destination::lemma_children_from_in(g, set_of(insert_after), 0);
    crate::destination::lemma_children_from_in(
        g,
        set_of(crate::seqs::dedup_first(crate::destination::parents_of_all(g, insert_before))),
        0,
    );
}

} // verus!
