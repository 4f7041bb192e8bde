use vstd::prelude::*;
use crate::graph::{CommitGraph, mask_set, set_of};
use crate::plan::ids_in;
use crate::seqs::{dedup_first, extend_with, unique_ids};

verus! {

/// Why a rebase is refused.
#[derive(Debug, Clone, Copy, PartialEq, Eq, Structural)]
pub enum RebaseError {
    /// A target is also a destination.
    CannotRebaseOntoSelf(usize),
    /// The commit would be both an ancestor and a descendant of the moved
    /// commits.
    CycleWouldBeCreated(usize),
    /// The commit (first) would be rebased onto its descendant (second).
    CannotRebaseOntoDescendant(usize, usize),
    /// The commit may not be rewritten.
    NotRewritable(usize),
    /// The new parents that the move computes form a cycle.
    CycleInPlan,
    /// A flag that is no longer supported was given.
    DeprecatedFlag,
    /// Two flags that exclude each other were given.
    FlagConflict,
}

/// `c` has a parent in `s`.
pub open spec fn has_parent_in(g: CommitGraph, c: usize, s: Set<usize>) -> bool {
    exists|k: int| 0 <= k < g.pars(c).len() && s.contains(#[trigger] g.pars(c)[k])
}

/// The commits with index at least `j` that have a parent in `s`, in
/// decreasing index order.
pub open spec fn children_from(g: CommitGraph, s: Set<usize>, j: int) -> Seq<usize>
    decreases g.len() - j,
{
    if j < 0 || j >= g.len() || j > usize::MAX {
        seq![]
    } else {
        children_from(g, s, j + 1) + if has_parent_in(g, j as usize, s) {
            seq![j as usize]
        } else {
            seq![]
        }
    }
}

/// The parents of the commits of `ids`, in order.
pub open spec fn parents_of_all(g: CommitGraph, ids: Seq<usize>) -> Seq<usize>
    decreases ids.len(),
{
    if ids.len() == 0 {
        seq![]
    } else {
        parents_of_all(g, ids.drop_last()) + g.pars(ids.last())
    }
}

/// The first position of `ids` whose commit occurs in `s`, if any.
pub open spec fn first_in(ids: Seq<usize>, s: Seq<usize>, i: int) -> bool {
    &&& 0 <= i < ids.len()
    &&& s.contains(ids[i])
    &&& forall|j: int| 0 <= j < i ==> !s.contains(#[trigger] ids[j])
}

/// The first position of `ids` whose commit is marked in `m`.
pub open spec fn first_marked(ids: Seq<usize>, m: Seq<bool>, i: int) -> bool {
    &&& 0 <= i < ids.len()
    &&& m[ids[i] as int]
    &&& forall|j: int| 0 <= j < i ==> !m[#[trigger] ids[j] as int]
}

/// `c` descends from a commit of `children` and is an ancestor of a commit of
/// `parents`.
pub open spec fn in_loop_range(g: CommitGraph, children: Seq<usize>, parents: Seq<usize>, c: usize) -> bool {
    g.reaches(set_of(children), c) && g.reached_by(set_of(parents), c)
}

/// The commits that have a parent among those marked in `m`, in decreasing
/// index order.
pub fn children_of(g: &CommitGraph, m: &Vec<bool>) -> (r: Vec<usize>)
    requires
        g.wf(),
        m@.len() == g.len(),
    ensures
        r@ == children_from(*g, mask_set(m@), 0),
        ids_in(*g, r@),
{
    let n = g.num_commits();
    let mut r: Vec<usize> = Vec::new();
    let mut c: usize = n;
    while c > 0
        invariant
            g.wf(),
            n == g.len(),
            m@.len() == n,
            c <= n,
            r@ == children_from(*g, mask_set(m@), c as int),
            ids_in(*g, r@),
        decreases c,
    {
        c = c - 1;
        let ps = &g.parents[c];
        let mut found = false;
        let mut k: usize = 0;
        while k < ps.len()
            invariant
                g.wf(),
                n == g.len(),
                m@.len() == n,
                c < n,
                *ps == g.parents@[c as int],
                k <= ps@.len(),
                found == exists|q: int| 0 <= q < k && mask_set(m@).contains(#[trigger] g.pars(c)[q]),
            decreases ps@.len() - k,
        {
            assert(g.parents@[c as int]@[k as int] < c);
            let p = ps[k];
            assert(g.pars(c)[k as int] == p);
            if m[p] {
                found = true;
            }
            k = k + 1;
        }
        if found {
            r.push(c);
        }
    }
    r
}

/// Refuses new parents that descend from one of the new children: the
/// commit reported is the one with the highest index among those that
/// descend from a new child and are ancestors of a new parent.
pub fn ensure_no_commit_loop(g: &CommitGraph, children: &Vec<usize>, parents: &Vec<usize>) -> (r: Result<(), RebaseError>)
    requires
        g.wf(),
        ids_in(*g, children@),
        ids_in(*g, parents@),
    ensures
        r is Ok <==> forall|c: usize| c < g.len() ==> !in_loop_range(*g, children@, parents@, c),
        r matches Err(e) ==> e matches RebaseError::CycleWouldBeCreated(x) && x < g.len()
            && in_loop_range(*g, children@, parents@, x)
            && forall|y: usize| x < y < g.len() ==> !in_loop_range(*g, children@, parents@, y),
{
    let cm = g.mask_of(children);
    let pm = g.mask_of(parents);
    let below = g.descendants_mask(&cm);
    let above = g.ancestors_mask(&pm);
    let n = g.num_commits();
    let mut c: usize = n;
    while c > 0
        invariant
            n == g.len(),
            c <= n,
            below@.len() == n,
            above@.len() == n,
            forall|j: int| 0 <= j < n ==> below@[j] == g.reaches(set_of(children@), j as usize),
            forall|j: int| 0 <= j < n ==> above@[j] == g.reached_by(set_of(parents@), j as usize),
            forall|y: usize| c <= y < n ==> !in_loop_range(*g, children@, parents@, y),
        decreases c,
    {
        c = c - 1;
        if below[c] && above[c] {
            assert(in_loop_range(*g, children@, parents@, c));
            return Err(RebaseError::CycleWouldBeCreated(c));
        }
    }
    Ok(())
}

/// Refuses to rebase `commit` onto one of its descendants: reports the first
/// new parent that descends from it.
pub fn check_rebase_destinations(g: &CommitGraph, new_parents: &Vec<usize>, commit: usize) -> (r: Result<(), RebaseError>)
    requires
        g.wf(),
        ids_in(*g, new_parents@),
        commit < g.len(),
    ensures
        r is Ok <==> forall|i: int| 0 <= i < new_parents@.len() ==> !g.is_ancestor_spec(commit, #[trigger] new_parents@[i]),
        r matches Err(e) ==> exists|i: int|
            0 <= i < new_parents@.len() && e == RebaseError::CannotRebaseOntoDescendant(commit, new_parents@[i])
                && g.is_ancestor_spec(commit, new_parents@[i])
                && forall|j: int| 0 <= j < i ==> !g.is_ancestor_spec(commit, #[trigger] new_parents@[j]),
{
    let one = vec![commit];
    let m = g.mask_of(&one);
    proof {
        assert(set_of(one@) =~= set![commit]);
    }
    let below = g.descendants_mask(&m);
    let mut i: usize = 0;
    while i < new_parents.len()
        invariant
            g.wf(),
            ids_in(*g, new_parents@),
            i <= new_parents@.len(),
            below@.len() == g.len(),
            forall|j: int| 0 <= j < g.len() ==> below@[j] == g.reaches(set![commit], j as usize),
            forall|j: int| 0 <= j < i ==> !g.is_ancestor_spec(commit, #[trigger] new_parents@[j]),
        decreases new_parents@.len() - i,
    {
        let p = new_parents[i];
        if below[p] {
            return Err(RebaseError::CannotRebaseOntoDescendant(commit, p));
        }
        i = i + 1;
    }
    Ok(())
}

/// The new parents and new children that the destination arguments ask
/// for: both lists of insertion points when both are given; the commits to
/// insert after and their children; the siblings of the commits to insert
/// before (children of their parents) and those commits; or the destination
/// and no new children.
pub open spec fn destination_pair(
    g: CommitGraph,
    destination: Seq<usize>,
    insert_after: Seq<usize>,
    insert_before: Seq<usize>,
) -> (Seq<usize>, Seq<usize>) {
    if insert_after.len() > 0 && insert_before.len() > 0 {
        (insert_after, insert_before)
    } else if insert_after.len() > 0 {
        (insert_after, children_from(g, set_of(insert_after), 0))
    } else if insert_before.len() > 0 {
        (children_from(g, set_of(dedup_first(parents_of_all(g, insert_before))), 0), insert_before)
    } else {
        (destination, seq![])
    }
}

/// A plain destination is asked for and one of the targets is in it.
pub open spec fn rebases_onto_self(
    targets: Seq<usize>,
    destination: Seq<usize>,
    insert_after: Seq<usize>,
    insert_before: Seq<usize>,
    rebase_descendants: bool,
) -> bool {
    &&& insert_after.len() == 0
    &&& insert_before.len() == 0
    &&& !rebase_descendants
    &&& exists|i: int| 0 <= i < targets.len() && destination.contains(#[trigger] targets[i])
}

/// What resolving the destination arguments gives: the refusal that comes
/// first, or the new parents and new children.
pub open spec fn destination_outcome(
    g: CommitGraph,
    targets: Seq<usize>,
    destination: Seq<usize>,
    insert_after: Seq<usize>,
    insert_before: Seq<usize>,
    rebase_descendants: bool,
    immutable: Seq<bool>,
) -> Result<(Seq<usize>, Seq<usize>), RebaseError> {
    let pair = destination_pair(g, destination, insert_after, insert_before);
    if rebases_onto_self(targets, destination, insert_after, insert_before, rebase_descendants) {
        Err(RebaseError::CannotRebaseOntoSelf(targets[choose|i: int| first_in(targets, destination, i)]))
    } else if pair.1.len() > 0 && exists|i: int| 0 <= i < pair.1.len() && immutable[#[trigger] pair.1[i] as int] {
        Err(RebaseError::NotRewritable(pair.1[choose|i: int| first_marked(pair.1, immutable, i)]))
    } else if pair.1.len() > 0 && exists|c: usize| c < g.len() && in_loop_range(g, pair.1, pair.0, c) {
        Err(RebaseError::CycleWouldBeCreated(choose|x: usize| last_in_loop_range(g, pair.1, pair.0, x)))
    } else {
        Ok(pair)
    }
}

/// `x` is the commit with the highest index in the loop range.
pub open spec fn last_in_loop_range(g: CommitGraph, children: Seq<usize>, parents: Seq<usize>, x: usize) -> bool {
    &&& x < g.len()
    &&& in_loop_range(g, children, parents, x)
    &&& forall|y: usize| x < y < g.len() ==> !in_loop_range(g, children, parents, y)
}

/// `r` is the executable form of `spec`.
pub open spec fn pair_result_is(
    r: Result<(Vec<usize>, Vec<usize>), RebaseError>,
    spec: Result<(Seq<usize>, Seq<usize>), RebaseError>,
) -> bool {
    match r {
        Ok((p, c)) => spec == Ok::<(Seq<usize>, Seq<usize>), RebaseError>((p@, c@)),
        Err(e) => spec == Err::<(Seq<usize>, Seq<usize>), RebaseError>(e),
    }
}

/// The position of the first id of `ids` marked in `m`, if any.
pub(crate) fn first_marked_index(ids: &Vec<usize>, m: &Vec<bool>) -> (r: Option<usize>)
    requires
        forall|i: int| 0 <= i < ids@.len() ==> (ids@[i] as int) < m@.len(),
    ensures
        r matches Some(i) ==> first_marked(ids@, m@, i as int),
        r is None ==> forall|i: int| 0 <= i < ids@.len() ==> !m@[#[trigger] ids@[i] as int],
{
    let mut i: usize = 0;
    while i < ids.len()
        invariant
            i <= ids@.len(),
            forall|i: int| 0 <= i < ids@.len() ==> (ids@[i] as int) < m@.len(),
            forall|j: int| 0 <= j < i ==> !m@[#[trigger] ids@[j] as int],
        decreases ids@.len() - i,
    {
        if m[ids[i]] {
            return Some(i);
        }
        i = i + 1;
    }
    None
}

/// The parents of the commits of `ids`, in order.
pub(crate) fn parents_of_ids(g: &CommitGraph, ids: &Vec<usize>) -> (r: Vec<usize>)
    requires
        g.wf(),
        ids_in(*g, ids@),
    ensures
        r@ == parents_of_all(*g, ids@),
        ids_in(*g, r@),
{
    let mut r: Vec<usize> = Vec::new();
    let mut i: usize = 0;
    while i < ids.len()
        invariant
            g.wf(),
            ids_in(*g, ids@),
            i <= ids@.len(),
            r@ == parents_of_all(*g, ids@.subrange(0, i as int)),
        decreases ids@.len() - i,
    {
        proof {
            assert(ids@.subrange(0, i + 1).drop_last() == ids@.subrange(0, i as int));
        }
        extend_with(&mut r, &g.parents[ids[i]]);
        i = i + 1;
    }
    proof {
        assert(ids@.subrange(0, i as int) == ids@);
        lemma_parents_of_all_in(*g, ids@);
    }
    r
}

/// Resolves the destination arguments of a rebase into new parents and new
/// children, refusing a rebase of a target onto itself (unless descendants
/// are rebased too), new children that may not be rewritten, and new
/// children from which a new parent descends.
pub fn compute_destination(
    g: &CommitGraph,
    targets: &Vec<usize>,
    destination: &Vec<usize>,
    insert_after: &Vec<usize>,
    insert_before: &Vec<usize>,
    rebase_descendants: bool,
    immutable: &Vec<bool>,
) -> (r: Result<(Vec<usize>, Vec<usize>), RebaseError>)
    requires
        g.wf(),
        ids_in(*g, targets@),
        ids_in(*g, destination@),
        ids_in(*g, insert_after@),
        ids_in(*g, insert_before@),
        immutable@.len() == g.len(),
    ensures
        ({
            let pair = destination_pair(*g, destination@, insert_after@, insert_before@);
            let onto_self = rebases_onto_self(targets@, destination@, insert_after@, insert_before@, rebase_descendants);
            let any_immutable = exists|i: int| 0 <= i < pair.1.len() && immutable@[#[trigger] pair.1[i] as int];
            let any_loop = exists|c: usize| c < g.len() && in_loop_range(*g, pair.1, pair.0, c);
            &&& onto_self ==> (r matches Err(RebaseError::CannotRebaseOntoSelf(x))
                && exists|i: int| first_in(targets@, destination@, i) && x == targets@[i])
            &&& !onto_self && pair.1.len() > 0 && any_immutable ==> (r matches Err(RebaseError::NotRewritable(x))
                && exists|i: int| first_marked(pair.1, immutable@, i) && x == pair.1[i])
            &&& !onto_self && pair.1.len() > 0 && !any_immutable && any_loop ==> (r matches Err(
                RebaseError::CycleWouldBeCreated(x),
            ) && x < g.len() && in_loop_range(*g, pair.1, pair.0, x)
                && forall|y: usize| x < y < g.len() ==> !in_loop_range(*g, pair.1, pair.0, y))
            &&& !onto_self && (pair.1.len() == 0 || (!any_immutable && !any_loop)) ==> (r matches Ok((p, c))
                && p@ == pair.0 && c@ == pair.1)
        }),
        pair_result_is(
            r,
            destination_outcome(*g, targets@, destination@, insert_after@, insert_before@, rebase_descendants, immutable@),
        ),
{
    let ghost pair = destination_pair(*g, destination@, insert_after@, insert_before@);
    let mut new_parents: Vec<usize> = Vec::new();
    let mut new_children: Vec<usize> = Vec::new();
    if insert_after.len() > 0 && insert_before.len() > 0 {
        extend_with(&mut new_parents, insert_after);
        extend_with(&mut new_children, insert_before);
    } else if insert_after.len() > 0 {
        extend_with(&mut new_parents, insert_after);
        let m = g.mask_of(insert_after);
        new_children = children_of(g, &m);
    } else if insert_before.len() > 0 {
        let ps = unique_ids(parents_of_ids(g, insert_before));
        proof {
            crate::seqs::lemma_dedup_first_within(parents_of_all(*g, insert_before@));
            lemma_parents_of_all_in(*g, insert_before@);
            assert forall|i: int| 0 <= i < ps@.len() implies ps@[i] < g.len() by {
                let x = ps@[i];
                assert(parents_of_all(*g, insert_before@).contains(x));
            }
        }
        let m = g.mask_of(&ps);
        new_parents = children_of(g, &m);
        extend_with(&mut new_children, insert_before);
    } else {
        if !rebase_descendants {
            let mut i: usize = 0;
            while i < targets.len()
                invariant
                    i <= targets@.len(),
                    insert_after@.len() == 0,
                    insert_before@.len() == 0,
                    !rebase_descendants,
                    forall|j: int| 0 <= j < i ==> !destination@.contains(#[trigger] targets@[j]),
                decreases targets@.len() - i,
            {
                let t = targets[i];
                if crate::seqs::contains_id(destination, t) {
                    proof {
                        assert(first_in(targets@, destination@, i as int));
                        let k = choose|k: int| first_in(targets@, destination@, k);
                        assert(k == i) by {
                            if k < i {
                                assert(destination@.contains(targets@[k]));
                            }
                            if i < k {
                                assert(!destination@.contains(targets@[i as int]));
                            }
                        }
                        assert(destination@.contains(targets@[i as int]));
                        assert(rebases_onto_self(targets@, destination@, insert_after@, insert_before@, rebase_descendants));
                    }
                    return Err(RebaseError::CannotRebaseOntoSelf(t));
                }
                i = i + 1;
            }
        }
        extend_with(&mut new_parents, destination);
    }
    assert(new_parents@ == pair.0 && new_children@ == pair.1);
    if new_children.len() > 0 {
        match first_marked_index(&new_children, immutable) {
            Some(i) => {
                proof {
                    let k = choose|k: int| first_marked(new_children@, immutable@, k);
                    assert(k == i) by {
                        if k < i {
                            assert(immutable@[new_children@[k] as int]);
                        }
                        if i < k {
                            assert(!immutable@[new_children@[i as int] as int]);
                        }
                    }
                }
                return Err(RebaseError::NotRewritable(new_children[i]));
            },
            None => {},
        }
        match ensure_no_commit_loop(g, &new_children, &new_parents) {
            Err(e) => {
                proof {
                    let x = choose|x: usize| last_in_loop_range(*g, pair.1, pair.0, x);
                    if let RebaseError::CycleWouldBeCreated(y) = e {
                        assert(last_in_loop_range(*g, pair.1, pair.0, y));
                        assert(x == y) by {
                            if x < y {
                                assert(!in_loop_range(*g, pair.1, pair.0, y));
                            }
                            if y < x {
                                assert(!in_loop_range(*g, pair.1, pair.0, x));
                            }
                        }
                    }
                }
                return Err(e);
            },
            Ok(()) => {},
        }
    }
    Ok((new_parents, new_children))
}

/// Every parent listed by `parents_of_all` is a commit of the graph.
proof fn lemma_parents_of_all_in(g: CommitGraph, ids: Seq<usize>)
    requires
        g.wf(),
        ids_in(g, ids),
    ensures
        ids_in(g, parents_of_all(g, ids)),
    decreases ids.len(),
{
    if ids.len() > 0 {
        lemma_parents_of_all_in(g, ids.drop_last());
        let c = ids.last();
        assert(ids[ids.len() - 1] == c);
        assert forall|k: int| 0 <= k < g.pars(c).len() implies g.pars(c)[k] < g.len() by {
            assert(g.parents@[c as int]@[k] < c);
        }
    }
}

/// Every commit that `children_from` lists is a commit of the graph.
pub proof fn lemma_children_from_in(g: CommitGraph, s: Set<usize>, j: int)
    ensures
        ids_in(g, children_from(g, s, j)),
    decreases g.len() - j,
{
    if !(j < 0 || j >= g.len() || j > usize::MAX) {
        lemma_children_from_in(g, s, j + 1);
    }
}

} // verus!
