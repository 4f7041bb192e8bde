use vstd::prelude::*;
use crate::graph::{CommitGraph, mask_set, set_of};
use crate::seqs::{dedup_first, extend_with, unique_ids, without};

verus! {

/// `c` lies on a path between two target commits (the connected target set).
pub open spec fn in_connected(g: CommitGraph, t: Set<usize>, c: usize) -> bool {
    g.reaches(t, c) && g.reached_by(t, c)
}

/// The parents of `c` restricted to the connected target set: a parent in the
/// target set is kept, a parent in the connected set but outside the target set
/// is replaced by its own internal parents, any other parent is dropped.
pub open spec fn internal_parents(g: CommitGraph, t: Set<usize>, c: usize) -> Seq<usize>
    decreases c, 1nat, 0nat,
{
    internal_parents_upto(g, t, c, g.pars(c).len())
}

/// What the first `k` parents of `c` contribute to `internal_parents`.
pub open spec fn internal_parents_upto(g: CommitGraph, t: Set<usize>, c: usize, k: nat) -> Seq<usize>
    decreases c, 0nat, k,
{
    if k == 0 || k > g.pars(c).len() {
        seq![]
    } else {
        let p = g.pars(c)[k - 1];
        internal_parents_upto(g, t, c, (k - 1) as nat) + if t.contains(p) {
            seq![p]
        } else if p < c && in_connected(g, t, p) {
            internal_parents(g, t, p)
        } else {
            seq![]
        }
    }
}

/// The nearest ancestors of the target commit `c` that lie outside the target
/// set, each listed once, in order of first appearance.
pub open spec fn external_parents(g: CommitGraph, t: Set<usize>, c: usize) -> Seq<usize>
    decreases c, 1nat, 0nat,
{
    dedup_first(external_parents_upto(g, t, c, g.pars(c).len()))
}

/// What the first `k` parents of `c` contribute to `external_parents`, before
/// repetitions are removed.
pub open spec fn external_parents_upto(g: CommitGraph, t: Set<usize>, c: usize, k: nat) -> Seq<usize>
    decreases c, 0nat, k,
{
    if k == 0 || k > g.pars(c).len() {
        seq![]
    } else {
        let p = g.pars(c)[k - 1];
        external_parents_upto(g, t, c, (k - 1) as nat) + if t.contains(p) && p < c {
            external_parents(g, t, p)
        } else {
            seq![p]
        }
    }
}

/// `ids` with each target commit replaced by its external parents.
pub open spec fn substitute_external(g: CommitGraph, t: Set<usize>, ids: Seq<usize>) -> Seq<usize>
    decreases ids.len(),
{
    if ids.len() == 0 {
        seq![]
    } else {
        substitute_external(g, t, ids.drop_last()) + if t.contains(ids.last()) {
            external_parents(g, t, ids.last())
        } else {
            seq![ids.last()]
        }
    }
}

/// For each commit, whether it is in the connected target set.
pub fn connected_mask(g: &CommitGraph, tmask: &Vec<bool>) -> (r: Vec<bool>)
    requires
        g.wf(),
        tmask@.len() == g.len(),
    ensures
        r@.len() == g.len(),
        forall|c: int| 0 <= c < g.len() ==> r@[c] == in_connected(*g, mask_set(tmask@), c as usize),
{
    let d = g.descendants_mask(tmask);
    let a = g.ancestors_mask(tmask);
    let n = g.num_commits();
    let mut r: Vec<bool> = Vec::new();
    let mut c: usize = 0;
    while c < n
        invariant
            n == g.len(),
            d@.len() == n,
            a@.len() == n,
            c <= n,
            r@.len() == c,
            forall|j: int| 0 <= j < n ==> d@[j] == g.reaches(mask_set(tmask@), j as usize),
            forall|j: int| 0 <= j < n ==> a@[j] == g.reached_by(mask_set(tmask@), j as usize),
            forall|j: int| 0 <= j < c ==> r@[j] == in_connected(*g, mask_set(tmask@), j as usize),
        decreases n - c,
    {
        r.push(d[c] && a[c]);
        c = c + 1;
    }
    r
}

/// The internal parents of every commit of the connected target set (an
/// empty list for the other commits).
pub fn internal_parents_table(g: &CommitGraph, tmask: &Vec<bool>, conn: &Vec<bool>) -> (r: Vec<Vec<usize>>)
    requires
        g.wf(),
        tmask@.len() == g.len(),
        conn@.len() == g.len(),
        forall|c: int| 0 <= c < g.len() ==> conn@[c] == in_connected(*g, mask_set(tmask@), c as usize),
    ensures
        r@.len() == g.len(),
        forall|c: int| 0 <= c < g.len() && conn@[c] ==> r@[c]@ == internal_parents(*g, mask_set(tmask@), c as usize),
{
    let ghost t = mask_set(tmask@);
    let n = g.num_commits();
    let mut r: Vec<Vec<usize>> = Vec::new();
    let mut c: usize = 0;
    while c < n
        invariant
            g.wf(),
            n == g.len(),
            t == mask_set(tmask@),
            tmask@.len() == n,
            conn@.len() == n,
            forall|j: int| 0 <= j < n ==> conn@[j] == in_connected(*g, t, j as usize),
            c <= n,
            r@.len() == c,
            forall|j: int| 0 <= j < c && conn@[j] ==> r@[j]@ == internal_parents(*g, t, j as usize),
        decreases n - c,
    {
        let mut acc: Vec<usize> = Vec::new();
        if conn[c] {
            let ps = &g.parents[c];
            let mut k: usize = 0;
            while k < ps.len()
                invariant
                    g.wf(),
                    n == g.len(),
                    t == mask_set(tmask@),
                    tmask@.len() == n,
                    conn@.len() == n,
                    forall|j: int| 0 <= j < n ==> conn@[j] == in_connected(*g, t, j as usize),
                    c < n,
                    r@.len() == c,
                    forall|j: int| 0 <= j < c && conn@[j] ==> r@[j]@ == internal_parents(*g, t, j as usize),
                    *ps == g.parents@[c as int],
                    k <= ps@.len(),
                    acc@ == internal_parents_upto(*g, t, c, k as nat),
                decreases ps@.len() - k,
            {
                let p = ps[k];
                assert(g.parents@[c as int]@[k as int] < c);
                assert(g.pars(c)[k as int] == p);
                if tmask[p] {
                    acc.push(p);
                } else if conn[p] {
                    extend_with(&mut acc, &r[p]);
                }
                k = k + 1;
            }
            proof {
                assert(ps@.len() == g.pars(c).len());
            }
        }
        r.push(acc);
        c = c + 1;
    }
    r
}

/// The external parents of every target commit (an empty list for the other
/// commits).
pub fn external_parents_table(g: &CommitGraph, tmask: &Vec<bool>) -> (r: Vec<Vec<usize>>)
    requires
        g.wf(),
        tmask@.len() == g.len(),
    ensures
        r@.len() == g.len(),
        forall|c: int| 0 <= c < g.len() && tmask@[c] ==> r@[c]@ == external_parents(*g, mask_set(tmask@), c as usize),
{
    let ghost t = mask_set(tmask@);
    let n = g.num_commits();
    let mut r: Vec<Vec<usize>> = Vec::new();
    let mut c: usize = 0;
    while c < n
        invariant
            g.wf(),
            n == g.len(),
            t == mask_set(tmask@),
            tmask@.len() == n,
            c <= n,
            r@.len() == c,
            forall|j: int| 0 <= j < c && tmask@[j] ==> r@[j]@ == external_parents(*g, t, j as usize),
        decreases n - c,
    {
        let mut acc: Vec<usize> = Vec::new();
        if tmask[c] {
            let ps = &g.parents[c];
            let mut k: usize = 0;
            while k < ps.len()
                invariant
                    g.wf(),
                    n == g.len(),
                    t == mask_set(tmask@),
                    tmask@.len() == n,
                    c < n,
                    r@.len() == c,
                    forall|j: int| 0 <= j < c && tmask@[j] ==> r@[j]@ == external_parents(*g, t, j as usize),
                    *ps == g.parents@[c as int],
                    k <= ps@.len(),
                    acc@ == external_parents_upto(*g, t, c, k as nat),
                decreases ps@.len() - k,
            {
                let p = ps[k];
                assert(g.parents@[c as int]@[k as int] < c);
                assert(g.pars(c)[k as int] == p);
                if tmask[p] {
                    extend_with(&mut acc, &r[p]);
                } else {
                    acc.push(p);
                }
                k = k + 1;
            }
            proof {
                assert(ps@.len() == g.pars(c).len());
            }
            acc = unique_ids(acc);
        }
        r.push(acc);
        c = c + 1;
    }
    r
}

/// `c` is a target commit of the connected target set that no commit of
/// that set has as a parent.
pub open spec fn is_target_head(g: CommitGraph, t: Set<usize>, c: usize) -> bool {
    &&& t.contains(c)
    &&& in_connected(g, t, c)
    &&& !exists|d: usize| d < g.len() && in_connected(g, t, d) && #[trigger] g.pars(d).contains(c)
}

/// The target heads below index `k`, in increasing index order.
pub open spec fn target_heads_upto(g: CommitGraph, t: Set<usize>, k: nat) -> Seq<usize>
    decreases k,
{
    if k == 0 {
        seq![]
    } else {
        target_heads_upto(g, t, (k - 1) as nat) + if is_target_head(g, t, (k - 1) as usize) {
            seq![(k - 1) as usize]
        } else {
            seq![]
        }
    }
}

/// `ids` with each target commit replaced by its external parents, given the
/// table of external parents.
pub fn substitute_external_ids(
    g: &CommitGraph,
    tmask: &Vec<bool>,
    ext: &Vec<Vec<usize>>,
    ids: &Vec<usize>,
) -> (r: Vec<usize>)
    requires
        g.wf(),
        tmask@.len() == g.len(),
        ext@.len() == g.len(),
        forall|c: int| 0 <= c < g.len() && tmask@[c] ==> ext@[c]@ == external_parents(*g, mask_set(tmask@), c as usize),
        forall|i: int| 0 <= i < ids@.len() ==> ids@[i] < g.len(),
    ensures
        r@ == substitute_external(*g, mask_set(tmask@), ids@),
{
    let ghost t = mask_set(tmask@);
    let mut r: Vec<usize> = Vec::new();
    let mut k: usize = 0;
    while k < ids.len()
        invariant
            k <= ids@.len(),
            tmask@.len() == g.len(),
            ext@.len() == g.len(),
            t == mask_set(tmask@),
            forall|c: int| 0 <= c < g.len() && tmask@[c] ==> ext@[c]@ == external_parents(*g, t, c as usize),
            forall|i: int| 0 <= i < ids@.len() ==> ids@[i] < g.len(),
            r@ == substitute_external(*g, t, ids@.subrange(0, k as int)),
        decreases ids@.len() - k,
    {
        let x = ids[k];
        proof {
            assert(ids@.subrange(0, k + 1).drop_last() == ids@.subrange(0, k as int));
        }
        if tmask[x] {
            extend_with(&mut r, &ext[x]);
        } else {
            r.push(x);
        }
        k = k + 1;
    }
    proof {
        assert(ids@.subrange(0, k as int) == ids@);
    }
    r
}

/// The target heads in increasing index order.
pub fn target_heads(g: &CommitGraph, tmask: &Vec<bool>, conn: &Vec<bool>) -> (r: Vec<usize>)
    requires
        g.wf(),
        tmask@.len() == g.len(),
        conn@.len() == g.len(),
        forall|c: int| 0 <= c < g.len() ==> conn@[c] == in_connected(*g, mask_set(tmask@), c as usize),
    ensures
        r@ == target_heads_upto(*g, mask_set(tmask@), g.len()),
{
    let ghost t = mask_set(tmask@);
    let n = g.num_commits();
    let mut r: Vec<usize> = Vec::new();
    let mut c: usize = 0;
    while c < n
        invariant
            g.wf(),
            n == g.len(),
            t == mask_set(tmask@),
            tmask@.len() == n,
            conn@.len() == n,
            forall|j: int| 0 <= j < n ==> conn@[j] == in_connected(*g, t, j as usize),
            c <= n,
            r@ == target_heads_upto(*g, t, c as nat),
        decreases n - c,
    {
        if tmask[c] && conn[c] {
            let mut has_child = false;
            let mut d: usize = c + 1;
            while d < n
                invariant
                    g.wf(),
                    n == g.len(),
                    tmask@.len() == n,
                    conn@.len() == n,
                    forall|j: int| 0 <= j < n ==> conn@[j] == in_connected(*g, t, j as usize),
                    c < d <= n,
                    has_child == exists|e: usize| c < e < d && in_connected(*g, t, e) && #[trigger] g.pars(e).contains(c),
                decreases n - d,
            {
                let hit = conn[d] && crate::seqs::contains_id(&g.parents[d], c);
                proof {
                    if hit {
                        assert(c < d < d + 1 && in_connected(*g, t, d) && g.pars(d).contains(c));
                    } else {
                        assert forall|e: usize| c < e < d + 1 && in_connected(*g, t, e) && #[trigger] g.pars(e).contains(c)
                            implies c < e < d by {
                            if e == d {
                                assert(conn@[d as int]);
                            }
                        }
                    }
                }
                if hit {
                    has_child = true;
                }
                d = d + 1;
            }
            proof {
                if !has_child {
                    assert forall|e: usize| e < g.len() && in_connected(*g, t, e) implies !#[trigger] g.pars(e).contains(c) by {
                        if e <= c && g.pars(e).contains(c) {
                            let q = choose|q: int| 0 <= q < g.pars(e).len() && g.pars(e)[q] == c;
                            assert(g.parents@[e as int]@[q] < e);
                        }
                    }
                }
            }
            if !has_child {
                r.push(c);
            }
        }
        c = c + 1;
    }
    r
}

/// The nearest descendants of the target commit `c` that lie outside the
/// target set, found by walking through target children, each listed once.
pub open spec fn external_children(g: CommitGraph, t: Set<usize>, c: usize) -> Seq<usize>
    decreases g.len() - c, 1nat, 0nat,
{
    dedup_first(external_children_from(g, t, c, c + 1))
}

/// What the children of `c` with index at least `j` contribute to
/// `external_children`, taken in decreasing index order.
pub open spec fn external_children_from(g: CommitGraph, t: Set<usize>, c: usize, j: int) -> Seq<usize>
    decreases g.len() - c, 0nat, g.len() - j,
{
    if j <= c || j >= g.len() || j > usize::MAX {
        seq![]
    } else {
        external_children_from(g, t, c, j + 1) + if g.pars(j as usize).contains(c) {
            if t.contains(j as usize) {
                external_children(g, t, j as usize)
            } else {
                seq![j as usize]
            }
        } else {
            seq![]
        }
    }
}

/// `ids` with each target commit replaced by its external children.
pub open spec fn substitute_children(g: CommitGraph, t: Set<usize>, ids: Seq<usize>) -> Seq<usize>
    decreases ids.len(),
{
    if ids.len() == 0 {
        seq![]
    } else {
        substitute_children(g, t, ids.drop_last()) + if t.contains(ids.last()) {
            external_children(g, t, ids.last())
        } else {
            seq![ids.last()]
        }
    }
}

/// The external children of every target commit (an empty list for the
/// other commits).
pub fn external_children_table(g: &CommitGraph, tmask: &Vec<bool>) -> (r: Vec<Vec<usize>>)
    requires
        g.wf(),
        tmask@.len() == g.len(),
    ensures
        r@.len() == g.len(),
        forall|c: int| 0 <= c < g.len() && tmask@[c] ==> r@[c]@ == external_children(*g, mask_set(tmask@), c as usize),
{
    let ghost t = mask_set(tmask@);
    let n = g.num_commits();
    let mut r: Vec<Vec<usize>> = Vec::new();
    let mut i: usize = 0;
    while i < n
        invariant
            i <= n,
            r@.len() == i,
        decreases n - i,
    {
        r.push(Vec::new());
        i = i + 1;
    }
    let mut c: usize = n;
    while c > 0
        invariant
            g.wf(),
            n == g.len(),
            t == mask_set(tmask@),
            tmask@.len() == n,
            c <= n,
            r@.len() == n,
            forall|j: int| c <= j < n && tmask@[j] ==> r@[j]@ == external_children(*g, t, j as usize),
        decreases c,
    {
        c = c - 1;
        if tmask[c] {
            let mut acc: Vec<usize> = Vec::new();
            let mut d: usize = n;
            while d > c + 1
                invariant
                    g.wf(),
                    n == g.len(),
                    t == mask_set(tmask@),
                    tmask@.len() == n,
                    c < n,
                    c + 1 <= d <= n,
                    r@.len() == n,
                    forall|j: int| c < j < n && tmask@[j] ==> r@[j]@ == external_children(*g, t, j as usize),
                    acc@ == external_children_from(*g, t, c, d as int),
                decreases d,
            {
                d = d - 1;
                let is_child = crate::seqs::contains_id(&g.parents[d], c);
                if is_child {
                    if tmask[d] {
                        extend_with(&mut acc, &r[d]);
                    } else {
                        acc.push(d);
                    }
                }
            }
            let u = unique_ids(acc);
            r.set(c, u);
        }
    }
    r
}

/// `ids` with each target commit replaced by its external children, given
/// the table of external children.
pub fn substitute_children_ids(
    g: &CommitGraph,
    tmask: &Vec<bool>,
    ext: &Vec<Vec<usize>>,
    ids: &Vec<usize>,
) -> (r: Vec<usize>)
    requires
        g.wf(),
        tmask@.len() == g.len(),
        ext@.len() == g.len(),
        forall|c: int| 0 <= c < g.len() && tmask@[c] ==> ext@[c]@ == external_children(*g, mask_set(tmask@), c as usize),
        forall|i: int| 0 <= i < ids@.len() ==> ids@[i] < g.len(),
    ensures
        r@ == substitute_children(*g, mask_set(tmask@), ids@),
{
    let ghost t = mask_set(tmask@);
    let mut r: Vec<usize> = Vec::new();
    let mut k: usize = 0;
    while k < ids.len()
        invariant
            k <= ids@.len(),
            tmask@.len() == g.len(),
            ext@.len() == g.len(),
            t == mask_set(tmask@),
            forall|c: int| 0 <= c < g.len() && tmask@[c] ==> ext@[c]@ == external_children(*g, t, c as usize),
            forall|i: int| 0 <= i < ids@.len() ==> ids@[i] < g.len(),
            r@ == substitute_children(*g, t, ids@.subrange(0, k as int)),
        decreases ids@.len() - k,
    {
        let x = ids[k];
        proof {
            assert(ids@.subrange(0, k + 1).drop_last() == ids@.subrange(0, k as int));
        }
        if tmask[x] {
            extend_with(&mut r, &ext[x]);
        } else {
            r.push(x);
        }
        k = k + 1;
    }
    proof {
        assert(ids@.subrange(0, k as int) == ids@);
    }
    r
}

/// Every id of `ids` names a commit of `g`.
pub open spec fn ids_in(g: CommitGraph, ids: Seq<usize>) -> bool {
    forall|i: int| 0 <= i < ids.len() ==> ids[i] < g.len()
}

/// What to move where: the commits to move (`targets`), the parents they
/// are moved onto, the commits that are to become their children, and the
/// roots of the moved set (computed from the connected target set when
/// empty).
pub struct MoveRequest {
    pub new_parent_ids: Vec<usize>,
    pub new_children: Vec<usize>,
    pub targets: Vec<usize>,
    pub target_roots: Vec<usize>,
}

/// The contents of a `MoveRequest`.
pub struct MoveSpec {
    pub new_parent_ids: Seq<usize>,
    pub new_children: Seq<usize>,
    pub targets: Seq<usize>,
    pub target_roots: Seq<usize>,
}

impl View for MoveRequest {
    type V = MoveSpec;

    open spec fn view(&self) -> MoveSpec {
        MoveSpec {
            new_parent_ids: self.new_parent_ids@,
            new_children: self.new_children@,
            targets: self.targets@,
            target_roots: self.target_roots@,
        }
    }
}

impl MoveSpec {
    pub open spec fn valid_for(&self, g: CommitGraph) -> bool {
        &&& ids_in(g, self.new_parent_ids)
        &&& ids_in(g, self.new_children)
        &&& ids_in(g, self.targets)
        &&& ids_in(g, self.target_roots)
    }

    pub open spec fn target_set(&self) -> Set<usize> {
        set_of(self.targets)
    }
}

/// The new parents after each target among them is replaced by its external
/// parents.
pub open spec fn move_new_parents(g: CommitGraph, req: MoveSpec) -> Seq<usize> {
    substitute_external(g, req.target_set(), req.new_parent_ids)
}

/// The new children after each target among them is replaced by its external
/// children.
pub open spec fn move_new_children(g: CommitGraph, req: MoveSpec) -> Seq<usize> {
    substitute_children(g, req.target_set(), req.new_children)
}

/// `c` is a root of the moved set.
pub open spec fn is_move_root(g: CommitGraph, req: MoveSpec, c: usize) -> bool {
    if req.target_roots.len() == 0 {
        in_connected(g, req.target_set(), c) && internal_parents(g, req.target_set(), c).len() == 0
    } else {
        req.target_roots.contains(c)
    }
}

/// The commits from which the set of commits to revisit is grown.
pub open spec fn move_start(g: CommitGraph, req: MoveSpec) -> Set<usize> {
    Set::new(|c: usize| c < g.len() && (is_move_root(g, req, c) || move_new_children(g, req).contains(c)))
}

/// `c` is revisited by the move: it descends from a root or a new child.
pub open spec fn is_visited(g: CommitGraph, req: MoveSpec, c: usize) -> bool {
    req.targets.len() > 0 && g.reaches(move_start(g, req), c)
}

/// The parents of a new child after the move: its parents with targets
/// replaced by their external parents and the new parents left out, then the
/// target heads, each listed once.
pub open spec fn new_child_parents(g: CommitGraph, req: MoveSpec, c: usize) -> Seq<usize> {
    let t = req.target_set();
    dedup_first(
        without(substitute_external(g, t, g.pars(c)), move_new_parents(g, req)) + target_heads_upto(
            g,
            t,
            g.len(),
        ),
    )
}

/// What the first `k` parents of the target `c` (not a root) keep after the
/// move: target parents stay, connected parents give way to their internal
/// parents, others stay unless they descend from a new child.
pub open spec fn kept_parents_upto(g: CommitGraph, req: MoveSpec, c: usize, k: nat) -> Seq<usize>
    decreases k,
{
    let t = req.target_set();
    if k == 0 || k > g.pars(c).len() {
        seq![]
    } else {
        let p = g.pars(c)[k - 1];
        kept_parents_upto(g, req, c, (k - 1) as nat) + if t.contains(p) {
            seq![p]
        } else if in_connected(g, t, p) {
            internal_parents(g, t, p)
        } else if !g.reaches(set_of(move_new_children(g, req)), p) {
            seq![p]
        } else {
            seq![]
        }
    }
}

/// The parents that the revisited commit `c` is given by the move.
pub open spec fn planned_parents(g: CommitGraph, req: MoveSpec, c: usize) -> Seq<usize> {
    let t = req.target_set();
    if move_new_children(g, req).contains(c) {
        new_child_parents(g, req, c)
    } else if t.contains(c) && is_move_root(g, req, c) {
        move_new_parents(g, req)
    } else if t.contains(c) {
        kept_parents_upto(g, req, c, g.pars(c).len())
    } else {
        substitute_external(g, t, g.pars(c))
    }
}

/// The outcome of planning a move: which commits are revisited, and the
/// parents of every commit afterwards (unchanged for commits not revisited).
pub struct MovePlan {
    pub visit: Vec<bool>,
    pub new_parents: Vec<Vec<usize>>,
}

impl MovePlan {
    /// `self` is the plan of moving `req` within `g`.
    pub open spec fn plans(&self, g: CommitGraph, req: MoveSpec) -> bool {
        &&& self.visit@.len() == g.len()
        &&& self.new_parents@.len() == g.len()
        &&& forall|c: int| 0 <= c < g.len() ==> self.visit@[c] == is_visited(g, req, c as usize)
        &&& forall|c: int|
            0 <= c < g.len() && #[trigger] self.visit@[c] ==> self.new_parents@[c]@ == planned_parents(g, req, c as usize)
        &&& forall|c: int| 0 <= c < g.len() && !self.visit@[c] ==> #[trigger] self.new_parents@[c]@ == g.pars(c as usize)
    }
}

/// The parents of the target `c` (not a root) that it keeps after the move.
fn kept_parents(
    g: &CommitGraph,
    req: &MoveRequest,
    tmask: &Vec<bool>,
    conn: &Vec<bool>,
    internal: &Vec<Vec<usize>>,
    below_children: &Vec<bool>,
    c: usize,
) -> (r: Vec<usize>)
    requires
        g.wf(),
        c < g.len(),
        tmask@.len() == g.len(),
        mask_set(tmask@) == req@.target_set(),
        conn@.len() == g.len(),
        forall|j: int| 0 <= j < g.len() ==> conn@[j] == in_connected(*g, req@.target_set(), j as usize),
        internal@.len() == g.len(),
        forall|j: int| 0 <= j < g.len() && conn@[j] ==> internal@[j]@ == internal_parents(*g, req@.target_set(), j as usize),
        below_children@.len() == g.len(),
        forall|j: int| 0 <= j < g.len() ==> below_children@[j] == g.reaches(set_of(move_new_children(*g, req@)), j as usize),
    ensures
        r@ == kept_parents_upto(*g, req@, c, g.pars(c).len()),
{
    let ps = &g.parents[c];
    let mut acc: Vec<usize> = Vec::new();
    let mut k: usize = 0;
    while k < ps.len()
        invariant
            g.wf(),
            c < g.len(),
            tmask@.len() == g.len(),
            mask_set(tmask@) == req@.target_set(),
            conn@.len() == g.len(),
            forall|j: int| 0 <= j < g.len() ==> conn@[j] == in_connected(*g, req@.target_set(), j as usize),
            internal@.len() == g.len(),
            forall|j: int| 0 <= j < g.len() && conn@[j] ==> internal@[j]@ == internal_parents(*g, req@.target_set(), j as usize),
            below_children@.len() == g.len(),
            forall|j: int| 0 <= j < g.len() ==> below_children@[j] == g.reaches(set_of(move_new_children(*g, req@)), j as usize),
            *ps == g.parents@[c as int],
            k <= ps@.len(),
            acc@ == kept_parents_upto(*g, req@, c, k as nat),
        decreases ps@.len() - k,
    {
        let p = ps[k];
        assert(g.parents@[c as int]@[k as int] < c);
        assert(g.pars(c)[k as int] == p);
        if tmask[p] {
            acc.push(p);
        } else if conn[p] {
            extend_with(&mut acc, &internal[p]);
        } else if !below_children[p] {
            acc.push(p);
        }
        k = k + 1;
    }
    acc
}

/// Plans moving the targets of `req`: which commits are revisited and the
/// parents that each of them gets.
pub fn plan_move_commits(g: &CommitGraph, req: &MoveRequest) -> (r: MovePlan)
    requires
        g.wf(),
        req@.valid_for(*g),
    ensures
        r.plans(*g, req@),
{
    let ghost t = req@.target_set();
    let n = g.num_commits();
    let tmask = g.mask_of(&req.targets);
    let conn = connected_mask(g, &tmask);
    let internal = internal_parents_table(g, &tmask, &conn);
    let external = external_parents_table(g, &tmask);
    let parents_norm = substitute_external_ids(g, &tmask, &external, &req.new_parent_ids);
    let ext_children = external_children_table(g, &tmask);
    let children_norm = substitute_children_ids(g, &tmask, &ext_children, &req.new_children);
    let heads = target_heads(g, &tmask, &conn);
    proof {
        assert forall|i: int| 0 <= i < children_norm@.len() implies children_norm@[i] < g.len() by {
            lemma_substitute_children_in(*g, t, req@.new_children, i);
        }
    }
    let child_mask = g.mask_of(&children_norm);
    let given_roots = g.mask_of(&req.target_roots);
    let mut start: Vec<bool> = Vec::new();
    let mut c: usize = 0;
    while c < n
        invariant
            g.wf(),
            n == g.len(),
            c <= n,
            t == req@.target_set(),
            t == mask_set(tmask@),
            children_norm@ == move_new_children(*g, req@),
            conn@.len() == n,
            forall|j: int| 0 <= j < n ==> conn@[j] == in_connected(*g, t, j as usize),
            internal@.len() == n,
            forall|j: int| 0 <= j < n && conn@[j] ==> internal@[j]@ == internal_parents(*g, t, j as usize),
            child_mask@.len() == n,
            forall|j: int| 0 <= j < n ==> child_mask@[j] == children_norm@.contains(j as usize),
            given_roots@.len() == n,
            forall|j: int| 0 <= j < n ==> given_roots@[j] == req.target_roots@.contains(j as usize),
            start@.len() == c,
            forall|j: int| 0 <= j < c ==> start@[j] == (is_move_root(*g, req@, j as usize) || children_norm@.contains(j as usize)),
        decreases n - c,
    {
        let is_root = if req.target_roots.len() == 0 {
            conn[c] && internal[c].len() == 0
        } else {
            given_roots[c]
        };
        start.push(is_root || child_mask[c]);
        c = c + 1;
    }
    proof {
        assert(mask_set(start@) =~= move_start(*g, req@));
    }
    let reached = g.descendants_mask(&start);
    let below_children = g.descendants_mask(&child_mask);
    proof {
        assert(mask_set(child_mask@) =~= set_of(children_norm@)) by {
            assert forall|x: usize| set_of(children_norm@).contains(x) implies mask_set(child_mask@).contains(x) by {
                let i = choose|i: int| 0 <= i < children_norm@.len() && children_norm@[i] == x;
                lemma_substitute_children_in(*g, t, req@.new_children, i);
            }
        }
    }
    let some_targets = req.targets.len() > 0;
    let mut visit: Vec<bool> = Vec::new();
    let mut new_parents: Vec<Vec<usize>> = Vec::new();
    let mut c: usize = 0;
    while c < n
        invariant
            g.wf(),
            req@.valid_for(*g),
            n == g.len(),
            c <= n,
            t == req@.target_set(),
            t == mask_set(tmask@),
            tmask@.len() == n,
            some_targets == (req@.targets.len() > 0),
            children_norm@ == move_new_children(*g, req@),
            parents_norm@ == move_new_parents(*g, req@),
            heads@ == target_heads_upto(*g, t, g.len()),
            conn@.len() == n,
            forall|j: int| 0 <= j < n ==> conn@[j] == in_connected(*g, t, j as usize),
            internal@.len() == n,
            forall|j: int| 0 <= j < n && conn@[j] ==> internal@[j]@ == internal_parents(*g, t, j as usize),
            external@.len() == n,
            forall|j: int| 0 <= j < n && tmask@[j] ==> external@[j]@ == external_parents(*g, t, j as usize),
            child_mask@.len() == n,
            forall|j: int| 0 <= j < n ==> child_mask@[j] == children_norm@.contains(j as usize),
            given_roots@.len() == n,
            forall|j: int| 0 <= j < n ==> given_roots@[j] == req.target_roots@.contains(j as usize),
            start@.len() == n,
            forall|j: int| 0 <= j < n ==> start@[j] == (is_move_root(*g, req@, j as usize) || children_norm@.contains(j as usize)),
            reached@.len() == n,
            forall|j: int| 0 <= j < n ==> reached@[j] == g.reaches(move_start(*g, req@), j as usize),
            below_children@.len() == n,
            forall|j: int| 0 <= j < n ==> below_children@[j] == g.reaches(set_of(move_new_children(*g, req@)), j as usize),
            visit@.len() == c,
            new_parents@.len() == c,
            forall|j: int| 0 <= j < c ==> visit@[j] == is_visited(*g, req@, j as usize),
            forall|j: int| 0 <= j < c && #[trigger] visit@[j] ==> new_parents@[j]@ == planned_parents(*g, req@, j as usize),
            forall|j: int| 0 <= j < c && !visit@[j] ==> #[trigger] new_parents@[j]@ == g.pars(j as usize),
        decreases n - c,
    {
        let v = some_targets && reached[c];
        let mut ps: Vec<usize> = Vec::new();
        if !v {
            extend_with(&mut ps, &g.parents[c]);
        } else if child_mask[c] {
            let substituted = substitute_external_ids(g, &tmask, &external, &g.parents[c]);
            let mut combined = crate::seqs::without_ids(&substituted, &parents_norm);
            extend_with(&mut combined, &heads);
            ps = unique_ids(combined);
        } else if tmask[c] && start[c] {
            extend_with(&mut ps, &parents_norm);
        } else if tmask[c] {
            ps = kept_parents(g, req, &tmask, &conn, &internal, &below_children, c);
        } else {
            ps = substitute_external_ids(g, &tmask, &external, &g.parents[c]);
        }
        visit.push(v);
        new_parents.push(ps);
        c = c + 1;
    }
    MovePlan { visit, new_parents }
}

/// Every commit that `substitute_children` yields is a commit of the graph.
pub proof fn lemma_substitute_children_in(g: CommitGraph, t: Set<usize>, ids: Seq<usize>, i: int)
    requires
        g.wf(),
        ids_in(g, ids),
        0 <= i < substitute_children(g, t, ids).len(),
    ensures
        substitute_children(g, t, ids)[i] < g.len(),
    decreases ids.len(),
{
    let prev = substitute_children(g, t, ids.drop_last());
    if i < prev.len() {
        lemma_substitute_children_in(g, t, ids.drop_last(), i);
    } else if t.contains(ids.last()) {
        lemma_external_children_in(g, t, ids.last());
    }
}

/// Every commit that `external_children` yields is a commit of the graph.
pub proof fn lemma_external_children_in(g: CommitGraph, t: Set<usize>, c: usize)
    ensures
        ids_in(g, external_children(g, t, c)),
    decreases g.len() - c, 1nat, 0nat,
{
    lemma_external_children_from_in(g, t, c, c + 1);
    crate::seqs::lemma_dedup_first_within(external_children_from(g, t, c, c + 1));
}

/// Every commit that `external_children_from` yields is a commit of the graph.
pub proof fn lemma_external_children_from_in(g: CommitGraph, t: Set<usize>, c: usize, j: int)
    ensures
        ids_in(g, external_children_from(g, t, c, j)),
    decreases g.len() - c, 0nat, g.len() - j,
{
    if !(j <= c || j >= g.len() || j > usize::MAX) {
        lemma_external_children_from_in(g, t, c, j + 1);
        if g.pars(j as usize).contains(c) && t.contains(j as usize) {
            lemma_external_children_in(g, t, j as usize);
        }
    }
}

/// `substitute_external` leaves a list without targets unchanged.
pub proof fn lemma_substitute_external_no_targets(g: CommitGraph, t: Set<usize>, ids: Seq<usize>)
    requires
        forall|i: int| 0 <= i < ids.len() ==> !t.contains(#[trigger] ids[i]),
    ensures
        substitute_external(g, t, ids) == ids,
    decreases ids.len(),
{
    if ids.len() > 0 {
        lemma_substitute_external_no_targets(g, t, ids.drop_last());
        assert(ids.drop_last().push(ids.last()) == ids);
    }
}

/// A commit that is not a target, does not descend from a target and is not
/// one of the new children keeps its parents through the move.
pub proof fn lemma_move_keeps_unrelated_parents(g: CommitGraph, req: MoveSpec, plan: MovePlan, c: usize)
    requires
        g.wf(),
        req.valid_for(g),
        plan.plans(g, req),
        c < g.len(),
        !g.reaches(req.target_set(), c),
        !move_new_children(g, req).contains(c),
    ensures
        plan.new_parents@[c as int]@ == g.pars(c),
{
    let t = req.target_set();
    if plan.visit@[c as int] {
        g.lemma_reaches_step(t, c);
        assert forall|i: int| 0 <= i < g.pars(c).len() implies !t.contains(#[trigger] g.pars(c)[i]) by {
            if t.contains(g.pars(c)[i]) {
                assert(g.reaches(t, g.pars(c)[i]));
            }
        }
        lemma_substitute_external_no_targets(g, t, g.pars(c));
    }
}

/// A target keeps every parent that is a target, or lies outside the
/// connected target set and below no new child.
pub proof fn lemma_kept_parents_unchanged(g: CommitGraph, req: MoveSpec, c: usize, k: nat)
    requires
        g.wf(),
        c < g.len(),
        k <= g.pars(c).len(),
        forall|q: int| 0 <= q < k ==> req.target_set().contains(#[trigger] g.pars(c)[q]) || (!in_connected(
            g,
            req.target_set(),
            g.pars(c)[q],
        ) && !g.reaches(set_of(move_new_children(g, req)), g.pars(c)[q])),
    ensures
        kept_parents_upto(g, req, c, k) == g.pars(c).subrange(0, k as int),
    decreases k,
{
    if k > 0 {
        lemma_kept_parents_unchanged(g, req, c, (k - 1) as nat);
        let p = g.pars(c)[k - 1];
        assert(g.pars(c).subrange(0, k as int) == g.pars(c).subrange(0, k - 1).push(p));
    }
}

/// Nothing outside `t` descends from `t` when no commit outside `t` has a
/// parent in `t`.
pub proof fn lemma_targets_closed(g: CommitGraph, t: Set<usize>, c: usize)
    requires
        g.wf(),
        c < g.len(),
        !t.contains(c),
        forall|d: usize, k: int| d < g.len() && 0 <= k < g.pars(d).len() && !t.contains(d) ==> !t.contains(
            #[trigger] g.pars(d)[k],
        ),
    ensures
        !g.reaches(t, c),
    decreases c,
{
    g.lemma_reaches_step(t, c);
    assert forall|k: int| 0 <= k < g.pars(c).len() implies !#[trigger] g.reaches(t, g.pars(c)[k]) by {
        assert(g.parents@[c as int]@[k] < c);
        lemma_targets_closed(g, t, g.pars(c)[k]);
    }
}

/// A move whose targets already sit where it would put them plans no change
/// of parents: its roots are on the new parents, no new parent is a target,
/// no commit outside the targets has a target parent, and there are no new
/// children. Repeating a move therefore finds every commit in place.
pub proof fn lemma_move_in_place(g: CommitGraph, req: MoveSpec, plan: MovePlan)
    requires
        g.wf(),
        req.valid_for(g),
        plan.plans(g, req),
        req.new_children.len() == 0,
        forall|j: int| 0 <= j < req.new_parent_ids.len() ==> !req.target_set().contains(#[trigger] req.new_parent_ids[j]),
        forall|d: usize, k: int|
            d < g.len() && 0 <= k < g.pars(d).len() && !req.target_set().contains(d) ==> !req.target_set().contains(
                #[trigger] g.pars(d)[k],
            ),
        forall|r: usize| r < g.len() && req.target_set().contains(r) && #[trigger] is_move_root(g, req, r) ==> g.pars(r)
            == req.new_parent_ids,
    ensures
        forall|c: int| 0 <= c < g.len() ==> #[trigger] plan.new_parents@[c]@ == g.pars(c as usize),
{
    let t = req.target_set();
    assert(move_new_children(g, req) =~= seq![]);
    assert(set_of(Seq::<usize>::empty()) =~= Set::<usize>::empty());
    assert forall|c: int| 0 <= c < g.len() implies #[trigger] plan.new_parents@[c]@ == g.pars(c as usize) by {
        let cu = c as usize;
        assert forall|k: int| 0 <= k < g.pars(cu).len() implies (g.pars(cu)[k] as int) < g.len() by {
            assert(g.parents@[c]@[k] < c);
        }
        if plan.visit@[c] {
            if t.contains(cu) && is_move_root(g, req, cu) {
                lemma_substitute_external_no_targets(g, t, req.new_parent_ids);
            } else if t.contains(cu) {
                assert forall|q: int| 0 <= q < g.pars(cu).len() implies t.contains(#[trigger] g.pars(cu)[q]) || (
                !in_connected(g, t, g.pars(cu)[q]) && !g.reaches(set_of(move_new_children(g, req)), g.pars(cu)[q])) by {
                    let p = g.pars(cu)[q];
                    if !t.contains(p) {
                        lemma_targets_closed(g, t, p);
                        g.lemma_reaches_nothing(p);
                    }
                }
                lemma_kept_parents_unchanged(g, req, cu, g.pars(cu).len());
            } else {
                lemma_substitute_external_no_targets(g, t, g.pars(cu));
            }
        }
    }
}

} // verus!
