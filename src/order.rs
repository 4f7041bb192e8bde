use vstd::prelude::*;
use crate::graph::CommitGraph;
use crate::plan::{MovePlan, MoveSpec};

verus! {

/// The number of `false` entries of `m`.
pub open spec fn count_false(m: Seq<bool>) -> nat
    decreases m.len(),
{
    if m.len() == 0 {
        0
    } else {
        count_false(m.drop_last()) + if m.last() {
            0nat
        } else {
            1nat
        }
    }
}

proof fn lemma_count_false_set(m: Seq<bool>, i: int)
    requires
        0 <= i < m.len(),
        !m[i],
    ensures
        count_false(m.update(i, true)) + 1 == count_false(m),
    decreases m.len(),
{
    if i < m.len() - 1 {
        lemma_count_false_set(m.drop_last(), i);
        assert(m.update(i, true).drop_last() == m.drop_last().update(i, true));
    } else {
        assert(m.update(i, true).drop_last() == m.drop_last());
    }
}

impl MovePlan {
    /// The parents of `c` after the move.
    pub open spec fn parents_after(&self, c: int) -> Seq<usize> {
        self.new_parents@[c]@
    }

    /// `order` lists every revisited commit exactly once, and lists each of
    /// them after those of its new parents that are revisited too.
    pub open spec fn is_rewrite_order(&self, order: Seq<usize>) -> bool {
        is_parents_first(self.visit@, self.new_parents@, order)
    }
}

/// `order` lists every node marked in `visit` exactly once, and lists each of
/// them after those of its parents that are marked too.
pub open spec fn is_parents_first(visit: Seq<bool>, parents: Seq<Vec<usize>>, order: Seq<usize>) -> bool {
    &&& order.no_duplicates()
    &&& forall|i: int| 0 <= i < order.len() ==> (#[trigger] order[i] as int) < visit.len() && visit[order[i] as int]
    &&& forall|c: usize| (c as int) < visit.len() && visit[c as int] ==> #[trigger] order.contains(c)
    &&& forall|i: int, j: int|
        0 <= i < order.len() && 0 <= j < order.len() && #[trigger] parents[order[i] as int]@.contains(#[trigger] order[j])
            ==> j < i
}

/// No order can list the commits of `stuck`: each of them has a new parent in
/// `stuck`.
proof fn lemma_stuck_blocks(visit: Seq<bool>, parents: Seq<Vec<usize>>, stuck: Set<usize>, order: Seq<usize>, q: int)
    requires
        is_parents_first(visit, parents, order),
        forall|c: usize| #[trigger] stuck.contains(c) ==> exists|p: usize|
            stuck.contains(p) && (p as int) < visit.len() && visit[p as int]
                && #[trigger] parents[c as int]@.contains(p),
        0 <= q < order.len(),
    ensures
        !stuck.contains(order[q]),
    decreases q,
{
    if stuck.contains(order[q]) {
        let c = order[q];
        let p = choose|p: usize|
            stuck.contains(p) && (p as int) < visit.len() && visit[p as int]
                && #[trigger] parents[c as int]@.contains(p);
        assert(order.contains(p));
        let j = choose|j: int| 0 <= j < order.len() && order[j] == p;
        assert(parents[order[q] as int]@.contains(order[j]));
        lemma_stuck_blocks(visit, parents, stuck, order, j);
    }
}

/// Whether every new parent of `c` that is revisited is already placed.
fn parents_placed(visit: &Vec<bool>, parents: &Vec<Vec<usize>>, placed: &Vec<bool>, c: usize) -> (r: bool)
    requires
        c < parents@.len(),
        placed@.len() == visit@.len(),
    ensures
        r == forall|p: usize| #[trigger] parents@[c as int]@.contains(p) && (p as int) < visit@.len()
            && visit@[p as int] ==> placed@[p as int],
{
    let ps = &parents[c];
    let n = visit.len();
    let mut k: usize = 0;
    while k < ps.len()
        invariant
            c < parents@.len(),
            *ps == parents@[c as int],
            n == visit@.len(),
            placed@.len() == n,
            k <= ps@.len(),
            forall|q: int| 0 <= q < k && (ps@[q] as int) < n && visit@[ps@[q] as int] ==> placed@[ps@[q] as int],
        decreases ps@.len() - k,
    {
        let p = ps[k];
        if p < n && visit[p] && !placed[p] {
            proof {
                assert(parents@[c as int]@[k as int] == p);
                assert(parents@[c as int]@.contains(p));
            }
            return false;
        }
        k = k + 1;
    }
    proof {
        assert forall|p: usize| #[trigger] parents@[c as int]@.contains(p) && (p as int) < visit@.len()
            && visit@[p as int] implies placed@[p as int] by {
            let q = choose|q: int| 0 <= q < ps@.len() && ps@[q] == p;
        }
    }
    true
}

/// Whether the nodes marked in `visit` can be listed so that each comes after
/// its marked parents, that is, whether their parents form no cycle.
pub fn has_parents_first_order(visit: &Vec<bool>, parents: &Vec<Vec<usize>>) -> (r: bool)
    requires
        parents@.len() == visit@.len(),
    ensures
        r <==> exists|o: Seq<usize>| is_parents_first(visit@, parents@, o),
{
    let n = visit.len();
    let mut placed: Vec<bool> = Vec::new();
    let mut i: usize = 0;
    while i < n
        invariant
            i <= n,
            placed@.len() == i,
            forall|j: int| 0 <= j < i ==> !placed@[j],
            count_false(placed@) == i,
        decreases n - i,
    {
        proof {
            assert(placed@.push(false).drop_last() == placed@);
        }
        placed.push(false);
        i = i + 1;
    }
    let mut order: Vec<usize> = Vec::new();
    let mut progress = true;
    while progress
        invariant
            n == visit@.len(),
            parents@.len() == n,
            placed@.len() == n,
            order@.len() + count_false(placed@) == n,
            order@.no_duplicates(),
            forall|j: int| 0 <= j < order@.len() ==> (#[trigger] order@[j] as int) < n && visit@[order@[j] as int]
                && placed@[order@[j] as int],
            forall|c: usize| (c as int) < n && #[trigger] placed@[c as int] ==> order@.contains(c),
            forall|j: int, p: usize| 0 <= j < order@.len() && #[trigger] parents@[order@[j] as int]@.contains(p)
                && (p as int) < n && visit@[p as int] ==> placed@[p as int],
            forall|i: int, j: int|
                0 <= i < order@.len() && 0 <= j < order@.len() && #[trigger] parents@[order@[i] as int]@.contains(
                    #[trigger] order@[j],
                ) ==> j < i,
            !progress ==> forall|c: usize| (c as int) < n && visit@[c as int] && !placed@[c as int] ==> exists|p: usize|
                #[trigger] parents@[c as int]@.contains(p) && (p as int) < n && visit@[p as int] && !placed@[p as int],
        decreases count_false(placed@) + if progress { 1nat } else { 0nat },
    {
        progress = false;
        let ghost start_count = count_false(placed@);
        let mut c: usize = 0;
        while c < n
            invariant
                n == visit@.len(),
                parents@.len() == n,
                placed@.len() == n,
                c <= n,
                order@.len() + count_false(placed@) == n,
                order@.no_duplicates(),
                forall|j: int| 0 <= j < order@.len() ==> (#[trigger] order@[j] as int) < n && visit@[order@[j] as int]
                    && placed@[order@[j] as int],
                forall|c: usize| (c as int) < n && #[trigger] placed@[c as int] ==> order@.contains(c),
                forall|j: int, p: usize| 0 <= j < order@.len() && #[trigger] parents@[order@[j] as int]@.contains(p)
                    && (p as int) < n && visit@[p as int] ==> placed@[p as int],
                forall|i: int, j: int|
                    0 <= i < order@.len() && 0 <= j < order@.len() && #[trigger] parents@[order@[i] as int]@.contains(
                        #[trigger] order@[j],
                    ) ==> j < i,
                progress ==> count_false(placed@) < start_count,
                !progress ==> count_false(placed@) == start_count,
                !progress ==> forall|d: usize| (d as int) < c && visit@[d as int] && !placed@[d as int] ==> exists|p: usize|
                    #[trigger] parents@[d as int]@.contains(p) && (p as int) < n && visit@[p as int] && !placed@[p as int],
            decreases n - c,
        {
            if visit[c] && !placed[c] {
                let ready = parents_placed(visit, parents, &placed, c);
                if ready {
                    let ghost old_order = order@;
                    let ghost old_placed = placed@;
                    proof {
                        lemma_count_false_set(placed@, c as int);
                        assert(!old_order.contains(c));
                    }
                    placed.set(c, true);
                    order.push(c);
                    progress = true;
                    proof {
                        assert forall|j: int| 0 <= j < order@.len() implies (#[trigger] order@[j] as int) < n
                            && visit@[order@[j] as int] && placed@[order@[j] as int] by {
                            if j < old_order.len() {
                                assert(order@[j] == old_order[j]);
                            }
                        }
                        assert forall|d: usize| (d as int) < n && #[trigger] placed@[d as int] implies order@.contains(d) by {
                            if d != c {
                                assert(old_placed[d as int]);
                                let q = choose|q: int| 0 <= q < old_order.len() && old_order[q] == d;
                                assert(order@[q] == d);
                            } else {
                                assert(order@[old_order.len() as int] == c);
                            }
                        }
                        assert forall|j: int, p: usize| 0 <= j < order@.len() && #[trigger] parents@[order@[j] as int]@.contains(p)
                            && (p as int) < n && visit@[p as int] implies placed@[p as int] by {
                            if j < old_order.len() {
                                assert(order@[j] == old_order[j]);
                                assert(old_placed[p as int]);
                            }
                        }
                        assert forall|i: int, j: int|
                            0 <= i < order@.len() && 0 <= j < order@.len() && #[trigger] parents@[order@[i] as int]@.contains(
                                #[trigger] order@[j],
                            ) implies j < i by {
                            if i < old_order.len() && j < old_order.len() {
                                assert(order@[i] == old_order[i] && order@[j] == old_order[j]);
                            } else if i < old_order.len() {
                                assert(order@[i] == old_order[i]);
                                assert(order@[j] == c);
                                assert(old_placed[c as int]);
                            } else if j == i {
                                assert(order@[i] == c);
                                assert(old_placed[c as int]);
                            } else {
                                assert(j < old_order.len() || j == i);
                            }
                        }
                    }
                } else {
                    proof {
                        let p = choose|p: usize| #[trigger] parents@[c as int]@.contains(p) && (p as int) < visit@.len()
                            && visit@[p as int] && !placed@[p as int];
                    }
                }
            }
            c = c + 1;
        }
    }
    let mut all = true;
    let mut c: usize = 0;
    while c < n
        invariant
            n == visit@.len(),
            placed@.len() == n,
            c <= n,
            all == forall|d: usize| (d as int) < c && visit@[d as int] ==> placed@[d as int],
        decreases n - c,
    {
        if visit[c] && !placed[c] {
            all = false;
        }
        c = c + 1;
    }
    if all {
        proof {
            assert forall|d: usize| (d as int) < n && visit@[d as int] implies #[trigger] order@.contains(d) by {
                assert(placed@[d as int]);
            }
            assert(is_parents_first(visit@, parents@, order@));
        }
        true
    } else {
        proof {
            let stuck = Set::new(|d: usize| (d as int) < n && visit@[d as int] && !placed@[d as int]);
            assert forall|o: Seq<usize>| !is_parents_first(visit@, parents@, o) by {
                if is_parents_first(visit@, parents@, o) {
                    let d = choose|d: usize| (d as int) < n && visit@[d as int] && !placed@[d as int];
                    assert(stuck.contains(d));
                    assert(o.contains(d));
                    let q = choose|q: int| 0 <= q < o.len() && o[q] == d;
                    lemma_stuck_blocks(visit@, parents@, stuck, o, q);
                }
            }
        }
        false
    }
}

/// Some ranking puts every node above each of its parents: the parents form
/// no cycle.
pub open spec fn acyclic(parents: Seq<Vec<usize>>) -> bool {
    exists|rank: spec_fn(usize) -> int| #[trigger] ranks_below(parents, rank)
}

/// `rank` puts every node above each of its parents.
pub open spec fn ranks_below(parents: Seq<Vec<usize>>, rank: spec_fn(usize) -> int) -> bool {
    forall|c: int, k: int|
        0 <= c < parents.len() && 0 <= k < parents[c]@.len() ==> rank(#[trigger] parents[c]@[k]) < rank(c as usize)
}

/// Every parent is a node.
pub open spec fn parents_in(parents: Seq<Vec<usize>>) -> bool {
    forall|c: int, k: int| 0 <= c < parents.len() && 0 <= k < parents[c]@.len() ==> (#[trigger] parents[c]@[k] as int) < parents.len()
}

/// `order` lists, once each, the nodes of `start` and the nodes reachable
/// from them through parents, each before all of its parents.
pub open spec fn is_reverse_topological(parents: Seq<Vec<usize>>, start: Seq<usize>, order: Seq<usize>) -> bool {
    &&& order.no_duplicates()
    &&& forall|i: int| 0 <= i < order.len() ==> (#[trigger] order[i] as int) < parents.len()
    &&& forall|i: int| 0 <= i < start.len() ==> order.contains(#[trigger] start[i])
    &&& forall|j: int| 0 <= j < order.len() ==> start.contains(#[trigger] order[j]) || exists|i: int|
        0 <= i < j && parents[order[i] as int]@.contains(order[j])
    &&& forall|i: int, j: int|
        0 <= i < order.len() && 0 <= j < order.len() && #[trigger] parents[order[i] as int]@.contains(#[trigger] order[j])
            ==> i < j
}

/// The parents of node `c`, for walking the graph.
pub fn parents_of(parents: &Vec<Vec<usize>>, c: usize) -> (r: Vec<usize>)
    requires
        c < parents@.len(),
    ensures
        r@ == parents@[c as int]@,
{
    let mut r: Vec<usize> = Vec::new();
    crate::seqs::extend_with(&mut r, &parents[c]);
    r
}

/// Relies on `jj_lib::dag_walk::topo_order_reverse`: lists the nodes of
/// `start` and all nodes reachable from them through parents, each once and
/// before its parents; every listed node other than a start node is a parent
/// of a node listed before it. It panics on a cycle, which `requires` rules
/// out.
#[verifier::external_body]
pub(crate) fn topo_order_reverse(start: Vec<usize>, parents: &Vec<Vec<usize>>) -> (r: Vec<usize>)
    requires
        forall|i: int| 0 <= i < start@.len() ==> (start@[i] as int) < parents@.len(),
        parents_in(parents@),
        acyclic(parents@),
    ensures
        is_reverse_topological(parents@, start@, r@),
{
    jj_lib::dag_walk::topo_order_reverse(start, |c: &usize| *c, |c: &usize| parents_of(parents, *c))
}

/// The parents of the revisited commits restricted to revisited commits; no
/// parents for the other commits.
fn revisited_parents(plan: &MovePlan) -> (r: Vec<Vec<usize>>)
    requires
        plan.new_parents@.len() == plan.visit@.len(),
    ensures
        r@.len() == plan.visit@.len(),
        forall|c: int, p: usize| 0 <= c < r@.len() ==> (#[trigger] r@[c]@.contains(p) <==> (plan.visit@[c]
            && plan.parents_after(c).contains(p) && (p as int) < plan.visit@.len() && plan.visit@[p as int])),
{
    let n = plan.visit.len();
    let mut r: Vec<Vec<usize>> = Vec::new();
    let mut c: usize = 0;
    while c < n
        invariant
            n == plan.visit@.len(),
            plan.new_parents@.len() == n,
            c <= n,
            r@.len() == c,
            forall|d: int, p: usize| 0 <= d < c ==> (#[trigger] r@[d]@.contains(p) <==> (plan.visit@[d]
                && plan.parents_after(d).contains(p) && (p as int) < n && plan.visit@[p as int])),
        decreases n - c,
    {
        let mut kept: Vec<usize> = Vec::new();
        if plan.visit[c] {
            let ps = &plan.new_parents[c];
            let mut k: usize = 0;
            while k < ps.len()
                invariant
                    n == plan.visit@.len(),
                    c < n,
                    *ps == plan.new_parents@[c as int],
                    k <= ps@.len(),
                    forall|p: usize| #[trigger] kept@.contains(p) <==> (ps@.subrange(0, k as int).contains(p)
                        && (p as int) < n && plan.visit@[p as int]),
                decreases ps@.len() - k,
            {
                let p = ps[k];
                let ghost before = kept@;
                if p < n && plan.visit[p] {
                    kept.push(p);
                }
                proof {
                    assert(ps@.subrange(0, k + 1) == ps@.subrange(0, k as int).push(p));
                    assert forall|x: usize| #[trigger] kept@.contains(x) <==> (ps@.subrange(0, k + 1).contains(x)
                        && (x as int) < n && plan.visit@[x as int]) by {
                        if ps@.subrange(0, k + 1).contains(x) && x != p {
                            let q = choose|q: int| 0 <= q < k + 1 && #[trigger] ps@.subrange(0, k + 1)[q] == x;
                            assert(ps@.subrange(0, k as int)[q] == x);
                        }
                        if ps@.subrange(0, k as int).contains(x) {
                            let q = choose|q: int| 0 <= q < k && #[trigger] ps@.subrange(0, k as int)[q] == x;
                            assert(ps@.subrange(0, k + 1)[q] == x);
                        }
                        if x == p {
                            assert(ps@.subrange(0, k + 1)[k as int] == p);
                        }
                        if kept@.contains(x) && x != p {
                            let q = choose|q: int| 0 <= q < kept@.len() && kept@[q] == x;
                            if q < before.len() {
                                assert(before[q] == x);
                            }
                        }
                        if before.contains(x) {
                            let q = choose|q: int| 0 <= q < before.len() && before[q] == x;
                            assert(kept@[q] == x);
                        }
                        if x == p && p < n && plan.visit@[p as int] {
                            assert(kept@[kept@.len() - 1] == p);
                        }
                    }
                }
                k = k + 1;
            }
            proof {
                assert(ps@.subrange(0, k as int) == plan.parents_after(c as int));
            }
        }
        r.push(kept);
        c = c + 1;
    }
    r
}

/// A parents-first order of the marked nodes ranks the parents of every
/// node below it, when only marked nodes have parents, all marked.
pub proof fn lemma_order_gives_rank(visit: Seq<bool>, parents: Seq<Vec<usize>>, o: Seq<usize>)
    requires
        parents.len() == visit.len(),
        visit.len() <= usize::MAX,
        is_parents_first(visit, parents, o),
        forall|c: int, p: usize| 0 <= c < parents.len() && #[trigger] parents[c]@.contains(p) ==> visit[c]
            && (p as int) < visit.len() && visit[p as int],
    ensures
        acyclic(parents),
{
    let rank = |c: usize| if (c as int) < visit.len() && visit[c as int] {
        choose|i: int| 0 <= i < o.len() && o[i] == c
    } else {
        0
    };
    assert forall|c: int, k: int| 0 <= c < parents.len() && 0 <= k < parents[c]@.len()
        implies rank(#[trigger] parents[c]@[k]) < rank(c as usize) by {
        let p = parents[c]@[k];
        assert(parents[c]@.contains(p));
        assert(o.contains(c as usize));
        assert(o.contains(p));
        let i = choose|i: int| 0 <= i < o.len() && o[i] == c as usize;
        let j = choose|j: int| 0 <= j < o.len() && o[j] == p;
        assert(parents[o[i] as int]@.contains(o[j]));
    }
    assert(ranks_below(parents, rank));
}

/// The marked nodes, in increasing order.
pub(crate) fn marked_nodes(visit: &Vec<bool>) -> (r: Vec<usize>)
    ensures
        forall|i: int| 0 <= i < r@.len() ==> (#[trigger] r@[i] as int) < visit@.len() && visit@[r@[i] as int],
        forall|c: usize| (c as int) < visit@.len() && visit@[c as int] ==> #[trigger] r@.contains(c),
{
    let mut r: Vec<usize> = Vec::new();
    let mut c: usize = 0;
    while c < visit.len()
        invariant
            c <= visit@.len(),
            forall|i: int| 0 <= i < r@.len() ==> (#[trigger] r@[i] as int) < visit@.len() && visit@[r@[i] as int],
            forall|d: usize| d < c && visit@[d as int] ==> #[trigger] r@.contains(d),
        decreases visit@.len() - c,
    {
        let ghost before = r@;
        if visit[c] {
            r.push(c);
            proof {
                assert forall|d: usize| d < c + 1 && visit@[d as int] implies #[trigger] r@.contains(d) by {
                    if d < c {
                        assert(before.contains(d));
                        let q = choose|q: int| 0 <= q < before.len() && before[q] == d;
                        assert(r@[q] == d);
                    } else {
                        assert(r@[r@.len() - 1] == d);
                    }
                }
            }
        }
        c = c + 1;
    }
    r
}

/// `order` read from its end.
pub open spec fn reversed(order: Seq<usize>) -> Seq<usize> {
    Seq::new(order.len(), |i: int| order[order.len() - 1 - i])
}

/// Reverses `v`.
pub fn reverse_ids(v: &Vec<usize>) -> (r: Vec<usize>)
    ensures
        r@ == reversed(v@),
{
    let mut r: Vec<usize> = Vec::new();
    let mut k: usize = v.len();
    while k > 0
        invariant
            k <= v@.len(),
            r@.len() == v@.len() - k,
            forall|q: int| 0 <= q < r@.len() ==> r@[q] == v@[v@.len() - 1 - q],
        decreases k,
    {
        k = k - 1;
        r.push(v[k]);
    }
    proof {
        assert(r@ =~= reversed(v@));
    }
    r
}

/// A sequence without repetitions of values below `n` has at most `n` values.
pub proof fn lemma_distinct_below(s: Seq<usize>, n: nat)
    requires
        s.no_duplicates(),
        forall|i: int| 0 <= i < s.len() ==> (#[trigger] s[i] as int) < n,
    ensures
        s.len() <= n,
    decreases n,
{
    if s.len() > 0 {
        let x = s.last();
        let rest = s.drop_last();
        let shifted = rest.map_values(|y: usize| if y > x { (y - 1) as usize } else { y });
        assert forall|i: int| 0 <= i < shifted.len() implies (#[trigger] shifted[i] as int) < n - 1 by {
            assert(rest[i] == s[i]);
            assert(s[i] != s[s.len() - 1]);
        }
        assert forall|i: int, j: int| 0 <= i < shifted.len() && 0 <= j < shifted.len() && i != j
            implies shifted[i] != shifted[j] by {
            assert(rest[i] == s[i] && rest[j] == s[j]);
            assert(s[i] != s[j]);
            assert(s[i] != s[s.len() - 1] && s[j] != s[s.len() - 1]);
        }
        assert(n > 0) by {
            assert(s[s.len() - 1] == x);
        }
        lemma_distinct_below(shifted, (n - 1) as nat);
    }
}

/// An order in which to rewrite the revisited commits so that each comes after
/// its revisited new parents, or `None` when no such order exists because the
/// new parents form a cycle.
pub fn rewrite_order(plan: &MovePlan) -> (r: Option<Vec<usize>>)
    requires
        plan.new_parents@.len() == plan.visit@.len(),
    ensures
        r matches Some(o) ==> plan.is_rewrite_order(o@) && o@.len() <= plan.visit@.len(),
        r is None ==> forall|o: Seq<usize>| !plan.is_rewrite_order(o),
{
    let restricted = revisited_parents(plan);
    let n = plan.visit.len();
    proof {
        assert forall|o: Seq<usize>| #[trigger] is_parents_first(plan.visit@, restricted@, o)
            == plan.is_rewrite_order(o) by {
            if is_parents_first(plan.visit@, restricted@, o) {
                assert forall|i: int, j: int| 0 <= i < o.len() && 0 <= j < o.len()
                    && #[trigger] plan.new_parents@[o[i] as int]@.contains(#[trigger] o[j]) implies j < i by {
                    assert(restricted@[o[i] as int]@.contains(o[j]));
                }
                assert(plan.is_rewrite_order(o));
            }
            if plan.is_rewrite_order(o) {
                assert forall|i: int, j: int| 0 <= i < o.len() && 0 <= j < o.len()
                    && #[trigger] restricted@[o[i] as int]@.contains(#[trigger] o[j]) implies j < i by {
                    assert(plan.parents_after(o[i] as int).contains(o[j]));
                }
                assert(is_parents_first(plan.visit@, restricted@, o));
            }
        }
    }
    if !has_parents_first_order(&plan.visit, &restricted) {
        proof {
            assert forall|o: Seq<usize>| !plan.is_rewrite_order(o) by {
                assert(!is_parents_first(plan.visit@, restricted@, o));
            }
        }
        return None;
    }
    proof {
        let o = choose|o: Seq<usize>| is_parents_first(plan.visit@, restricted@, o);
        lemma_order_gives_rank(plan.visit@, restricted@, o);
        assert forall|c: int, k: int| 0 <= c < restricted@.len() && 0 <= k < restricted@[c]@.len()
            implies (#[trigger] restricted@[c]@[k] as int) < restricted@.len() by {
            assert(restricted@[c]@.contains(restricted@[c]@[k]));
        }
    }
    let start = marked_nodes(&plan.visit);
    let children_first = topo_order_reverse(start, &restricted);
    let order = reverse_ids(&children_first);
    proof {
        let cf = children_first@;
        let len = cf.len();
        assert forall|j: int| 0 <= j < len implies plan.visit@[#[trigger] cf[j] as int] by {
            if !start@.contains(cf[j]) {
                let i = choose|i: int| 0 <= i < j && restricted@[cf[i] as int]@.contains(cf[j]);
            } else {
                let q = choose|q: int| 0 <= q < start@.len() && start@[q] == cf[j];
            }
        }
        assert forall|a: int, b: int| 0 <= a < order@.len() && 0 <= b < order@.len() && a != b
            implies order@[a] != order@[b] by {
            assert(order@[a] == cf[len - 1 - a] && order@[b] == cf[len - 1 - b]);
        }
        assert forall|i: int| 0 <= i < order@.len() implies (#[trigger] order@[i] as int) < n
            && plan.visit@[order@[i] as int] by {
            assert(order@[i] == cf[len - 1 - i]);
        }
        assert forall|c: usize| (c as int) < n && plan.visit@[c as int] implies #[trigger] order@.contains(c) by {
            assert(start@.contains(c));
            let q = choose|q: int| 0 <= q < start@.len() && start@[q] == c;
            assert(cf.contains(start@[q]));
            let p = choose|p: int| 0 <= p < len && cf[p] == c;
            assert(order@[len - 1 - p] == c);
        }
        assert forall|i: int, j: int|
            0 <= i < order@.len() && 0 <= j < order@.len() && #[trigger] plan.new_parents@[order@[i] as int]@.contains(
                #[trigger] order@[j],
            ) implies j < i by {
            assert(order@[i] == cf[len - 1 - i] && order@[j] == cf[len - 1 - j]);
            assert(restricted@[cf[len - 1 - i] as int]@.contains(cf[len - 1 - j]));
        }
        assert(plan.is_rewrite_order(order@));
        lemma_distinct_below(order@, n as nat);
    }
    Some(order)
}

/// The commits after the move have no cycle: some ranking of the commits puts
/// every commit above each of its new parents.
pub open spec fn acyclic_after(plan: MovePlan) -> bool {
    exists|rank: spec_fn(usize) -> int| #[trigger] ranks_parents_below(plan, rank)
}

/// `rank` puts every commit above each of its new parents.
pub open spec fn ranks_parents_below(plan: MovePlan, rank: spec_fn(usize) -> int) -> bool {
        forall|c: usize, k: int|
            (c as int) < plan.visit@.len() && 0 <= k < plan.parents_after(c as int).len()
                && (plan.parents_after(c as int)[k] as int) < plan.visit@.len()
                ==> rank(#[trigger] plan.parents_after(c as int)[k]) < rank(c)
}

/// After a move whose rewrite order exists, the commit graph has no cycle.
pub proof fn lemma_move_keeps_graph_acyclic(g: CommitGraph, req: MoveSpec, plan: MovePlan, order: Seq<usize>)
    requires
        g.wf(),
        req.valid_for(g),
        plan.plans(g, req),
        plan.is_rewrite_order(order),
    ensures
        acyclic_after(plan),
{
    let n = g.len();
    let rank = |c: usize|
        if (c as int) < n && plan.visit@[c as int] {
            n + choose|j: int| 0 <= j < order.len() && order[j] == c
        } else {
            c as int
        };
    assert forall|c: usize, k: int|
        (c as int) < plan.visit@.len() && 0 <= k < plan.parents_after(c as int).len()
            && (plan.parents_after(c as int)[k] as int) < plan.visit@.len()
            implies rank(#[trigger] plan.parents_after(c as int)[k]) < rank(c) by {
        let p = plan.parents_after(c as int)[k];
        if plan.visit@[c as int] {
            assert(order.contains(c));
            let i = choose|j: int| 0 <= j < order.len() && order[j] == c;
            if plan.visit@[p as int] {
                assert(order.contains(p));
                let j = choose|j: int| 0 <= j < order.len() && order[j] == p;
                assert(plan.parents_after(order[i] as int).contains(order[j]));
            }
        } else {
            assert(plan.parents_after(c as int) == g.pars(c));
            assert(g.parents@[c as int]@[k] < c);
            if plan.visit@[p as int] {
                g.lemma_reaches_step(crate::plan::move_start(g, req), c);
                assert(g.reaches(crate::plan::move_start(g, req), g.pars(c)[k]));
                assert(crate::plan::is_visited(g, req, c));
            }
        }
    }
    assert(ranks_parents_below(plan, rank));
}

} // verus!
