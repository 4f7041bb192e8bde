use vstd::prelude::*;
use crate::graph::{CommitGraph, lemma_marked_from_contains, list_marked, marked_from, set_of};
use crate::plan::ids_in;
use crate::seqs::dedup_first;
use crate::destination::{parents_of_all, parents_of_ids};
use crate::order::{
    has_parents_first_order, is_parents_first, lemma_order_gives_rank, marked_nodes, parents_in, reversed,
    topo_order_reverse,
};
use jj_lib::graph::{GraphEdge, TopoGroupedGraphIterator};
use indexmap::IndexSet;

verus! {

/// The commits of one change that an operation diff adds and removes.
pub struct ModifiedChange {
    pub change_id: u64,
    pub added_commits: Vec<usize>,
    pub removed_commits: Vec<usize>,
}

/// The commits reachable from `heads` but not from `other`, in decreasing
/// index order (children before parents).
pub open spec fn only_reached(g: CommitGraph, heads: Seq<usize>, other: Seq<usize>) -> Seq<usize> {
    marked_from(
        Seq::new(g.len(), |c: int| g.reached_by(set_of(heads), c as usize) && !g.reached_by(set_of(other), c as usize)),
        0,
    )
}

/// The change identity of commit `c`.
pub open spec fn change_of(g: CommitGraph, c: usize) -> u64 {
    g.change_ids@[c as int]
}

/// The commits of `s` that belong to change `ch`, order kept.
pub open spec fn of_change(g: CommitGraph, s: Seq<usize>, ch: u64) -> Seq<usize>
    decreases s.len(),
{
    if s.len() == 0 {
        seq![]
    } else if change_of(g, s.last()) == ch {
        of_change(g, s.drop_last(), ch).push(s.last())
    } else {
        of_change(g, s.drop_last(), ch)
    }
}

/// The change identities of the commits of `s`, in order.
pub open spec fn changes_of(g: CommitGraph, s: Seq<usize>) -> Seq<u64> {
    s.map_values(|c: usize| change_of(g, c))
}

/// `r` is the diff between the operations whose heads are `from_heads` and
/// `to_heads`: one entry per change touched, in order of first appearance
/// among the added and then the removed commits, each with the commits of
/// that change that were added and removed.
pub open spec fn is_op_diff(g: CommitGraph, from_heads: Seq<usize>, to_heads: Seq<usize>, r: Seq<ModifiedChange>) -> bool {
    let added = only_reached(g, to_heads, from_heads);
    let removed = only_reached(g, from_heads, to_heads);
    &&& r.map_values(|m: ModifiedChange| m.change_id) == dedup_first(changes_of(g, added + removed))
    &&& forall|i: int| 0 <= i < r.len() ==> (#[trigger] r[i]).added_commits@ == of_change(g, added, r[i].change_id)
        && r[i].removed_commits@ == of_change(g, removed, r[i].change_id)
}

/// The commits of `s` that belong to change `ch`.
fn commits_of_change(g: &CommitGraph, s: &Vec<usize>, ch: u64) -> (r: Vec<usize>)
    requires
        g.wf(),
        ids_in(*g, s@),
    ensures
        r@ == of_change(*g, s@, ch),
{
    let mut r: Vec<usize> = Vec::new();
    let mut k: usize = 0;
    while k < s.len()
        invariant
            g.wf(),
            ids_in(*g, s@),
            k <= s@.len(),
            r@ == of_change(*g, s@.subrange(0, k as int), ch),
        decreases s@.len() - k,
    {
        let c = s[k];
        proof {
            assert(s@.subrange(0, k + 1).drop_last() == s@.subrange(0, k as int));
        }
        if g.change_ids[c] == ch {
            r.push(c);
        }
        k = k + 1;
    }
    proof {
        assert(s@.subrange(0, k as int) == s@);
    }
    r
}

#[verifier::external_type_specification]
#[verifier::external_body]
#[verifier::reject_recursive_types(T)]
#[verifier::reject_recursive_types(S)]
pub struct ExIndexSet<T, S>(IndexSet<T, S>);

/// The change ids held by an insertion-ordered set, in insertion order.
pub uninterp spec fn change_set_items(s: IndexSet<u64>) -> Seq<u64>;

/// Relies on `indexmap::IndexSet::new`: the new set is empty.
#[verifier::external_body]
fn new_change_set() -> (r: IndexSet<u64>)
    ensures
        change_set_items(r) == Seq::<u64>::empty(),
{
    IndexSet::new()
}

/// Relies on `indexmap::IndexSet::insert`: a value not yet in the set is
/// added at its end; a value already in it leaves the set and its order as
/// they were.
#[verifier::external_body]
fn insert_change(s: &mut IndexSet<u64>, x: u64)
    ensures
        change_set_items(*final(s)) == if change_set_items(*old(s)).contains(x) {
            change_set_items(*old(s))
        } else {
            change_set_items(*old(s)).push(x)
        },
{
    s.insert(x);
}

/// Relies on `indexmap::IndexSet::iter`: the values in insertion order.
#[verifier::external_body]
fn change_set_values(s: &IndexSet<u64>) -> (r: Vec<u64>)
    ensures
        r@ == change_set_items(*s),
{
    s.iter().copied().collect()
}

/// The changes that the commits of `s` belong to, each once, in order of
/// first appearance.
fn change_ids_in_order(g: &CommitGraph, s: &Vec<usize>) -> (r: Vec<u64>)
    requires
        g.wf(),
        ids_in(*g, s@),
    ensures
        r@ == dedup_first(changes_of(*g, s@)),
{
    let mut seen = new_change_set();
    let mut k: usize = 0;
    while k < s.len()
        invariant
            g.wf(),
            ids_in(*g, s@),
            k <= s@.len(),
            change_set_items(seen) == dedup_first(changes_of(*g, s@.subrange(0, k as int))),
        decreases s@.len() - k,
    {
        let ch = g.change_ids[s[k]];
        proof {
            assert(changes_of(*g, s@.subrange(0, k + 1)).drop_last() == changes_of(*g, s@.subrange(0, k as int)));
            assert(changes_of(*g, s@.subrange(0, k + 1)).last() == ch);
        }
        insert_change(&mut seen, ch);
        k = k + 1;
    }
    proof {
        assert(s@.subrange(0, k as int) == s@);
    }
    change_set_values(&seen)
}

/// The commits reachable from `heads` but not from `other`, children first.
fn walk_revs(g: &CommitGraph, heads: &Vec<usize>, other: &Vec<usize>) -> (r: Vec<usize>)
    requires
        g.wf(),
        ids_in(*g, heads@),
        ids_in(*g, other@),
    ensures
        r@ == only_reached(*g, heads@, other@),
        ids_in(*g, r@),
{
    let hm = g.mask_of(heads);
    let om = g.mask_of(other);
    let above_heads = g.ancestors_mask(&hm);
    let above_other = g.ancestors_mask(&om);
    let n = g.num_commits();
    let mut m: Vec<bool> = Vec::new();
    let mut c: usize = 0;
    while c < n
        invariant
            n == g.len(),
            c <= n,
            above_heads@.len() == n,
            above_other@.len() == n,
            forall|j: int| 0 <= j < n ==> above_heads@[j] == g.reached_by(set_of(heads@), j as usize),
            forall|j: int| 0 <= j < n ==> above_other@[j] == g.reached_by(set_of(other@), j as usize),
            m@.len() == c,
            forall|j: int| 0 <= j < c ==> m@[j] == (g.reached_by(set_of(heads@), j as usize) && !g.reached_by(set_of(other@), j as usize)),
        decreases n - c,
    {
        m.push(above_heads[c] && !above_other[c]);
        c = c + 1;
    }
    proof {
        assert(m@ =~= Seq::new(g.len(), |c: int| g.reached_by(set_of(heads@), c as usize) && !g.reached_by(set_of(other@), c as usize)));
    }
    list_marked(&m)
}

/// The changes between the operation with heads `from_heads` and the one with
/// heads `to_heads`: the commits only the second reaches are added, those only
/// the first reaches are removed, grouped by change.
pub fn compute_operation_commits_diff(g: &CommitGraph, from_heads: &Vec<usize>, to_heads: &Vec<usize>) -> (r: Vec<ModifiedChange>)
    requires
        g.wf(),
        ids_in(*g, from_heads@),
        ids_in(*g, to_heads@),
    ensures
        is_op_diff(*g, from_heads@, to_heads@, r@),
{
    let added = walk_revs(g, to_heads, from_heads);
    let removed = walk_revs(g, from_heads, to_heads);
    let mut all: Vec<usize> = Vec::new();
    crate::seqs::extend_with(&mut all, &added);
    crate::seqs::extend_with(&mut all, &removed);
    let ids = change_ids_in_order(g, &all);
    let mut r: Vec<ModifiedChange> = Vec::new();
    let mut i: usize = 0;
    while i < ids.len()
        invariant
            g.wf(),
            ids_in(*g, added@),
            ids_in(*g, removed@),
            added@ == only_reached(*g, to_heads@, from_heads@),
            removed@ == only_reached(*g, from_heads@, to_heads@),
            i <= ids@.len(),
            r@.len() == i,
            forall|j: int| 0 <= j < i ==> (#[trigger] r@[j]).change_id == ids@[j],
            forall|j: int| 0 <= j < i ==> (#[trigger] r@[j]).added_commits@ == of_change(*g, added@, r@[j].change_id)
                && r@[j].removed_commits@ == of_change(*g, removed@, r@[j].change_id),
        decreases ids@.len() - i,
    {
        let ch = ids[i];
        let a = commits_of_change(g, &added, ch);
        let d = commits_of_change(g, &removed, ch);
        r.push(ModifiedChange { change_id: ch, added_commits: a, removed_commits: d });
        i = i + 1;
    }
    proof {
        assert(r@.map_values(|m: ModifiedChange| m.change_id) =~= ids@);
    }
    r
}

proof fn lemma_of_change_contains(g: CommitGraph, s: Seq<usize>, ch: u64, c: usize)
    ensures
        of_change(g, s, ch).contains(c) <==> (s.contains(c) && change_of(g, c) == ch),
    decreases s.len(),
{
    if s.len() > 0 {
        lemma_of_change_contains(g, s.drop_last(), ch, c);
        if s.contains(c) && c != s.last() {
            let q = choose|q: int| 0 <= q < s.len() && s[q] == c;
            assert(s.drop_last()[q] == c);
        }
        if s.drop_last().contains(c) {
            let q = choose|q: int| 0 <= q < s.drop_last().len() && s.drop_last()[q] == c;
            assert(s[q] == c);
        }
        if c == s.last() {
            assert(s[s.len() - 1] == c);
        }
        let prev = of_change(g, s.drop_last(), ch);
        if change_of(g, s.last()) == ch {
            assert(prev.push(s.last())[prev.len() as int] == s.last());
            if prev.contains(c) {
                let q = choose|q: int| 0 <= q < prev.len() && prev[q] == c;
                assert(prev.push(s.last())[q] == c);
            }
            if prev.push(s.last()).contains(c) && c != s.last() {
                let q = choose|q: int| 0 <= q < prev.len() + 1 && #[trigger] prev.push(s.last())[q] == c;
                assert(prev[q] == c);
            }
        }
    }
}

proof fn lemma_dedup_first_u64(s: Seq<u64>)
    ensures
        dedup_first(s).no_duplicates(),
        forall|x: u64| dedup_first(s).contains(x) <==> s.contains(x),
    decreases s.len(),
{
    if s.len() > 0 {
        lemma_dedup_first_u64(s.drop_last());
        let d = dedup_first(s.drop_last());
        assert forall|x: u64| dedup_first(s).contains(x) <==> s.contains(x) by {
            if s.drop_last().contains(x) {
                let q = choose|q: int| 0 <= q < s.drop_last().len() && s.drop_last()[q] == x;
                assert(s[q] == x);
            }
            if s.contains(x) && x != s.last() {
                let q = choose|q: int| 0 <= q < s.len() && s[q] == x;
                assert(s.drop_last()[q] == x);
            }
            if x == s.last() {
                assert(s[s.len() - 1] == x);
            }
            if !d.contains(s.last()) {
                assert(d.push(s.last())[d.len() as int] == s.last());
                if d.contains(x) {
                    let q = choose|q: int| 0 <= q < d.len() && d[q] == x;
                    assert(d.push(s.last())[q] == x);
                }
                if d.push(s.last()).contains(x) && x != s.last() {
                    let q = choose|q: int| 0 <= q < d.len() + 1 && #[trigger] d.push(s.last())[q] == x;
                    assert(d[q] == x);
                }
            }
        }
    }
}

proof fn lemma_only_reached_contains(g: CommitGraph, heads: Seq<usize>, other: Seq<usize>, c: usize)
    requires
        g.wf(),
    ensures
        only_reached(g, heads, other).contains(c) <==> (c < g.len() && g.reached_by(set_of(heads), c)
            && !g.reached_by(set_of(other), c)),
{
    lemma_marked_from_contains(
        Seq::new(g.len(), |c: int| g.reached_by(set_of(heads), c as usize) && !g.reached_by(set_of(other), c as usize)),
        0,
        c,
    );
}

/// Diffing in the other direction swaps the added and removed commits of
/// every change, and touches the same changes.
pub proof fn lemma_op_diff_symmetric(
    g: CommitGraph,
    a: Seq<usize>,
    b: Seq<usize>,
    forward: Seq<ModifiedChange>,
    backward: Seq<ModifiedChange>,
)
    requires
        g.wf(),
        is_op_diff(g, a, b, forward),
        is_op_diff(g, b, a, backward),
    ensures
        forall|i: int, j: int|
            0 <= i < forward.len() && 0 <= j < backward.len() && (#[trigger] forward[i]).change_id
                == (#[trigger] backward[j]).change_id ==> forward[i].added_commits@ == backward[j].removed_commits@
                && forward[i].removed_commits@ == backward[j].added_commits@,
        touches_changes_of(forward, backward),
{
    let added = only_reached(g, b, a);
    let removed = only_reached(g, a, b);
    let fw = changes_of(g, added + removed);
    let bw = changes_of(g, removed + added);
    lemma_dedup_first_u64(fw);
    lemma_dedup_first_u64(bw);
    assert forall|i: int| 0 <= i < forward.len() implies has_change(backward, #[trigger] forward[i].change_id) by {
        let ch = forward[i].change_id;
        assert(forward.map_values(|m: ModifiedChange| m.change_id)[i] == ch);
        assert(fw.contains(ch));
        let q = choose|q: int| 0 <= q < fw.len() && fw[q] == ch;
        if q < added.len() {
            assert((added + removed)[q] == added[q]);
            assert((removed + added)[removed.len() + q] == added[q]);
            assert(bw[removed.len() + q] == ch);
            assert(bw.contains(ch));
        } else {
            assert((added + removed)[q] == removed[q - added.len()]);
            assert((removed + added)[q - added.len()] == removed[q - added.len()]);
            assert(bw[q - added.len()] == ch);
            assert(bw.contains(ch));
        }
        assert(dedup_first(bw).contains(ch));
        let k = choose|k: int| 0 <= k < dedup_first(bw).len() && dedup_first(bw)[k] == ch;
        assert(backward.map_values(|m: ModifiedChange| m.change_id)[k] == ch);
        assert(backward[k].change_id == ch);
        assert(0 <= k < backward.len());
    }
}

/// Some entry of `changes` is about change `ch`.
pub open spec fn has_change(changes: Seq<ModifiedChange>, ch: u64) -> bool {
    exists|j: int| 0 <= j < changes.len() && (#[trigger] changes[j]).change_id == ch
}

/// Every change that `a` has an entry for, `b` has one for too.
pub open spec fn touches_changes_of(a: Seq<ModifiedChange>, b: Seq<ModifiedChange>) -> bool {
    forall|i: int| 0 <= i < a.len() ==> has_change(b, #[trigger] a[i].change_id)
}

/// Every commit that one side reaches and the other does not lies in exactly
/// one entry of the diff: among its added commits when the second operation
/// reaches it, among its removed commits when the first does.
pub proof fn lemma_op_diff_complete(g: CommitGraph, from_heads: Seq<usize>, to_heads: Seq<usize>, r: Seq<ModifiedChange>)
    requires
        g.wf(),
        is_op_diff(g, from_heads, to_heads, r),
    ensures
        forall|c: usize| #[trigger] only_reached(g, to_heads, from_heads).contains(c) ==> exists|i: int|
            0 <= i < r.len() && r[i].added_commits@.contains(c)
                && (forall|j: int| 0 <= j < r.len() && j != i ==> !(#[trigger] r[j]).added_commits@.contains(c))
                && (forall|j: int| 0 <= j < r.len() ==> !(#[trigger] r[j]).removed_commits@.contains(c)),
        forall|c: usize| #[trigger] only_reached(g, from_heads, to_heads).contains(c) ==> exists|i: int|
            0 <= i < r.len() && r[i].removed_commits@.contains(c)
                && (forall|j: int| 0 <= j < r.len() && j != i ==> !(#[trigger] r[j]).removed_commits@.contains(c))
                && (forall|j: int| 0 <= j < r.len() ==> !(#[trigger] r[j]).added_commits@.contains(c)),
{
    let added = only_reached(g, to_heads, from_heads);
    let removed = only_reached(g, from_heads, to_heads);
    let all = changes_of(g, added + removed);
    lemma_dedup_first_u64(all);
    let ids = r.map_values(|m: ModifiedChange| m.change_id);
    assert forall|c: usize| #[trigger] added.contains(c) implies exists|i: int|
        0 <= i < r.len() && r[i].added_commits@.contains(c)
            && (forall|j: int| 0 <= j < r.len() && j != i ==> !(#[trigger] r[j]).added_commits@.contains(c))
            && (forall|j: int| 0 <= j < r.len() ==> !(#[trigger] r[j]).removed_commits@.contains(c)) by {
        let ch = change_of(g, c);
        let q = choose|q: int| 0 <= q < added.len() && added[q] == c;
        assert((added + removed)[q] == c);
        assert(all[q] == ch);
        assert(all.contains(ch));
        assert(ids.contains(ch));
        let i = choose|i: int| 0 <= i < ids.len() && ids[i] == ch;
        assert(r[i].change_id == ch);
        lemma_of_change_contains(g, added, ch, c);
        lemma_only_reached_contains(g, to_heads, from_heads, c);
        lemma_only_reached_contains(g, from_heads, to_heads, c);
        assert forall|j: int| 0 <= j < r.len() && j != i implies !(#[trigger] r[j]).added_commits@.contains(c) by {
            assert(ids[j] != ids[i]);
            lemma_of_change_contains(g, added, r[j].change_id, c);
        }
        assert forall|j: int| 0 <= j < r.len() implies !(#[trigger] r[j]).removed_commits@.contains(c) by {
            lemma_of_change_contains(g, removed, r[j].change_id, c);
        }
    }
    assert forall|c: usize| #[trigger] removed.contains(c) implies exists|i: int|
        0 <= i < r.len() && r[i].removed_commits@.contains(c)
            && (forall|j: int| 0 <= j < r.len() && j != i ==> !(#[trigger] r[j]).removed_commits@.contains(c))
            && (forall|j: int| 0 <= j < r.len() ==> !(#[trigger] r[j]).added_commits@.contains(c)) by {
        let ch = change_of(g, c);
        let q = choose|q: int| 0 <= q < removed.len() && removed[q] == c;
        assert((added + removed)[added.len() + q] == c);
        assert(all[added.len() + q] == ch);
        assert(all.contains(ch));
        assert(ids.contains(ch));
        let i = choose|i: int| 0 <= i < ids.len() && ids[i] == ch;
        assert(r[i].change_id == ch);
        lemma_of_change_contains(g, removed, ch, c);
        lemma_only_reached_contains(g, to_heads, from_heads, c);
        lemma_only_reached_contains(g, from_heads, to_heads, c);
        assert forall|j: int| 0 <= j < r.len() && j != i implies !(#[trigger] r[j]).removed_commits@.contains(c) by {
            assert(ids[j] != ids[i]);
            lemma_of_change_contains(g, removed, r[j].change_id, c);
        }
        assert forall|j: int| 0 <= j < r.len() implies !(#[trigger] r[j]).added_commits@.contains(c) by {
            lemma_of_change_contains(g, added, r[j].change_id, c);
        }
    }
}

/// The changes of the commits of `ps` that the diff touches, in order.
pub open spec fn known_changes(g: CommitGraph, in_diff: Seq<bool>, ps: Seq<usize>) -> Seq<u64>
    decreases ps.len(),
{
    if ps.len() == 0 {
        seq![]
    } else {
        known_changes(g, in_diff, ps.drop_last()) + if (ps.last() as int) < in_diff.len() && in_diff[ps.last() as int] {
            seq![change_of(g, ps.last())]
        } else {
            seq![]
        }
    }
}

/// The changes that the change `m` sits on: the changes touched by the diff
/// that hold a parent of its added commits, or of its removed commits when it
/// has no added one, each listed once.
pub open spec fn parent_changes(g: CommitGraph, in_diff: Seq<bool>, m: ModifiedChange) -> Seq<u64> {
    let commits = if m.added_commits@.len() > 0 {
        m.added_commits@
    } else {
        m.removed_commits@
    };
    dedup_first(known_changes(g, in_diff, parents_of_all(g, commits)))
}

/// For each commit, whether exactly one of the two operations reaches it:
/// the commits that the diff between them touches.
pub fn diff_mask(g: &CommitGraph, from_heads: &Vec<usize>, to_heads: &Vec<usize>) -> (r: Vec<bool>)
    requires
        g.wf(),
        ids_in(*g, from_heads@),
        ids_in(*g, to_heads@),
    ensures
        r@.len() == g.len(),
        forall|c: int| 0 <= c < g.len() ==> r@[c] == (g.reached_by(set_of(to_heads@), c as usize) != g.reached_by(
            set_of(from_heads@),
            c as usize,
        )),
{
    let fm = g.mask_of(from_heads);
    let tm = g.mask_of(to_heads);
    let above_from = g.ancestors_mask(&fm);
    let above_to = g.ancestors_mask(&tm);
    let n = g.num_commits();
    let mut r: Vec<bool> = Vec::new();
    let mut c: usize = 0;
    while c < n
        invariant
            n == g.len(),
            c <= n,
            above_from@.len() == n,
            above_to@.len() == n,
            forall|j: int| 0 <= j < n ==> above_from@[j] == g.reached_by(set_of(from_heads@), j as usize),
            forall|j: int| 0 <= j < n ==> above_to@[j] == g.reached_by(set_of(to_heads@), j as usize),
            r@.len() == c,
            forall|j: int| 0 <= j < c ==> r@[j] == (g.reached_by(set_of(to_heads@), j as usize) != g.reached_by(
                set_of(from_heads@),
                j as usize,
            )),
        decreases n - c,
    {
        r.push(above_to[c] != above_from[c]);
        c = c + 1;
    }
    r
}

/// The changes that `m` sits on, given which commits the diff touches.
pub fn get_parent_changes(g: &CommitGraph, in_diff: &Vec<bool>, m: &ModifiedChange) -> (r: Vec<u64>)
    requires
        g.wf(),
        ids_in(*g, m.added_commits@),
        ids_in(*g, m.removed_commits@),
    ensures
        r@ == parent_changes(*g, in_diff@, *m),
{
    let commits = if m.added_commits.len() > 0 {
        &m.added_commits
    } else {
        &m.removed_commits
    };
    let ps = parents_of_ids(g, commits);
    let mut known: Vec<u64> = Vec::new();
    let mut k: usize = 0;
    while k < ps.len()
        invariant
            g.wf(),
            k <= ps@.len(),
            known@ == known_changes(*g, in_diff@, ps@.subrange(0, k as int)),
            ps@ == parents_of_all(*g, commits@),
            ids_in(*g, ps@),
        decreases ps@.len() - k,
    {
        let p = ps[k];
        proof {
            assert(ps@.subrange(0, k + 1).drop_last() == ps@.subrange(0, k as int));
        }
        if p < in_diff.len() && in_diff[p] {
            known.push(g.change_ids[p]);
        }
        k = k + 1;
    }
    proof {
        assert(ps@.subrange(0, k as int) == ps@);
        broadcast use vstd::std_specs::hash::axiom_u64_obeys_hash_table_key_model;
    }
    crate::seqs::unique_values(known)
}

/// Every change that `known_changes` lists is the change of a commit that
/// `in_diff` marks.
proof fn lemma_known_changes_from(g: CommitGraph, in_diff: Seq<bool>, ps: Seq<usize>, x: u64)
    requires
        known_changes(g, in_diff, ps).contains(x),
    ensures
        exists|p: usize| (p as int) < in_diff.len() && in_diff[p as int] && change_of(g, p) == x,
    decreases ps.len(),
{
    let prev = known_changes(g, in_diff, ps.drop_last());
    if prev.contains(x) {
        lemma_known_changes_from(g, in_diff, ps.drop_last(), x);
    } else {
        let q = choose|q: int| 0 <= q < known_changes(g, in_diff, ps).len() && known_changes(g, in_diff, ps)[q] == x;
        if (ps.last() as int) < in_diff.len() && in_diff[ps.last() as int] {
            assert(known_changes(g, in_diff, ps) == prev.push(change_of(g, ps.last())));
            if q < prev.len() {
                assert(prev[q] == x);
            }
        } else {
            assert(known_changes(g, in_diff, ps) =~= prev);
        }
    }
}

/// `idx` lists, for each change of `chs`, the position of its entry in
/// `changes`.
pub open spec fn entry_positions(changes: Seq<ModifiedChange>, chs: Seq<u64>, idx: Seq<usize>) -> bool {
    &&& idx.len() == chs.len()
    &&& forall|k: int| 0 <= k < idx.len() ==> (#[trigger] idx[k] as int) < changes.len()
        && changes[idx[k] as int].change_id == chs[k]
}

/// The position of the entry of change `ch` in `changes`.
fn position_of_change(changes: &Vec<ModifiedChange>, ch: u64) -> (r: Option<usize>)
    ensures
        r matches Some(j) ==> (j as int) < changes@.len() && changes@[j as int].change_id == ch,
        r is None ==> forall|j: int| 0 <= j < changes@.len() ==> (#[trigger] changes@[j]).change_id != ch,
{
    let mut j: usize = 0;
    while j < changes.len()
        invariant
            j <= changes@.len(),
            forall|q: int| 0 <= q < j ==> (#[trigger] changes@[q]).change_id != ch,
        decreases changes@.len() - j,
    {
        if changes[j].change_id == ch {
            return Some(j);
        }
        j = j + 1;
    }
    None
}

/// For each change of the diff, the positions of the changes it sits on.
pub fn change_graph(g: &CommitGraph, from_heads: &Vec<usize>, to_heads: &Vec<usize>, changes: &Vec<ModifiedChange>) -> (r: Vec<Vec<usize>>)
    requires
        g.wf(),
        ids_in(*g, from_heads@),
        ids_in(*g, to_heads@),
        is_op_diff(*g, from_heads@, to_heads@, changes@),
    ensures
        r@.len() == changes@.len(),
        forall|i: int| 0 <= i < changes@.len() ==> entry_positions(
            changes@,
            parent_changes(*g, diff_in(*g, from_heads@, to_heads@), #[trigger] changes@[i]),
            r@[i]@,
        ),
{
    let in_diff = diff_mask(g, from_heads, to_heads);
    let ghost added = only_reached(*g, to_heads@, from_heads@);
    let ghost removed = only_reached(*g, from_heads@, to_heads@);
    proof {
        assert(in_diff@ =~= diff_in(*g, from_heads@, to_heads@));
        lemma_dedup_first_u64(changes_of(*g, added + removed));
        lemma_entries_in(*g, from_heads@, to_heads@, changes@);
    }
    let mut r: Vec<Vec<usize>> = Vec::new();
    let mut i: usize = 0;
    while i < changes.len()
        invariant
            g.wf(),
            ids_in(*g, from_heads@),
            ids_in(*g, to_heads@),
            is_op_diff(*g, from_heads@, to_heads@, changes@),
            in_diff@ == diff_in(*g, from_heads@, to_heads@),
            added == only_reached(*g, to_heads@, from_heads@),
            removed == only_reached(*g, from_heads@, to_heads@),
            forall|x: u64| dedup_first(changes_of(*g, added + removed)).contains(x) <==> changes_of(*g, added + removed).contains(x),
            forall|j: int| 0 <= j < changes@.len() ==> ids_in(*g, (#[trigger] changes@[j]).added_commits@)
                && ids_in(*g, changes@[j].removed_commits@),
            i <= changes@.len(),
            r@.len() == i,
            forall|j: int| 0 <= j < i ==> entry_positions(
                changes@,
                parent_changes(*g, in_diff@, #[trigger] changes@[j]),
                r@[j]@,
            ),
        decreases changes@.len() - i,
    {
        let pcs = get_parent_changes(g, &in_diff, &changes[i]);
        let mut idx: Vec<usize> = Vec::new();
        let mut k: usize = 0;
        while k < pcs.len()
            invariant
                g.wf(),
                is_op_diff(*g, from_heads@, to_heads@, changes@),
                in_diff@ == diff_in(*g, from_heads@, to_heads@),
                in_diff@.len() == g.len(),
                added == only_reached(*g, to_heads@, from_heads@),
                removed == only_reached(*g, from_heads@, to_heads@),
                forall|x: u64| dedup_first(changes_of(*g, added + removed)).contains(x) <==> changes_of(*g, added + removed).contains(x),
                i < changes@.len(),
                pcs@ == parent_changes(*g, in_diff@, changes@[i as int]),
                k <= pcs@.len(),
                idx@.len() == k,
                forall|q: int| 0 <= q < k ==> (#[trigger] idx@[q] as int) < changes@.len()
                    && changes@[idx@[q] as int].change_id == pcs@[q],
            decreases pcs@.len() - k,
        {
            let ch = pcs[k];
            proof {
                let m = changes@[i as int];
                let commits = if m.added_commits@.len() > 0 { m.added_commits@ } else { m.removed_commits@ };
                let known = known_changes(*g, in_diff@, parents_of_all(*g, commits));
                assert(pcs@.contains(ch));
                crate::seqs::lemma_dedup_first_within(known);
                assert(known.contains(ch));
                lemma_known_changes_from(*g, in_diff@, parents_of_all(*g, commits), ch);
                let p = choose|p: usize| (p as int) < in_diff@.len() && in_diff@[p as int] && change_of(*g, p) == ch;
                lemma_only_reached_contains(*g, to_heads@, from_heads@, p);
                lemma_only_reached_contains(*g, from_heads@, to_heads@, p);
                let both = added + removed;
                if added.contains(p) {
                    let q = choose|q: int| 0 <= q < added.len() && added[q] == p;
                    assert(both[q] == p);
                    assert(changes_of(*g, both)[q] == ch);
                } else {
                    assert(removed.contains(p));
                    let q = choose|q: int| 0 <= q < removed.len() && removed[q] == p;
                    assert(both[added.len() + q] == p);
                    assert(changes_of(*g, both)[added.len() + q] == ch);
                }
                assert(changes_of(*g, both).contains(ch));
                let ids = changes@.map_values(|m: ModifiedChange| m.change_id);
                assert(ids.contains(ch));
                let j = choose|j: int| 0 <= j < ids.len() && ids[j] == ch;
                assert(changes@[j].change_id == ch);
            }
            match position_of_change(changes, ch) {
                Some(j) => {
                    idx.push(j);
                },
                None => {
                    proof {
                        let ids = changes@.map_values(|m: ModifiedChange| m.change_id);
                        let j = choose|j: int| 0 <= j < ids.len() && ids[j] == ch;
                        assert(changes@[j].change_id == ch);
                    }
                    idx.push(0);
                },
            }
            k = k + 1;
        }
        r.push(idx);
        i = i + 1;
    }
    r
}

/// The commits that exactly one of the two operations reaches.
pub open spec fn diff_in(g: CommitGraph, from_heads: Seq<usize>, to_heads: Seq<usize>) -> Seq<bool> {
    Seq::new(g.len(), |c: int| g.reached_by(set_of(to_heads), c as usize) != g.reached_by(set_of(from_heads), c as usize))
}

/// The entries of a diff list commits of the graph.
proof fn lemma_entries_in(g: CommitGraph, from_heads: Seq<usize>, to_heads: Seq<usize>, changes: Seq<ModifiedChange>)
    requires
        g.wf(),
        is_op_diff(g, from_heads, to_heads, changes),
    ensures
        forall|j: int| 0 <= j < changes.len() ==> ids_in(g, (#[trigger] changes[j]).added_commits@)
            && ids_in(g, changes[j].removed_commits@),
{
    let added = only_reached(g, to_heads, from_heads);
    let removed = only_reached(g, from_heads, to_heads);
    assert forall|j: int| 0 <= j < changes.len() implies ids_in(g, (#[trigger] changes[j]).added_commits@)
        && ids_in(g, changes[j].removed_commits@) by {
        let ch = changes[j].change_id;
        assert forall|q: int| 0 <= q < changes[j].added_commits@.len() implies changes[j].added_commits@[q] < g.len() by {
            let c = changes[j].added_commits@[q];
            assert(of_change(g, added, ch).contains(c));
            lemma_of_change_contains(g, added, ch, c);
            lemma_only_reached_contains(g, to_heads, from_heads, c);
        }
        assert forall|q: int| 0 <= q < changes[j].removed_commits@.len() implies changes[j].removed_commits@[q] < g.len() by {
            let c = changes[j].removed_commits@[q];
            assert(of_change(g, removed, ch).contains(c));
            lemma_of_change_contains(g, removed, ch, c);
            lemma_only_reached_contains(g, from_heads, to_heads, c);
        }
    }
}

/// `order` lists every node `0..parents.len()` exactly once, each before all
/// of its parents.
pub open spec fn is_children_first(parents: Seq<Vec<usize>>, order: Seq<usize>) -> bool {
    &&& order.no_duplicates()
    &&& forall|i: int| 0 <= i < order.len() ==> (#[trigger] order[i] as int) < parents.len()
    &&& forall|c: usize| (c as int) < parents.len() ==> #[trigger] order.contains(c)
    &&& forall|i: int, j: int|
        0 <= i < order.len() && 0 <= j < order.len() && #[trigger] parents[order[i] as int]@.contains(#[trigger] order[j])
            ==> i < j
}

proof fn lemma_children_first_reversed(parents: Seq<Vec<usize>>, order: Seq<usize>)
    requires
        is_children_first(parents, order),
    ensures
        is_parents_first(Seq::new(parents.len(), |c: int| true), parents, reversed(order)),
{
    let rv = reversed(order);
    let len = order.len();
    let all = Seq::new(parents.len(), |c: int| true);
    assert forall|a: int, b: int| 0 <= a < rv.len() && 0 <= b < rv.len() && a != b implies rv[a] != rv[b] by {
        assert(rv[a] == order[len - 1 - a] && rv[b] == order[len - 1 - b]);
    }
    assert forall|c: usize| (c as int) < all.len() && all[c as int] implies #[trigger] rv.contains(c) by {
        assert(order.contains(c));
        let q = choose|q: int| 0 <= q < len && order[q] == c;
        assert(rv[len - 1 - q] == c);
    }
    assert forall|i: int| 0 <= i < rv.len() implies (#[trigger] rv[i] as int) < all.len() && all[rv[i] as int] by {
        assert(rv[i] == order[len - 1 - i]);
    }
    assert forall|i: int, j: int|
        0 <= i < rv.len() && 0 <= j < rv.len() && #[trigger] parents[rv[i] as int]@.contains(#[trigger] rv[j])
        implies j < i by {
        assert(rv[i] == order[len - 1 - i] && rv[j] == order[len - 1 - j]);
        assert(parents[order[len - 1 - i] as int]@.contains(order[len - 1 - j]));
    }
}

/// An order of the changes that puts each before the changes it sits on, or
/// `None` when they sit on each other in a cycle.
pub fn order_changes(parents: &Vec<Vec<usize>>) -> (r: Option<Vec<usize>>)
    requires
        parents_in(parents@),
    ensures
        r matches Some(o) ==> is_children_first(parents@, o@),
        r is None ==> forall|o: Seq<usize>| !is_children_first(parents@, o),
{
    let mut all: Vec<bool> = Vec::new();
    let mut i: usize = 0;
    while i < parents.len()
        invariant
            i <= parents@.len(),
            all@.len() == i,
            forall|j: int| 0 <= j < i ==> all@[j],
        decreases parents@.len() - i,
    {
        all.push(true);
        i = i + 1;
    }
    let n = all.len();
    proof {
        assert(all@.len() == n);
        assert(all@ =~= Seq::new(parents@.len(), |c: int| true));
    }
    if !has_parents_first_order(&all, parents) {
        proof {
            assert forall|o: Seq<usize>| !is_children_first(parents@, o) by {
                if is_children_first(parents@, o) {
                    lemma_children_first_reversed(parents@, o);
                }
            }
        }
        return None;
    }
    proof {
        let o = choose|o: Seq<usize>| is_parents_first(all@, parents@, o);
        assert forall|c: int, p: usize| 0 <= c < parents@.len() && #[trigger] parents@[c]@.contains(p) implies all@[c]
            && (p as int) < all@.len() && all@[p as int] by {
            let k = choose|k: int| 0 <= k < parents@[c]@.len() && parents@[c]@[k] == p;
        }
        lemma_order_gives_rank(all@, parents@, o);
    }
    let start = marked_nodes(&all);
    let order = topo_order_reverse(start, parents);
    proof {
        assert forall|c: usize| (c as int) < parents@.len() implies #[trigger] order@.contains(c) by {
            assert(all@[c as int]);
            assert(start@.contains(c));
            let q = choose|q: int| 0 <= q < start@.len() && start@[q] == c;
            assert(order@.contains(start@[q]));
        }
    }
    Some(order)
}

/// Relies on `jj_lib::graph::TopoGroupedGraphIterator`: fed nodes that come
/// before their parents, every parent being one of the nodes, it emits every
/// node once, still before its parents, with the branches grouped together.
#[verifier::external_body]
fn group_topologically(order: &Vec<usize>, parents: &Vec<Vec<usize>>) -> (r: Vec<usize>)
    requires
        is_children_first(parents@, order@),
        parents_in(parents@),
    ensures
        is_children_first(parents@, r@),
{
    let nodes = order.iter().map(|&c| (c, parents[c].iter().map(|&p| GraphEdge::direct(p)).collect()));
    TopoGroupedGraphIterator::new(nodes).map(|(c, _)| c).collect()
}

/// The diff between two operations as a graph over the changes it touches.
pub struct OpDiffGraph {
    /// The touched changes with their added and removed commits.
    pub changes: Vec<ModifiedChange>,
    /// For each change, the positions of the changes it sits on.
    pub parents: Vec<Vec<usize>>,
    /// The changes in display order, each before the changes it sits on;
    /// `None` when the changes sit on each other in a cycle.
    pub order: Option<Vec<usize>>,
}

/// Computes the diff between the operations with heads `from_heads` and
/// `to_heads`, the graph of its changes and their display order.
pub fn op_diff_graph(g: &CommitGraph, from_heads: &Vec<usize>, to_heads: &Vec<usize>) -> (r: OpDiffGraph)
    requires
        g.wf(),
        ids_in(*g, from_heads@),
        ids_in(*g, to_heads@),
    ensures
        is_op_diff(*g, from_heads@, to_heads@, r.changes@),
        r.parents@.len() == r.changes@.len(),
        forall|i: int| 0 <= i < r.changes@.len() ==> entry_positions(
            r.changes@,
            parent_changes(*g, diff_in(*g, from_heads@, to_heads@), #[trigger] r.changes@[i]),
            r.parents@[i]@,
        ),
        r.order matches Some(o) ==> is_children_first(r.parents@, o@),
        r.order is None ==> forall|o: Seq<usize>| !is_children_first(r.parents@, o),
{
    let changes = compute_operation_commits_diff(g, from_heads, to_heads);
    let parents = change_graph(g, from_heads, to_heads, &changes);
    proof {
        assert forall|c: int, k: int| 0 <= c < parents@.len() && 0 <= k < parents@[c]@.len()
            implies (#[trigger] parents@[c]@[k] as int) < parents@.len() by {
            assert(entry_positions(
                changes@,
                parent_changes(*g, diff_in(*g, from_heads@, to_heads@), changes@[c]),
                parents@[c]@,
            ));
        }
    }
    let order = match order_changes(&parents) {
        Some(o) => Some(group_topologically(&o, &parents)),
        None => None,
    };
    OpDiffGraph { changes, parents, order }
}

/// What content diff to show for a modified change.
#[derive(Debug, Clone, Copy, PartialEq, Eq, Structural)]
pub enum ChangeDiff {
    /// The removed commit, rebased onto the parents of the added one, against
    /// the added one.
    Interdiff { removed: usize, added: usize },
    /// The patch of the single added commit.
    AddedPatch(usize),
    /// The patch of the single removed commit.
    RemovedPatch(usize),
    /// No content diff, only the summary.
    SummaryOnly,
}

/// Chooses the content diff of a modified change from how many commits it
/// adds and removes: an interdiff for one of each, the patch of a lone added
/// or lone removed commit, and only the summary for any other mix.
pub fn select_change_diff(m: &ModifiedChange) -> (r: ChangeDiff)
    ensures
        r == (if m.added_commits@.len() == 1 && m.removed_commits@.len() == 1 {
            ChangeDiff::Interdiff { removed: m.removed_commits@[0], added: m.added_commits@[0] }
        } else if m.added_commits@.len() == 1 && m.removed_commits@.len() == 0 {
            ChangeDiff::AddedPatch(m.added_commits@[0])
        } else if m.added_commits@.len() == 0 && m.removed_commits@.len() == 1 {
            ChangeDiff::RemovedPatch(m.removed_commits@[0])
        } else {
            ChangeDiff::SummaryOnly
        }),
{
    if m.added_commits.len() == 1 && m.removed_commits.len() == 1 {
        ChangeDiff::Interdiff { removed: m.removed_commits[0], added: m.added_commits[0] }
    } else if m.added_commits.len() == 1 && m.removed_commits.len() == 0 {
        ChangeDiff::AddedPatch(m.added_commits[0])
    } else if m.added_commits.len() == 0 && m.removed_commits.len() == 1 {
        ChangeDiff::RemovedPatch(m.removed_commits[0])
    } else {
        ChangeDiff::SummaryOnly
    }
}

} // verus!
