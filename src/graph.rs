use vstd::prelude::*;

verus! {

/// The set of commit indices listed in `s`.
pub open spec fn set_of(s: Seq<usize>) -> Set<usize> {
    Set::new(|x: usize| s.contains(x))
}

/// A commit DAG as an arena: commit `c` is the index `c`, its parents are
/// `parents[c]` and its change identity is `change_ids[c]`.
///
/// The arena is topologically ordered: every parent has a smaller index
/// than its child, which makes the graph acyclic by construction.
pub struct CommitGraph {
    pub parents: Vec<Vec<usize>>,
    pub change_ids: Vec<u64>,
}

impl CommitGraph {
    pub open spec fn len(&self) -> nat {
        self.parents@.len()
    }

    pub open spec fn pars(&self, c: usize) -> Seq<usize> {
        self.parents@[c as int]@
    }

    pub open spec fn wf(&self) -> bool {
        &&& self.change_ids@.len() == self.parents@.len()
        &&& self.parents@.len() <= usize::MAX
        &&& forall|c: int, k: int|
            0 <= c < self.parents@.len() && 0 <= k < self.parents@[c]@.len()
                ==> #[trigger] self.parents@[c]@[k] < c
    }

    /// `c` is a member of `roots` or a descendant of one.
    pub open spec fn reaches(&self, roots: Set<usize>, c: usize) -> bool
        decreases c, 1nat, 0nat,
    {
        roots.contains(c) || (c < self.len() && self.some_parent_reaches(roots, c, self.pars(c).len()))
    }

    /// One of the first `k` parents of `c` is in `roots` or descends from it.
    pub open spec fn some_parent_reaches(&self, roots: Set<usize>, c: usize, k: nat) -> bool
        decreases c, 0nat, k,
    {
        if k == 0 || k > self.pars(c).len() {
            false
        } else {
            let p = self.pars(c)[k - 1];
            (p < c && self.reaches(roots, p)) || self.some_parent_reaches(roots, c, (k - 1) as nat)
        }
    }

    /// `c` is a member of `heads` or an ancestor of one.
    pub open spec fn reached_by(&self, heads: Set<usize>, c: usize) -> bool
        decreases self.len() - c, 1nat, 0nat,
    {
        heads.contains(c) || (c < self.len() && self.some_child_reached_by(heads, c, c + 1))
    }

    /// One of the children of `c` with index at least `j` is in `heads` or an
    /// ancestor of one.
    pub open spec fn some_child_reached_by(&self, heads: Set<usize>, c: usize, j: int) -> bool
        decreases self.len() - c, 0nat, self.len() - j,
    {
        if j <= c || j >= self.len() || j > usize::MAX {
            false
        } else {
            (self.pars(j as usize).contains(c) && self.reached_by(heads, j as usize))
                || self.some_child_reached_by(heads, c, j + 1)
        }
    }

    /// `a` is an ancestor of `b` (or `b` itself).
    pub open spec fn is_ancestor_spec(&self, a: usize, b: usize) -> bool {
        self.reaches(set![a], b)
    }

    pub proof fn lemma_some_parent_reaches(&self, roots: Set<usize>, c: usize, k: nat)
        requires
            self.wf(),
            c < self.len(),
            k <= self.pars(c).len(),
        ensures
            self.some_parent_reaches(roots, c, k) <==> exists|q: int|
                0 <= q < k && #[trigger] self.reaches(roots, self.pars(c)[q]),
        decreases k,
    {
        if k > 0 {
            self.lemma_some_parent_reaches(roots, c, (k - 1) as nat);
            assert(self.parents@[c as int]@[k - 1] < c);
            if self.reaches(roots, self.pars(c)[k - 1]) {
                assert(self.some_parent_reaches(roots, c, k));
            }
        }
    }

    pub proof fn lemma_reaches_step(&self, roots: Set<usize>, c: usize)
        requires
            self.wf(),
            c < self.len(),
        ensures
            self.reaches(roots, c) <==> (roots.contains(c) || exists|k: int|
                0 <= k < self.pars(c).len() && #[trigger] self.reaches(roots, self.pars(c)[k])),
    {
        self.lemma_some_parent_reaches(roots, c, self.pars(c).len());
    }

    pub proof fn lemma_some_child_reached_by(&self, heads: Set<usize>, c: usize, j: int)
        requires
            c < j <= self.len(),
            self.len() <= usize::MAX,
        ensures
            self.some_child_reached_by(heads, c, j) <==> exists|i: usize|
                j <= i < self.len() && #[trigger] self.pars(i).contains(c) && self.reached_by(heads, i),
        decreases self.len() - j,
    {
        if j < self.len() {
            self.lemma_some_child_reached_by(heads, c, j + 1);
            if self.pars(j as usize).contains(c) && self.reached_by(heads, j as usize) {
                assert(self.some_child_reached_by(heads, c, j));
            }
        }
    }

    pub proof fn lemma_reached_by_step(&self, heads: Set<usize>, c: usize)
        requires
            c < self.len(),
            self.len() <= usize::MAX,
        ensures
            self.reached_by(heads, c) <==> (heads.contains(c) || exists|i: usize|
                c < i < self.len() && #[trigger] self.pars(i).contains(c) && self.reached_by(heads, i)),
    {
        self.lemma_some_child_reached_by(heads, c, c + 1);
    }

    /// The graph with the given parent lists and change identities, or `None`
    /// when a commit lists a parent that does not come before it or the two
    /// lists differ in length.
    pub fn new(parents: Vec<Vec<usize>>, change_ids: Vec<u64>) -> (r: Option<CommitGraph>)
        ensures
            r matches Some(g) ==> g.wf() && g.parents@ == parents@ && g.change_ids@ == change_ids@,
            r is None ==> !(CommitGraph { parents, change_ids }).wf(),
    {
        if parents.len() != change_ids.len() {
            return None;
        }
        let mut c: usize = 0;
        while c < parents.len()
            invariant
                c <= parents@.len(),
                forall|d: int, k: int| 0 <= d < c && 0 <= k < parents@[d]@.len() ==> #[trigger] parents@[d]@[k] < d,
            decreases parents@.len() - c,
        {
            let ps = &parents[c];
            let mut k: usize = 0;
            while k < ps.len()
                invariant
                    c < parents@.len(),
                    *ps == parents@[c as int],
                    k <= ps@.len(),
                    forall|d: int, q: int| 0 <= d < c && 0 <= q < parents@[d]@.len() ==> #[trigger] parents@[d]@[q] < d,
                    forall|q: int| 0 <= q < k ==> ps@[q] < c,
                decreases ps@.len() - k,
            {
                if ps[k] >= c {
                    proof {
                        assert(parents@[c as int]@[k as int] >= c);
                    }
                    return None;
                }
                k = k + 1;
            }
            c = c + 1;
        }
        Some(CommitGraph { parents, change_ids })
    }

    /// Whether every id of `ids` names a commit of the graph.
    pub fn has_all(&self, ids: &Vec<usize>) -> (r: bool)
        ensures
            r == forall|i: int| 0 <= i < ids@.len() ==> ids@[i] < self.len(),
    {
        let n = self.parents.len();
        let mut i: usize = 0;
        while i < ids.len()
            invariant
                n == self.len(),
                i <= ids@.len(),
                forall|j: int| 0 <= j < i ==> ids@[j] < self.len(),
            decreases ids@.len() - i,
        {
            if ids[i] >= n {
                return false;
            }
            i = i + 1;
        }
        true
    }

    pub fn num_commits(&self) -> (r: usize)
        ensures
            r == self.len(),
    {
        self.parents.len()
    }

    /// For each commit, whether it is in `roots` or descends from one.
    pub fn descendants_mask(&self, roots: &Vec<bool>) -> (r: Vec<bool>)
        requires
            self.wf(),
            roots@.len() == self.len(),
        ensures
            r@.len() == self.len(),
            forall|c: int| 0 <= c < self.len() ==> r@[c] == self.reaches(mask_set(roots@), c as usize),
    {
        let n = self.parents.len();
        let mut r: Vec<bool> = Vec::new();
        let mut c: usize = 0;
        while c < n
            invariant
                self.wf(),
                n == self.len(),
                roots@.len() == n,
                c <= n,
                r@.len() == c,
                forall|j: int| 0 <= j < c ==> r@[j] == self.reaches(mask_set(roots@), j as usize),
            decreases n - c,
        {
            let ps = &self.parents[c];
            let mut found = roots[c];
            let mut k: usize = 0;
            while k < ps.len()
                invariant
                    self.wf(),
                    n == self.len(),
                    roots@.len() == n,
                    c < n,
                    r@.len() == c,
                    *ps == self.parents@[c as int],
                    k <= ps@.len(),
                    forall|j: int| 0 <= j < c ==> r@[j] == self.reaches(mask_set(roots@), j as usize),
                    found == (roots@[c as int] || exists|q: int|
                        0 <= q < k && #[trigger] self.reaches(mask_set(roots@), ps@[q])),
                decreases ps@.len() - k,
            {
                let p = ps[k];
                assert(self.parents@[c as int]@[k as int] < c);
                if r[p] {
                    found = true;
                }
                k = k + 1;
            }
            proof {
                let rs = mask_set(roots@);
                assert(ps@ == self.pars(c));
                self.lemma_reaches_step(rs, c);
                assert(roots@[c as int] ==> rs.contains(c));
                if found {
                    if !roots@[c as int] {
                        let q = choose|q: int| 0 <= q < k && #[trigger] self.reaches(rs, ps@[q]);
                        assert(self.parents@[c as int]@[q] < c);
                        assert(self.reaches(rs, self.pars(c)[q]));
                    }
                    assert(self.reaches(rs, c));
                }
                if self.reaches(rs, c) && !roots@[c as int] {
                    assert(!rs.contains(c));
                    let q = choose|q: int|
                        0 <= q < self.pars(c).len() && self.pars(c)[q] < c && #[trigger] self.reaches(
                            rs,
                            self.pars(c)[q],
                        );
                    assert(self.reaches(rs, ps@[q]));
                }
            }
            r.push(found);
            c = c + 1;
        }
        r
    }

    /// For each commit, whether it is in `heads` or is an ancestor of one.
    pub fn ancestors_mask(&self, heads: &Vec<bool>) -> (r: Vec<bool>)
        requires
            self.wf(),
            heads@.len() == self.len(),
        ensures
            r@.len() == self.len(),
            forall|c: int| 0 <= c < self.len() ==> r@[c] == self.reached_by(mask_set(heads@), c as usize),
    {
        let n = self.parents.len();
        let ghost hs = mask_set(heads@);
        let mut r: Vec<bool> = heads.clone();
        let mut c: usize = n;
        while c > 0
            invariant
                self.wf(),
                n == self.len(),
                heads@.len() == n,
                hs == mask_set(heads@),
                c <= n,
                r@.len() == n,
                forall|j: int| c <= j < n ==> r@[j] == self.reached_by(hs, j as usize),
                forall|i: int| 0 <= i < c ==> r@[i] == (heads@[i] || exists|j: usize|
                    c <= j < n && #[trigger] self.pars(j).contains(i as usize) && self.reached_by(hs, j)),
            decreases c,
        {
            c = c - 1;
            proof {
                self.lemma_reached_by_step(hs, c);
                assert(r@[c as int] == (heads@[c as int] || exists|j: usize|
                    c + 1 <= j < n && #[trigger] self.pars(j).contains(c) && self.reached_by(hs, j)));
                assert(heads@[c as int] == hs.contains(c));
                assert(r@[c as int] == self.reached_by(hs, c));
            }
            let ghost r0 = r@;
            assert(forall|j: int| c <= j < n ==> r0[j] == self.reached_by(hs, j as usize));
            if r[c] {
                let ps = &self.parents[c];
                let mut k: usize = 0;
                while k < ps.len()
                    invariant
                        self.wf(),
                        n == self.len(),
                        c < n,
                        r@.len() == n,
                        r0.len() == n,
                        *ps == self.parents@[c as int],
                        k <= ps@.len(),
                        forall|j: int| c <= j < n ==> r@[j] == r0[j],
                        forall|i: int| 0 <= i < c ==> r@[i] == (r0[i] || ps@.subrange(0, k as int).contains(i as usize)),
                    decreases ps@.len() - k,
                {
                    let p = ps[k];
                    assert(self.parents@[c as int]@[k as int] < c);
                    assert(p < c);
                    assert(forall|i: int| 0 <= i < c ==> r@[i] == (r0[i] || ps@.subrange(0, k as int).contains(i as usize)));
                    let ghost rprev = r@;
                    assert(forall|i: int| 0 <= i < c ==> rprev[i] == (r0[i] || ps@.subrange(0, k as int).contains(i as usize)));
                    r.set(p, true);
                    proof {
                        assert forall|i: int| 0 <= i < c implies r@[i] == (r0[i] || ps@.subrange(0, k + 1).contains(i as usize)) by {
                            assert(ps@.subrange(0, k + 1) == ps@.subrange(0, k as int).push(p));
                            assert(rprev[i] == (r0[i] || ps@.subrange(0, k as int).contains(i as usize)));
                            if i == p {
                                assert(ps@.subrange(0, k + 1)[k as int] == p);
                            }
                            if ps@.subrange(0, k as int).contains(i as usize) {
                                let q = choose|q: int| 0 <= q < k && #[trigger] ps@.subrange(0, k as int)[q] == i as usize;
                                assert(ps@.subrange(0, k + 1)[q] == i as usize);
                            }
                            if ps@.subrange(0, k + 1).contains(i as usize) && i != p {
                                let q = choose|q: int| 0 <= q < k + 1 && #[trigger] ps@.subrange(0, k + 1)[q] == i as usize;
                                assert(ps@.subrange(0, k as int)[q] == i as usize);
                            }
                        }
                    }
                    k = k + 1;
                }
                proof {
                    assert(ps@.subrange(0, k as int) == self.pars(c));
                }
            }
            assert forall|j: int| c <= j < n implies r@[j] == self.reached_by(hs, j as usize) by {
                assert(r@[j] == r0[j]);
                assert(r0[j] == self.reached_by(hs, j as usize));
            }
            proof {
                assert forall|i: int| 0 <= i < c implies r@[i] == (heads@[i] || exists|j: usize|
                    c <= j < n && #[trigger] self.pars(j).contains(i as usize) && self.reached_by(hs, j)) by {
                    if exists|j: usize| c <= j < n && #[trigger] self.pars(j).contains(i as usize) && self.reached_by(hs, j) {
                        let j = choose|j: usize| c <= j < n && #[trigger] self.pars(j).contains(i as usize) && self.reached_by(hs, j);
                        if j != c {
                            assert(c + 1 <= j);
                        }
                    }
                    if r0[i] && !heads@[i] {
                        let j = choose|j: usize| c + 1 <= j < n && #[trigger] self.pars(j).contains(i as usize) && self.reached_by(hs, j);
                        assert(c <= j);
                    }
                }
            }
        }
        r
    }

    /// A mask over the commits marking those listed in `ids`.
    pub fn mask_of(&self, ids: &Vec<usize>) -> (r: Vec<bool>)
        requires
            forall|i: int| 0 <= i < ids@.len() ==> ids@[i] < self.len(),
        ensures
            r@.len() == self.len(),
            forall|c: int| 0 <= c < self.len() ==> r@[c] == ids@.contains(c as usize),
            mask_set(r@) == set_of(ids@),
    {
        let n = self.parents.len();
        let mut r: Vec<bool> = Vec::new();
        let mut c: usize = 0;
        while c < n
            invariant
                n == self.len(),
                c <= n,
                r@.len() == c,
                forall|j: int| 0 <= j < c ==> !r@[j],
            decreases n - c,
        {
            r.push(false);
            c = c + 1;
        }
        let mut k: usize = 0;
        while k < ids.len()
            invariant
                n == self.len(),
                r@.len() == n,
                k <= ids@.len(),
                forall|i: int| 0 <= i < ids@.len() ==> ids@[i] < self.len(),
                forall|j: int| 0 <= j < n ==> r@[j] == ids@.subrange(0, k as int).contains(j as usize),
            decreases ids@.len() - k,
        {
            let x = ids[k];
            let ghost rprev = r@;
            r.set(x, true);
            proof {
                assert forall|j: int| 0 <= j < n implies r@[j] == ids@.subrange(0, k + 1).contains(j as usize) by {
                    assert(ids@.subrange(0, k + 1) == ids@.subrange(0, k as int).push(x));
                    assert(rprev[j] == ids@.subrange(0, k as int).contains(j as usize));
                    if j == x {
                        assert(ids@.subrange(0, k + 1)[k as int] == x);
                    }
                    if ids@.subrange(0, k as int).contains(j as usize) {
                        let q = choose|q: int| 0 <= q < k && #[trigger] ids@.subrange(0, k as int)[q] == j as usize;
                        assert(ids@.subrange(0, k + 1)[q] == j as usize);
                    }
                    if ids@.subrange(0, k + 1).contains(j as usize) && j != x {
                        let q = choose|q: int| 0 <= q < k + 1 && #[trigger] ids@.subrange(0, k + 1)[q] == j as usize;
                        assert(ids@.subrange(0, k as int)[q] == j as usize);
                    }
                }
            }
            k = k + 1;
        }
        proof {
            assert(ids@.subrange(0, k as int) == ids@);
            assert forall|x: usize| mask_set(r@).contains(x) <==> set_of(ids@).contains(x) by {
                if ids@.contains(x) {
                    let q = choose|q: int| 0 <= q < ids@.len() && #[trigger] ids@[q] == x;
                    assert(x < self.len());
                    assert(r@[x as int]);
                }
            }
            assert(mask_set(r@) =~= set_of(ids@));
        }
        r
    }
}

/// The set of indices at which `m` holds `true`.
pub open spec fn mask_set(m: Seq<bool>) -> Set<usize> {
    Set::new(|x: usize| (x as int) < m.len() && m[x as int])
}

/// The indices at least `j` at which `m` holds `true`, in decreasing order.
pub open spec fn marked_from(m: Seq<bool>, j: int) -> Seq<usize>
    decreases m.len() - j,
{
    if j < 0 || j >= m.len() || j > usize::MAX {
        seq![]
    } else {
        marked_from(m, j + 1) + if m[j] {
            seq![j as usize]
        } else {
            seq![]
        }
    }
}

/// The indices at which `m` holds `true`, in decreasing order.
pub fn list_marked(m: &Vec<bool>) -> (r: Vec<usize>)
    ensures
        r@ == marked_from(m@, 0),
        forall|i: int| 0 <= i < r@.len() ==> (#[trigger] r@[i] as int) < m@.len(),
{
    let mut r: Vec<usize> = Vec::new();
    let mut c: usize = m.len();
    while c > 0
        invariant
            c <= m@.len(),
            r@ == marked_from(m@, c as int),
            forall|i: int| 0 <= i < r@.len() ==> (#[trigger] r@[i] as int) < m@.len(),
        decreases c,
    {
        c = c - 1;
        if m[c] {
            r.push(c);
        }
    }
    r
}

/// The indices that `marked_from` lists are those marked at or after `j`.
pub proof fn lemma_marked_from_contains(m: Seq<bool>, j: int, c: usize)
    requires
        0 <= j,
        m.len() <= usize::MAX + 1,
    ensures
        marked_from(m, j).contains(c) <==> (j <= c < m.len() && m[c as int]),
    decreases m.len() - j,
{
    if j < m.len() {
        lemma_marked_from_contains(m, j + 1, c);
        let prev = marked_from(m, j + 1);
        if !m[j] {
            assert(marked_from(m, j) =~= prev);
        }
        if m[j] {
            assert(marked_from(m, j) =~= prev.push(j as usize));
            assert(prev.push(j as usize)[prev.len() as int] == j as usize);
            if prev.contains(c) {
                let q = choose|q: int| 0 <= q < prev.len() && prev[q] == c;
                assert(prev.push(j as usize)[q] == c);
            }
            if prev.push(j as usize).contains(c) && c != j {
                let q = choose|q: int| 0 <= q < prev.len() + 1 && #[trigger] prev.push(j as usize)[q] == c;
                assert(prev[q] == c);
            }
        }
    }
}

impl CommitGraph {
    /// What descends from commits that descend from `roots` descends from
    /// `roots`.
    pub proof fn lemma_reaches_transitive(&self, roots: Set<usize>, mid: Set<usize>, c: usize)
        requires
            self.wf(),
            c < self.len(),
            self.reaches(mid, c),
            forall|x: usize| x < self.len() && #[trigger] mid.contains(x) ==> self.reaches(roots, x),
        ensures
            self.reaches(roots, c),
        decreases c,
    {
        self.lemma_reaches_step(mid, c);
        self.lemma_reaches_step(roots, c);
        if !mid.contains(c) {
            let k = choose|k: int| 0 <= k < self.pars(c).len() && #[trigger] self.reaches(mid, self.pars(c)[k]);
            assert(self.parents@[c as int]@[k] < c);
            self.lemma_reaches_transitive(roots, mid, self.pars(c)[k]);
        }
    }

    /// Nothing descends from an empty set.
    pub proof fn lemma_reaches_nothing(&self, c: usize)
        requires
            self.wf(),
        ensures
            !self.reaches(Set::empty(), c),
        decreases c,
    {
        if c < self.len() {
            self.lemma_reaches_step(Set::empty(), c);
            assert forall|k: int| 0 <= k < self.pars(c).len() implies !#[trigger] self.reaches(Set::empty(), self.pars(c)[k]) by {
                assert(self.parents@[c as int]@[k] < c);
                self.lemma_reaches_nothing(self.pars(c)[k]);
            }
        }
    }
}

} // verus!
