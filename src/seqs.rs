use vstd::prelude::*;
use itertools::Itertools;

verus! {

/// `s` with every element after its first occurrence removed.
pub open spec fn dedup_first<T>(s: Seq<T>) -> Seq<T>
    decreases s.len(),
{
    if s.len() == 0 {
        seq![]
    } else {
        let d = dedup_first(s.drop_last());
        if d.contains(s.last()) {
            d
        } else {
            d.push(s.last())
        }
    }
}

/// `s` without the elements that occur in `excluded`, order kept.
pub open spec fn without(s: Seq<usize>, excluded: Seq<usize>) -> Seq<usize>
    decreases s.len(),
{
    if s.len() == 0 {
        seq![]
    } else if excluded.contains(s.last()) {
        without(s.drop_last(), excluded)
    } else {
        without(s.drop_last(), excluded).push(s.last())
    }
}

/// Relies on `itertools::Itertools::unique`: yields each element the first
/// time it is seen (by `Eq` and `Hash`) and skips its later repetitions.
#[verifier::external_body]
pub(crate) fn unique_values<T: Copy + Eq + std::hash::Hash>(v: Vec<T>) -> (r: Vec<T>)
    requires
        vstd::std_specs::hash::obeys_key_model::<T>(),
    ensures
        r@ == dedup_first(v@),
{
    v.into_iter().unique().collect()
}

/// `v` with later repetitions removed.
pub fn unique_ids(v: Vec<usize>) -> (r: Vec<usize>)
    ensures
        r@ == dedup_first(v@),
{
    proof {
        broadcast use vstd::std_specs::hash::axiom_usize_obeys_hash_table_key_model;
    }
    unique_values(v)
}

/// Appends the elements of `s` to `acc`.
pub fn extend_with(acc: &mut Vec<usize>, s: &Vec<usize>)
    ensures
        final(acc)@ == old(acc)@ + s@,
{
    let mut k: usize = 0;
    while k < s.len()
        invariant
            k <= s@.len(),
            acc@ == old(acc)@ + s@.subrange(0, k as int),
        decreases s@.len() - k,
    {
        acc.push(s[k]);
        k = k + 1;
        proof {
            assert(s@.subrange(0, k as int) == s@.subrange(0, k - 1).push(s@[k - 1]));
        }
    }
    proof {
        assert(s@.subrange(0, k as int) == s@);
    }
}

/// `s` without the elements that occur in `excluded`.
pub fn without_ids(s: &Vec<usize>, excluded: &Vec<usize>) -> (r: Vec<usize>)
    ensures
        r@ == without(s@, excluded@),
{
    let mut r: Vec<usize> = Vec::new();
    let mut k: usize = 0;
    while k < s.len()
        invariant
            k <= s@.len(),
            r@ == without(s@.subrange(0, k as int), excluded@),
        decreases s@.len() - k,
    {
        let x = s[k];
        let found = contains_id(excluded, x);
        proof {
            assert(s@.subrange(0, k + 1).drop_last() == s@.subrange(0, k as int));
        }
        if !found {
            r.push(x);
        }
        k = k + 1;
    }
    proof {
        assert(s@.subrange(0, k as int) == s@);
    }
    r
}

/// Whether `x` occurs in `s`.
pub fn contains_id(s: &Vec<usize>, x: usize) -> (r: bool)
    ensures
        r == s@.contains(x),
{
    let mut k: usize = 0;
    while k < s.len()
        invariant
            k <= s@.len(),
            forall|q: int| 0 <= q < k ==> s@[q] != x,
        decreases s@.len() - k,
    {
        if s[k] == x {
            return true;
        }
        k = k + 1;
    }
    false
}

/// Every element of `dedup_first(s)` occurs in `s`.
pub proof fn lemma_dedup_first_within<T>(s: Seq<T>)
    ensures
        forall|i: int| 0 <= i < dedup_first(s).len() ==> s.contains(#[trigger] dedup_first(s)[i]),
    decreases s.len(),
{
    if s.len() > 0 {
        lemma_dedup_first_within(s.drop_last());
        let d = dedup_first(s.drop_last());
        assert forall|i: int| 0 <= i < dedup_first(s).len() implies s.contains(#[trigger] dedup_first(s)[i]) by {
            if i < d.len() {
                let x = d[i];
                assert(s.drop_last().contains(x));
                let q = choose|q: int| 0 <= q < s.drop_last().len() && s.drop_last()[q] == x;
                assert(s[q] == x);
            } else {
                assert(s[s.len() - 1] == s.last());
            }
        }
    }
}

} // verus!
