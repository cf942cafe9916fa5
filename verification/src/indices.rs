//! Index sequences shared by the resampling and clustering modules.

use vstd::prelude::*;

verus! {

/// The indices `a, a+1, ..., b-1` (empty when `b <= a`).
pub open spec fn seq_range(a: int, b: int) -> Seq<usize> {
    Seq::new(if b > a { (b - a) as nat } else { 0 }, |k: int| (a + k) as usize)
}

/// Every item of `s` is below `n`.
pub open spec fn all_below(s: Seq<usize>, n: int) -> bool {
    forall|k: int| 0 <= k < s.len() ==> #[trigger] s[k] < n
}

/// `s` is strictly increasing.
pub open spec fn strictly_increasing(s: Seq<usize>) -> bool {
    forall|a: int, b: int| 0 <= a < b < s.len() ==> #[trigger] s[a] < #[trigger] s[b]
}

/// The labels of the items that the indices of `s` point to.
pub open spec fn labels_of(s: Seq<usize>, labels: Seq<usize>) -> Seq<usize> {
    s.map_values(|k: usize| labels[k as int])
}

/// Builds the vector `a, a+1, ..., b-1`.
pub fn index_range(a: usize, b: usize) -> (r: Vec<usize>)
    ensures
        r@ == seq_range(a as int, b as int),
{
    let mut r: Vec<usize> = Vec::new();
    let mut i: usize = a;
    while i < b
        invariant
            a <= i || b <= a,
            i >= a,
            i <= b || b <= a,
            b <= a ==> i == a,
            r@ == seq_range(a as int, i as int),
        decreases b - i,
    {
        r.push(i);
        i = i + 1;
        assert(r@ =~= seq_range(a as int, i as int));
    }
    if a < b {
        assert(i == b);
    } else {
        assert(seq_range(a as int, b as int).len() == 0);
        assert(r@.len() == 0);
    }
    assert(r@ =~= seq_range(a as int, b as int));
    r
}

/// Appends `a, a+1, ..., b-1` to `v`.
pub fn push_range(v: &mut Vec<usize>, a: usize, b: usize)
    ensures
        final(v)@ == old(v)@ + seq_range(a as int, b as int),
{
    let ghost v0 = v@;
    let mut i: usize = a;
    while i < b
        invariant
            i >= a,
            i <= b || b <= a,
            b <= a ==> i == a,
            v@ == v0 + seq_range(a as int, i as int),
        decreases b - i,
    {
        v.push(i);
        i = i + 1;
        assert(v@ =~= v0 + seq_range(a as int, i as int));
    }
    assert(v@ =~= v0 + seq_range(a as int, b as int));
}

} // verus!

verus! {

/// A permutation keeps membership: the reordered sequence holds exactly what
/// the first one held.
pub proof fn lemma_same_multiset_contains<A>(s1: Seq<A>, s2: Seq<A>, x: A)
    requires
        s1.to_multiset() == s2.to_multiset(),
    ensures
        s1.contains(x) <==> s2.contains(x),
{
    broadcast use vstd::seq_lib::group_to_multiset_ensures;
    vstd::seq_lib::to_multiset_contains(s1, x);
    vstd::seq_lib::to_multiset_contains(s2, x);
}

/// A permutation of a sequence with no duplicates has no duplicates.
pub proof fn lemma_same_multiset_no_duplicates<A>(s1: Seq<A>, s2: Seq<A>)
    requires
        s1.to_multiset() == s2.to_multiset(),
        s1.no_duplicates(),
    ensures
        s2.no_duplicates(),
{
    broadcast use vstd::seq_lib::group_to_multiset_ensures;
    s1.lemma_multiset_has_no_duplicates();
    s2.lemma_multiset_has_no_duplicates_conv();
}

/// Mapping both sides of a permutation by the same function gives a
/// permutation.
pub proof fn lemma_same_multiset_map<A, B>(s1: Seq<A>, s2: Seq<A>, f: spec_fn(A) -> B)
    requires
        s1.to_multiset() == s2.to_multiset(),
    ensures
        s1.map_values(f).to_multiset() == s2.map_values(f).to_multiset(),
    decreases s1.len(),
{
    broadcast use vstd::seq_lib::group_to_multiset_ensures;
    broadcast use vstd::multiset::group_multiset_axioms;
    if s1.len() == 0 {
        assert(s2.len() == 0) by {
            vstd::seq_lib::to_multiset_len(s1);
            vstd::seq_lib::to_multiset_len(s2);
        }
        assert(s1.map_values(f) =~= s2.map_values(f));
    } else {
        let x = s1.last();
        let t1 = s1.drop_last();
        assert(t1.push(x) =~= s1);
        assert(s1.contains(x)) by {
            assert(s1[s1.len() - 1] == x);
        }
        assert(s1.to_multiset().count(x) > 0);
        assert(s2.to_multiset().count(x) > 0);
        assert(s2.contains(x));
        let p = choose|p: int| 0 <= p < s2.len() && s2[p] == x;
        let t2 = s2.remove(p);
        assert(t2.to_multiset() == s2.to_multiset().remove(x));
        assert(t1.to_multiset() =~= s1.to_multiset().remove(x));
        lemma_same_multiset_map(t1, t2, f);
        assert(t1.map_values(f).push(f(x)) =~= s1.map_values(f));
        assert(s2.map_values(f).remove(p) =~= t2.map_values(f));
        let m2 = s2.map_values(f);
        assert(m2[p] == f(x));
        assert(m2.remove(p).to_multiset() == m2.to_multiset().remove(f(x)));
        assert(m2.contains(f(x))) by {
            assert(m2[p] == f(x));
        }
        assert(m2.to_multiset().count(f(x)) > 0);
        assert(m2.to_multiset() =~= m2.to_multiset().remove(f(x)).insert(f(x)));
    }
}

} // verus!

verus! {

/// A sequence without duplicates whose items are all below `n` has at most
/// `n` items.
pub proof fn lemma_distinct_below_len(s: Seq<usize>, n: int)
    requires
        s.no_duplicates(),
        all_below(s, n),
        n >= 0,
    ensures
        s.len() <= n,
    decreases n,
{
    if n == 0 {
        if s.len() > 0 {
            assert(s[0] < 0);
        }
    } else if s.contains((n - 1) as usize) {
        let p = choose|p: int| 0 <= p < s.len() && s[p] == (n - 1) as usize;
        let t = s.remove(p);
        assert forall|k: int| 0 <= k < t.len() implies #[trigger] t[k] < n - 1 by {
            if k < p {
                assert(t[k] == s[k]);
            } else {
                assert(t[k] == s[k + 1]);
            }
        }
        assert forall|a: int, b: int| 0 <= a < t.len() && 0 <= b < t.len() && a != b implies t[a] != t[b] by {
            let a2 = if a < p { a } else { a + 1 };
            let b2 = if b < p { b } else { b + 1 };
            assert(t[a] == s[a2] && t[b] == s[b2]);
        }
        lemma_distinct_below_len(t, n - 1);
    } else {
        assert forall|k: int| 0 <= k < s.len() implies #[trigger] s[k] < n - 1 by {
            assert(s[k] != (n - 1) as usize);
        }
        lemma_distinct_below_len(s, n - 1);
    }
}

/// A strictly increasing sequence has no duplicates.
pub proof fn lemma_increasing_no_duplicates(s: Seq<usize>)
    requires
        strictly_increasing(s),
    ensures
        s.no_duplicates(),
{
    assert forall|a: int, b: int| 0 <= a < s.len() && 0 <= b < s.len() && a != b implies s[a] != s[b] by {
        if a < b {
            assert(s[a] < s[b]);
        } else {
            assert(s[b] < s[a]);
        }
    }
}

} // verus!
