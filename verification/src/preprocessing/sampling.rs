//! Resampling of imbalanced data: SMOTE planning, reservoir sampling and
//! stratified sampling.

use vstd::prelude::*;
use crate::indices::{labels_of, all_below, strictly_increasing, lemma_same_multiset_contains, lemma_same_multiset_no_duplicates, lemma_increasing_no_duplicates};
use crate::random::{random_at_most, shuffle};
use std::collections::HashMap;
use vstd::std_specs::hash::spec_hash_map_iter;
use vstd::std_specs::iter::IteratorSpec;

verus! {

/// The number of items of class `c` in `labels`.
pub open spec fn class_count(labels: Seq<usize>, c: usize) -> nat {
    labels.to_multiset().count(c)
}

/// The indices of `labels` whose label is `c`, in increasing order.
pub open spec fn indices_of(labels: Seq<usize>, c: usize, idx: Seq<usize>) -> bool {
    &&& strictly_increasing(idx)
    &&& forall|k: int| 0 <= k < idx.len() ==> (#[trigger] idx[k]) < labels.len() && labels[idx[k] as int] == c
    &&& forall|i: int| 0 <= i < labels.len() && #[trigger] labels[i] == c ==> idx.contains(i as usize)
}

/// The indices of the items of class `c`, in increasing order.
pub fn class_indices(labels: &Vec<usize>, c: usize) -> (idx: Vec<usize>)
    ensures
        indices_of(labels@, c, idx@),
        idx@.len() == class_count(labels@, c),
{
    let mut idx: Vec<usize> = Vec::new();
    let mut i: usize = 0;
    proof {
        broadcast use vstd::seq_lib::group_to_multiset_ensures;
        broadcast use vstd::multiset::group_multiset_axioms;
        let e = labels@.subrange(0, 0);
        assert(e.len() == 0);
        assert(e.to_multiset().len() == 0);
        assert(e.to_multiset() =~= vstd::multiset::Multiset::empty());
    }
    while i < labels.len()
        invariant
            i <= labels@.len(),
            strictly_increasing(idx@),
            forall|k: int| 0 <= k < idx@.len() ==> (#[trigger] idx@[k]) < i && labels@[idx@[k] as int] == c,
            forall|q: int| 0 <= q < i && #[trigger] labels@[q] == c ==> idx@.contains(q as usize),
            idx@.len() == class_count(labels@.subrange(0, i as int), c),
        decreases labels@.len() - i,
    {
        let ghost pre = labels@.subrange(0, i as int);
        proof {
            assert(labels@.subrange(0, i + 1) =~= pre.push(labels@[i as int]));
            vstd::seq_lib::to_multiset_build(pre, labels@[i as int]);
        }
        if labels[i] == c {
            let ghost before = idx@;
            idx.push(i);
            proof {
                assert forall|q: int| 0 <= q < i + 1 && #[trigger] labels@[q] == c implies idx@.contains(q as usize) by {
                    if q == i as int {
                        assert(idx@[idx@.len() - 1] == i);
                    } else {
                        let p = choose|p: int| 0 <= p < before.len() && before[p] == q as usize;
                        assert(idx@[p] == q as usize);
                    }
                }
            }
        }
        i = i + 1;
    }
    proof {
        assert(labels@.subrange(0, labels@.len() as int) =~= labels@);
    }
    idx
}

/// `x` occurs in `labels` before position `q`.
pub open spec fn occurs_before(labels: Seq<usize>, x: usize, q: int) -> bool {
    exists|p: int| 0 <= p < q && #[trigger] labels[p] == x
}

/// The distinct labels, in order of first appearance: every occurrence of a
/// later class comes after an occurrence of each earlier one.
pub fn distinct_labels(labels: &Vec<usize>) -> (classes: Vec<usize>)
    ensures
        classes@.no_duplicates(),
        forall|k: int| 0 <= k < classes@.len() ==> labels@.contains(#[trigger] classes@[k]),
        forall|i: int| 0 <= i < labels@.len() ==> classes@.contains(#[trigger] labels@[i]),
        forall|a: int, b: int, q: int| #![trigger classes@[a], classes@[b], labels@[q]]
            0 <= a < b < classes@.len() && 0 <= q < labels@.len() && labels@[q] == classes@[b]
                ==> occurs_before(labels@, classes@[a], q),
{
    let mut classes: Vec<usize> = Vec::new();
    let mut i: usize = 0;
    while i < labels.len()
        invariant
            i <= labels@.len(),
            classes@.no_duplicates(),
            forall|k: int| 0 <= k < classes@.len() ==> labels@.contains(#[trigger] classes@[k]),
            forall|q: int| 0 <= q < i ==> classes@.contains(#[trigger] labels@[q]),
            forall|k: int| 0 <= k < classes@.len() ==> occurs_before(labels@, #[trigger] classes@[k], i as int),
            forall|a: int, b: int, q: int| #![trigger classes@[a], classes@[b], labels@[q]]
                0 <= a < b < classes@.len() && 0 <= q < i && labels@[q] == classes@[b]
                    ==> occurs_before(labels@, classes@[a], q),
        decreases labels@.len() - i,
    {
        let l = labels[i];
        let mut g: usize = 0;
        while g < classes.len() && classes[g] != l
            invariant
                g <= classes@.len(),
                forall|h: int| 0 <= h < g ==> classes@[h] != l,
            decreases classes@.len() - g,
        {
            g = g + 1;
        }
        let ghost before = classes@;
        if g == classes.len() {
            classes.push(l);
            proof {
                assert(labels@[i as int] == l);
                assert forall|q: int| 0 <= q < i + 1 implies classes@.contains(#[trigger] labels@[q]) by {
                    if q == i as int {
                        assert(classes@[classes@.len() - 1] == l);
                    } else {
                        let p = choose|p: int| 0 <= p < before.len() && before[p] == labels@[q];
                        assert(classes@[p] == labels@[q]);
                    }
                }
                assert forall|k: int| 0 <= k < classes@.len() implies occurs_before(labels@, #[trigger] classes@[k], i + 1) by {
                    if k < before.len() {
                        assert(classes@[k] == before[k]);
                        assert(occurs_before(labels@, before[k], i as int));
                        let p = choose|p: int| 0 <= p < i && #[trigger] labels@[p] == before[k];
                        assert(labels@[p] == classes@[k]);
                    } else {
                        assert(labels@[i as int] == classes@[k]);
                    }
                }
                assert forall|a: int, b: int, q: int| #![trigger classes@[a], classes@[b], labels@[q]]
                    0 <= a < b < classes@.len() && 0 <= q < i + 1 && labels@[q] == classes@[b]
                        implies occurs_before(labels@, classes@[a], q) by {
                    assert(classes@[a] == before[a]);
                    if b < before.len() {
                        assert(classes@[b] == before[b]);
                        if q == i as int {
                            assert(before[b] == l);
                        } else {
                            assert(before[a] == classes@[a] && before[b] == classes@[b]);
                        }
                    } else {
                        if q < i {
                            assert(before.contains(labels@[q]));
                            let h = choose|h: int| 0 <= h < before.len() && before[h] == labels@[q];
                        }
                        assert(occurs_before(labels@, before[a], i as int));
                        let p = choose|p: int| 0 <= p < i && #[trigger] labels@[p] == before[a];
                        assert(labels@[p] == classes@[a]);
                    }
                }
            }
        } else {
            proof {
                assert(classes@[g as int] == l);
                assert forall|k: int| 0 <= k < classes@.len() implies occurs_before(labels@, #[trigger] classes@[k], i + 1) by {
                    assert(occurs_before(labels@, classes@[k], i as int));
                    let p = choose|p: int| 0 <= p < i && #[trigger] labels@[p] == classes@[k];
                }
                assert forall|a: int, b: int, q: int| #![trigger classes@[a], classes@[b], labels@[q]]
                    0 <= a < b < classes@.len() && 0 <= q < i + 1 && labels@[q] == classes@[b]
                        implies occurs_before(labels@, classes@[a], q) by {
                    if q == i as int {
                        assert(occurs_before(labels@, classes@[a], i as int));
                    }
                }
            }
        }
        i = i + 1;
    }
    classes
}

/// A least and a most frequent class of `labels`, each with its count;
/// `None` when there are no labels.
pub fn class_extremes(labels: &Vec<usize>) -> (r: Option<((usize, usize), (usize, usize))>)
    ensures
        labels@.len() == 0 <==> r is None,
        r matches Some(((lo, n_lo), (hi, n_hi))) ==> {
            &&& labels@.contains(lo) && n_lo == class_count(labels@, lo)
            &&& labels@.contains(hi) && n_hi == class_count(labels@, hi)
            &&& forall|c: usize| #[trigger] labels@.contains(c) ==>
                    n_lo <= class_count(labels@, c) && class_count(labels@, c) <= n_hi
        },
{
    let classes = distinct_labels(labels);
    if classes.len() == 0 {
        proof {
            if labels@.len() > 0 {
                assert(classes@.contains(labels@[0]));
            }
        }
        return None;
    }
    let first = classes[0];
    let n_first = class_indices(labels, first).len();
    let mut lo = first;
    let mut n_lo = n_first;
    let mut hi = first;
    let mut n_hi = n_first;
    let mut g: usize = 1;
    while g < classes.len()
        invariant
            classes@.len() > 0,
            1 <= g <= classes@.len(),
            forall|k: int| 0 <= k < classes@.len() ==> labels@.contains(#[trigger] classes@[k]),
            labels@.contains(lo) && n_lo == class_count(labels@, lo),
            labels@.contains(hi) && n_hi == class_count(labels@, hi),
            forall|k: int| 0 <= k < g ==>
                n_lo <= class_count(labels@, #[trigger] classes@[k]) && class_count(labels@, classes@[k]) <= n_hi,
        decreases classes@.len() - g,
    {
        let c = classes[g];
        let n_c = class_indices(labels, c).len();
        if n_c < n_lo {
            lo = c;
            n_lo = n_c;
        }
        if n_c > n_hi {
            hi = c;
            n_hi = n_c;
        }
        g = g + 1;
    }
    proof {
        assert forall|c: usize| #[trigger] labels@.contains(c) implies
            n_lo <= class_count(labels@, c) && class_count(labels@, c) <= n_hi by {
            let i = choose|i: int| 0 <= i < labels@.len() && labels@[i] == c;
            assert(classes@.contains(labels@[i]));
            let k = choose|k: int| 0 <= k < classes@.len() && classes@[k] == c;
            assert(n_lo <= class_count(labels@, classes@[k]));
        }
    }
    Some(((lo, n_lo), (hi, n_hi)))
}

/// Reservoir sampling: keeps `k` items of a stream, each with equal chance.
pub struct ReservoirSampling {
    k: usize,
}

/// `idx` is a reservoir of up to `k` indices into `0..n`: distinct, and the
/// slot `t` holds either the item `t` it started with or a later item.
pub open spec fn reservoir_of(idx: Seq<usize>, n: int, k: int) -> bool {
    &&& idx.len() == if n < k { n } else { k }
    &&& all_below(idx, n)
    &&& idx.no_duplicates()
    &&& forall|t: int| 0 <= t < idx.len() ==> #[trigger] idx[t] == t || idx[t] >= k
}

/// The draws of a reservoir pass over `n` positions: the draw for position
/// `i >= k` lies in `0..=i` (the draws before `k` are not used).
pub open spec fn reservoir_draws(draws: Seq<usize>, n: int, k: int) -> bool {
    &&& draws.len() == n
    &&& forall|i: int| k <= i < n ==> #[trigger] draws[i] <= i
}

/// The reservoir of positions after a pass with the given draws, one per
/// position: position `i < k` fills slot `i`; position `i >= k` replaces
/// slot `draws[i]` when that is below `k`, and is dropped otherwise.
pub open spec fn reservoir_after(k: int, draws: Seq<usize>) -> Seq<usize>
    decreases draws.len(),
{
    if draws.len() == 0 {
        Seq::empty()
    } else {
        let prev = reservoir_after(k, draws.drop_last());
        let i = draws.len() - 1;
        if i < k {
            prev.push(i as usize)
        } else if draws.last() < k {
            prev.update(draws.last() as int, i as usize)
        } else {
            prev
        }
    }
}

/// One step of a reservoir pass over a stream, for the item at position `i`
/// with the draw `j`: while the reservoir holds fewer than `k` items the item
/// is appended; after that it replaces slot `j` when `j < k`, and is dropped
/// otherwise.
pub fn reservoir_step<A>(reservoir: &mut Vec<A>, item: A, i: usize, j: usize, k: usize)
    requires
        old(reservoir)@.len() == if i < k { i } else { k },
    ensures
        i < k ==> final(reservoir)@ == old(reservoir)@.push(item),
        i >= k && j < k ==> final(reservoir)@ == old(reservoir)@.update(j as int, item),
        i >= k && j >= k ==> final(reservoir)@ == old(reservoir)@,
{
    if i < k {
        reservoir.push(item);
    } else if j < k {
        reservoir.set(j, item);
    }
}

/// A reservoir after one more position keeps the reservoir properties.
proof fn lemma_reservoir_next(k: int, draws: Seq<usize>, x: usize)
    requires
        k >= 0,
        reservoir_draws(draws, draws.len() as int, k),
        reservoir_of(reservoir_after(k, draws), draws.len() as int, k),
        draws.len() >= k ==> x <= draws.len(),
        draws.len() < usize::MAX,
    ensures
        reservoir_draws(draws.push(x), draws.len() as int + 1, k),
        reservoir_of(reservoir_after(k, draws.push(x)), draws.len() as int + 1, k),
        reservoir_after(k, draws.push(x)) == ({
            let prev = reservoir_after(k, draws);
            let i = draws.len() as int;
            if i < k { prev.push(i as usize) } else if x < k { prev.update(x as int, i as usize) } else { prev }
        }),
{
    let d2 = draws.push(x);
    assert(d2.drop_last() =~= draws);
    let before = reservoir_after(k, draws);
    let after = reservoir_after(k, d2);
    let i = draws.len() as int;
    assert forall|t: int| k <= t < i + 1 implies #[trigger] d2[t] <= t by {
        if t < i {
            assert(d2[t] == draws[t]);
        }
    }
    if i < k {
        assert forall|a: int, b: int| 0 <= a < after.len() && 0 <= b < after.len() && a != b implies after[a] != after[b] by {
            if a < before.len() && b < before.len() {
                assert(after[a] == before[a] && after[b] == before[b]);
            } else if a < before.len() {
                assert(before[a] < i);
            } else {
                assert(before[b] < i);
            }
        }
    } else if x < k {
        assert forall|a: int, b: int| 0 <= a < after.len() && 0 <= b < after.len() && a != b implies after[a] != after[b] by {
            if a != x as int && b != x as int {
                assert(after[a] == before[a] && after[b] == before[b]);
            } else if a == x as int {
                assert(before[b] < i);
            } else {
                assert(before[a] < i);
            }
        }
    }
}

impl ReservoirSampling {
    /// The reservoir size.
    pub closed spec fn spec_k(&self) -> nat {
        self.k as nat
    }

    /// A sampler keeping `k` items.
    pub fn new(k: usize) -> (r: Self)
        ensures
            r.spec_k() == k,
    {
        Self { k }
    }

    /// Reservoir sampling over the positions `0..n`: the first `k` fill the
    /// reservoir; position `i >= k` replaces slot `j`, drawn from `0..=i`,
    /// when `j < k`.
    pub fn sample_indices(&self, n: usize) -> (idx: Vec<usize>)
        ensures
            reservoir_of(idx@, n as int, self.spec_k() as int),
            exists|draws: Seq<usize>| reservoir_draws(draws, n as int, self.spec_k() as int)
                && idx@ == #[trigger] reservoir_after(self.spec_k() as int, draws),
    {
        let k = self.k;
        let mut idx: Vec<usize> = Vec::new();
        let ghost mut draws: Seq<usize> = Seq::empty();
        let mut i: usize = 0;
        while i < n
            invariant
                k == self.spec_k(),
                i <= n,
                reservoir_draws(draws, i as int, k as int),
                idx@ == reservoir_after(k as int, draws),
                reservoir_of(idx@, i as int, k as int),
            decreases n - i,
        {
            let j = if i < k { 0 } else { random_at_most(i) };
            proof {
                lemma_reservoir_next(k as int, draws, j);
            }
            reservoir_step(&mut idx, i, i, j, k);
            proof {
                draws = draws.push(j);
            }
            i = i + 1;
        }
        idx
    }

    /// Samples up to `k` items from `stream`: the first `k` fill the
    /// reservoir; item `i >= k` replaces slot `j`, drawn from `0..=i`, when
    /// `j < k`. The result holds the stream's items at the positions of the
    /// reservoir that the draws give.
    pub fn sample<A>(&self, stream: Vec<A>) -> (res: Vec<A>)
        ensures
            exists|draws: Seq<usize>| {
                &&& reservoir_draws(draws, stream@.len() as int, self.spec_k() as int)
                &&& reservoir_of(#[trigger] reservoir_after(self.spec_k() as int, draws), stream@.len() as int, self.spec_k() as int)
                &&& reservoir_after(self.spec_k() as int, draws).len() == res@.len()
                &&& forall|t: int| 0 <= t < res@.len() ==>
                        res@[t] == stream@[#[trigger] reservoir_after(self.spec_k() as int, draws)[t] as int]
            },
    {
        let k = self.k;
        let n = stream.len();
        let ghost items = stream@;
        // reverse the stream so that popping yields it in order
        let mut rest = stream;
        let mut reversed: Vec<A> = Vec::new();
        while rest.len() > 0
            invariant
                rest@.len() + reversed@.len() == items.len(),
                forall|t: int| 0 <= t < rest@.len() ==> rest@[t] == items[t],
                forall|t: int| 0 <= t < reversed@.len() ==> #[trigger] reversed@[t] == items[items.len() - 1 - t],
            decreases rest@.len(),
        {
            let x = rest.pop().unwrap();
            reversed.push(x);
        }
        let mut res: Vec<A> = Vec::new();
        let ghost mut draws: Seq<usize> = Seq::empty();
        let mut i: usize = 0;
        while i < n
            invariant
                k == self.spec_k(),
                n == items.len(),
                i <= n,
                reversed@.len() == n - i,
                forall|t: int| 0 <= t < reversed@.len() ==> #[trigger] reversed@[t] == items[n - 1 - t],
                reservoir_draws(draws, i as int, k as int),
                reservoir_of(reservoir_after(k as int, draws), i as int, k as int),
                reservoir_after(k as int, draws).len() == res@.len(),
                forall|t: int| 0 <= t < res@.len() ==> res@[t] == items[#[trigger] reservoir_after(k as int, draws)[t] as int],
            decreases n - i,
        {
            let item = reversed.pop().unwrap();
            proof {
                assert(item == items[i as int]);
            }
            let j = if i < k { 0 } else { random_at_most(i) };
            let ghost before = res@;
            let ghost prev = reservoir_after(k as int, draws);
            proof {
                lemma_reservoir_next(k as int, draws, j);
            }
            reservoir_step(&mut res, item, i, j, k);
            proof {
                draws = draws.push(j);
                let now = reservoir_after(k as int, draws);
                assert forall|t: int| 0 <= t < res@.len() implies res@[t] == items[#[trigger] now[t] as int] by {
                    if i < k {
                        if t < before.len() {
                            assert(res@[t] == before[t] && now[t] == prev[t]);
                        }
                    } else if j < k {
                        if t != j as int {
                            assert(res@[t] == before[t] && now[t] == prev[t]);
                        }
                    } else {
                        assert(res@[t] == before[t] && now[t] == prev[t]);
                    }
                }
            }
            i = i + 1;
        }
        res
    }
}

/// Strategy for choosing how many samples each class should have.
#[derive(Debug, Clone)]
pub enum SamplingStrategy {
    /// Oversample all minority classes to match majority class
    Auto,
    /// Oversample all classes to specific size
    AllToSize(usize),
    /// Custom target sizes for each class
    Custom(HashMap<usize, usize>),
}

/// The target size of class `c` under `strategy` for labels `y`, if the
/// strategy gives it one: under `Auto` and `AllToSize` the classes present
/// in `y`, under `Custom` the classes the map holds.
pub open spec fn target_size(strategy: SamplingStrategy, y: Seq<usize>, c: usize) -> Option<int> {
    match strategy {
        SamplingStrategy::Auto => if y.contains(c) { Some(max_class_count(y)) } else { None },
        SamplingStrategy::AllToSize(size) => if y.contains(c) { Some(size as int) } else { None },
        SamplingStrategy::Custom(targets) => if targets@.contains_key(c) { Some(targets@[c] as int) } else { None },
    }
}

/// The size of the largest class of `y` (0 when `y` is empty).
pub open spec fn max_class_count(y: Seq<usize>) -> int {
    if y.len() == 0 {
        0
    } else {
        choose|m: int| is_max_count(y, m)
    }
}

/// `m` is the size of the largest class of `y`.
pub open spec fn is_max_count(y: Seq<usize>, m: int) -> bool {
    &&& exists|i: int| 0 <= i < y.len() && class_count(y, #[trigger] y[i]) == m
    &&& forall|i: int| 0 <= i < y.len() ==> class_count(y, #[trigger] y[i]) <= m
}

/// The classes in `list` are distinct.
pub open spec fn distinct_keys(list: Seq<(usize, usize)>) -> bool {
    forall|a: int, b: int| 0 <= a < list.len() && 0 <= b < list.len() && a != b ==> (#[trigger] list[a]).0 != (#[trigger] list[b]).0
}

/// SMOTE (Synthetic Minority Over-sampling Technique).
pub struct SMOTE {
    k_neighbors: usize,
    sampling_strategy: SamplingStrategy,
}

impl SMOTE {
    /// The number of neighbours among which a partner sample is drawn.
    pub closed spec fn spec_k_neighbors(&self) -> nat {
        self.k_neighbors as nat
    }

    /// The sampling strategy.
    pub closed spec fn spec_strategy(&self) -> SamplingStrategy {
        self.sampling_strategy
    }

    /// A SMOTE sampler with `k_neighbors` neighbours and the `Auto` strategy.
    pub fn new(k_neighbors: usize) -> (r: Self)
        ensures
            r.spec_k_neighbors() == k_neighbors,
            r.spec_strategy() == SamplingStrategy::Auto,
    {
        Self { k_neighbors, sampling_strategy: SamplingStrategy::Auto }
    }

    /// Sets the sampling strategy.
    pub fn with_strategy(self, strategy: SamplingStrategy) -> (r: Self)
        ensures
            r.spec_k_neighbors() == self.spec_k_neighbors(),
            r.spec_strategy() == strategy,
    {
        let mut s = self;
        s.sampling_strategy = strategy;
        s
    }

    /// The number of neighbours among which a partner sample is drawn.
    pub fn k_neighbors(&self) -> (r: usize)
        ensures
            r == self.spec_k_neighbors(),
    {
        self.k_neighbors
    }

    /// The sampling strategy.
    pub fn strategy(&self) -> (r: &SamplingStrategy)
        ensures
            *r == self.spec_strategy(),
    {
        &self.sampling_strategy
    }

    /// How many synthetic samples each class needs: for every class whose
    /// target size (see `target_size`) exceeds its current size, the pair of
    /// the class and the difference; each class once.
    pub fn synthetic_counts(&self, y: &Vec<usize>) -> (plan: Vec<(usize, usize)>)
        ensures
            distinct_keys(plan@),
            forall|k: int| 0 <= k < plan@.len() ==>
                (target_size(self.spec_strategy(), y@, (#[trigger] plan@[k]).0) matches Some(t)
                    && t > class_count(y@, plan@[k].0)
                    && plan@[k].1 == t - class_count(y@, plan@[k].0)),
            forall|c: usize| (#[trigger] target_size(self.spec_strategy(), y@, c) matches Some(t)
                && t > class_count(y@, c)) ==> exists|k: int| 0 <= k < plan@.len() && (#[trigger] plan@[k]).0 == c,
    {
        match &self.sampling_strategy {
            SamplingStrategy::Custom(targets) => custom_plan(targets, y),
            SamplingStrategy::Auto => {
                if y.len() == 0 {
                    return Vec::new();
                }
                let classes = distinct_labels(y);
                let m = largest_class(y, &classes);
                proof {
                    lemma_max_count_unique(y@, m as int);
                }
                uniform_plan(y, &classes, m)
            },
            SamplingStrategy::AllToSize(size) => {
                let classes = distinct_labels(y);
                uniform_plan(y, &classes, *size)
            },
        }
    }
}

proof fn lemma_max_count_unique(y: Seq<usize>, m: int)
    requires
        y.len() > 0,
        is_max_count(y, m),
    ensures
        max_class_count(y) == m,
{
    let m2 = max_class_count(y);
    assert(is_max_count(y, m2));
    let i1 = choose|i: int| 0 <= i < y.len() && class_count(y, #[trigger] y[i]) == m;
    let i2 = choose|i: int| 0 <= i < y.len() && class_count(y, #[trigger] y[i]) == m2;
    assert(class_count(y, y[i1]) <= m2);
    assert(class_count(y, y[i2]) <= m);
}

/// The size of the largest class, given the distinct labels.
fn largest_class(y: &Vec<usize>, classes: &Vec<usize>) -> (m: usize)
    requires
        y@.len() > 0,
        forall|k: int| 0 <= k < classes@.len() ==> y@.contains(#[trigger] classes@[k]),
        forall|i: int| 0 <= i < y@.len() ==> classes@.contains(#[trigger] y@[i]),
    ensures
        is_max_count(y@, m as int),
{
    let mut m: usize = 0;
    let mut g: usize = 0;
    let ghost mut arg: int = -1;
    while g < classes.len()
        invariant
            y@.len() > 0,
            forall|k: int| 0 <= k < classes@.len() ==> y@.contains(#[trigger] classes@[k]),
            g <= classes@.len(),
            forall|h: int| 0 <= h < g ==> class_count(y@, #[trigger] classes@[h]) <= m,
            g > 0 ==> 0 <= arg < g && class_count(y@, classes@[arg]) == m,
        decreases classes@.len() - g,
    {
        let cnt = class_indices(y, classes[g]).len();
        if g == 0 || cnt > m {
            m = cnt;
            proof {
                arg = g as int;
            }
        }
        g = g + 1;
    }
    proof {
        assert(classes@.len() > 0) by {
            assert(classes@.contains(y@[0]));
        }
        assert(y@.contains(classes@[arg]));
        let i = choose|i: int| 0 <= i < y@.len() && y@[i] == classes@[arg];
        assert(class_count(y@, y@[i]) == m);
        assert forall|i: int| 0 <= i < y@.len() implies class_count(y@, #[trigger] y@[i]) <= m by {
            assert(classes@.contains(y@[i]));
            let h = choose|h: int| 0 <= h < classes@.len() && classes@[h] == y@[i];
            assert(class_count(y@, classes@[h]) <= m);
        }
    }
    m
}

/// The plan for one target size shared by all classes present.
fn uniform_plan(y: &Vec<usize>, classes: &Vec<usize>, target: usize) -> (plan: Vec<(usize, usize)>)
    requires
        classes@.no_duplicates(),
        forall|k: int| 0 <= k < classes@.len() ==> y@.contains(#[trigger] classes@[k]),
        forall|i: int| 0 <= i < y@.len() ==> classes@.contains(#[trigger] y@[i]),
    ensures
        distinct_keys(plan@),
        forall|k: int| 0 <= k < plan@.len() ==>
            y@.contains((#[trigger] plan@[k]).0)
            && target > class_count(y@, plan@[k].0)
            && plan@[k].1 == target - class_count(y@, plan@[k].0),
        forall|c: usize| y@.contains(c) && target > #[trigger] class_count(y@, c) ==>
            exists|k: int| 0 <= k < plan@.len() && (#[trigger] plan@[k]).0 == c,
{
    let mut plan: Vec<(usize, usize)> = Vec::new();
    let mut g: usize = 0;
    while g < classes.len()
        invariant
            classes@.no_duplicates(),
            forall|k: int| 0 <= k < classes@.len() ==> y@.contains(#[trigger] classes@[k]),
            g <= classes@.len(),
            distinct_keys(plan@),
            forall|k: int| 0 <= k < plan@.len() ==> exists|h: int| 0 <= h < g && classes@[h] == (#[trigger] plan@[k]).0,
            forall|k: int| 0 <= k < plan@.len() ==>
                y@.contains((#[trigger] plan@[k]).0)
                && target > class_count(y@, plan@[k].0)
                && plan@[k].1 == target - class_count(y@, plan@[k].0),
            forall|h: int| 0 <= h < g && target > class_count(y@, #[trigger] classes@[h]) ==>
                exists|k: int| 0 <= k < plan@.len() && (#[trigger] plan@[k]).0 == classes@[h],
        decreases classes@.len() - g,
    {
        let c = classes[g];
        let cnt = class_indices(y, c).len();
        if target > cnt {
            let ghost before = plan@;
            plan.push((c, target - cnt));
            proof {
                assert forall|a: int, b: int| 0 <= a < plan@.len() && 0 <= b < plan@.len() && a != b implies
                    (#[trigger] plan@[a]).0 != (#[trigger] plan@[b]).0 by {
                    if a < before.len() && b < before.len() {
                        assert(plan@[a] == before[a] && plan@[b] == before[b]);
                    } else if a < before.len() {
                        let h = choose|h: int| 0 <= h < g && classes@[h] == (#[trigger] before[a]).0;
                        assert(classes@[h] != classes@[g as int]);
                    } else {
                        let h = choose|h: int| 0 <= h < g && classes@[h] == (#[trigger] before[b]).0;
                        assert(classes@[h] != classes@[g as int]);
                    }
                }
                assert forall|k: int| 0 <= k < plan@.len() implies exists|h: int| 0 <= h < g + 1 && classes@[h] == (#[trigger] plan@[k]).0 by {
                    if k < before.len() {
                        assert(plan@[k] == before[k]);
                        let h = choose|h: int| 0 <= h < g && classes@[h] == (#[trigger] before[k]).0;
                    } else {
                        assert(classes@[g as int] == plan@[k].0);
                    }
                }
                assert forall|h: int| 0 <= h < g + 1 && target > class_count(y@, #[trigger] classes@[h]) implies
                    exists|k: int| 0 <= k < plan@.len() && (#[trigger] plan@[k]).0 == classes@[h] by {
                    if h == g as int {
                        assert(plan@[plan@.len() - 1].0 == classes@[h]);
                    } else {
                        let k = choose|k: int| 0 <= k < before.len() && (#[trigger] before[k]).0 == classes@[h];
                        assert(plan@[k] == before[k]);
                    }
                }
            }
        }
        g = g + 1;
    }
    proof {
        assert forall|c: usize| y@.contains(c) && target > #[trigger] class_count(y@, c) implies
            exists|k: int| 0 <= k < plan@.len() && (#[trigger] plan@[k]).0 == c by {
            let i = choose|i: int| 0 <= i < y@.len() && y@[i] == c;
            assert(classes@.contains(y@[i]));
            let h = choose|h: int| 0 <= h < classes@.len() && classes@[h] == c;
            assert(target > class_count(y@, classes@[h]));
        }
    }
    plan
}

/// The plan for custom target sizes.
fn custom_plan(targets: &HashMap<usize, usize>, y: &Vec<usize>) -> (plan: Vec<(usize, usize)>)
    ensures
        distinct_keys(plan@),
        forall|k: int| 0 <= k < plan@.len() ==>
            (target_size(SamplingStrategy::Custom(*targets), y@, (#[trigger] plan@[k]).0) matches Some(t)
                && t > class_count(y@, plan@[k].0)
                && plan@[k].1 == t - class_count(y@, plan@[k].0)),
        forall|c: usize| (#[trigger] target_size(SamplingStrategy::Custom(*targets), y@, c) matches Some(t)
            && t > class_count(y@, c)) ==> exists|k: int| 0 <= k < plan@.len() && (#[trigger] plan@[k]).0 == c,
{
    broadcast use vstd::std_specs::hash::group_hash_axioms;
    let ghost m = targets@;
    let ghost v = spec_hash_map_iter(targets).remaining();
    let ghost mut done: int = 0;
    let mut plan: Vec<(usize, usize)> = Vec::new();
    for entry in it: targets.iter()
        invariant
            m == targets@,
            v == spec_hash_map_iter(targets).remaining(),
            it.seq() == v,
            v.no_duplicates(),
            done == it.index(),
            distinct_keys(plan@),
            forall|k: int| #![trigger plan@[k]] 0 <= k < plan@.len() ==> exists|h: int| 0 <= h < done && *(#[trigger] v[h]).0 == plan@[k].0,
            forall|k: int| 0 <= k < plan@.len() ==>
                m.contains_key((#[trigger] plan@[k]).0)
                && m[plan@[k].0] > class_count(y@, plan@[k].0)
                && plan@[k].1 == m[plan@[k].0] - class_count(y@, plan@[k].0),
            forall|h: int| 0 <= h < done && *(#[trigger] v[h]).1 > class_count(y@, *v[h].0) ==>
                exists|k: int| 0 <= k < plan@.len() && (#[trigger] plan@[k]).0 == *v[h].0,
    {
        let (cr, tr) = entry;
        let c = *cr;
        let t = *tr;
        let ghost g = done;
        proof {
            done = done + 1;
        }
        let cnt = class_indices(y, c).len();
        if t > cnt {
            let ghost before = plan@;
            plan.push((c, t - cnt));
            proof {
                assert(m.contains_key(c) && m[c] == t);
                assert forall|a: int, b: int| 0 <= a < plan@.len() && 0 <= b < plan@.len() && a != b implies
                    (#[trigger] plan@[a]).0 != (#[trigger] plan@[b]).0 by {
                    if a < before.len() && b < before.len() {
                        assert(plan@[a] == before[a] && plan@[b] == before[b]);
                    } else if a < before.len() {
                        assert(plan@[a] == before[a]);
                        let h = choose|h: int| 0 <= h < g && *(#[trigger] v[h]).0 == before[a].0;
                        assert(m.contains_key(*v[h].0) && m[*v[h].0] == *v[h].1);
                        assert(v[h] != v[g]);
                    } else {
                        assert(plan@[b] == before[b]);
                        let h = choose|h: int| 0 <= h < g && *(#[trigger] v[h]).0 == before[b].0;
                        assert(m.contains_key(*v[h].0) && m[*v[h].0] == *v[h].1);
                        assert(v[h] != v[g]);
                    }
                }
                assert forall|k: int| #![trigger plan@[k]] 0 <= k < plan@.len() implies exists|h: int| 0 <= h < g + 1 && *(#[trigger] v[h]).0 == plan@[k].0 by {
                    if k < before.len() {
                        assert(plan@[k] == before[k]);
                        let h = choose|h: int| 0 <= h < g && *(#[trigger] v[h]).0 == before[k].0;
                    } else {
                        assert(*v[g].0 == plan@[k].0);
                    }
                }
                assert forall|k: int| 0 <= k < plan@.len() implies
                    m.contains_key((#[trigger] plan@[k]).0)
                    && m[plan@[k].0] > class_count(y@, plan@[k].0)
                    && plan@[k].1 == m[plan@[k].0] - class_count(y@, plan@[k].0) by {
                    if k < before.len() {
                        assert(plan@[k] == before[k]);
                    }
                }
                assert forall|h: int| 0 <= h < g + 1 && *(#[trigger] v[h]).1 > class_count(y@, *v[h].0) implies
                    exists|k: int| 0 <= k < plan@.len() && (#[trigger] plan@[k]).0 == *v[h].0 by {
                    if h == g {
                        assert(plan@[plan@.len() - 1].0 == *v[h].0);
                    } else {
                        let k = choose|k: int| 0 <= k < before.len() && (#[trigger] before[k]).0 == *v[h].0;
                        assert(plan@[k] == before[k]);
                    }
                }
            }
        }
    }
    proof {
        assert forall|c: usize| (#[trigger] target_size(SamplingStrategy::Custom(*targets), y@, c) matches Some(t)
            && t > class_count(y@, c)) implies exists|k: int| 0 <= k < plan@.len() && (#[trigger] plan@[k]).0 == c by {
            assert(m.contains_key(c));
            assert(v.contains((&c, &m[c])));
            let h = choose|h: int| 0 <= h < v.len() && v[h] == (&c, &m[c]);
            assert(done == v.len());
            assert(*v[h].1 > class_count(y@, *v[h].0));
        }
    }
    plan
}

/// Importance sampling: draws indices in proportion to weights.
pub struct ImportanceSampling {
    n_samples: usize,
}

impl ImportanceSampling {
    /// The number of indices drawn.
    pub closed spec fn spec_n_samples(&self) -> nat {
        self.n_samples as nat
    }

    /// A sampler drawing `n_samples` indices.
    pub fn new(n_samples: usize) -> (r: Self)
        ensures
            r.spec_n_samples() == n_samples,
    {
        Self { n_samples }
    }

    /// The number of indices drawn.
    pub fn n_samples(&self) -> (r: usize)
        ensures
            r == self.spec_n_samples(),
    {
        self.n_samples
    }
}

/// `a * b / c` rounded to the nearest integer, halves rounded up.
pub open spec fn rounded_share(a: int, b: int, c: int) -> int {
    (a * b) / c + if 2 * ((a * b) % c) >= c { 1int } else { 0int }
}

/// The number of items of a class of `count` items (out of `total`) that a
/// stratified sample of `n_samples` items takes: its rounded share, at least
/// one, at most the whole class.
pub open spec fn stratum_size(n_samples: int, count: int, total: int) -> int {
    let share = rounded_share(n_samples, count, total);
    let quota = if share < 1 { 1 } else { share };
    if quota < count { quota } else { count }
}

/// A class with items gives a stratified sample at least one item and at
/// most all of its items; it gives its rounded share unless that is below one
/// (then one) or above its size (then all).
pub proof fn lemma_stratum_size_bounds(n_samples: int, count: int, total: int)
    requires
        count >= 1,
    ensures
        1 <= stratum_size(n_samples, count, total) <= count,
        stratum_size(n_samples, count, total) == count
            || stratum_size(n_samples, count, total) >= rounded_share(n_samples, count, total),
        stratum_size(n_samples, count, total) <= rounded_share(n_samples, count, total)
            || stratum_size(n_samples, count, total) == 1,
{
}

/// Stratified sampling: samples each class in proportion to its size.
pub struct StratifiedSampling {
    n_samples: usize,
}

impl StratifiedSampling {
    /// The requested sample size.
    pub closed spec fn spec_n_samples(&self) -> nat {
        self.n_samples as nat
    }

    /// A sampler for samples of about `n_samples` items.
    pub fn new(n_samples: usize) -> (r: Self)
        ensures
            r.spec_n_samples() == n_samples,
    {
        Self { n_samples }
    }

    /// The indices of a stratified sample of `y`: each class contributes
    /// `stratum_size` distinct items chosen at random among its own.
    pub fn sample_indices(&self, y: &Vec<usize>) -> (sel: Vec<usize>)
        ensures
            all_below(sel@, y@.len() as int),
            sel@.no_duplicates(),
            forall|c: usize| #[trigger] labels_of(sel@, y@).to_multiset().count(c) == if y@.contains(c) {
                stratum_size(self.spec_n_samples() as int, class_count(y@, c) as int, y@.len() as int)
            } else {
                0
            },
            forall|c: usize| #[trigger] y@.contains(c) ==> labels_of(sel@, y@).to_multiset().count(c) >= 1,
            forall|c: usize| #[trigger] labels_of(sel@, y@).to_multiset().count(c) <= class_count(y@, c),
            forall|c: usize| #[trigger] y@.contains(c) ==> {
                let share = rounded_share(self.spec_n_samples() as int, class_count(y@, c) as int, y@.len() as int);
                let taken = labels_of(sel@, y@).to_multiset().count(c) as int;
                &&& taken == class_count(y@, c) || taken >= share
                &&& taken <= share || taken == 1
            },
    {
        broadcast use vstd::seq_lib::group_to_multiset_ensures;
        let n = y.len();
        let classes = distinct_labels(y);
        let mut sel: Vec<usize> = Vec::new();
        let mut g: usize = 0;
        proof {
            assert(labels_of(sel@, y@) =~= Seq::<usize>::empty());
        }
        while g < classes.len()
            invariant
                n == y@.len(),
                classes@.no_duplicates(),
                forall|k: int| 0 <= k < classes@.len() ==> y@.contains(#[trigger] classes@[k]),
                forall|i: int| 0 <= i < y@.len() ==> classes@.contains(#[trigger] y@[i]),
                g <= classes@.len(),
                all_below(sel@, n as int),
                sel@.no_duplicates(),
                forall|k: int| 0 <= k < sel@.len() ==> exists|h: int| 0 <= h < g && #[trigger] classes@[h] == y@[#[trigger] sel@[k] as int],
                forall|h: int| 0 <= h < g ==> #[trigger] labels_of(sel@, y@).to_multiset().count(classes@[h])
                    == stratum_size(self.spec_n_samples() as int, class_count(y@, classes@[h]) as int, n as int),
                forall|c: usize| !classes@.subrange(0, g as int).contains(c) ==> #[trigger] labels_of(sel@, y@).to_multiset().count(c) == 0,
            decreases classes@.len() - g,
        {
            let c = classes[g];
            let mut idx = class_indices(y, c);
            let cnt = idx.len();
            proof {
                assert(y@.contains(c));
                let i = choose|i: int| 0 <= i < y@.len() && y@[i] == c;
                assert(idx@.contains(i as usize));
                assert(cnt > 0);
                assert(n > 0);
            }
            let m = stratum_take(self.n_samples, cnt, n);
            let ghost idx0 = idx@;
            proof {
                lemma_increasing_no_duplicates(idx0);
            }
            shuffle(&mut idx);
            proof {
                lemma_same_multiset_no_duplicates(idx0, idx@);
                assert forall|k: int| 0 <= k < idx@.len() implies (#[trigger] idx@[k]) < n && y@[idx@[k] as int] == c by {
                    assert(idx@.contains(idx@[k]));
                    lemma_same_multiset_contains(idx0, idx@, idx@[k]);
                    let p = choose|p: int| 0 <= p < idx0.len() && idx0[p] == idx@[k];
                }
            }
            let ghost sel0 = sel@;
            proof {
                assert forall|k: int| 0 <= k < sel0.len() implies y@[#[trigger] sel0[k] as int] != c by {
                    let h = choose|h: int| 0 <= h < g && #[trigger] classes@[h] == y@[sel@[k] as int];
                    assert(classes@[h] != classes@[g as int]);
                }
            }
            let mut t: usize = 0;
            while t < m
                invariant
                    n == y@.len(),
                    classes@.no_duplicates(),
                    g < classes@.len(),
                    c == classes@[g as int],
                    m <= idx@.len(),
                    idx@.no_duplicates(),
                    forall|k: int| 0 <= k < idx@.len() ==> (#[trigger] idx@[k]) < n && y@[idx@[k] as int] == c,
                    forall|k: int| 0 <= k < sel0.len() ==> y@[#[trigger] sel0[k] as int] != c,
                    all_below(sel0, n as int),
                    t <= m,
                    sel@ == sel0 + idx@.subrange(0, t as int),
                    all_below(sel@, n as int),
                    sel@.no_duplicates(),
                    forall|c2: usize| c2 != c ==> #[trigger] labels_of(sel@, y@).to_multiset().count(c2) == labels_of(sel0, y@).to_multiset().count(c2),
                    labels_of(sel@, y@).to_multiset().count(c) == labels_of(sel0, y@).to_multiset().count(c) + t,
                decreases m - t,
            {
                let x = idx[t];
                let ghost before = sel@;
                proof {
                    assert(!before.contains(x)) by {
                        if before.contains(x) {
                            let p = choose|p: int| 0 <= p < before.len() && before[p] == x;
                            if p < sel0.len() {
                                assert(sel0[p] == x);
                            } else {
                                assert(before[p] == idx@[p - sel0.len()]);
                            }
                        }
                    }
                }
                sel.push(x);
                proof {
                    assert(labels_of(sel@, y@) =~= labels_of(before, y@).push(y@[x as int]));
                    vstd::seq_lib::to_multiset_build(labels_of(before, y@), y@[x as int]);
                    broadcast use vstd::multiset::group_multiset_axioms;
                    assert(sel@ =~= sel0 + idx@.subrange(0, t + 1));
                    assert forall|a: int, b: int| 0 <= a < sel@.len() && 0 <= b < sel@.len() && a != b implies sel@[a] != sel@[b] by {
                        if a < before.len() && b < before.len() {
                            assert(sel@[a] == before[a] && sel@[b] == before[b]);
                        } else if a < before.len() {
                            assert(before.contains(sel@[a])) by { assert(before[a] == sel@[a]); }
                        } else if b < before.len() {
                            assert(before.contains(sel@[b])) by { assert(before[b] == sel@[b]); }
                        }
                    }
                }
                t = t + 1;
            }
            proof {
                assert forall|k: int| 0 <= k < sel@.len() implies exists|h: int| 0 <= h < g + 1 && #[trigger] classes@[h] == y@[#[trigger] sel@[k] as int] by {
                    if k < sel0.len() {
                        assert(sel@[k] == sel0[k]);
                        assert(exists|h: int| 0 <= h < g && #[trigger] classes@[h] == y@[sel0[k] as int]);
                        let h = choose|h: int| 0 <= h < g && #[trigger] classes@[h] == y@[sel0[k] as int];
                    } else {
                        assert(sel@[k] == idx@[k - sel0.len()]);
                        assert(classes@[g as int] == y@[sel@[k] as int]);
                    }
                }
                assert(labels_of(sel0, y@).to_multiset().count(c) == 0) by {
                    assert(!classes@.subrange(0, g as int).contains(c)) by {
                        if classes@.subrange(0, g as int).contains(c) {
                            let p = choose|p: int| 0 <= p < g && classes@.subrange(0, g as int)[p] == c;
                            assert(classes@[p] == classes@[g as int]);
                        }
                    }
                }
                assert forall|h: int| 0 <= h < g + 1 implies #[trigger] labels_of(sel@, y@).to_multiset().count(classes@[h])
                    == stratum_size(self.spec_n_samples() as int, class_count(y@, classes@[h]) as int, n as int) by {
                    if h < g {
                        assert(classes@[h] != c);
                    }
                }
                assert forall|c2: usize| !classes@.subrange(0, g + 1).contains(c2) implies #[trigger] labels_of(sel@, y@).to_multiset().count(c2) == 0 by {
                    assert(c2 != c) by {
                        assert(classes@.subrange(0, g + 1)[g as int] == c);
                    }
                    assert(!classes@.subrange(0, g as int).contains(c2)) by {
                        if classes@.subrange(0, g as int).contains(c2) {
                            let p = choose|p: int| 0 <= p < g && classes@.subrange(0, g as int)[p] == c2;
                            assert(classes@.subrange(0, g + 1)[p] == c2);
                        }
                    }
                }
            }
            g = g + 1;
        }
        proof {
            assert forall|c: usize| #[trigger] labels_of(sel@, y@).to_multiset().count(c) == if y@.contains(c) {
                stratum_size(self.spec_n_samples() as int, class_count(y@, c) as int, n as int)
            } else {
                0
            } by {
                if y@.contains(c) {
                    let i = choose|i: int| 0 <= i < y@.len() && y@[i] == c;
                    assert(classes@.contains(y@[i]));
                    let h = choose|h: int| 0 <= h < classes@.len() && classes@[h] == c;
                } else {
                    assert(!classes@.subrange(0, classes@.len() as int).contains(c)) by {
                        if classes@.subrange(0, classes@.len() as int).contains(c) {
                            let p = choose|p: int| 0 <= p < classes@.len() && classes@.subrange(0, classes@.len() as int)[p] == c;
                            assert(y@.contains(classes@[p]));
                        }
                    }
                }
            }
        }
        proof {
            assert forall|c: usize| #[trigger] labels_of(sel@, y@).to_multiset().count(c) <= class_count(y@, c)
                && (y@.contains(c) ==> {
                    let share = rounded_share(self.spec_n_samples() as int, class_count(y@, c) as int, y@.len() as int);
                    let taken = labels_of(sel@, y@).to_multiset().count(c) as int;
                    &&& taken >= 1
                    &&& taken == class_count(y@, c) || taken >= share
                    &&& taken <= share || taken == 1
                }) by {
                if y@.contains(c) {
                    assert(y@.to_multiset().count(c) >= 1) by {
                        vstd::seq_lib::to_multiset_contains(y@, c);
                    }
                    lemma_stratum_size_bounds(self.spec_n_samples() as int, class_count(y@, c) as int, y@.len() as int);
                }
            }
            assert forall|c: usize| #[trigger] y@.contains(c) implies labels_of(sel@, y@).to_multiset().count(c) >= 1 by {
                assert(labels_of(sel@, y@).to_multiset().count(c) <= class_count(y@, c));
            }
        }
        sel
    }
}

/// The number of items a class of `count` items (out of `total`) gives a
/// stratified sample of `n_samples` items.
fn stratum_take(n_samples: usize, count: usize, total: usize) -> (m: usize)
    requires
        total > 0,
    ensures
        m == stratum_size(n_samples as int, count as int, total as int),
        m <= count,
{
    let a = n_samples as u128;
    let b = count as u128;
    let c = total as u128;
    proof {
        assert(a * b <= 0xffff_ffff_ffff_fffe_0000_0000_0000_0001u128) by (nonlinear_arith)
            requires a <= 0xffff_ffff_ffff_ffff, b <= 0xffff_ffff_ffff_ffff;
    }
    let prod = a * b;
    let q = prod / c;
    let r = prod % c;
    proof {
        assert(q <= prod) by (nonlinear_arith)
            requires q == prod / c, c >= 1, prod >= 0;
    }
    let share = if 2 * r >= c { q + 1 } else { q };
    let quota = if share < 1 { 1 } else { share };
    let m = if quota < b { quota } else { b };
    m as usize
}

} // verus!
