//! Bootstrap and resampling methods: bootstrap, out-of-bag sets, stratified,
//! block and balanced bootstrap, jackknife.

use vstd::prelude::*;
use crate::indices::{labels_of, seq_range, all_below, strictly_increasing, index_range, push_range, lemma_same_multiset_contains, lemma_same_multiset_no_duplicates, lemma_same_multiset_map};
use crate::random::{random_below, shuffle};
use crate::preprocessing::sampling::{indices_of, class_count};
use std::collections::HashSet;

verus! {

/// `s` is a valid bootstrap draw of `m` indices from `0..n`: every index is
/// in range, and without replacement no index is drawn twice.
pub open spec fn bootstrap_draw(s: Seq<usize>, n: int, m: int, replace: bool) -> bool {
    &&& s.len() == m
    &&& all_below(s, n)
    &&& !replace ==> s.no_duplicates()
}

/// `oob` lists, in increasing order, exactly the indices of `0..n` that do
/// not occur in `sample`.
pub open spec fn out_of_bag_of(oob: Seq<usize>, sample: Seq<usize>, n: int) -> bool {
    &&& strictly_increasing(oob)
    &&& all_below(oob, n)
    &&& forall|k: int| 0 <= k < oob.len() ==> !sample.contains(#[trigger] oob[k])
    &&& forall|j: usize| j < n && !sample.contains(j) ==> oob.contains(j)
}

/// Bootstrap sampler for generating resampled datasets.
pub struct Bootstrap {
    n_iterations: usize,
    sample_size: Option<usize>,
    replace: bool,
}

impl Bootstrap {
    /// The number of resamples drawn.
    pub closed spec fn n_iterations(&self) -> nat {
        self.n_iterations as nat
    }

    /// The requested sample size, `None` for the size of the data.
    pub closed spec fn sample_size(&self) -> Option<usize> {
        self.sample_size
    }

    /// Whether indices are drawn with replacement.
    pub closed spec fn replace(&self) -> bool {
        self.replace
    }

    /// The size of each resample for data of `n_samples` items.
    pub open spec fn effective_size(&self, n_samples: int) -> int {
        match self.sample_size() {
            Some(m) => m as int,
            None => n_samples,
        }
    }

    /// The draws that `generate_indices` can make for `n_samples` items.
    pub open spec fn can_draw(&self, n_samples: int) -> bool {
        if self.replace() {
            n_samples > 0 || self.effective_size(n_samples) == 0
        } else {
            self.effective_size(n_samples) <= n_samples
        }
    }

    /// Creates a bootstrap sampler drawing `n_iterations` resamples, with
    /// replacement, of the size of the data.
    pub fn new(n_iterations: usize) -> (r: Self)
        ensures
            r.n_iterations() == n_iterations,
            r.sample_size() == None::<usize>,
            r.replace(),
    {
        Self { n_iterations, sample_size: None, replace: true }
    }

    /// Sets the sample size (defaults to the size of the data).
    pub fn with_sample_size(self, size: usize) -> (r: Self)
        ensures
            r.n_iterations() == self.n_iterations(),
            r.sample_size() == Some(size),
            r.replace() == self.replace(),
    {
        let mut s = self;
        s.sample_size = Some(size);
        s
    }

    /// Sets whether to sample with replacement.
    pub fn with_replacement(self, replace: bool) -> (r: Self)
        ensures
            r.n_iterations() == self.n_iterations(),
            r.sample_size() == self.sample_size(),
            r.replace() == replace,
    {
        let mut s = self;
        s.replace = replace;
        s
    }

    /// Draws `n_iterations` resamples of indices into `0..n_samples`: with
    /// replacement each index is drawn independently; without replacement a
    /// resample is the prefix of a random permutation of `0..n_samples`.
    pub fn generate_indices(&self, n_samples: usize) -> (samples: Vec<Vec<usize>>)
        requires
            self.n_iterations() > 0 ==> self.can_draw(n_samples as int),
        ensures
            samples.len() == self.n_iterations(),
            forall|t: int| 0 <= t < samples.len() ==> bootstrap_draw(
                #[trigger] samples@[t]@,
                n_samples as int,
                self.effective_size(n_samples as int),
                self.replace(),
            ),
    {
        let sample_size = match self.sample_size {
            Some(m) => m,
            None => n_samples,
        };
        let mut samples: Vec<Vec<usize>> = Vec::new();
        let mut it: usize = 0;
        while it < self.n_iterations
            invariant
                self.n_iterations() > 0 ==> self.can_draw(n_samples as int),
                sample_size == self.effective_size(n_samples as int),
                it <= self.n_iterations,
                samples.len() == it,
                forall|t: int| 0 <= t < samples.len() ==> bootstrap_draw(
                    #[trigger] samples@[t]@,
                    n_samples as int,
                    sample_size as int,
                    self.replace(),
                ),
            decreases self.n_iterations - it,
        {
            let indices = if self.replace {
                draw_with_replacement(n_samples, sample_size)
            } else {
                draw_without_replacement(n_samples, sample_size)
            };
            samples.push(indices);
            it = it + 1;
        }
        samples
    }

    /// For each resample that `generate_indices` draws, the out-of-bag
    /// indices: those of `0..n_samples` the resample does not hold, in
    /// increasing order.
    pub fn get_oob_indices(&self, n_samples: usize) -> (oob: Vec<Vec<usize>>)
        requires
            self.n_iterations() > 0 ==> self.can_draw(n_samples as int),
        ensures
            oob.len() == self.n_iterations(),
            forall|t: int| 0 <= t < oob.len() ==> out_of_bag_of_some_draw(
                #[trigger] oob@[t]@,
                n_samples as int,
                self.effective_size(n_samples as int),
                self.replace(),
            ),
    {
        let samples = self.generate_indices(n_samples);
        let mut res: Vec<Vec<usize>> = Vec::new();
        let mut t: usize = 0;
        while t < samples.len()
            invariant
                samples.len() == self.n_iterations(),
                forall|u: int| 0 <= u < samples.len() ==> bootstrap_draw(
                    #[trigger] samples@[u]@,
                    n_samples as int,
                    self.effective_size(n_samples as int),
                    self.replace(),
                ),
                t <= samples.len(),
                res.len() == t,
                forall|u: int| 0 <= u < t ==> out_of_bag_of_some_draw(
                    #[trigger] res@[u]@,
                    n_samples as int,
                    self.effective_size(n_samples as int),
                    self.replace(),
                ),
            decreases samples.len() - t,
        {
            let o = out_of_bag(&samples[t], n_samples);
            proof {
                let s = samples@[t as int]@;
                assert(bootstrap_draw(s, n_samples as int, self.effective_size(n_samples as int), self.replace()));
                assert(out_of_bag_of(o@, s, n_samples as int));
            }
            res.push(o);
            t = t + 1;
        }
        res
    }
}

/// `oob` is the out-of-bag set of some valid draw of `m` indices from `0..n`.
pub open spec fn out_of_bag_of_some_draw(oob: Seq<usize>, n: int, m: int, replace: bool) -> bool {
    exists|s: Seq<usize>| bootstrap_draw(s, n, m, replace) && #[trigger] out_of_bag_of(oob, s, n)
}

/// Draws `m` indices independently from `0..n`.
fn draw_with_replacement(n: usize, m: usize) -> (s: Vec<usize>)
    requires
        n > 0 || m == 0,
    ensures
        s@.len() == m,
        all_below(s@, n as int),
{
    let mut s: Vec<usize> = Vec::new();
    let mut i: usize = 0;
    while i < m
        invariant
            n > 0 || m == 0,
            i <= m,
            s@.len() == i,
            all_below(s@, n as int),
        decreases m - i,
    {
        let r = random_below(n);
        s.push(r);
        i = i + 1;
    }
    s
}

/// Takes the first `m` items of a random permutation of `0..n`.
fn draw_without_replacement(n: usize, m: usize) -> (s: Vec<usize>)
    requires
        m <= n,
    ensures
        s@.len() == m,
        all_below(s@, n as int),
        s@.no_duplicates(),
{
    let mut all = index_range(0, n);
    let ghost before = all@;
    proof {
        assert(before.no_duplicates());
    }
    shuffle(&mut all);
    proof {
        lemma_same_multiset_no_duplicates(before, all@);
        assert forall|k: int| 0 <= k < all@.len() implies #[trigger] all@[k] < n by {
            assert(all@.contains(all@[k]));
            lemma_same_multiset_contains(before, all@, all@[k]);
            let p = choose|p: int| 0 <= p < before.len() && before[p] == all@[k];
        }
    }
    let mut s: Vec<usize> = Vec::new();
    let mut i: usize = 0;
    while i < m
        invariant
            m <= n,
            all@.len() == n,
            all_below(all@, n as int),
            all@.no_duplicates(),
            i <= m,
            s@ == all@.subrange(0, i as int),
        decreases m - i,
    {
        s.push(all[i]);
        i = i + 1;
        assert(s@ =~= all@.subrange(0, i as int));
    }
    s
}

/// The out-of-bag indices of one resample: the indices of `0..n_samples` that
/// `sample` does not hold, in increasing order.
pub fn out_of_bag(sample: &Vec<usize>, n_samples: usize) -> (oob: Vec<usize>)
    ensures
        out_of_bag_of(oob@, sample@, n_samples as int),
{
    broadcast use vstd::std_specs::hash::group_hash_axioms;
    let mut in_bag: HashSet<usize> = HashSet::new();
    let mut i: usize = 0;
    while i < sample.len()
        invariant
            i <= sample.len(),
            forall|q: usize| #[trigger] in_bag@.contains(q) <==> sample@.subrange(0, i as int).contains(q),
        decreases sample.len() - i,
    {
        let x = sample[i];
        in_bag.insert(x);
        proof {
            let pre = sample@.subrange(0, i as int);
            let post = sample@.subrange(0, i + 1);
            assert(post =~= pre.push(x));
            assert forall|q: usize| #[trigger] in_bag@.contains(q) <==> post.contains(q) by {
                if post.contains(q) && q != x {
                    let p = choose|p: int| 0 <= p < post.len() && post[p] == q;
                    assert(pre[p] == q);
                }
                if pre.contains(q) {
                    let p = choose|p: int| 0 <= p < pre.len() && pre[p] == q;
                    assert(post[p] == q);
                }
                if q == x {
                    assert(post[i as int] == x);
                }
            }
        }
        i = i + 1;
    }
    assert(sample@.subrange(0, sample.len() as int) =~= sample@);
    let mut oob: Vec<usize> = Vec::new();
    let mut j: usize = 0;
    while j < n_samples
        invariant
            j <= n_samples,
            forall|q: usize| #[trigger] in_bag@.contains(q) <==> sample@.contains(q),
            strictly_increasing(oob@),
            forall|k: int| 0 <= k < oob@.len() ==> #[trigger] oob@[k] < j,
            forall|k: int| 0 <= k < oob@.len() ==> !sample@.contains(#[trigger] oob@[k]),
            forall|q: usize| q < j && !sample@.contains(q) ==> oob@.contains(q),
        decreases n_samples - j,
    {
        if !in_bag.contains(&j) {
            let ghost before = oob@;
            oob.push(j);
            proof {
                assert forall|q: usize| q < j + 1 && !sample@.contains(q) implies oob@.contains(q) by {
                    if q == j {
                        assert(oob@[oob@.len() - 1] == j);
                    } else {
                        let p = choose|p: int| 0 <= p < before.len() && before[p] == q;
                        assert(oob@[p] == q);
                    }
                }
            }
        } else {
            assert forall|q: usize| q < j + 1 && !sample@.contains(q) implies oob@.contains(q) by {
                if q == j {
                    assert(in_bag@.contains(j));
                }
            }
        }
        j = j + 1;
    }
    oob
}

/// Stratified bootstrap: every resample holds, for each class, as many items
/// of that class as the data does.
pub struct StratifiedBootstrap {
    n_iterations: usize,
}

impl StratifiedBootstrap {
    /// The number of resamples drawn.
    pub closed spec fn n_iterations(&self) -> nat {
        self.n_iterations as nat
    }

    /// Creates a stratified bootstrap sampler drawing `n_iterations` resamples.
    pub fn new(n_iterations: usize) -> (r: Self)
        ensures
            r.n_iterations() == n_iterations,
    {
        Self { n_iterations }
    }

    /// Draws `n_iterations` resamples of indices into `labels`. Each class
    /// keeps its size: for a class of `c` items, `c` indices are drawn with
    /// replacement among that class's items; the resample is then shuffled.
    pub fn generate_indices(&self, labels: &Vec<usize>) -> (samples: Vec<Vec<usize>>)
        ensures
            samples.len() == self.n_iterations(),
            forall|t: int| 0 <= t < samples.len() ==> {
                &&& (#[trigger] samples@[t])@.len() == labels@.len()
                &&& all_below(samples@[t]@, labels@.len() as int)
                &&& labels_of(samples@[t]@, labels@).to_multiset() == labels@.to_multiset()
            },
    {
        let n = labels.len();
        let (groups, group_of) = group_by_label(labels);
        let mut samples: Vec<Vec<usize>> = Vec::new();
        let mut it: usize = 0;
        while it < self.n_iterations
            invariant
                n == labels@.len(),
                group_of@.len() == n,
                forall|i: int| 0 <= i < n ==> (#[trigger] group_of@[i]) < groups@.len(),
                forall|i: int| 0 <= i < n ==> indices_of(labels@, labels@[i], #[trigger] groups@[group_of@[i] as int]@),
                forall|i: int| 0 <= i < n ==> (#[trigger] groups@[group_of@[i] as int])@.len() == class_count(labels@, labels@[i]),
                it <= self.n_iterations,
                samples.len() == it,
                forall|t: int| 0 <= t < samples.len() ==> {
                    &&& (#[trigger] samples@[t])@.len() == n
                    &&& all_below(samples@[t]@, n as int)
                    &&& labels_of(samples@[t]@, labels@).to_multiset() == labels@.to_multiset()
                },
            decreases self.n_iterations - it,
        {
            let mut draws: Vec<usize> = Vec::new();
            let mut i: usize = 0;
            while i < n
                invariant
                    n == labels@.len(),
                    group_of@.len() == n,
                    forall|i: int| 0 <= i < n ==> (#[trigger] group_of@[i]) < groups@.len(),
                    forall|i: int| 0 <= i < n ==> indices_of(labels@, labels@[i], #[trigger] groups@[group_of@[i] as int]@),
                    forall|i: int| 0 <= i < n ==> (#[trigger] groups@[group_of@[i] as int])@.len() == class_count(labels@, labels@[i]),
                    i <= n,
                    draws@.len() == i,
                    forall|k: int| 0 <= k < i ==> #[trigger] draws@[k] < class_count(labels@, labels@[k]),
                decreases n - i,
            {
                let members = &groups[group_of[i]];
                proof {
                    assert(indices_of(labels@, labels@[i as int], groups@[group_of@[i as int] as int]@));
                    assert(groups@[group_of@[i as int] as int]@.contains(i));
                }
                let r = random_below(members.len());
                draws.push(r);
                i = i + 1;
            }
            let mut sample = picks_from_groups(&groups, &group_of, labels, &draws);
            let ghost before = sample@;
            proof {
                assert(labels_of(before, labels@) =~= labels@);
            }
            shuffle(&mut sample);
            proof {
                lemma_same_multiset_map(before, sample@, |k: usize| labels@[k as int]);
                assert forall|k: int| 0 <= k < sample@.len() implies #[trigger] sample@[k] < n by {
                    assert(sample@.contains(sample@[k]));
                    lemma_same_multiset_contains(before, sample@, sample@[k]);
                    let p = choose|p: int| 0 <= p < before.len() && before[p] == sample@[k];
                }
            }
            samples.push(sample);
            it = it + 1;
        }
        samples
    }
}

/// `x` is the item picked for position `i` of `labels` by the draw `r`: the
/// `r`-th index, in increasing order, of the items of the class of item `i`.
pub open spec fn stratified_pick(labels: Seq<usize>, i: int, r: int, x: usize) -> bool {
    exists|idx: Seq<usize>| #[trigger] indices_of(labels, labels[i], idx) && 0 <= r < idx.len() && x == idx[r]
}

/// The picks of one stratified resample for the draws `draws`, one per item:
/// item `i` is replaced by the `draws[i]`-th item of its own class.
pub fn stratified_picks(labels: &Vec<usize>, draws: &Vec<usize>) -> (picks: Vec<usize>)
    requires
        draws@.len() == labels@.len(),
        forall|i: int| 0 <= i < labels@.len() ==> #[trigger] draws@[i] < class_count(labels@, labels@[i]),
    ensures
        picks@.len() == labels@.len(),
        forall|i: int| 0 <= i < labels@.len() ==> stratified_pick(labels@, i, draws@[i] as int, #[trigger] picks@[i]),
{
    let (groups, group_of) = group_by_label(labels);
    picks_from_groups(&groups, &group_of, labels, draws)
}

/// The picks for the draws, given the classes as groups of indices.
fn picks_from_groups(groups: &Vec<Vec<usize>>, group_of: &Vec<usize>, labels: &Vec<usize>, draws: &Vec<usize>) -> (picks: Vec<usize>)
    requires
        group_of@.len() == labels@.len(),
        draws@.len() == labels@.len(),
        forall|i: int| 0 <= i < labels@.len() ==> (#[trigger] group_of@[i]) < groups@.len(),
        forall|i: int| 0 <= i < labels@.len() ==> indices_of(labels@, labels@[i], #[trigger] groups@[group_of@[i] as int]@),
        forall|i: int| 0 <= i < labels@.len() ==> (#[trigger] groups@[group_of@[i] as int])@.len() == class_count(labels@, labels@[i]),
        forall|i: int| 0 <= i < labels@.len() ==> #[trigger] draws@[i] < class_count(labels@, labels@[i]),
    ensures
        picks@.len() == labels@.len(),
        forall|i: int| 0 <= i < labels@.len() ==> (#[trigger] picks@[i]) < labels@.len() && labels@[picks@[i] as int] == labels@[i],
        forall|i: int| 0 <= i < labels@.len() ==> stratified_pick(labels@, i, draws@[i] as int, #[trigger] picks@[i]),
{
    let n = labels.len();
    let mut picks: Vec<usize> = Vec::new();
    let mut i: usize = 0;
    while i < n
        invariant
            n == labels@.len(),
            group_of@.len() == n,
            draws@.len() == n,
            forall|i: int| 0 <= i < n ==> (#[trigger] group_of@[i]) < groups@.len(),
            forall|i: int| 0 <= i < n ==> indices_of(labels@, labels@[i], #[trigger] groups@[group_of@[i] as int]@),
            forall|i: int| 0 <= i < n ==> (#[trigger] groups@[group_of@[i] as int])@.len() == class_count(labels@, labels@[i]),
            forall|i: int| 0 <= i < n ==> #[trigger] draws@[i] < class_count(labels@, labels@[i]),
            i <= n,
            picks@.len() == i,
            forall|k: int| 0 <= k < i ==> (#[trigger] picks@[k]) < n && labels@[picks@[k] as int] == labels@[k],
            forall|k: int| 0 <= k < i ==> stratified_pick(labels@, k, draws@[k] as int, #[trigger] picks@[k]),
        decreases n - i,
    {
        let ghost members = groups@[group_of@[i as int] as int]@;
        proof {
            assert(indices_of(labels@, labels@[i as int], members));
            assert(draws@[i as int] < members.len());
        }
        let pick = groups[group_of[i]][draws[i]];
        proof {
            assert(pick == members[draws@[i as int] as int]);
            assert(pick < n && labels@[pick as int] == labels@[i as int]);
            assert(stratified_pick(labels@, i as int, draws@[i as int] as int, pick));
        }
        picks.push(pick);
        i = i + 1;
    }
    picks
}

/// Groups the indices of `labels` by label: `group_of[i]` is the group of
/// item `i`, and that group lists, in increasing order, the indices of the
/// items of its class.
fn group_by_label(labels: &Vec<usize>) -> (res: (Vec<Vec<usize>>, Vec<usize>))
    ensures
        res.1@.len() == labels@.len(),
        forall|i: int| 0 <= i < labels@.len() ==> (#[trigger] res.1@[i]) < res.0@.len(),
        forall|i: int| 0 <= i < labels@.len() ==> indices_of(labels@, labels@[i], #[trigger] res.0@[res.1@[i] as int]@),
        forall|i: int| 0 <= i < labels@.len() ==> (#[trigger] res.0@[res.1@[i] as int])@.len() == class_count(labels@, labels@[i]),
{
    broadcast use vstd::seq_lib::group_to_multiset_ensures;
    let n = labels.len();
    let mut groups: Vec<Vec<usize>> = Vec::new();
    let mut group_label: Vec<usize> = Vec::new();
    let mut group_of: Vec<usize> = Vec::new();
    let mut i: usize = 0;
    proof {
        assert(labels@.subrange(0, 0) =~= Seq::<usize>::empty());
    }
    while i < n
        invariant
            n == labels@.len(),
            i <= n,
            group_of@.len() == i,
            group_label@.len() == groups@.len(),
            forall|j: int| 0 <= j < i ==> (#[trigger] group_of@[j]) < groups@.len(),
            forall|j: int| 0 <= j < i ==> group_label@[#[trigger] group_of@[j] as int] == labels@[j],
            forall|j: int| 0 <= j < i ==> groups@[#[trigger] group_of@[j] as int]@.contains(j as usize),
            forall|g: int, q: int| 0 <= g < groups@.len() && 0 <= q < groups@[g]@.len() ==>
                #[trigger] groups@[g]@[q] < i,
            forall|g: int, q: int| 0 <= g < groups@.len() && 0 <= q < groups@[g]@.len() ==>
                labels@[#[trigger] groups@[g]@[q] as int] == group_label@[g],
            forall|g: int| 0 <= g < groups@.len() ==> strictly_increasing(#[trigger] groups@[g]@),
            forall|g: int| 0 <= g < groups@.len() ==>
                (#[trigger] groups@[g])@.len() == class_count(labels@.subrange(0, i as int), group_label@[g]),
            forall|g1: int, g2: int| 0 <= g1 < g2 < groups@.len() ==> #[trigger] group_label@[g1] != #[trigger] group_label@[g2],
        decreases n - i,
    {
        let lab = labels[i];
        let mut g: usize = 0;
        while g < group_label.len() && group_label[g] != lab
            invariant
                g <= group_label@.len(),
                forall|h: int| 0 <= h < g ==> #[trigger] group_label@[h] != lab,
            decreases group_label@.len() - g,
        {
            g = g + 1;
        }
        let ghost pre = labels@.subrange(0, i as int);
        let ghost old_groups = groups@;
        let ghost old_label = group_label@;
        proof {
            assert(labels@.subrange(0, i + 1) =~= pre.push(lab));
            vstd::seq_lib::to_multiset_build(pre, lab);
        }
        if g == group_label.len() {
            let mut members: Vec<usize> = Vec::new();
            members.push(i);
            groups.push(members);
            group_label.push(lab);
            proof {
                assert(groups@[g as int]@ == seq![i]);
                assert(class_count(pre, lab) == 0) by {
                    if class_count(pre, lab) > 0 {
                        assert(pre.to_multiset().contains(lab));
                        vstd::seq_lib::to_multiset_contains(pre, lab);
                        let j = choose|j: int| 0 <= j < pre.len() && pre[j] == lab;
                        assert(labels@[j] == lab);
                        assert(groups@[group_of@[j] as int]@.contains(j as usize));
                        assert(group_label@[group_of@[j] as int] == lab);
                    }
                }
            }
        } else {
            let mut members: Vec<usize> = Vec::new();
            std::mem::swap(&mut members, &mut groups[g]);
            members.push(i);
            groups.set(g, members);
            group_label.set(g, lab);
            proof {
                assert(group_label@ =~= old_label);
            }
        }
        group_of.push(g);
        proof {
            let post = labels@.subrange(0, i + 1);
            assert forall|h: int| 0 <= h < groups@.len() && h != g as int implies #[trigger] groups@[h] == old_groups[h] by {}
            assert forall|h: int, q: int| 0 <= h < groups@.len() && 0 <= q < groups@[h]@.len() implies
                labels@[#[trigger] groups@[h]@[q] as int] == group_label@[h] && groups@[h]@[q] < i + 1 by {
                if h != g as int {
                    assert(groups@[h] == old_groups[h]);
                } else if q < groups@[h]@.len() - 1 {
                    assert(groups@[h]@[q] == old_groups[h]@[q]);
                }
            }
            assert forall|h: int| 0 <= h < groups@.len() implies strictly_increasing(#[trigger] groups@[h]@) by {
                if h != g as int {
                    assert(groups@[h] == old_groups[h]);
                } else if h < old_groups.len() {
                    assert forall|a: int, b: int| 0 <= a < b < groups@[h]@.len() implies
                        #[trigger] groups@[h]@[a] < #[trigger] groups@[h]@[b] by {
                        assert(groups@[h]@[a] == old_groups[h]@[a]);
                        if b < old_groups[h]@.len() {
                            assert(groups@[h]@[b] == old_groups[h]@[b]);
                        }
                    }
                }
            }
            assert forall|h: int| 0 <= h < groups@.len() implies
                (#[trigger] groups@[h])@.len() == class_count(post, group_label@[h]) by {
                if h != g as int {
                    assert(groups@[h] == old_groups[h]);
                    assert(group_label@[h] != lab) by {
                        if h < g as int {
                        } else {
                            assert(group_label@[g as int] == lab);
                        }
                    }
                }
            }
            assert forall|j: int| 0 <= j < i + 1 implies groups@[#[trigger] group_of@[j] as int]@.contains(j as usize) by {
                if j == i as int {
                    assert(groups@[g as int]@[groups@[g as int]@.len() - 1] == i);
                } else {
                    let gj = group_of@[j] as int;
                    assert(old_groups[gj]@.contains(j as usize));
                    let q = choose|q: int| 0 <= q < old_groups[gj]@.len() && old_groups[gj]@[q] == j as usize;
                    assert(groups@[gj]@[q] == j as usize);
                }
            }
            assert forall|g1: int, g2: int| 0 <= g1 < g2 < groups@.len() implies #[trigger] group_label@[g1] != #[trigger] group_label@[g2] by {
                if g2 == old_label.len() {
                    assert(group_label@[g2] == lab);
                    assert(group_label@[g1] == old_label[g1]);
                } else {
                    assert(group_label@[g1] == old_label[g1] && group_label@[g2] == old_label[g2]);
                }
            }
        }
        i = i + 1;
    }
    proof {
        assert(labels@.subrange(0, n as int) =~= labels@);
        assert forall|i: int| 0 <= i < n implies indices_of(labels@, labels@[i], #[trigger] groups@[group_of@[i] as int]@) by {
            let gi = group_of@[i] as int;
            assert forall|j: int| 0 <= j < n && #[trigger] labels@[j] == labels@[i] implies groups@[gi]@.contains(j as usize) by {
                let gj = group_of@[j] as int;
                assert(group_label@[gj] == labels@[j]);
                assert(group_label@[gi] == labels@[i]);
                if gj < gi {
                    assert(group_label@[gj] != group_label@[gi]);
                } else if gi < gj {
                    assert(group_label@[gi] != group_label@[gj]);
                }
            }
            assert forall|k: int| 0 <= k < groups@[gi]@.len() implies (#[trigger] groups@[gi]@[k]) < n && labels@[groups@[gi]@[k] as int] == labels@[i] by {
                assert(group_label@[gi] == labels@[i]);
            }
        }
    }
    (groups, group_of)
}

/// Block bootstrap for time series: resamples are made of blocks of
/// consecutive indices.
pub struct BlockBootstrap {
    n_iterations: usize,
    block_length: usize,
}

/// `s` is made of blocks of `b` consecutive indices of `0..n`, block `q`
/// starting at `starts[q]`: position `p` holds `starts[p / b] + p % b`, and
/// every block fits in `0..n`.
pub open spec fn block_sample(s: Seq<usize>, starts: Seq<usize>, b: int, n: int) -> bool {
    &&& forall|q: int| 0 <= q < starts.len() ==> (#[trigger] starts[q]) + b <= n
    &&& forall|p: int| 0 <= p < s.len() ==> (p / b < starts.len() && (#[trigger] s[p]) == starts[p / b] + p % b)
}

/// The number of blocks of length `b` that cover `n` items.
pub open spec fn n_blocks_for(n: int, b: int) -> int {
    if n == 0 { 0 } else { (n - 1) / b + 1 }
}

/// Appends the block of `b` consecutive indices that starts at `start`, cut
/// so that `sample` holds at most `n` items.
pub fn push_block(sample: &mut Vec<usize>, start: usize, b: usize, n: usize)
    requires
        start + b <= n,
        old(sample)@.len() <= n,
    ensures
        final(sample)@ == old(sample)@ + seq_range(
            start as int,
            start + if b <= n - old(sample)@.len() { b as int } else { n - old(sample)@.len() },
        ),
{
    let room = n - sample.len();
    let m = if b <= room { b } else { room };
    push_range(sample, start, start + m);
}

impl BlockBootstrap {
    /// The number of resamples drawn.
    pub closed spec fn n_iterations(&self) -> nat {
        self.n_iterations as nat
    }

    /// The length of each block.
    pub closed spec fn block_length(&self) -> nat {
        self.block_length as nat
    }

    /// Creates a block bootstrap sampler.
    pub fn new(n_iterations: usize, block_length: usize) -> (r: Self)
        ensures
            r.n_iterations() == n_iterations,
            r.block_length() == block_length,
    {
        Self { n_iterations, block_length }
    }

    /// Draws `n_iterations` resamples of `n_samples` indices, each made of
    /// `ceil(n_samples / block_length)` blocks of consecutive indices starting
    /// at random positions in `0..=n_samples - block_length`, the last block
    /// cut at `n_samples` items.
    pub fn generate_indices(&self, n_samples: usize) -> (samples: Vec<Vec<usize>>)
        requires
            self.n_iterations() > 0 && n_samples > 0 ==> 1 <= self.block_length() <= n_samples,
        ensures
            samples.len() == self.n_iterations(),
            forall|t: int| 0 <= t < samples.len() ==> {
                &&& (#[trigger] samples@[t])@.len() == n_samples
                &&& all_below(samples@[t]@, n_samples as int)
                &&& exists|starts: Seq<usize>| starts.len() == n_blocks_for(n_samples as int, self.block_length() as int)
                        && #[trigger] block_sample(samples@[t]@, starts, self.block_length() as int, n_samples as int)
            },
    {
        let b = self.block_length;
        let mut samples: Vec<Vec<usize>> = Vec::new();
        if self.n_iterations == 0 {
            return samples;
        }
        if n_samples == 0 {
            let mut it: usize = 0;
            while it < self.n_iterations
                invariant
                    n_samples == 0,
                    it <= self.n_iterations,
                    samples.len() == it,
                    forall|t: int| 0 <= t < samples.len() ==> (#[trigger] samples@[t])@.len() == 0,
                decreases self.n_iterations - it,
            {
                samples.push(Vec::new());
                it = it + 1;
            }
            proof {
                assert(b == self.block_length());
                assert(n_blocks_for(n_samples as int, b as int) == 0);
                assert forall|t: int| #![trigger samples@[t]] 0 <= t < samples.len() implies
                    exists|starts: Seq<usize>| starts.len() == n_blocks_for(n_samples as int, b as int)
                        && #[trigger] block_sample(samples@[t]@, starts, b as int, n_samples as int) by {
                    assert(block_sample(samples@[t]@, Seq::empty(), b as int, n_samples as int));
                }
            }
            return samples;
        }
        let n_blocks = (n_samples - 1) / b + 1;
        proof {
            assert(n_blocks * b >= n_samples) by (nonlinear_arith)
                requires n_blocks as int == (n_samples as int - 1) / (b as int) + 1, b >= 1, n_samples >= 1;
        }
        let mut it: usize = 0;
        while it < self.n_iterations
            invariant
                b == self.block_length(),
                1 <= b <= n_samples,
                n_blocks == n_blocks_for(n_samples as int, b as int),
                n_blocks * b >= n_samples,
                it <= self.n_iterations,
                samples.len() == it,
                forall|t: int| 0 <= t < samples.len() ==> {
                    &&& (#[trigger] samples@[t])@.len() == n_samples
                    &&& all_below(samples@[t]@, n_samples as int)
                    &&& exists|starts: Seq<usize>| starts.len() == n_blocks
                            && #[trigger] block_sample(samples@[t]@, starts, b as int, n_samples as int)
                },
            decreases self.n_iterations - it,
        {
            let mut sample: Vec<usize> = Vec::new();
            let ghost mut starts: Seq<usize> = Seq::empty();
            let mut blk: usize = 0;
            while blk < n_blocks
                invariant
                    1 <= b <= n_samples,
                    n_blocks == (n_samples - 1) / (b as int) + 1,
                    n_blocks * b >= n_samples,
                    blk <= n_blocks,
                    starts.len() == blk,
                    sample@.len() == if blk * b < n_samples { blk * b } else { n_samples as int },
                    block_sample(sample@, starts, b as int, n_samples as int),
                decreases n_blocks - blk,
            {
                let start = random_below(n_samples - b + 1);
                let ghost before = sample@;
                proof {
                    assert(blk * b <= n_samples - 1) by (nonlinear_arith)
                        requires blk < n_blocks, n_blocks == (n_samples - 1) / (b as int) + 1, b >= 1, n_samples >= 1;
                    assert(before.len() == blk * b);
                }
                push_block(&mut sample, start, b, n_samples);
                proof {
                    let ns = starts.push(start);
                    assert forall|p: int| 0 <= p < sample@.len() implies (p / (b as int) < ns.len()
                        && #[trigger] sample@[p] == ns[p / (b as int)] + p % (b as int)) by {
                        if p < before.len() {
                            assert(sample@[p] == before[p]);
                            assert(ns[p / (b as int)] == starts[p / (b as int)]);
                        } else {
                            let o = p - blk * b;
                            assert(0 <= o < b);
                            assert(sample@[p] == start + o);
                            vstd::arithmetic::div_mod::lemma_fundamental_div_mod_converse(p, b as int, blk as int, o);
                            assert(p / (b as int) == blk);
                            assert(ns[blk as int] == start);
                        }
                    }
                    assert forall|q: int| 0 <= q < ns.len() implies (#[trigger] ns[q]) + b <= n_samples by {
                        if q < starts.len() {
                            assert(ns[q] == starts[q]);
                        }
                    }
                    assert(sample@.len() <= (b as int) * ns.len()) by (nonlinear_arith)
                        requires sample@.len() <= blk * b + b, ns.len() == blk + 1;
                    assert(block_sample(sample@, ns, b as int, n_samples as int)) by {
                        broadcast use vstd::arithmetic::div_mod::lemma_multiply_divide_lt;
                    }
                    starts = ns;
                    assert(blk * b + b == (blk + 1) * b) by (nonlinear_arith);
                }
                blk = blk + 1;
            }
            proof {
                assert(sample@.len() == n_samples);
                assert forall|p: int| 0 <= p < sample@.len() implies #[trigger] sample@[p] < n_samples by {
                    let q = p / (b as int);
                    assert(sample@[p] == starts[q] + p % (b as int));
                    assert(starts[q] + b <= n_samples);
                    vstd::arithmetic::div_mod::lemma_mod_bound(p, b as int);
                }
                assert(block_sample(sample@, starts, b as int, n_samples as int));
            }
            samples.push(sample);
            it = it + 1;
        }
        samples
    }
}

/// Jackknife resampling: leave-one-out.
pub struct Jackknife {}

impl Jackknife {
    /// Creates a jackknife resampler.
    pub fn new() -> Self {
        Self {}
    }

    /// The leave-one-out resamples: resample `i` holds every index of
    /// `0..n_samples` but `i`, in increasing order.
    pub fn generate_indices(&self, n_samples: usize) -> (samples: Vec<Vec<usize>>)
        ensures
            samples.len() == n_samples,
            forall|i: int| 0 <= i < n_samples ==>
                (#[trigger] samples@[i])@ == seq_range(0, i) + seq_range(i + 1, n_samples as int),
    {
        let mut samples: Vec<Vec<usize>> = Vec::new();
        let mut i: usize = 0;
        while i < n_samples
            invariant
                i <= n_samples,
                samples.len() == i,
                forall|j: int| 0 <= j < i ==>
                    (#[trigger] samples@[j])@ == seq_range(0, j) + seq_range(j + 1, n_samples as int),
            decreases n_samples - i,
        {
            let mut sample = index_range(0, i);
            push_range(&mut sample, i + 1, n_samples);
            samples.push(sample);
            i = i + 1;
        }
        samples
    }

    /// The index left out of each jackknife resample: `0, 1, ..., n_samples - 1`.
    pub fn get_test_indices(&self, n_samples: usize) -> (r: Vec<usize>)
        ensures
            r@ == seq_range(0, n_samples as int),
    {
        index_range(0, n_samples)
    }
}

impl Default for Jackknife {
    fn default() -> Self {
        Self::new()
    }
}

/// Balanced bootstrap: each index of the data appears exactly once in every
/// resample.
pub struct BalancedBootstrap {
    n_iterations: usize,
}

impl BalancedBootstrap {
    /// The number of resamples drawn.
    pub closed spec fn n_iterations(&self) -> nat {
        self.n_iterations as nat
    }

    /// Creates a balanced bootstrap sampler.
    pub fn new(n_iterations: usize) -> (r: Self)
        ensures
            r.n_iterations() == n_iterations,
    {
        Self { n_iterations }
    }

    /// Draws `n_iterations` resamples, each a random permutation of
    /// `0..n_samples`: every index appears exactly once per resample.
    pub fn generate_indices(&self, n_samples: usize) -> (samples: Vec<Vec<usize>>)
        ensures
            samples.len() == self.n_iterations(),
            forall|t: int| 0 <= t < samples.len() ==> {
                &&& (#[trigger] samples@[t])@.len() == n_samples
                &&& samples@[t]@.to_multiset() == seq_range(0, n_samples as int).to_multiset()
            },
    {
        let mut samples: Vec<Vec<usize>> = Vec::new();
        let mut it: usize = 0;
        while it < self.n_iterations
            invariant
                it <= self.n_iterations,
                samples.len() == it,
                forall|t: int| 0 <= t < samples.len() ==> {
                    &&& (#[trigger] samples@[t])@.len() == n_samples
                    &&& samples@[t]@.to_multiset() == seq_range(0, n_samples as int).to_multiset()
                },
            decreases self.n_iterations - it,
        {
            let mut sample = index_range(0, n_samples);
            shuffle(&mut sample);
            samples.push(sample);
            it = it + 1;
        }
        samples
    }
}

/// Permutation test for hypothesis testing.
pub struct PermutationTest {
    n_permutations: usize,
}

impl PermutationTest {
    /// The number of permutations drawn.
    pub closed spec fn spec_n_permutations(&self) -> nat {
        self.n_permutations as nat
    }

    /// Creates a permutation test drawing `n_permutations` permutations.
    pub fn new(n_permutations: usize) -> (r: Self)
        ensures
            r.spec_n_permutations() == n_permutations,
    {
        Self { n_permutations }
    }

    /// The number of permutations drawn.
    pub fn n_permutations(&self) -> (r: usize)
        ensures
            r == self.spec_n_permutations(),
    {
        self.n_permutations
    }
}

} // verus!
