//! Agglomerative clustering bookkeeping: the partition of the points into
//! clusters that successive merges coarsen.

use vstd::prelude::*;
use crate::error::RustyAIError;

verus! {

/// Hierarchical clustering linkage types.
#[derive(Debug, Clone, Copy)]
pub enum Linkage {
    /// Minimum distance between clusters
    Single,
    /// Maximum distance between clusters
    Complete,
    /// Average distance between clusters
    Average,
    /// Ward's minimum variance
    Ward,
}

/// `cs` partitions `0..n`: every point lies in exactly one cluster, once, no
/// cluster is empty and nothing else is held.
pub open spec fn is_partition(cs: Seq<Seq<usize>>, n: int) -> bool {
    &&& forall|c: int| 0 <= c < cs.len() ==> (#[trigger] cs[c]).len() > 0 && cs[c].no_duplicates()
    &&& forall|c: int, k: int| 0 <= c < cs.len() && 0 <= k < cs[c].len() ==> #[trigger] cs[c][k] < n
    &&& forall|p: usize| p < n ==> #[trigger] in_some_cluster(cs, p)
    &&& forall|c1: int, c2: int, p: usize|
            0 <= c1 < cs.len() && 0 <= c2 < cs.len() && #[trigger] cs[c1].contains(p) && #[trigger] cs[c2].contains(p) ==> c1 == c2
}

/// Some cluster of `cs` holds `p`.
pub open spec fn in_some_cluster(cs: Seq<Seq<usize>>, p: usize) -> bool {
    exists|c: int| 0 <= c < cs.len() && #[trigger] cs[c].contains(p)
}

/// The clusters after merging cluster `j` into cluster `i`: cluster `i`
/// gains the points of cluster `j`, which is removed.
pub open spec fn merged(cs: Seq<Seq<usize>>, i: int, j: int) -> Seq<Seq<usize>> {
    cs.update(i, cs[i] + cs[j]).remove(j)
}

/// A partition of the points `0..n` into clusters.
pub struct ClusterPartition {
    n_points: usize,
    clusters: Vec<Vec<usize>>,
}

impl ClusterPartition {
    /// The clusters, each as the sequence of its points.
    pub closed spec fn view_clusters(&self) -> Seq<Seq<usize>> {
        self.clusters@.map_values(|c: Vec<usize>| c@)
    }

    /// The number of points.
    pub closed spec fn n_points(&self) -> nat {
        self.n_points as nat
    }

    /// Each point in its own cluster: cluster `i` is `[i]`.
    pub fn singletons(n: usize) -> (r: Self)
        ensures
            r.n_points() == n,
            r.view_clusters() == Seq::new(n as nat, |i: int| seq![i as usize]),
            is_partition(r.view_clusters(), n as int),
    {
        let mut clusters: Vec<Vec<usize>> = Vec::new();
        let mut i: usize = 0;
        while i < n
            invariant
                i <= n,
                clusters@.len() == i,
                forall|c: int| 0 <= c < i ==> (#[trigger] clusters@[c])@ == seq![c as usize],
            decreases n - i,
        {
            let mut one: Vec<usize> = Vec::new();
            one.push(i);
            clusters.push(one);
            i = i + 1;
        }
        let r = Self { n_points: n, clusters };
        proof {
            let cs = r.view_clusters();
            assert(cs =~= Seq::new(n as nat, |i: int| seq![i as usize]));
            assert forall|p: usize| p < n implies #[trigger] in_some_cluster(cs, p) by {
                assert(cs[p as int][0] == p);
                assert(cs[p as int].contains(p));
            }
            assert forall|c1: int, c2: int, p: usize|
                0 <= c1 < cs.len() && 0 <= c2 < cs.len() && #[trigger] cs[c1].contains(p) && #[trigger] cs[c2].contains(p)
                implies c1 == c2 by {
                let k1 = choose|k: int| 0 <= k < cs[c1].len() && cs[c1][k] == p;
                let k2 = choose|k: int| 0 <= k < cs[c2].len() && cs[c2][k] == p;
            }
        }
        r
    }

    /// The number of clusters.
    pub fn len(&self) -> (r: usize)
        ensures
            r == self.view_clusters().len(),
    {
        self.clusters.len()
    }

    /// The points of cluster `c`.
    pub fn members(&self, c: usize) -> (r: &Vec<usize>)
        requires
            c < self.view_clusters().len(),
        ensures
            r@ == self.view_clusters()[c as int],
    {
        &self.clusters[c]
    }

    /// Merges cluster `j` into cluster `i` (with `i < j`): cluster `i` gains
    /// the points of cluster `j`, which is removed, so later clusters move
    /// down by one. A partition stays a partition.
    pub fn merge(&mut self, i: usize, j: usize)
        requires
            i < j < old(self).view_clusters().len(),
        ensures
            final(self).n_points() == old(self).n_points(),
            final(self).view_clusters() == merged(old(self).view_clusters(), i as int, j as int),
            final(self).view_clusters().len() == old(self).view_clusters().len() - 1,
            final(self).view_clusters()[i as int] == old(self).view_clusters()[i as int] + old(self).view_clusters()[j as int],
            forall|c: int| 0 <= c < j && c != i ==> #[trigger] final(self).view_clusters()[c] == old(self).view_clusters()[c],
            forall|c: int| j <= c < final(self).view_clusters().len() ==>
                #[trigger] final(self).view_clusters()[c] == old(self).view_clusters()[c + 1],
            is_partition(old(self).view_clusters(), old(self).n_points() as int) ==>
                is_partition(final(self).view_clusters(), final(self).n_points() as int),
    {
        let ghost cs0 = self.view_clusters();
        let cj = self.clusters.remove(j);
        let mut ci: Vec<usize> = Vec::new();
        std::mem::swap(&mut ci, &mut self.clusters[i]);
        let mut k: usize = 0;
        let ghost ci0 = ci@;
        while k < cj.len()
            invariant
                k <= cj@.len(),
                ci@ == ci0 + cj@.subrange(0, k as int),
            decreases cj@.len() - k,
        {
            ci.push(cj[k]);
            k = k + 1;
            assert(ci@ =~= ci0 + cj@.subrange(0, k as int));
        }
        self.clusters.set(i, ci);
        proof {
            assert(cj@.subrange(0, cj@.len() as int) =~= cj@);
            let cs = self.view_clusters();
            assert(cs =~= merged(cs0, i as int, j as int));
            lemma_merged_shape(cs0, i as int, j as int);
            if is_partition(cs0, self.n_points as int) {
                lemma_merge_keeps_partition(cs0, self.n_points as int, i as int, j as int);
            }
        }
    }

    /// The label of each point: the index of the cluster that holds it.
    pub fn labels(&self) -> (labels: Vec<usize>)
        requires
            is_partition(self.view_clusters(), self.n_points() as int),
        ensures
            labels@.len() == self.n_points(),
            forall|p: int| 0 <= p < labels@.len() ==> (#[trigger] labels@[p]) < self.view_clusters().len()
                && self.view_clusters()[labels@[p] as int].contains(p as usize),
    {
        let n = self.n_points;
        let ghost cs = self.view_clusters();
        let mut labels: Vec<usize> = Vec::new();
        let mut p: usize = 0;
        while p < n
            invariant
                p <= n,
                labels@.len() == p,
            decreases n - p,
        {
            labels.push(0);
            p = p + 1;
        }
        let mut c: usize = 0;
        while c < self.clusters.len()
            invariant
                cs == self.view_clusters(),
                is_partition(cs, n as int),
                c <= cs.len(),
                labels@.len() == n,
                forall|q: int| 0 <= q < n && (exists|d: int| 0 <= d < c && #[trigger] cs[d].contains(q as usize)) ==>
                    (#[trigger] labels@[q]) < c && cs[labels@[q] as int].contains(q as usize),
            decreases cs.len() - c,
        {
            let members = &self.clusters[c];
            let mut k: usize = 0;
            while k < members.len()
                invariant
                    cs == self.view_clusters(),
                    is_partition(cs, n as int),
                    c < cs.len(),
                    members@ == cs[c as int],
                    k <= members@.len(),
                    labels@.len() == n,
                    forall|q: int| 0 <= q < n && (exists|d: int| 0 <= d < c && #[trigger] cs[d].contains(q as usize)) ==>
                        (#[trigger] labels@[q]) < c && cs[labels@[q] as int].contains(q as usize),
                    forall|t: int| 0 <= t < k ==> #[trigger] labels@[members@[t] as int] == c,
                decreases members@.len() - k,
            {
                let q = members[k];
                proof {
                    assert(cs[c as int][k as int] == q);
                }
                let ghost l0 = labels@;
                labels.set(q, c);
                proof {
                    assert forall|r: int| 0 <= r < n && (exists|d: int| 0 <= d < c && #[trigger] cs[d].contains(r as usize)) implies
                        (#[trigger] labels@[r]) < c && cs[labels@[r] as int].contains(r as usize) by {
                        let d = choose|d: int| 0 <= d < c && #[trigger] cs[d].contains(r as usize);
                        if r == q as int {
                            assert(cs[c as int].contains(q));
                            assert(d == c as int);
                        }
                    }
                    assert forall|t: int| 0 <= t < k + 1 implies #[trigger] labels@[members@[t] as int] == c by {
                        if t < k {
                            assert(labels@[members@[t] as int] == l0[members@[t] as int]);
                        }
                    }
                }
                k = k + 1;
            }
            proof {
                assert forall|q: int| 0 <= q < n && (exists|d: int| 0 <= d < c + 1 && #[trigger] cs[d].contains(q as usize)) implies
                    (#[trigger] labels@[q]) < c + 1 && cs[labels@[q] as int].contains(q as usize) by {
                    let d = choose|d: int| 0 <= d < c + 1 && #[trigger] cs[d].contains(q as usize);
                    if d == c as int {
                        let t = choose|t: int| 0 <= t < members@.len() && members@[t] == q as usize;
                        assert(labels@[members@[t] as int] == c);
                    }
                }
            }
            c = c + 1;
        }
        proof {
            assert forall|p: int| 0 <= p < labels@.len() implies (#[trigger] labels@[p]) < cs.len()
                && cs[labels@[p] as int].contains(p as usize) by {
                assert(in_some_cluster(cs, p as usize));
            }
        }
        labels
    }
}

/// Merging cluster `j` into cluster `i` (with `i < j`): there is one cluster
/// fewer; cluster `i` holds the points of cluster `i` followed by those of
/// cluster `j`; the other clusters before `j` keep their place, and those
/// after `j` move down by one.
pub proof fn lemma_merged_shape(cs: Seq<Seq<usize>>, i: int, j: int)
    requires
        0 <= i < j < cs.len(),
    ensures
        merged(cs, i, j).len() == cs.len() - 1,
        merged(cs, i, j)[i] == cs[i] + cs[j],
        forall|c: int| 0 <= c < j && c != i ==> #[trigger] merged(cs, i, j)[c] == cs[c],
        forall|c: int| j <= c < cs.len() - 1 ==> #[trigger] merged(cs, i, j)[c] == cs[c + 1],
{
}

/// Merging two clusters of a partition gives a partition of the same points.
pub proof fn lemma_merge_keeps_partition(cs: Seq<Seq<usize>>, n: int, i: int, j: int)
    requires
        is_partition(cs, n),
        0 <= i < j < cs.len(),
    ensures
        is_partition(merged(cs, i, j), n),
        merged(cs, i, j).len() == cs.len() - 1,
{
    let ms = merged(cs, i, j);
    let u = cs[i] + cs[j];
    // position of a cluster of ms in cs
    assert forall|c: int| 0 <= c < ms.len() implies #[trigger] ms[c] == (if c == i { u } else if c < j { cs[c] } else { cs[c + 1] }) by {}
    assert forall|p: usize| #[trigger] u.contains(p) <==> cs[i].contains(p) || cs[j].contains(p) by {
        if u.contains(p) {
            let k = choose|k: int| 0 <= k < u.len() && u[k] == p;
            if k < cs[i].len() {
                assert(cs[i][k] == p);
            } else {
                assert(cs[j][k - cs[i].len()] == p);
            }
        }
        if cs[i].contains(p) {
            let k = choose|k: int| 0 <= k < cs[i].len() && cs[i][k] == p;
            assert(u[k] == p);
        }
        if cs[j].contains(p) {
            let k = choose|k: int| 0 <= k < cs[j].len() && cs[j][k] == p;
            assert(u[cs[i].len() + k] == p);
        }
    }
    assert(u.no_duplicates()) by {
        assert forall|a: int, b: int| 0 <= a < u.len() && 0 <= b < u.len() && a != b implies u[a] != u[b] by {
            let li = cs[i].len();
            if a < li && b < li {
            } else if a >= li && b >= li {
            } else if a < li {
                assert(cs[i].contains(u[a]));
                assert(cs[j].contains(u[b])) by { assert(cs[j][b - li] == u[b]); }
                if u[a] == u[b] {
                    assert(cs[j].contains(u[a]));
                }
            } else {
                assert(cs[i].contains(u[b]));
                assert(cs[j].contains(u[a])) by { assert(cs[j][a - li] == u[a]); }
                if u[a] == u[b] {
                    assert(cs[j].contains(u[b]));
                }
            }
        }
    }
    assert forall|c: int, k: int| 0 <= c < ms.len() && 0 <= k < ms[c].len() implies #[trigger] ms[c][k] < n by {
        if c == i {
            if k < cs[i].len() {
                assert(u[k] == cs[i][k]);
            } else {
                assert(u[k] == cs[j][k - cs[i].len()]);
            }
        } else if c < j {
            assert(ms[c][k] == cs[c][k]);
        } else {
            assert(ms[c][k] == cs[c + 1][k]);
        }
    }
    assert forall|p: usize| p < n implies #[trigger] in_some_cluster(ms, p) by {
        assert(in_some_cluster(cs, p));
        let d = choose|d: int| 0 <= d < cs.len() && #[trigger] cs[d].contains(p);
        if d == i || d == j {
            assert(u.contains(p));
            assert(ms[i].contains(p));
        } else if d < j {
            assert(ms[d].contains(p));
        } else {
            assert(ms[d - 1] == cs[d]);
            assert(ms[d - 1].contains(p));
        }
    }
    assert forall|c1: int, c2: int, p: usize|
        0 <= c1 < ms.len() && 0 <= c2 < ms.len() && #[trigger] ms[c1].contains(p) && #[trigger] ms[c2].contains(p)
        implies c1 == c2 by {
        let o1 = if c1 == i { i } else if c1 < j { c1 } else { c1 + 1 };
        let o2 = if c2 == i { i } else if c2 < j { c2 } else { c2 + 1 };
        let s1 = if c1 == i && cs[j].contains(p) { j } else { o1 };
        let s2 = if c2 == i && cs[j].contains(p) { j } else { o2 };
        assert(cs[s1].contains(p));
        assert(cs[s2].contains(p));
        assert(s1 == s2);
    }
}

/// The checks that agglomerative clustering of `n_samples` points into
/// `n_clusters` clusters makes before merging: empty data is refused with
/// `EmptyData`, more clusters than points with `InvalidParameter` on
/// `n_clusters`.
pub fn check_hierarchical(n_samples: usize, n_clusters: usize) -> (r: Result<(), RustyAIError>)
    ensures
        n_samples == 0 ==> r matches Err(RustyAIError::EmptyData),
        n_samples > 0 && n_clusters > n_samples ==> (r matches Err(RustyAIError::InvalidParameter { name, reason })
            && name@ == "n_clusters"@ && reason@ == "Cannot have more clusters than samples"@),
        0 < n_samples && n_clusters <= n_samples ==> r is Ok,
{
    if n_samples == 0 {
        return Err(RustyAIError::EmptyData);
    }
    if n_clusters > n_samples {
        return Err(RustyAIError::InvalidParameter {
            name: String::from_str("n_clusters"),
            reason: String::from_str("Cannot have more clusters than samples"),
        });
    }
    Ok(())
}

} // verus!
