//! DBSCAN labelling from a neighbourhood relation.

use vstd::prelude::*;
use crate::error::RustyAIError;
use crate::indices::{strictly_increasing, all_below, lemma_distinct_below_len, lemma_increasing_no_duplicates};

verus! {

/// DBSCAN clustering result.
#[derive(Debug, Clone)]
pub struct DBSCANResult {
    /// Cluster labels (-1 for noise points)
    pub labels: Vec<isize>,
    /// Number of clusters found
    pub n_clusters: usize,
    /// Core point indices
    pub core_points: Vec<usize>,
}

/// Some core point carries label `c`.
pub open spec fn label_of_core(nb: Seq<Vec<usize>>, min_samples: usize, labels: Seq<isize>, c: int) -> bool {
    exists|i: int| 0 <= i < labels.len() && is_core(nb, min_samples, i) && #[trigger] labels[i] == c
}

/// Every neighbour index is a point.
pub open spec fn neighbors_in_range(nb: Seq<Vec<usize>>) -> bool {
    forall|i: int, j: int| 0 <= i < nb.len() && 0 <= j < nb[i]@.len() ==> #[trigger] nb[i]@[j] < nb.len()
}

/// Point `i` is a core point: it has at least `min_samples` neighbours.
pub open spec fn is_core(nb: Seq<Vec<usize>>, min_samples: usize, i: int) -> bool {
    nb[i]@.len() >= min_samples
}

/// Point `i` is reachable: it is a core point or the neighbour of one.
pub open spec fn is_reachable(nb: Seq<Vec<usize>>, min_samples: usize, i: int) -> bool {
    is_core(nb, min_samples, i)
    || exists|q: int| 0 <= q < nb.len() && is_core(nb, min_samples, q) && #[trigger] nb[q]@.contains(i as usize)
}

/// The labelling that DBSCAN gives: exactly the reachable points are
/// clustered; the neighbours of a core point carry labels no greater than its
/// own (so neighbouring core points of a symmetric relation share their
/// label); a clustered point that is not a core point carries the label of a
/// core point it neighbours; and each label in use is carried by a core point.
pub open spec fn dbscan_labelling(nb: Seq<Vec<usize>>, min_samples: usize, labels: Seq<isize>, n_clusters: int) -> bool {
    &&& labels.len() == nb.len()
    &&& forall|i: int| 0 <= i < labels.len() ==> -1 <= #[trigger] labels[i] < n_clusters
    &&& forall|i: int| 0 <= i < labels.len() ==> (#[trigger] labels[i] >= 0 <==> is_reachable(nb, min_samples, i))
    &&& forall|q: int, j: int| 0 <= q < nb.len() && is_core(nb, min_samples, q) && 0 <= j < nb[q]@.len() ==>
            0 <= #[trigger] labels[nb[q]@[j] as int] <= labels[q]
    &&& forall|i: int| 0 <= i < labels.len() && #[trigger] labels[i] >= 0 && !is_core(nb, min_samples, i) ==>
            exists|q: int| 0 <= q < nb.len() && is_core(nb, min_samples, q)
                && #[trigger] nb[q]@.contains(i as usize) && labels[q] == labels[i]
    &&& (exists|i: int| 0 <= i < labels.len() && #[trigger] labels[i] >= 0) ==>
            forall|c: int| 0 <= c < n_clusters ==> #[trigger] label_of_core(nb, min_samples, labels, c)
    &&& (forall|i: int| 0 <= i < labels.len() ==> #[trigger] labels[i] < 0) ==> n_clusters == 0
    &&& (exists|i: int| 0 <= i < labels.len() && #[trigger] labels[i] >= 0) ==>
            exists|i: int| 0 <= i < labels.len() && #[trigger] labels[i] == n_clusters - 1
}

/// `path` leads from its first point to its last: every point but the last
/// is a core point, and the next point is one of its neighbours.
pub open spec fn is_chain(nb: Seq<Vec<usize>>, min_samples: usize, path: Seq<int>) -> bool {
    &&& path.len() > 0
    &&& forall|k: int| 0 <= k < path.len() ==> 0 <= #[trigger] path[k] < nb.len()
    &&& forall|k: int| 0 <= k < path.len() - 1 ==>
            is_core(nb, min_samples, #[trigger] path[k]) && nb[path[k]]@.contains(path[k + 1] as usize)
}

/// Point `t` is density-reachable from point `s`: some chain leads from `s` to `t`.
pub open spec fn reaches(nb: Seq<Vec<usize>>, min_samples: usize, s: int, t: int) -> bool {
    exists|path: Seq<int>| #[trigger] is_chain(nb, min_samples, path) && path[0] == s && path.last() == t
}

/// Core point `s` is the seed of cluster `c`: it carries label `c`, every
/// core point before it carries a smaller label, and every point of the
/// cluster is density-reachable from it.
pub open spec fn cluster_seed(nb: Seq<Vec<usize>>, min_samples: usize, labels: Seq<isize>, c: int, s: int) -> bool {
    &&& 0 <= s < labels.len()
    &&& is_core(nb, min_samples, s)
    &&& labels[s] == c
    &&& forall|q: int| 0 <= q < s && is_core(nb, min_samples, q) ==> 0 <= #[trigger] labels[q] < c
    &&& forall|t: int| 0 <= t < labels.len() && #[trigger] labels[t] == c ==> reaches(nb, min_samples, s, t)
}

/// Cluster `c` has a seed.
pub open spec fn has_seed(nb: Seq<Vec<usize>>, min_samples: usize, labels: Seq<isize>, c: int) -> bool {
    exists|s: int| #[trigger] cluster_seed(nb, min_samples, labels, c, s)
}

/// Every cluster grows from a seed, and the clusters are numbered in the
/// order of their seeds.
pub open spec fn clusters_grown(nb: Seq<Vec<usize>>, min_samples: usize, labels: Seq<isize>, n_clusters: int) -> bool {
    (exists|i: int| 0 <= i < labels.len() && #[trigger] labels[i] >= 0) ==>
        forall|c: int| 0 <= c < n_clusters ==> #[trigger] has_seed(nb, min_samples, labels, c)
}

/// The seeds found so far: seed `c` is a core point labelled `c`, and every
/// core point before it is labelled below `c`.
#[verifier::opaque]
spec fn seeds_ok(nb: Seq<Vec<usize>>, min_samples: usize, labels: Seq<isize>, seeds: Seq<int>) -> bool {
    forall|c: int| 0 <= c < seeds.len() ==> {
        &&& 0 <= #[trigger] seeds[c] < labels.len()
        &&& is_core(nb, min_samples, seeds[c])
        &&& labels[seeds[c]] == c
        &&& forall|q: int| 0 <= q < seeds[c] && is_core(nb, min_samples, q) ==> 0 <= #[trigger] labels[q] < c
    }
}

/// Each labelled point has a recorded chain from the seed of its cluster.
#[verifier::opaque]
spec fn chains_ok(nb: Seq<Vec<usize>>, min_samples: usize, labels: Seq<isize>, seeds: Seq<int>, paths: Map<int, Seq<int>>) -> bool {
    forall|q: int| 0 <= q < labels.len() && #[trigger] labels[q] >= 0 ==> {
        &&& labels[q] < seeds.len()
        &&& paths.dom().contains(q)
        &&& is_chain(nb, min_samples, paths[q])
        &&& paths[q][0] == seeds[labels[q] as int]
        &&& paths[q].last() == q
    }
}

/// Every queued point is a labelled point.
spec fn queue_labeled(queue: Seq<usize>, labels: Seq<isize>) -> bool {
    forall|k: int| 0 <= k < queue.len() ==> (#[trigger] queue[k]) < labels.len() && labels[queue[k] as int] >= 0
}

/// Every labelled point is queued.
spec fn labeled_queued(queue: Seq<usize>, labels: Seq<isize>) -> bool {
    forall|i: int| 0 <= i < labels.len() && #[trigger] labels[i] >= 0 ==> queue.contains(i as usize)
}

/// The core points among the first `upto` queued ones have had all their
/// neighbours labelled, with labels no greater than their own.
spec fn expanded(queue: Seq<usize>, labels: Seq<isize>, nb: Seq<Vec<usize>>, min_samples: usize, upto: int) -> bool {
    forall|k: int, j: int| 0 <= k < upto && is_core(nb, min_samples, queue[k] as int) && 0 <= j < nb[queue[k] as int]@.len() ==>
        0 <= #[trigger] labels[nb[#[trigger] queue[k] as int]@[j] as int] <= labels[queue[k] as int]
}

/// Every labelled point that is not a core point was labelled from one of the
/// first `upto` queued points, a core point with the same label.
spec fn explained(queue: Seq<usize>, labels: Seq<isize>, nb: Seq<Vec<usize>>, min_samples: usize, upto: int) -> bool {
    forall|i: int| 0 <= i < labels.len() && #[trigger] labels[i] >= 0 && !is_core(nb, min_samples, i) ==>
        exists|k: int| 0 <= k < upto && is_core(nb, min_samples, queue[k] as int)
            && #[trigger] nb[queue[k] as int]@.contains(i as usize) && labels[queue[k] as int] == labels[i]
}

/// Each cluster id below `cid` is carried by a core point.
spec fn seeded(labels: Seq<isize>, nb: Seq<Vec<usize>>, min_samples: usize, cid: int) -> bool {
    forall|c: int| 0 <= c < cid ==> #[trigger] label_of_core(nb, min_samples, labels, c)
}

/// Labels once set never change.
spec fn keeps_labels(old_labels: Seq<isize>, labels: Seq<isize>) -> bool {
    &&& old_labels.len() == labels.len()
    &&& forall|i: int| 0 <= i < labels.len() && old_labels[i] >= 0 ==> #[trigger] labels[i] == old_labels[i]
}

/// The core points, in increasing order.
fn find_core_points(neighbors: &Vec<Vec<usize>>, min_samples: usize) -> (core: Vec<usize>)
    ensures
        strictly_increasing(core@),
        forall|k: int| 0 <= k < core@.len() ==> (#[trigger] core@[k]) < neighbors@.len()
            && is_core(neighbors@, min_samples, core@[k] as int),
        forall|i: int| 0 <= i < neighbors@.len() && is_core(neighbors@, min_samples, i) ==> core@.contains(i as usize),
{
    let n = neighbors.len();
    let mut core: Vec<usize> = Vec::new();
    let mut i: usize = 0;
    while i < n
        invariant
            n == neighbors@.len(),
            i <= n,
            strictly_increasing(core@),
            forall|k: int| 0 <= k < core@.len() ==> (#[trigger] core@[k]) < i
                && is_core(neighbors@, min_samples, core@[k] as int),
            forall|q: int| 0 <= q < i && is_core(neighbors@, min_samples, q) ==> core@.contains(q as usize),
        decreases n - i,
    {
        if neighbors[i].len() >= min_samples {
            let ghost before = core@;
            core.push(i);
            proof {
                assert forall|q: int| 0 <= q < i + 1 && is_core(neighbors@, min_samples, q) implies core@.contains(q as usize) by {
                    if q == i {
                        assert(core@[core@.len() - 1] == i);
                    } else {
                        let p = choose|p: int| 0 <= p < before.len() && before[p] == q as usize;
                        assert(core@[p] == q as usize);
                    }
                }
            }
        }
        i = i + 1;
    }
    core
}

/// DBSCAN labelling of `neighbors.len()` points from their neighbour lists
/// (`neighbors[i]` lists the points within `eps` of point `i`): core points
/// are those with at least `min_samples` neighbours; clusters grow from the
/// core points in increasing order, each taking the next label and spreading
/// through the neighbours of its core points; the points it never reaches
/// keep the noise label -1. `n_clusters` is the number of clusters found: the
/// largest label plus one, or 0 when every point is noise. Empty input is refused with `EmptyData`.
pub fn dbscan_from_neighbors(neighbors: &Vec<Vec<usize>>, min_samples: usize) -> (res: Result<DBSCANResult, RustyAIError>)
    requires
        neighbors_in_range(neighbors@),
        neighbors@.len() <= isize::MAX,
    ensures
        neighbors@.len() == 0 <==> res is Err,
        res matches Err(e) ==> e is EmptyData,
        res matches Ok(r) ==> {
            &&& dbscan_labelling(neighbors@, min_samples, r.labels@, r.n_clusters as int)
            &&& clusters_grown(neighbors@, min_samples, r.labels@, r.n_clusters as int)
            &&& strictly_increasing(r.core_points@)
            &&& forall|k: int| 0 <= k < r.core_points@.len() ==> (#[trigger] r.core_points@[k]) < neighbors@.len()
                    && is_core(neighbors@, min_samples, r.core_points@[k] as int)
            &&& forall|i: int| 0 <= i < neighbors@.len() && is_core(neighbors@, min_samples, i) ==> r.core_points@.contains(i as usize)
        },
{
    let n = neighbors.len();
    if n == 0 {
        return Err(RustyAIError::EmptyData);
    }
    let ghost nb = neighbors@;
    let core_points = find_core_points(neighbors, min_samples);
    let mut labels: Vec<isize> = Vec::new();
    let mut i: usize = 0;
    while i < n
        invariant
            i <= n,
            labels@.len() == i,
            forall|q: int| 0 <= q < i ==> #[trigger] labels@[q] == -1,
        decreases n - i,
    {
        labels.push(-1);
        i = i + 1;
    }
    proof {
        lemma_increasing_no_duplicates(core_points@);
        lemma_distinct_below_len(core_points@, n as int);
    }
    let mut queue: Vec<usize> = Vec::new();
    let mut head: usize = 0;
    let mut cid: isize = 0;
    let mut ci: usize = 0;
    let ghost mut seeds: Seq<int> = Seq::empty();
    let ghost mut paths: Map<int, Seq<int>> = Map::empty();
    proof {
        reveal(seeds_ok);
        reveal(chains_ok);
    }
    while ci < core_points.len()
        invariant
            seeds.len() == cid,
            seeds_ok(nb, min_samples, labels@, seeds),
            chains_ok(nb, min_samples, labels@, seeds, paths),
            forall|i: int| 0 <= i < n && is_core(nb, min_samples, i) ==> core_points@.contains(i as usize),
            n == nb.len(),
            nb == neighbors@,
            n <= isize::MAX,
            neighbors_in_range(nb),
            strictly_increasing(core_points@),
            forall|k: int| 0 <= k < core_points@.len() ==> (#[trigger] core_points@[k]) < n
                && is_core(nb, min_samples, core_points@[k] as int),
            ci <= core_points@.len(),
            0 <= cid <= ci,
            core_points@.len() <= n,
            labels@.len() == n,
            head == queue@.len(),
            queue@.no_duplicates(),
            forall|q: int| 0 <= q < n ==> -1 <= #[trigger] labels@[q] < cid,
            queue_labeled(queue@, labels@),
            labeled_queued(queue@, labels@),
            expanded(queue@, labels@, nb, min_samples, head as int),
            explained(queue@, labels@, nb, min_samples, head as int),
            seeded(labels@, nb, min_samples, cid as int),
            forall|k: int| 0 <= k < ci ==> #[trigger] labels@[core_points@[k] as int] >= 0,
        decreases core_points@.len() - ci,
    {
        let cp = core_points[ci];
        if labels[cp] == -1 {
            let ghost labels0 = labels@;
            let ghost queue0 = queue@;
            labels.set(cp, cid);
            queue.push(cp);
            proof {
                assert forall|q: int| 0 <= q < cp && is_core(nb, min_samples, q) implies labels0[q] >= 0 by {
                    assert(core_points@.contains(q as usize));
                    let k = choose|k: int| 0 <= k < core_points@.len() && core_points@[k] == q as usize;
                    if k >= ci {
                        assert(core_points@[ci as int] <= core_points@[k]);
                    }
                }
                lemma_seed_step(nb, min_samples, labels0, labels@, seeds, paths, cp as int, cid);
                seeds = seeds.push(cp as int);
                paths = paths.insert(cp as int, seq![cp as int]);
                assert(keeps_labels(labels0, labels@));
                lemma_keep_facts(queue0, queue@, labels0, labels@, nb, min_samples, head as int, head as int, cid as int);
                assert(!queue0.contains(cp)) by {
                    if queue0.contains(cp) {
                        let p = choose|p: int| 0 <= p < queue0.len() && queue0[p] == cp;
                    }
                }
                assert(queue@.no_duplicates()) by {
                    assert forall|a: int, b: int| 0 <= a < queue@.len() && 0 <= b < queue@.len() && a != b implies queue@[a] != queue@[b] by {
                        if a < queue0.len() && b < queue0.len() {
                            assert(queue@[a] == queue0[a] && queue@[b] == queue0[b]);
                        } else if a < queue0.len() {
                            assert(queue0[a] != cp);
                        } else if b < queue0.len() {
                            assert(queue0[b] != cp);
                        }
                    }
                }
                assert(labels@[cp as int] == cid);
                assert(queue@[head as int] == cp);
                assert(labeled_queued(queue@, labels@)) by {
                    assert forall|q: int| 0 <= q < n && #[trigger] labels@[q] >= 0 implies queue@.contains(q as usize) by {
                        if q == cp as int {
                            assert(queue@[head as int] == cp);
                        } else {
                            assert(labels0[q] >= 0);
                            let p = choose|p: int| 0 <= p < queue0.len() && queue0[p] == q as usize;
                            assert(queue@[p] == q as usize);
                        }
                    }
                }
            }
            while head < queue.len()
                invariant
                    seeds.len() == cid + 1,
                    seeds_ok(nb, min_samples, labels@, seeds),
                    chains_ok(nb, min_samples, labels@, seeds, paths),
                    n == nb.len(),
                    nb == neighbors@,
                    n <= isize::MAX,
                    neighbors_in_range(nb),
                    0 <= cid < n,
                    cp < n,
                    is_core(nb, min_samples, cp as int),
                    labels@[cp as int] == cid,
                    labels@.len() == n,
                    head <= queue@.len(),
                    queue@.no_duplicates(),
                    forall|q: int| 0 <= q < n ==> -1 <= #[trigger] labels@[q] <= cid,
                    forall|k: int| head <= k < queue@.len() ==> labels@[#[trigger] queue@[k] as int] == cid,
                    queue_labeled(queue@, labels@),
                    labeled_queued(queue@, labels@),
                    expanded(queue@, labels@, nb, min_samples, head as int),
                    explained(queue@, labels@, nb, min_samples, head as int),
                    seeded(labels@, nb, min_samples, cid as int),
                    forall|k: int| 0 <= k < ci ==> #[trigger] labels@[core_points@[k] as int] >= 0,
                    forall|k: int| 0 <= k < core_points@.len() ==> (#[trigger] core_points@[k]) < n,
                    ci < core_points@.len(),
                    core_points@[ci as int] == cp,
                decreases n - head,
            {
                proof {
                    assert(all_below(queue@, n as int));
                    lemma_distinct_below_len(queue@, n as int);
                }
                let point = queue[head];
                if neighbors[point].len() >= min_samples {
                    let nbrs = &neighbors[point];
                    let mut j: usize = 0;
                    while j < nbrs.len()
                        invariant
                            seeds.len() == cid + 1,
                            seeds_ok(nb, min_samples, labels@, seeds),
                            chains_ok(nb, min_samples, labels@, seeds, paths),
                            n == nb.len(),
                            nb == neighbors@,
                            neighbors_in_range(nb),
                            nbrs@ == nb[point as int]@,
                            point < n,
                            is_core(nb, min_samples, point as int),
                            head < queue@.len(),
                            queue@.no_duplicates(),
                            queue@[head as int] == point,
                            labels@[point as int] == cid,
                            0 <= cid < n,
                            cp < n,
                            is_core(nb, min_samples, cp as int),
                            labels@[cp as int] == cid,
                            labels@.len() == n,
                            j <= nbrs@.len(),
                            forall|q: int| 0 <= q < n ==> -1 <= #[trigger] labels@[q] <= cid,
                            forall|k: int| head <= k < queue@.len() ==> labels@[#[trigger] queue@[k] as int] == cid,
                            forall|t: int| 0 <= t < j ==> 0 <= #[trigger] labels@[nbrs@[t] as int] <= cid,
                            queue_labeled(queue@, labels@),
                            labeled_queued(queue@, labels@),
                            expanded(queue@, labels@, nb, min_samples, head as int),
                            explained(queue@, labels@, nb, min_samples, head + 1),
                            seeded(labels@, nb, min_samples, cid as int),
                            forall|k: int| 0 <= k < ci ==> #[trigger] labels@[core_points@[k] as int] >= 0,
                            forall|k: int| 0 <= k < core_points@.len() ==> (#[trigger] core_points@[k]) < n,
                            ci < core_points@.len(),
                            core_points@[ci as int] == cp,
                        decreases nbrs@.len() - j,
                    {
                        let nbr = nbrs[j];
                        proof {
                            assert(nb[point as int]@[j as int] == nbr);
                        }
                        if labels[nbr] == -1 {
                            let ghost labels0 = labels@;
                            let ghost queue0 = queue@;
                            labels.set(nbr, cid);
                            queue.push(nbr);
                            proof {
                                assert(nb[point as int]@.contains(nbr));
                                lemma_link_step(nb, min_samples, labels0, labels@, seeds, paths, point as int, nbr as int);
                                paths = paths.insert(nbr as int, paths[point as int].push(nbr as int));
                                assert(keeps_labels(labels0, labels@));
                                lemma_keep_facts(queue0, queue@, labels0, labels@, nb, min_samples, head as int, head + 1, cid as int);
                                assert(!queue0.contains(nbr)) by {
                                    if queue0.contains(nbr) {
                                        let p = choose|p: int| 0 <= p < queue0.len() && queue0[p] == nbr;
                                    }
                                }
                                assert(queue@.no_duplicates()) by {
                                    assert forall|a: int, b: int| 0 <= a < queue@.len() && 0 <= b < queue@.len() && a != b implies queue@[a] != queue@[b] by {
                                        if a < queue0.len() && b < queue0.len() {
                                            assert(queue@[a] == queue0[a] && queue@[b] == queue0[b]);
                                        } else if a < queue0.len() {
                                            assert(queue0[a] != nbr);
                                        } else if b < queue0.len() {
                                            assert(queue0[b] != nbr);
                                        }
                                    }
                                }
                                assert(queue@[head as int] == point);
                                assert(labeled_queued(queue@, labels@)) by {
                                    assert forall|q: int| 0 <= q < n && #[trigger] labels@[q] >= 0 implies queue@.contains(q as usize) by {
                                        if q == nbr as int {
                                            assert(queue@[queue@.len() - 1] == nbr);
                                        } else {
                                            assert(labels0[q] >= 0);
                                            let p = choose|p: int| 0 <= p < queue0.len() && queue0[p] == q as usize;
                                            assert(queue@[p] == q as usize);
                                        }
                                    }
                                }
                                assert(explained(queue@, labels@, nb, min_samples, head + 1)) by {
                                    assert forall|q: int| 0 <= q < labels@.len() && #[trigger] labels@[q] >= 0 && !is_core(nb, min_samples, q) implies
                                        exists|k: int| 0 <= k < head + 1 && is_core(nb, min_samples, queue@[k] as int)
                                            && #[trigger] nb[queue@[k] as int]@.contains(q as usize) && labels@[queue@[k] as int] == labels@[q]
                                    by {
                                        if q == nbr as int {
                                            assert(nb[queue@[head as int] as int]@[j as int] == nbr);
                                            assert(nb[queue@[head as int] as int]@.contains(q as usize));
                                        } else {
                                            assert(labels0[q] >= 0);
                                            let k = choose|k: int| 0 <= k < head + 1 && is_core(nb, min_samples, queue0[k] as int)
                                                && #[trigger] nb[queue0[k] as int]@.contains(q as usize) && labels0[queue0[k] as int] == labels0[q];
                                            assert(queue@[k] == queue0[k]);
                                        }
                                    }
                                }
                                assert forall|t: int| 0 <= t < j + 1 implies 0 <= #[trigger] labels@[nbrs@[t] as int] <= cid by {
                                    if t < j {
                                        assert(labels0[nbrs@[t] as int] >= 0);
                                    }
                                }
                                assert forall|k: int| head <= k < queue@.len() implies labels@[#[trigger] queue@[k] as int] == cid by {
                                    if k < queue0.len() {
                                        assert(queue@[k] == queue0[k]);
                                        assert(labels0[queue0[k] as int] >= 0);
                                    }
                                }
                            }
                        } else {
                            proof {
                                assert(labels@[nbr as int] >= 0);
                            }
                        }
                        j = j + 1;
                    }
                    proof {
                        assert(expanded(queue@, labels@, nb, min_samples, head + 1)) by {
                            assert forall|k: int, t: int| 0 <= k < head + 1 && is_core(nb, min_samples, queue@[k] as int) && 0 <= t < nb[queue@[k] as int]@.len() implies
                                0 <= #[trigger] labels@[nb[#[trigger] queue@[k] as int]@[t] as int] <= labels@[queue@[k] as int]
                            by {
                                if k == head as int {
                                    assert(nbrs@[t] == nb[queue@[k] as int]@[t]);
                                }
                            }
                        }
                    }
                } else {
                    proof {
                        assert(expanded(queue@, labels@, nb, min_samples, head + 1)) by {
                            assert forall|k: int, t: int| 0 <= k < head + 1 && is_core(nb, min_samples, queue@[k] as int) && 0 <= t < nb[queue@[k] as int]@.len() implies
                                0 <= #[trigger] labels@[nb[#[trigger] queue@[k] as int]@[t] as int] <= labels@[queue@[k] as int]
                            by {
                                assert(k != head as int);
                            }
                        }
                        assert(explained(queue@, labels@, nb, min_samples, head + 1)) by {
                            assert forall|q: int| 0 <= q < labels@.len() && #[trigger] labels@[q] >= 0 && !is_core(nb, min_samples, q) implies
                                exists|k: int| 0 <= k < head + 1 && is_core(nb, min_samples, queue@[k] as int)
                                    && #[trigger] nb[queue@[k] as int]@.contains(q as usize) && labels@[queue@[k] as int] == labels@[q]
                            by {
                                let k = choose|k: int| 0 <= k < head && is_core(nb, min_samples, queue@[k] as int)
                                    && #[trigger] nb[queue@[k] as int]@.contains(q as usize) && labels@[queue@[k] as int] == labels@[q];
                            }
                        }
                    }
                }
                head = head + 1;
            }
            proof {
                assert(seeded(labels@, nb, min_samples, cid + 1)) by {
                    assert forall|c: int| 0 <= c < cid + 1 implies #[trigger] label_of_core(nb, min_samples, labels@, c) by {
                        if c == cid as int {
                            assert(labels@[cp as int] == c);
                        }
                    }
                }
                assert(labels@[core_points@[ci as int] as int] >= 0);
            }
            cid = cid + 1;
        } else {
            proof {
                assert(labels@[core_points@[ci as int] as int] >= 0);
            }
        }
        ci = ci + 1;
    }
    proof {
        lemma_final_labelling(queue@, labels@, nb, min_samples, cid as int, core_points@);
        lemma_final_seeds(nb, min_samples, labels@, seeds, paths);
    }
    let n_clusters = count_clusters(&labels);
    proof {
        assert forall|c: int| 0 <= c < cid implies #[trigger] has_seed(nb, min_samples, labels@, c) by {
            assert(cluster_seed(nb, min_samples, labels@, c, seeds[c]));
        }
        if exists|q: int| 0 <= q < labels@.len() && #[trigger] labels@[q] >= 0 {
            let q = choose|q: int| 0 <= q < labels@.len() && #[trigger] labels@[q] >= 0;
            assert(cid > 0);
            assert(label_of_core(nb, min_samples, labels@, cid - 1));
            let w = choose|w: int| 0 <= w < labels@.len() && is_core(nb, min_samples, w) && #[trigger] labels@[w] == cid - 1;
            assert(n_clusters == cid);
        }
    }
    Ok(DBSCANResult { labels, n_clusters, core_points })
}

/// The largest label plus one, or 0 when every label is negative.
fn count_clusters(labels: &Vec<isize>) -> (n_clusters: usize)
    ensures
        (forall|i: int| 0 <= i < labels@.len() ==> #[trigger] labels@[i] < 0) ==> n_clusters == 0,
        (exists|i: int| 0 <= i < labels@.len() && #[trigger] labels@[i] >= 0) ==> {
            &&& exists|i: int| 0 <= i < labels@.len() && #[trigger] labels@[i] == n_clusters - 1
            &&& forall|i: int| 0 <= i < labels@.len() ==> #[trigger] labels@[i] < n_clusters
        },
{
    let mut best: usize = 0;
    let mut any = false;
    let mut i: usize = 0;
    while i < labels.len()
        invariant
            i <= labels@.len(),
            !any ==> forall|q: int| 0 <= q < i ==> #[trigger] labels@[q] < 0,
            any ==> exists|q: int| 0 <= q < i && #[trigger] labels@[q] == best,
            any ==> forall|q: int| 0 <= q < i ==> #[trigger] labels@[q] <= best,
            !any ==> best == 0,
            best < usize::MAX,
        decreases labels@.len() - i,
    {
        let l = labels[i];
        if l >= 0 {
            let lu = l as usize;
            if !any || lu > best {
                best = lu;
                any = true;
            }
        }
        i = i + 1;
    }
    if any {
        best + 1
    } else {
        0
    }
}

/// Updating labels that were -1 keeps every fact stated over labelled points.
proof fn lemma_keep_facts(queue0: Seq<usize>, queue: Seq<usize>, labels0: Seq<isize>, labels: Seq<isize>,
    nb: Seq<Vec<usize>>, min_samples: usize, upto_e: int, upto: int, cid: int)
    requires
        keeps_labels(labels0, labels),
        labels.len() == nb.len(),
        neighbors_in_range(nb),
        queue.len() >= queue0.len(),
        forall|k: int| 0 <= k < queue0.len() ==> #[trigger] queue[k] == queue0[k],
        0 <= upto_e <= queue0.len(),
        0 <= upto <= queue0.len(),
        queue_labeled(queue0, labels0),
        expanded(queue0, labels0, nb, min_samples, upto_e),
        explained(queue0, labels0, nb, min_samples, upto),
        seeded(labels0, nb, min_samples, cid),
        forall|k: int| queue0.len() <= k < queue.len() ==> (#[trigger] queue[k]) < labels.len() && labels[queue[k] as int] >= 0,
        forall|i: int| 0 <= i < labels.len() && labels0[i] < 0 && #[trigger] labels[i] >= 0 ==> labels[i] == cid,
    ensures
        queue_labeled(queue, labels),
        expanded(queue, labels, nb, min_samples, upto_e),
        seeded(labels, nb, min_samples, cid),
        forall|i: int| 0 <= i < labels.len() && #[trigger] labels[i] >= 0 && labels0[i] >= 0 && !is_core(nb, min_samples, i) ==>
            exists|k: int| 0 <= k < upto && is_core(nb, min_samples, queue[k] as int)
                && #[trigger] nb[queue[k] as int]@.contains(i as usize) && labels[queue[k] as int] == labels[i],
{
    assert forall|k: int| 0 <= k < queue.len() implies (#[trigger] queue[k]) < labels.len() && labels[queue[k] as int] >= 0 by {
        if k < queue0.len() {
            assert(queue[k] == queue0[k]);
        }
    }
    assert forall|k: int, j: int| 0 <= k < upto_e && is_core(nb, min_samples, queue[k] as int) && 0 <= j < nb[queue[k] as int]@.len() implies
        0 <= #[trigger] labels[nb[#[trigger] queue[k] as int]@[j] as int] <= labels[queue[k] as int]
    by {
        assert(queue[k] == queue0[k]);
        assert(queue0[k] < labels0.len());
        assert(0 <= labels0[nb[queue0[k] as int]@[j] as int] <= labels0[queue0[k] as int]);
    }
    assert forall|c: int| 0 <= c < cid implies #[trigger] label_of_core(nb, min_samples, labels, c) by {
        assert(label_of_core(nb, min_samples, labels0, c));
        let i = choose|i: int| 0 <= i < labels0.len() && is_core(nb, min_samples, i) && #[trigger] labels0[i] == c;
        assert(labels[i] == c);
    }
    assert forall|i: int| 0 <= i < labels.len() && #[trigger] labels[i] >= 0 && labels0[i] >= 0 && !is_core(nb, min_samples, i) implies
        exists|k: int| 0 <= k < upto && is_core(nb, min_samples, queue[k] as int)
            && #[trigger] nb[queue[k] as int]@.contains(i as usize) && labels[queue[k] as int] == labels[i]
    by {
        let k = choose|k: int| 0 <= k < upto && is_core(nb, min_samples, queue0[k] as int)
            && #[trigger] nb[queue0[k] as int]@.contains(i as usize) && labels0[queue0[k] as int] == labels0[i];
        assert(queue[k] == queue0[k]);
    }
}

/// Once every core point is labelled and every queued point expanded, the
/// labels form a DBSCAN labelling with `cid` clusters.
proof fn lemma_final_labelling(queue: Seq<usize>, labels: Seq<isize>, nb: Seq<Vec<usize>>, min_samples: usize, cid: int,
    core_points: Seq<usize>)
    requires
        labels.len() == nb.len(),
        nb.len() <= usize::MAX,
        neighbors_in_range(nb),
        forall|q: int| 0 <= q < labels.len() ==> -1 <= #[trigger] labels[q] < cid,
        queue_labeled(queue, labels),
        labeled_queued(queue, labels),
        expanded(queue, labels, nb, min_samples, queue.len() as int),
        explained(queue, labels, nb, min_samples, queue.len() as int),
        seeded(labels, nb, min_samples, cid),
        forall|i: int| 0 <= i < nb.len() && is_core(nb, min_samples, i) ==> core_points.contains(i as usize),
        forall|k: int| 0 <= k < core_points.len() ==> #[trigger] labels[core_points[k] as int] >= 0,
    ensures
        forall|i: int| 0 <= i < labels.len() ==> (#[trigger] labels[i] >= 0 <==> is_reachable(nb, min_samples, i)),
        forall|q: int, j: int| 0 <= q < nb.len() && is_core(nb, min_samples, q) && 0 <= j < nb[q]@.len() ==>
            0 <= #[trigger] labels[nb[q]@[j] as int] <= labels[q],
        forall|i: int| 0 <= i < labels.len() && #[trigger] labels[i] >= 0 && !is_core(nb, min_samples, i) ==>
            exists|q: int| 0 <= q < nb.len() && is_core(nb, min_samples, q)
                && #[trigger] nb[q]@.contains(i as usize) && labels[q] == labels[i],
{
    assert forall|q: int| 0 <= q < nb.len() && is_core(nb, min_samples, q) implies #[trigger] labels[q] >= 0 by {
        assert(core_points.contains(q as usize));
        let p = choose|p: int| 0 <= p < core_points.len() && core_points[p] == q as usize;
        assert(labels[core_points[p] as int] >= 0);
    }
    assert forall|q: int, j: int| 0 <= q < nb.len() && is_core(nb, min_samples, q) && 0 <= j < nb[q]@.len() implies
        0 <= #[trigger] labels[nb[q]@[j] as int] <= labels[q]
    by {
        assert(labels[q] >= 0);
        assert(queue.contains(q as usize));
        let k = choose|k: int| 0 <= k < queue.len() && queue[k] == q as usize;
        assert(0 <= labels[nb[queue[k] as int]@[j] as int] <= labels[queue[k] as int]);
    }
    assert forall|i: int| 0 <= i < labels.len() && #[trigger] labels[i] >= 0 && !is_core(nb, min_samples, i) implies
        exists|q: int| 0 <= q < nb.len() && is_core(nb, min_samples, q)
            && #[trigger] nb[q]@.contains(i as usize) && labels[q] == labels[i]
    by {
        let k = choose|k: int| 0 <= k < queue.len() && is_core(nb, min_samples, queue[k] as int)
            && #[trigger] nb[queue[k] as int]@.contains(i as usize) && labels[queue[k] as int] == labels[i];
        let q = queue[k] as int;
        assert(0 <= q < nb.len());
    }
    assert forall|i: int| 0 <= i < labels.len() implies (#[trigger] labels[i] >= 0 <==> is_reachable(nb, min_samples, i)) by {
        if labels[i] >= 0 && !is_core(nb, min_samples, i) {
            let k = choose|k: int| 0 <= k < queue.len() && is_core(nb, min_samples, queue[k] as int)
                && #[trigger] nb[queue[k] as int]@.contains(i as usize) && labels[queue[k] as int] == labels[i];
            let q = queue[k] as int;
            assert(0 <= q < nb.len() && is_core(nb, min_samples, q) && nb[q]@.contains(i as usize));
        }
        if is_reachable(nb, min_samples, i) && !is_core(nb, min_samples, i) {
            let q = choose|q: int| 0 <= q < nb.len() && is_core(nb, min_samples, q) && #[trigger] nb[q]@.contains(i as usize);
            let j = choose|j: int| 0 <= j < nb[q]@.len() && nb[q]@[j] == i as usize;
            assert(0 <= labels[nb[q]@[j] as int]);
        }
    }
}

/// Seeding cluster `cid` at the unlabelled core point `cp` keeps the seeds
/// and chains in order, with the one-point chain to `cp`.
proof fn lemma_seed_step(nb: Seq<Vec<usize>>, min_samples: usize, labels0: Seq<isize>, labels: Seq<isize>,
    seeds: Seq<int>, paths: Map<int, Seq<int>>, cp: int, cid: isize)
    requires
        labels0.len() == nb.len(),
        0 <= cp < nb.len(),
        labels0[cp] == -1,
        labels == labels0.update(cp, cid),
        seeds.len() == cid,
        is_core(nb, min_samples, cp),
        forall|q: int| 0 <= q < labels0.len() ==> #[trigger] labels0[q] < cid,
        forall|q: int| 0 <= q < cp && is_core(nb, min_samples, q) ==> #[trigger] labels0[q] >= 0,
        seeds_ok(nb, min_samples, labels0, seeds),
        chains_ok(nb, min_samples, labels0, seeds, paths),
    ensures
        seeds_ok(nb, min_samples, labels, seeds.push(cp)),
        chains_ok(nb, min_samples, labels, seeds.push(cp), paths.insert(cp, seq![cp])),
{
    reveal(seeds_ok);
    reveal(chains_ok);
    let seeds2 = seeds.push(cp);
    let paths2 = paths.insert(cp, seq![cp]);
    assert forall|c: int| 0 <= c < seeds2.len() implies {
        &&& 0 <= #[trigger] seeds2[c] < labels.len()
        &&& is_core(nb, min_samples, seeds2[c])
        &&& labels[seeds2[c]] == c
        &&& forall|q: int| 0 <= q < seeds2[c] && is_core(nb, min_samples, q) ==> 0 <= #[trigger] labels[q] < c
    } by {
        if c < seeds.len() {
            assert(seeds2[c] == seeds[c]);
            assert(labels0[seeds[c]] == c);
            assert forall|q: int| 0 <= q < seeds2[c] && is_core(nb, min_samples, q) implies 0 <= #[trigger] labels[q] < c by {
                assert(0 <= labels0[q] < c);
            }
        } else {
            assert(seeds2[c] == cp);
            assert forall|q: int| 0 <= q < seeds2[c] && is_core(nb, min_samples, q) implies 0 <= #[trigger] labels[q] < c by {
                assert(labels0[q] >= 0);
            }
        }
    }
    assert forall|q: int| 0 <= q < labels.len() && #[trigger] labels[q] >= 0 implies {
        &&& labels[q] < seeds2.len()
        &&& paths2.dom().contains(q)
        &&& is_chain(nb, min_samples, paths2[q])
        &&& paths2[q][0] == seeds2[labels[q] as int]
        &&& paths2[q].last() == q
    } by {
        if q == cp {
            assert(paths2[q] == seq![cp]);
        } else {
            assert(labels0[q] >= 0);
            assert(paths2[q] == paths[q]);
        }
    }
}

/// Labelling the unlabelled neighbour `nbr` of the labelled core point
/// `point` with its label extends the chain to `point` by one step.
proof fn lemma_link_step(nb: Seq<Vec<usize>>, min_samples: usize, labels0: Seq<isize>, labels: Seq<isize>,
    seeds: Seq<int>, paths: Map<int, Seq<int>>, point: int, nbr: int)
    requires
        labels0.len() == nb.len(),
        0 <= point < nb.len(),
        0 <= nbr < nb.len(),
        labels0[nbr] == -1,
        labels0[point] >= 0,
        labels == labels0.update(nbr, labels0[point]),
        is_core(nb, min_samples, point),
        nb[point]@.contains(nbr as usize),
        seeds_ok(nb, min_samples, labels0, seeds),
        chains_ok(nb, min_samples, labels0, seeds, paths),
    ensures
        seeds_ok(nb, min_samples, labels, seeds),
        chains_ok(nb, min_samples, labels, seeds, paths.insert(nbr, paths[point].push(nbr))),
{
    reveal(seeds_ok);
    reveal(chains_ok);
    let p0 = paths[point];
    let p1 = p0.push(nbr);
    let paths2 = paths.insert(nbr, p1);
    assert(is_chain(nb, min_samples, p0));
    assert(is_chain(nb, min_samples, p1)) by {
        assert forall|k: int| 0 <= k < p1.len() - 1 implies
            is_core(nb, min_samples, #[trigger] p1[k]) && nb[p1[k]]@.contains(p1[k + 1] as usize) by {
            if k < p0.len() - 1 {
                assert(p1[k] == p0[k] && p1[k + 1] == p0[k + 1]);
            } else {
                assert(p1[k] == p0.last());
                assert(p1[k + 1] == nbr);
            }
        }
        assert forall|k: int| 0 <= k < p1.len() implies 0 <= #[trigger] p1[k] < nb.len() by {
            if k < p0.len() {
                assert(p1[k] == p0[k]);
            }
        }
    }
    assert forall|c: int| 0 <= c < seeds.len() implies {
        &&& 0 <= #[trigger] seeds[c] < labels.len()
        &&& is_core(nb, min_samples, seeds[c])
        &&& labels[seeds[c]] == c
        &&& forall|q: int| 0 <= q < seeds[c] && is_core(nb, min_samples, q) ==> 0 <= #[trigger] labels[q] < c
    } by {
        assert(labels0[seeds[c]] == c);
        assert forall|q: int| 0 <= q < seeds[c] && is_core(nb, min_samples, q) implies 0 <= #[trigger] labels[q] < c by {
            assert(0 <= labels0[q] < c);
        }
    }
    assert forall|q: int| 0 <= q < labels.len() && #[trigger] labels[q] >= 0 implies {
        &&& labels[q] < seeds.len()
        &&& paths2.dom().contains(q)
        &&& is_chain(nb, min_samples, paths2[q])
        &&& paths2[q][0] == seeds[labels[q] as int]
        &&& paths2[q].last() == q
    } by {
        if q == nbr {
            assert(labels[q] == labels0[point]);
            assert(p1[0] == p0[0]);
        } else {
            assert(labels0[q] >= 0);
            assert(paths2[q] == paths[q]);
        }
    }
}

/// The recorded seeds and chains make every cluster grow from its seed.
proof fn lemma_final_seeds(nb: Seq<Vec<usize>>, min_samples: usize, labels: Seq<isize>, seeds: Seq<int>, paths: Map<int, Seq<int>>)
    requires
        seeds_ok(nb, min_samples, labels, seeds),
        chains_ok(nb, min_samples, labels, seeds, paths),
    ensures
        forall|c: int| 0 <= c < seeds.len() ==> #[trigger] cluster_seed(nb, min_samples, labels, c, seeds[c]),
{
    reveal(seeds_ok);
    reveal(chains_ok);
    assert forall|c: int| 0 <= c < seeds.len() implies #[trigger] cluster_seed(nb, min_samples, labels, c, seeds[c]) by {
        assert(0 <= seeds[c] < labels.len());
        assert forall|t: int| 0 <= t < labels.len() && #[trigger] labels[t] == c implies reaches(nb, min_samples, seeds[c], t) by {
            assert(labels[t] >= 0);
            let path = paths[t];
            assert(is_chain(nb, min_samples, path) && path[0] == seeds[c] && path.last() == t);
        }
    }
}

/// The neighbour relation is symmetric.
pub open spec fn neighbors_symmetric(nb: Seq<Vec<usize>>) -> bool {
    forall|i: int, j: int| 0 <= i < nb.len() && 0 <= j < nb.len() ==>
        (#[trigger] nb[i]@.contains(j as usize) <==> #[trigger] nb[j]@.contains(i as usize))
}

/// For a symmetric neighbour relation (as distances give), two core points
/// that are neighbours end up in the same cluster.
pub proof fn lemma_dbscan_core_neighbors_same_cluster(nb: Seq<Vec<usize>>, min_samples: usize, labels: Seq<isize>,
    n_clusters: int, p: int, q: int)
    requires
        dbscan_labelling(nb, min_samples, labels, n_clusters),
        nb.len() <= usize::MAX,
        neighbors_symmetric(nb),
        0 <= p < nb.len(),
        0 <= q < nb.len(),
        is_core(nb, min_samples, p),
        is_core(nb, min_samples, q),
        nb[q]@.contains(p as usize),
    ensures
        labels[p] == labels[q],
        labels[p] >= 0,
{
    let j = choose|j: int| 0 <= j < nb[q]@.len() && nb[q]@[j] == p as usize;
    assert(labels[nb[q]@[j] as int] <= labels[q]);
    assert(nb[p]@.contains(q as usize));
    let k = choose|k: int| 0 <= k < nb[p]@.len() && nb[p]@[k] == q as usize;
    assert(labels[nb[p]@[k] as int] <= labels[p]);
}


/// For a symmetric neighbour relation, density-connected core points share
/// their cluster: along a chain that ends at a core point, every point
/// carries the label of the chain's start.
pub proof fn lemma_dbscan_chain_same_cluster(nb: Seq<Vec<usize>>, min_samples: usize, labels: Seq<isize>,
    n_clusters: int, path: Seq<int>)
    requires
        dbscan_labelling(nb, min_samples, labels, n_clusters),
        nb.len() <= usize::MAX,
        neighbors_symmetric(nb),
        is_chain(nb, min_samples, path),
        is_core(nb, min_samples, path.last()),
    ensures
        labels[path[0]] == labels[path.last()],
        labels[path[0]] >= 0,
    decreases path.len(),
{
    if path.len() == 1 {
        let j = path[0];
        assert(is_reachable(nb, min_samples, j));
    } else {
        let rest = path.subrange(1, path.len() as int);
        assert(is_chain(nb, min_samples, rest)) by {
            assert forall|k: int| 0 <= k < rest.len() - 1 implies
                is_core(nb, min_samples, #[trigger] rest[k]) && nb[rest[k]]@.contains(rest[k + 1] as usize) by {
                assert(rest[k] == path[k + 1] && rest[k + 1] == path[k + 2]);
            }
            assert forall|k: int| 0 <= k < rest.len() implies 0 <= #[trigger] rest[k] < nb.len() by {
                assert(rest[k] == path[k + 1]);
            }
        }
        assert(rest.last() == path.last());
        lemma_dbscan_chain_same_cluster(nb, min_samples, labels, n_clusters, rest);
        assert(rest[0] == path[1]);
        assert(is_core(nb, min_samples, path[0]) && nb[path[0]]@.contains(path[1] as usize));
        if path.len() > 2 {
            assert(is_core(nb, min_samples, rest[0])) by {
                assert(rest[0] == path[1]);
            }
        }
        assert(is_core(nb, min_samples, path[1]));
        lemma_dbscan_core_neighbors_same_cluster(nb, min_samples, labels, n_clusters, path[1], path[0]);
    }
}

} // verus!
