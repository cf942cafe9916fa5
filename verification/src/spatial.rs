//! Spatial statistics: classification of local spatial association.

use vstd::prelude::*;

verus! {

/// Cluster type of a location in local spatial association.
#[derive(Debug, Clone, Copy, PartialEq, Eq, Structural)]
pub enum ClusterType {
    /// High value surrounded by high values
    HighHigh,
    /// Low value surrounded by low values
    LowLow,
    /// High value surrounded by low values (spatial outlier)
    HighLow,
    /// Low value surrounded by high values (spatial outlier)
    LowHigh,
    /// Not significant
    NotSignificant,
}

/// The quadrant of a location: whether its value is above the mean, and
/// whether the weighted values of its neighbours (its spatial lag) are.
pub fn classify_location(value_above_mean: bool, lag_above_mean: bool) -> (r: ClusterType)
    ensures
        r == if value_above_mean {
            if lag_above_mean { ClusterType::HighHigh } else { ClusterType::HighLow }
        } else {
            if lag_above_mean { ClusterType::LowHigh } else { ClusterType::LowLow }
        },
{
    if value_above_mean {
        if lag_above_mean { ClusterType::HighHigh } else { ClusterType::HighLow }
    } else {
        if lag_above_mean { ClusterType::LowHigh } else { ClusterType::LowLow }
    }
}

/// The significant clusters: the locations whose p-value is below the level
/// (`significant[i]`) and whose type is not `NotSignificant`, with their
/// types, in order.
pub fn significant_clusters(clusters: &Vec<ClusterType>, significant: &Vec<bool>) -> (r: Vec<(usize, ClusterType)>)
    requires
        clusters@.len() == significant@.len(),
    ensures
        forall|k: int| 0 <= k < r@.len() ==> {
            let (i, t) = #[trigger] r@[k];
            &&& i < clusters@.len()
            &&& t == clusters@[i as int]
            &&& significant@[i as int]
            &&& t != ClusterType::NotSignificant
        },
        forall|a: int, b: int| 0 <= a < b < r@.len() ==> (#[trigger] r@[a]).0 < (#[trigger] r@[b]).0,
        forall|i: int| 0 <= i < clusters@.len() && significant@[i] && clusters@[i] != ClusterType::NotSignificant ==>
            exists|k: int| 0 <= k < r@.len() && (#[trigger] r@[k]).0 == i,
{
    let mut r: Vec<(usize, ClusterType)> = Vec::new();
    let mut i: usize = 0;
    while i < clusters.len()
        invariant
            clusters@.len() == significant@.len(),
            i <= clusters@.len(),
            forall|k: int| 0 <= k < r@.len() ==> {
                let (p, t) = #[trigger] r@[k];
                &&& p < i
                &&& t == clusters@[p as int]
                &&& significant@[p as int]
                &&& t != ClusterType::NotSignificant
            },
            forall|a: int, b: int| 0 <= a < b < r@.len() ==> (#[trigger] r@[a]).0 < (#[trigger] r@[b]).0,
            forall|q: int| 0 <= q < i && significant@[q] && clusters@[q] != ClusterType::NotSignificant ==>
                exists|k: int| 0 <= k < r@.len() && (#[trigger] r@[k]).0 == q,
        decreases clusters@.len() - i,
    {
        let t = clusters[i];
        let not_sig = match t {
            ClusterType::NotSignificant => true,
            _ => false,
        };
        if significant[i] && !not_sig {
            let ghost before = r@;
            r.push((i, t));
            proof {
                assert forall|q: int| 0 <= q < i + 1 && significant@[q] && clusters@[q] != ClusterType::NotSignificant implies
                    exists|k: int| 0 <= k < r@.len() && (#[trigger] r@[k]).0 == q by {
                    if q == i as int {
                        assert(r@[r@.len() - 1].0 == i);
                    } else {
                        let k = choose|k: int| 0 <= k < before.len() && (#[trigger] before[k]).0 == q;
                        assert(r@[k] == before[k]);
                    }
                }
            }
        }
        i = i + 1;
    }
    r
}

} // verus!
