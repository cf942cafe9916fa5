//! Nearest-neighbour settings.

use vstd::prelude::*;

verus! {

/// Weighting strategy for K-NN regression.
#[derive(Debug, Clone, Copy)]
pub enum Weights {
    /// Uniform weights (all neighbors weighted equally)
    Uniform,
    /// Distance-based weights (closer neighbors weighted more heavily)
    Distance,
}

} // verus!
