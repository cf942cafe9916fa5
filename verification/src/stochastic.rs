//! Stochastic simulation settings.

use vstd::prelude::*;

verus! {

/// Variance reduction techniques for Monte Carlo simulation.
pub enum VarianceReduction {
    /// Antithetic variates
    AntitheticVariates,
    /// Control variates
    ControlVariates,
    /// Importance sampling
    ImportanceSampling,
}

/// SDE solver using the Euler-Maruyama method.
pub struct EulerMaruyama<A> {
    _phantom: std::marker::PhantomData<A>,
}

impl<A> EulerMaruyama<A> {
    /// A solver.
    pub fn new() -> Self {
        Self { _phantom: std::marker::PhantomData }
    }
}

} // verus!
