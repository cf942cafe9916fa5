//! Operations recorded by the automatic differentiation graph.

use vstd::prelude::*;

verus! {

/// Operation type for backpropagation.
#[derive(Debug, Clone)]
pub enum Op {
    /// Leaf node (no operation)
    Leaf,
    /// Addition
    Add,
    /// Multiplication
    Mul,
    /// Matrix multiplication
    MatMul,
    /// ReLU activation
    ReLU,
    /// Sigmoid activation
    Sigmoid,
    /// Sum reduction
    Sum,
}

} // verus!
