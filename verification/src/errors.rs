use vstd::prelude::*;

verus! {

/// Errors of the solver core.
#[derive(Clone, Copy, Debug, PartialEq, Eq, Structural)]
pub enum AcoError {
    /// The supplied element count does not match the declared dimension.
    InvalidMatrixShape,
    /// A sampling step found zero total weight among the unvisited nodes.
    NoReachableNode,
    /// A negative eigenvalue was selected for the embedding.
    NonEuclideanEmbedding,
}

} // verus!
