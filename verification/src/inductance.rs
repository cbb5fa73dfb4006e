//! Kernel outcomes of a partial-inductance evaluation.

use vstd::prelude::*;

verus! {

/// Why a partial inductance could not be computed.
#[derive(Clone, Debug, PartialEq, Eq)]
pub enum KernelError {
    /// Two parallel filaments with differently oriented cross-sections
    /// overlap in such a way that two of the sample lines used to integrate
    /// over them coincide, where the line-to-line integral diverges.
    CoincidentSamples {
        /// Row index of the pair in a batch (0 for a single evaluation).
        first: usize,
        /// Column index of the pair in a batch (0 for a single evaluation).
        second: usize,
    },
    /// The integral evaluated to a non-finite number.
    NotFinite {
        /// Row index of the pair in a batch (0 for a single evaluation).
        first: usize,
        /// Column index of the pair in a batch (0 for a single evaluation).
        second: usize,
    },
}

impl KernelError {
    /// The same error, attributed to entry `(first, second)` of a batch.
    pub fn at(self, first: usize, second: usize) -> (r: Self)
        ensures
            r == (match self {
                KernelError::CoincidentSamples { .. } => KernelError::CoincidentSamples { first, second },
                KernelError::NotFinite { .. } => KernelError::NotFinite { first, second },
            }),
    {
        match self {
            KernelError::CoincidentSamples { .. } => KernelError::CoincidentSamples { first, second },
            KernelError::NotFinite { .. } => KernelError::NotFinite { first, second },
        }
    }
}

/// How a partial inductance was evaluated.
#[derive(Clone, Copy, Debug, PartialEq, Eq, Hash)]
pub enum Method {
    /// The filaments are orthogonal, so the result is exactly zero.
    Orthogonal,
    /// Exact closed form for parallel bars with aligned cross-sections,
    /// used only while its estimated rounding error stays small.
    BarClosedForm,
    /// Parallel bars with aligned cross-sections: length integrals in
    /// closed form, then a graded Gauss–Legendre quadrature over the
    /// cross-section differences.
    AlignedQuadrature,
    /// Adaptive-order Gauss–Legendre quadrature of the Neumann integral over
    /// both volumes.
    PointQuadrature,
    /// Close bars that are not parallel-and-aligned: length integrals in
    /// closed form, sampled over both cross-sections.
    SampledFilaments,
}

} // verus!
