//! Sizes reported with a result.

use vstd::prelude::*;

verus! {

/// Size of a mesh system.
#[derive(Clone, Copy, Debug, PartialEq, Eq, Hash)]
pub struct Counts {
    /// Nodes in the geometry.
    pub nodes: usize,
    /// Segments in the geometry.
    pub segments: usize,
    /// Filaments, i.e. circuit branches, after discretization.
    pub filaments: usize,
    /// Independent loops, including one per port: the order of the mesh
    /// system.
    pub meshes: usize,
    /// Loops without a source: the order of the matrix factorized at each
    /// frequency.
    pub internal_meshes: usize,
    /// Ports: the order of `Z`.
    pub ports: usize,
}

} // verus!
