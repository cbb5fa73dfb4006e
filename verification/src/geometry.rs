//! Node references of a geometry.

use vstd::prelude::*;

verus! {

/// Index of a node within a geometry.
#[derive(Clone, Copy, Debug, PartialEq, Eq, Hash, PartialOrd, Ord)]
pub struct NodeId(pub usize);

} // verus!
