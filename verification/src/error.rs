//! The ways in which ranking can refuse its input.

use vstd::prelude::*;

verus! {

/// Why a rank store or a ranking could not be made.
#[derive(Debug, Clone, Copy, PartialEq, Eq, Structural)]
pub enum RankError {
    /// The keys of the supplied ranks are not exactly the vertices of the graph.
    MalformedStore,
    /// The graph has a cycle, so no ranking can satisfy every edge.
    CyclicGraph,
    /// The graph is too large for its ranks to be computed in `isize`.
    TooLarge,
}

} // verus!
