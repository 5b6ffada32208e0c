//! Handles of the stages of a graph.

use vstd::prelude::*;

verus! {

/// A handle that names one stage of a graph: its index in the graph's stage
/// table, given out when the stage is added.
#[derive(Clone, Copy, Debug, PartialEq, Eq, Hash, Structural)]
pub struct StageId(pub usize);

impl StageId {
    /// The position of the stage in its graph's table.
    pub fn index(&self) -> (index: usize)
        ensures
            index == self.0,
    {
        self.0
    }
}

} // verus!
