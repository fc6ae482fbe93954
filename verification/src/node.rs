//! A single vertex of the graph.

use vstd::prelude::*;

verus! {

/// One node of a [`crate::DAG`]: the identifiers of its predecessors (its
/// "sources"; edges point from a source into this node) and an opaque
/// payload that the algorithms never interpret.
#[derive(Debug, Clone, PartialEq)]
pub struct DagNode<T: Copy + PartialEq> {
    sources: Vec<u32>,
    value: T,
}

impl<T: Copy + PartialEq> DagNode<T> {
    /// The predecessor identifiers as a mathematical sequence.
    pub closed spec fn spec_sources(&self) -> Seq<u32> {
        self.sources@
    }

    /// The payload carried by this node; the algorithms never interpret it.
    pub closed spec fn spec_value(&self) -> T {
        self.value
    }

    /// The payload, for callers that inspect what a node carries.
    pub fn value(&self) -> (r: &T)
        ensures
            *r == self.spec_value(),
    {
        &self.value
    }

    /// Read-only view of the predecessor identifiers.
    pub fn sources(&self) -> (r: &Vec<u32>)
        ensures
            r@ == self.spec_sources(),
    {
        &self.sources
    }

    /// The number of predecessors recorded for this node.
    pub fn sources_len(&self) -> (n: usize)
        ensures
            n == self.spec_sources().len(),
    {
        self.sources.len()
    }

    pub fn new(sources: Vec<u32>, value: T) -> (r: Self)
        ensures
            r.spec_sources() == sources@,
            r.spec_value() == value,
    {
        DagNode { sources, value }
    }
}

} // verus!
