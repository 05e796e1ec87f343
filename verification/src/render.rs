//! Vertex layout description for custom render pipelines.
use vstd::prelude::*;

verus! {

/// Describes one vertex attribute by how many float components it spans;
/// a layout is a list of these.
pub struct Vertex {
    size: usize,
}

impl Vertex {
    /// The attribute's component count.
    pub closed spec fn spec_size(self) -> int {
        self.size as int
    }

    /// An attribute spans at most four components; a larger size is a
    /// programming error and is rejected before construction.
    pub fn new(size: usize) -> (v: Vertex)
        requires
            size <= 4,
        ensures
            v.spec_size() == size,
    {
        Vertex { size }
    }
}

} // verus!
