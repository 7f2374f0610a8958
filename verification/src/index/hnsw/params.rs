//! Parameters of the graph index.

use vstd::prelude::*;

verus! {

/// How a graph is built and searched.
#[derive(Debug, Clone, Copy, PartialEq, Eq, Structural)]
pub struct HnswParams {
    /// The most links that a node has on a layer above the ground layer.
    pub m: usize,
    /// The most links that a node has on the ground layer.
    pub m0: usize,
    /// How many candidates are kept while building.
    pub ef_construct: usize,
    /// How many candidates are kept while searching.
    pub ef_search: usize,
}

impl Default for HnswParams {
    fn default() -> (r: Self)
        ensures
            r == (HnswParams { m: 16, m0: 32, ef_construct: 128, ef_search: 512 }),
    {
        HnswParams { m: 16, m0: 32, ef_construct: 128, ef_search: 512 }
    }
}

impl HnswParams {
    /// The most links that a node has on a layer.
    pub open spec fn cap(&self, level: int) -> nat {
        if level == 0 {
            self.m0 as nat
        } else {
            self.m as nat
        }
    }

    /// The most links that a node has on a layer.
    pub fn max_links(&self, level: i32) -> (r: usize)
        ensures
            r == self.cap(level as int),
    {
        if level == 0 {
            self.m0
        } else {
            self.m
        }
    }
}

} // verus!
