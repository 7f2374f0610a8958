//! The configuration of collections.

use vstd::prelude::*;

use crate::error::{Error, Invalid};
use crate::index::hnsw::params::HnswParams;
use crate::kernel::Metric;

verus! {

/// The kind of index that immutable segments have.
#[derive(Debug, Clone, Copy, PartialEq, Eq, Structural)]
pub enum IndexKind {
    /// None: every row is looked at.
    Flat,
    /// A graph index.
    Hnsw {
        /// Its parameters.
        params: HnswParams,
    },
}

impl Default for IndexKind {
    fn default() -> (r: Self)
        ensures
            r == (IndexKind::Hnsw {
                params: HnswParams { m: 16, m0: 32, ef_construct: 128, ef_search: 512 },
            }),
    {
        IndexKind::Hnsw { params: HnswParams::default() }
    }
}

/// The configuration of a collection.
#[derive(Debug, Clone, Copy, PartialEq, Eq, Structural)]
pub struct CollectionConfig {
    /// The dimension of the vectors.
    pub dim: usize,
    /// The metric.
    pub metric: Metric,
    /// The kind of index.
    pub index: IndexKind,
}

impl CollectionConfig {
    /// A configuration with a graph index. It fails where the dimension is zero.
    pub fn new(dim: usize, metric: Metric) -> (r: Result<Self, Error>)
        ensures
            match r {
                Ok(c) => dim > 0 && c == (CollectionConfig {
                    dim,
                    metric,
                    index: IndexKind::Hnsw {
                        params: HnswParams { m: 16, m0: 32, ef_construct: 128, ef_search: 512 },
                    },
                }),
                Err(e) => dim == 0 && e == Error::Invalid(Invalid::ZeroDimension),
            },
    {
        if dim == 0 {
            return Err(Error::Invalid(Invalid::ZeroDimension));
        }
        Ok(CollectionConfig { dim, metric, index: IndexKind::default() })
    }

    /// The configuration with another kind of index.
    pub fn with_index(self, index: IndexKind) -> (r: Self)
        ensures
            r == (CollectionConfig { index, ..self }),
    {
        CollectionConfig { index, ..self }
    }
}

} // verus!
