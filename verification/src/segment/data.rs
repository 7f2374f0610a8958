//! The rows of a segment.

use vstd::prelude::*;

use crate::id::ExternalId;
use crate::json::Json;
use crate::segment::{copy_payload, copy_vector, payload_view, Row};

verus! {

/// The rows of a segment: for each a vector, its norm, an identifier and perhaps a
/// payload.
pub struct SegmentCore {
    /// The dimension of the vectors.
    pub dim: usize,
    /// The vectors, one after the other.
    pub vectors: Vec<u32>,
    /// The norms of the vectors.
    pub norms: Vec<u32>,
    /// The identifiers.
    pub ids: Vec<ExternalId>,
    /// The payloads.
    pub payloads: Vec<Option<Json>>,
}

/// Where the rows of a table of width `w` lie.
pub proof fn lemma_row_within(i: int, n: int, w: int)
    requires
        0 <= i < n,
        0 <= w,
    ensures
        0 <= i * w <= i * w + w <= n * w,
        i * w + w == (i + 1) * w,
{
    assert(i * w + w == (i + 1) * w) by (nonlinear_arith);
    assert((i + 1) * w <= n * w) by (nonlinear_arith)
        requires
            i + 1 <= n,
            0 <= w,
    ;
    assert(0 <= i * w) by (nonlinear_arith)
        requires
            0 <= i,
            0 <= w,
    ;
}

/// Rows of a table of width `w` do not overlap.
pub proof fn lemma_rows_apart(i: int, j: int, w: int)
    requires
        0 <= i < j,
        0 <= w,
    ensures
        i * w + w <= j * w,
{
    assert(i * w + w <= j * w) by (nonlinear_arith)
        requires
            i + 1 <= j,
            0 <= w,
    ;
}

impl SegmentCore {
    /// All columns have one entry for each row.
    pub open spec fn valid(&self) -> bool {
        &&& self.norms@.len() == self.ids@.len()
        &&& self.payloads@.len() == self.ids@.len()
        &&& self.vectors@.len() == self.ids@.len() * self.dim
    }

    /// The vector of row `i`.
    pub open spec fn row(&self, i: int) -> Seq<u32> {
        self.vectors@.subrange(i * self.dim, i * self.dim + self.dim)
    }

    /// The rows.
    pub open spec fn rows(&self) -> Seq<Row> {
        Seq::new(
            self.ids@.len(),
            |i: int|
                Row {
                    id: self.ids@[i]@,
                    vector: self.row(i),
                    norm: self.norms@[i],
                    payload: payload_view(self.payloads@[i]),
                },
        )
    }

    /// No rows.
    pub fn new(dim: usize) -> (r: Self)
        ensures
            r.valid(),
            r.dim == dim,
            r.rows() == Seq::<Row>::empty(),
    {
        let r = SegmentCore {
            dim,
            vectors: Vec::new(),
            norms: Vec::new(),
            ids: Vec::new(),
            payloads: Vec::new(),
        };
        assert(r.rows() =~= Seq::<Row>::empty());
        assert(0 * dim == 0) by (nonlinear_arith);
        r
    }

    /// The same rows.
    pub fn copy(&self) -> (r: Self)
        requires
            self.valid(),
        ensures
            r.valid(),
            r.dim == self.dim,
            r.rows() == self.rows(),
            r.vectors@ == self.vectors@,
            r.norms@ == self.norms@,
    {
        let n: usize = self.ids.len();
        let mut ids: Vec<ExternalId> = Vec::new();
        let mut payloads: Vec<Option<Json>> = Vec::new();
        let mut i: usize = 0;
        while i < n
            invariant
                i <= n,
                n == self.ids@.len(),
                self.valid(),
                ids@.len() == i,
                payloads@.len() == i,
                forall|k: int| 0 <= k < i ==> (#[trigger] ids@[k])@ == self.ids@[k]@,
                forall|k: int|
                    0 <= k < i ==> payload_view(#[trigger] payloads@[k]) == payload_view(
                        self.payloads@[k],
                    ),
            decreases n - i,
        {
            ids.push(self.ids[i].clone());
            payloads.push(copy_payload(&self.payloads[i]));
            i = i + 1;
        }
        let r = SegmentCore {
            dim: self.dim,
            vectors: copy_vector(self.vectors.as_slice()),
            norms: copy_vector(self.norms.as_slice()),
            ids,
            payloads,
        };
        assert(r.rows() =~= self.rows());
        r
    }

    /// Adds a row.
    pub fn push_row(&mut self, id: &ExternalId, vector: &[u32], norm: u32, payload: &Option<Json>)
        requires
            old(self).valid(),
            vector@.len() == old(self).dim,
        ensures
            final(self).valid(),
            final(self).dim == old(self).dim,
            final(self).rows() == old(self).rows().push(
                (Row { id: id@, vector: vector@, norm, payload: payload_view(*payload) }),
            ),
    {
        let ghost n = self.ids@.len() as int;
        let ghost w = self.dim as int;
        let ghost before = self.vectors@;
        self.vectors.extend_from_slice(vector);
        assert(self.vectors@ =~= before + vector@);
        self.norms.push(norm);
        self.ids.push(id.clone());
        self.payloads.push(copy_payload(payload));
        proof {
            assert((n + 1) * w == n * w + w) by (nonlinear_arith);
            let target = old(self).rows().push(
                Row { id: id@, vector: vector@, norm, payload: payload_view(*payload) },
            );
            assert forall|i: int| 0 <= i < target.len() implies #[trigger] self.rows()[i]
                == target[i] by {
                lemma_row_within(i, n + 1, w);
                if i < n {
                    lemma_row_within(i, n, w);
                    assert(self.row(i) =~= old(self).row(i));
                } else {
                    assert(self.row(i) =~= vector@);
                }
            }
            assert(self.rows() =~= target);
        }
    }

    /// Puts another vector and another payload into a row.
    pub fn set_row(&mut self, idx: u32, vector: &[u32], norm: u32, payload: &Option<Json>)
        requires
            old(self).valid(),
            idx < old(self).ids@.len(),
            vector@.len() == old(self).dim,
        ensures
            final(self).valid(),
            final(self).dim == old(self).dim,
            final(self).ids == old(self).ids,
            final(self).rows() == old(self).rows().update(
                idx as int,
                (Row {
                    id: old(self).ids@[idx as int]@,
                    vector: vector@,
                    norm,
                    payload: payload_view(*payload),
                }),
            ),
    {
        let ghost n = self.ids@.len() as int;
        let ghost w = self.dim as int;
        proof {
            lemma_row_within(idx as int, n, w);
        }
        let len: usize = self.vectors.len();
        let i: usize = idx as usize;
        let start: usize = i * self.dim;
        let mut j: usize = 0;
        while j < vector.len()
            invariant
                j <= vector@.len(),
                vector@.len() == w,
                start == idx * w,
                start + w <= len,
                self.vectors@.len() == len,
                self.vectors@.len() == old(self).vectors@.len(),
                self.dim == old(self).dim,
                self.ids == old(self).ids,
                self.norms == old(self).norms,
                self.payloads == old(self).payloads,
                forall|k: int|
                    0 <= k < len && !(start <= k < start + j) ==> #[trigger] self.vectors@[k]
                        == old(self).vectors@[k],
                forall|k: int|
                    start <= k < start + j ==> #[trigger] self.vectors@[k] == vector@[k - start],
            decreases vector.len() - j,
        {
            self.vectors.set(start + j, vector[j]);
            j = j + 1;
        }
        self.norms.set(i, norm);
        self.payloads.set(i, copy_payload(payload));
        proof {
            let target = old(self).rows().update(
                idx as int,
                Row {
                    id: old(self).ids@[idx as int]@,
                    vector: vector@,
                    norm,
                    payload: payload_view(*payload),
                },
            );
            assert forall|k: int| 0 <= k < target.len() implies #[trigger] self.rows()[k]
                == target[k] by {
                lemma_row_within(k, n, w);
                if k == idx {
                    assert(self.row(k) =~= vector@);
                } else {
                    if k < idx {
                        lemma_rows_apart(k, idx as int, w);
                    } else {
                        lemma_rows_apart(idx as int, k, w);
                    }
                    assert(self.row(k) =~= old(self).row(k));
                }
            }
            assert(self.rows() =~= target);
        }
    }

    /// Puts another payload into a row.
    pub fn set_row_payload(&mut self, idx: u32, payload: &Option<Json>)
        requires
            old(self).valid(),
            idx < old(self).ids@.len(),
        ensures
            final(self).valid(),
            final(self).dim == old(self).dim,
            final(self).ids == old(self).ids,
            final(self).vectors == old(self).vectors,
            final(self).norms == old(self).norms,
            final(self).rows() == old(self).rows().update(
                idx as int,
                (Row { payload: payload_view(*payload), ..old(self).rows()[idx as int] }),
            ),
    {
        self.payloads.set(idx as usize, copy_payload(payload));
        assert(self.rows() =~= old(self).rows().update(
            idx as int,
            Row { payload: payload_view(*payload), ..old(self).rows()[idx as int] },
        ));
    }

    /// Takes all rows out.
    pub fn clear(&mut self)
        ensures
            final(self).valid(),
            final(self).dim == old(self).dim,
            final(self).rows() == Seq::<Row>::empty(),
    {
        self.vectors.clear();
        self.norms.clear();
        self.ids.clear();
        self.payloads.clear();
        assert(self.rows() =~= Seq::<Row>::empty());
        assert(0 * self.dim == 0) by (nonlinear_arith);
    }

    /// The number of rows, tombstones included.
    pub fn len(&self) -> (n: usize)
        ensures
            n == self.ids@.len(),
    {
        self.ids.len()
    }

    /// Whether there are no rows.
    pub fn is_empty(&self) -> (r: bool)
        ensures
            r == (self.ids@.len() == 0),
    {
        self.ids.len() == 0
    }

    /// The vector of a row.
    pub fn vector(&self, idx: u32) -> (r: &[u32])
        requires
            self.valid(),
            idx < self.ids@.len(),
        ensures
            r@ == self.row(idx as int),
    {
        proof {
            lemma_row_within(idx as int, self.ids@.len() as int, self.dim as int);
        }
        let len: usize = self.vectors.len();
        let start: usize = idx as usize * self.dim;
        vstd::slice::slice_subrange(self.vectors.as_slice(), start, start + self.dim)
    }

    /// The norm of the vector of a row.
    pub fn norm(&self, idx: u32) -> (r: u32)
        requires
            self.valid(),
            idx < self.ids@.len(),
        ensures
            r == self.norms@[idx as int],
    {
        self.norms[idx as usize]
    }
}

} // verus!
