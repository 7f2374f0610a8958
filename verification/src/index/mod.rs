//! Indexes: how the nearest rows of a segment are found.

pub mod flat;
pub mod hnsw;
pub mod queue;

use vstd::prelude::*;

use crate::float::rank;
use crate::kernel::Metric;

verus! {

/// A filter of rows.
pub trait RowFilter {
    /// Whether the filter can be asked about every row, and always answers the same.
    spec fn sound(&self) -> bool;

    /// Whether the filter lets a row through.
    spec fn lets(&self, i: u32) -> bool;

    /// Asks the filter about a row.
    fn pass(&self, i: u32) -> (r: bool)
        requires
            self.sound(),
        ensures
            r == self.lets(i),
    ;
}

/// All rows.
pub struct AllRows;

impl RowFilter for AllRows {
    open spec fn sound(&self) -> bool {
        true
    }

    open spec fn lets(&self, i: u32) -> bool {
        true
    }

    fn pass(&self, _i: u32) -> (r: bool) {
        true
    }
}

/// The rows for which a function says yes.
pub struct Passing<F>(pub F);

impl<F: Fn(u32) -> bool> RowFilter for Passing<F> {
    open spec fn sound(&self) -> bool {
        &&& forall|i: u32| #[trigger] call_requires(self.0, (i,))
        &&& forall|i: u32|
            !(#[trigger] call_ensures(self.0, (i,), true) && call_ensures(self.0, (i,), false))
    }

    open spec fn lets(&self, i: u32) -> bool {
        call_ensures(self.0, (i,), true)
    }

    fn pass(&self, i: u32) -> (r: bool) {
        (self.0)(i)
    }
}

/// Whether a filter, if there is one, is sound.
pub open spec fn filter_valid<P: RowFilter>(pass: Option<P>) -> bool {
    match pass {
        None => true,
        Some(p) => p.sound(),
    }
}

/// Whether a filter lets a row through; without a filter every row passes.
pub open spec fn admits<P: RowFilter>(pass: Option<P>, i: u32) -> bool {
    match pass {
        None => true,
        Some(p) => p.lets(i),
    }
}

/// The rows that a filter lets through.
pub open spec fn admitted<P: RowFilter>(pass: Option<P>) -> spec_fn(u32) -> bool {
    |i: u32| admits(pass, i)
}

/// Asks a filter about a row.
pub fn admit_row<P: RowFilter>(pass: &Option<P>, i: u32) -> (r: bool)
    requires
        filter_valid(*pass),
    ensures
        r == admits(*pass, i),
{
    match pass {
        None => true,
        Some(p) => p.pass(i),
    }
}

/// Whether rows with their scores are what a search for `k` of `n` rows may give: at most
/// `k`, all of them rows that pass the filter, with their scores, the best first, and
/// among equally good ones the lower row first.
pub open spec fn presents(
    scores: spec_fn(u32) -> u32,
    pass: spec_fn(u32) -> bool,
    metric: Metric,
    k: nat,
    n: nat,
    out: Seq<(u32, u32)>,
) -> bool {
    &&& out.len() <= k
    &&& forall|i: int|
        0 <= i < out.len() ==> (#[trigger] out[i]).0 < n && pass(out[i].0) && out[i].1 == scores(
            out[i].0,
        )
    &&& forall|i: int, j: int|
        0 <= i < j < out.len() ==> rank(metric.key((#[trigger] out[i]).1)) < rank(
            metric.key((#[trigger] out[j]).1),
        ) || (out[i].1 == out[j].1 && out[i].0 < out[j].0)
}

} // verus!
