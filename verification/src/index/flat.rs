//! The exact search: every row is scored.
//!
//! Rows that do not pass the filter are left out before anything is scored, so that
//! a filter never costs results.

use vstd::prelude::*;

use crate::float::{
    below, is_nan, law_negation, law_orders_agree, lt, nan, negate, negated, rank, ranked_before,
};
use crate::index::{admit_row, admitted, filter_valid, presents, RowFilter};
use crate::kernel::{Kernel, Metric};
use crate::segment::data::{lemma_row_within, SegmentCore};

verus! {

/// The key by which rows are kept: larger where the score is better. The same map
/// leads from the key back to the score.
pub open spec fn merit(metric: Metric, score: u32) -> u32 {
    match metric {
        Metric::L2 => negated(score),
        Metric::Cosine | Metric::Dot => score,
    }
}

fn to_merit(metric: Metric, score: u32) -> (r: u32)
    ensures
        r == merit(metric, score),
{
    match metric {
        Metric::L2 => negate(score),
        Metric::Cosine | Metric::Dot => score,
    }
}

/// How many of the kept rows, best first, have a merit that comes at or after the
/// given one in the total order.
pub open spec fn worse_from(kept: Seq<(u32, u32)>, s: u32) -> int
    decreases kept.len(),
{
    if kept.len() == 0 {
        0
    } else if rank(kept.last().1) < rank(s) {
        worse_from(kept.drop_last(), s)
    } else {
        kept.len() as int
    }
}

/// The kept rows with one more in its place: behind those that are at least as good.
pub open spec fn kept_with(kept: Seq<(u32, u32)>, idx: u32, s: u32) -> Seq<(u32, u32)> {
    kept.insert(worse_from(kept, s), (idx, s))
}

/// Where the worst of the kept rows stand first: the first row whose merit is that of
/// the last row.
pub open spec fn worst_at(kept: Seq<(u32, u32)>) -> int
    decreases kept.len(),
{
    if kept.len() <= 1 {
        0
    } else if kept[kept.len() - 2].1 == kept.last().1 {
        worst_at(kept.drop_last())
    } else {
        kept.len() - 1
    }
}

/// The rows that are kept once one more row was looked at. A row without a proper
/// score is left out. Where `k` rows are kept, a better row takes the place of the
/// first of the worst ones.
pub open spec fn kept_after(kept: Seq<(u32, u32)>, idx: u32, score: u32, metric: Metric, k: nat) -> Seq<
    (u32, u32),
> {
    let s = merit(metric, score);
    if nan(score) {
        kept
    } else if kept.len() < k {
        kept_with(kept, idx, s)
    } else if kept.len() > 0 && below(kept.last().1, s) {
        kept_with(kept.remove(worst_at(kept)), idx, s)
    } else {
        kept
    }
}

/// The rows that are kept once the first `n` rows were looked at.
pub open spec fn kept_of(
    scores: spec_fn(u32) -> u32,
    pass: spec_fn(u32) -> bool,
    metric: Metric,
    k: nat,
    n: nat,
) -> Seq<(u32, u32)>
    decreases n,
{
    if n == 0 {
        Seq::empty()
    } else {
        let before = kept_of(scores, pass, metric, k, (n - 1) as nat);
        let idx = (n - 1) as u32;
        if pass(idx) {
            kept_after(before, idx, scores(idx), metric, k)
        } else {
            before
        }
    }
}

/// The kept rows with their scores.
pub open spec fn with_scores(metric: Metric, kept: Seq<(u32, u32)>) -> Seq<(u32, u32)> {
    Seq::new(kept.len(), |i: int| (kept[i].0, merit(metric, kept[i].1)))
}

/// The scores of the rows of a table for a query vector.
pub open spec fn row_scores<N, S>(
    kernel: Kernel<N, S>,
    metric: Metric,
    vectors: Seq<u32>,
    norms: Seq<u32>,
    dim: int,
    query: Seq<u32>,
) -> spec_fn(u32) -> u32 where
    N: Fn(&[u32]) -> u32,
    S: Fn(Metric, &[u32], u32, &[u32], u32) -> u32,
 {
    |i: u32|
        kernel.score_of(
            metric,
            query,
            kernel.norm_of(query),
            vectors.subrange(i * dim, i * dim + dim),
            norms[i as int],
        )
}

/// The rows are in order: better ones first, and among equal ones the lower row.
pub open spec fn best_first(kept: Seq<(u32, u32)>) -> bool {
    forall|i: int, j: int|
        0 <= i < j < kept.len() ==> rank((#[trigger] kept[j]).1) < rank((#[trigger] kept[i]).1) || (
        kept[i].1 == kept[j].1 && kept[i].0 < kept[j].0)
}

/// Whether a row is among those a search chooses from.
pub open spec fn eligible(
    scores: spec_fn(u32) -> u32,
    pass: spec_fn(u32) -> bool,
    n: nat,
    i: u32,
) -> bool {
    i < n && pass(i) && !nan(scores(i))
}

/// The rows that are kept are the best `k`: they are eligible, come best first, and are
/// at most `k`. An eligible row that is not kept has no better score than any that is,
/// and rows are only left out once `k` are kept.
pub proof fn law_best_are_kept(
    scores: spec_fn(u32) -> u32,
    pass: spec_fn(u32) -> bool,
    metric: Metric,
    k: nat,
    n: nat,
)
    requires
        n <= u32::MAX,
    ensures
        best_first(kept_of(scores, pass, metric, k, n)),
        kept_of(scores, pass, metric, k, n).len() <= k,
        forall|i: int|
            0 <= i < kept_of(scores, pass, metric, k, n).len() ==> eligible(
                scores,
                pass,
                n,
                (#[trigger] kept_of(scores, pass, metric, k, n)[i]).0,
            ) && kept_of(scores, pass, metric, k, n)[i].1 == merit(
                metric,
                scores(kept_of(scores, pass, metric, k, n)[i].0),
            ),
        forall|i: u32| #[trigger]
            eligible(scores, pass, n, i) ==> kept_of(scores, pass, metric, k, n).contains(
                (i, merit(metric, scores(i))),
            ) || outdone(kept_of(scores, pass, metric, k, n), k, merit(metric, scores(i))),
    decreases n,
{
    let kept = kept_of(scores, pass, metric, k, n);
    if n > 0 {
        let before = kept_of(scores, pass, metric, k, (n - 1) as nat);
        law_best_are_kept(scores, pass, metric, k, (n - 1) as nat);
        let idx = (n - 1) as u32;
        let s = merit(metric, scores(idx));
        law_negation(scores(idx), scores(idx));
        assert(pass(idx) ==> nan(s) == nan(scores(idx)));
        if pass(idx) && !nan(scores(idx)) {
            if before.len() < k {
                lemma_kept_with(before, idx, s);
                assert forall|i: int| 0 <= i < kept.len() implies eligible(
                    scores,
                    pass,
                    n,
                    (#[trigger] kept[i]).0,
                ) && kept[i].1 == merit(metric, scores(kept[i].0)) by {
                    assert(kept.contains(kept[i]));
                    if before.contains(kept[i]) {
                        let a = choose|a: int| 0 <= a < before.len() && before[a] == kept[i];
                        assert(before[a].0 == kept[i].0);
                    }
                }
                assert forall|i: u32| #[trigger] eligible(scores, pass, n, i) implies kept.contains(
                    (i, merit(metric, scores(i))),
                ) || outdone(kept, k, merit(metric, scores(i))) by {
                    if i != idx {
                        assert(eligible(scores, pass, (n - 1) as nat, i));
                    }
                }
            } else if before.len() > 0 && below(before.last().1, s) {
                let w = worst_at(before);
                lemma_worst_at(before);
                let rest = before.remove(w);
                assert(best_first(rest)) by {
                    assert forall|i: int, j: int| 0 <= i < j < rest.len() implies rank(
                        (#[trigger] rest[j]).1,
                    ) < rank((#[trigger] rest[i]).1) || (rest[i].1 == rest[j].1 && rest[i].0
                        < rest[j].0) by {
                        let a = if i < w {
                            i
                        } else {
                            i + 1
                        };
                        let b = if j < w {
                            j
                        } else {
                            j + 1
                        };
                        assert(rest[i] == before[a] && rest[j] == before[b]);
                    }
                }
                assert forall|i: int| 0 <= i < rest.len() implies (#[trigger] rest[i]).0 < idx by {
                    let a = if i < w {
                        i
                    } else {
                        i + 1
                    };
                    assert(rest[i] == before[a]);
                }
                lemma_kept_with(rest, idx, s);
                lemma_last_rank(before, rest, kept, w, idx, s);
                let old_last = before.last().1;
                let new_last = kept.last().1;
                assert forall|i: u32| #[trigger] eligible(scores, pass, n, i) implies kept.contains(
                    (i, merit(metric, scores(i))),
                ) || outdone(kept, k, merit(metric, scores(i))) by {
                    let e = (i, merit(metric, scores(i)));
                    crate::float::law_orders_agree(old_last, new_last);
                    crate::float::law_orders_agree(new_last, e.1);
                    crate::float::law_orders_agree(old_last, s);
                    if i != idx {
                        assert(eligible(scores, pass, (n - 1) as nat, i));
                        if before.contains(e) {
                            let a = choose|a: int| 0 <= a < before.len() && before[a] == e;
                            if a < w {
                                assert(rest[a] == e);
                            } else if a > w {
                                assert(rest[a - 1] == e);
                            }
                        }
                    }
                }
                assert forall|i: int| 0 <= i < kept.len() implies eligible(
                    scores,
                    pass,
                    n,
                    (#[trigger] kept[i]).0,
                ) && kept[i].1 == merit(metric, scores(kept[i].0)) by {
                    assert(kept.contains(kept[i]));
                    if rest.contains(kept[i]) {
                        let a = choose|a: int| 0 <= a < rest.len() && rest[a] == kept[i];
                        let b = if a < w {
                            a
                        } else {
                            a + 1
                        };
                        assert(before[b] == kept[i]);
                    }
                }
            } else {
                assert forall|i: u32| #[trigger] eligible(scores, pass, n, i) implies kept.contains(
                    (i, merit(metric, scores(i))),
                ) || outdone(kept, k, merit(metric, scores(i))) by {
                    if i != idx {
                        assert(eligible(scores, pass, (n - 1) as nat, i));
                    }
                }
            }
        } else {
            assert forall|i: u32| #[trigger] eligible(scores, pass, n, i) implies kept.contains(
                (i, merit(metric, scores(i))),
            ) || outdone(kept, k, merit(metric, scores(i))) by {
                assert(eligible(scores, pass, (n - 1) as nat, i));
            }
        }
    }
}

/// What the exact search gives are rows that pass the filter, with their scores, in
/// order.
pub proof fn law_exact_presents(
    scores: spec_fn(u32) -> u32,
    pass: spec_fn(u32) -> bool,
    metric: Metric,
    k: nat,
    n: nat,
)
    requires
        n <= u32::MAX,
    ensures
        presents(
            scores,
            pass,
            metric,
            k,
            n,
            with_scores(metric, kept_of(scores, pass, metric, k, n)),
        ),
{
    let kept = kept_of(scores, pass, metric, k, n);
    let out = with_scores(metric, kept);
    law_best_are_kept(scores, pass, metric, k, n);
    assert forall|i: int| 0 <= i < out.len() implies (#[trigger] out[i]).0 < n && pass(out[i].0)
        && out[i].1 == scores(out[i].0) by {
        assert(eligible(scores, pass, n, kept[i].0));
        law_negation(scores(kept[i].0), scores(kept[i].0));
    }
    assert forall|i: int, j: int| 0 <= i < j < out.len() implies rank(
        metric.key((#[trigger] out[i]).1),
    ) < rank(metric.key((#[trigger] out[j]).1)) || (out[i].1 == out[j].1 && out[i].0
        < out[j].0) by {
        assert(rank(kept[j].1) < rank(kept[i].1) || (kept[i].1 == kept[j].1 && kept[i].0
            < kept[j].0));
        law_negation(kept[i].1, kept[j].1);
        law_negation(kept[j].1, kept[i].1);
    }
}

/// Whether `k` rows are kept, and a merit is not above that of the last of them.
pub open spec fn outdone(kept: Seq<(u32, u32)>, k: nat, s: u32) -> bool {
    kept.len() == k && (k == 0 || !below(kept.last().1, s))
}

proof fn lemma_worse_from(kept: Seq<(u32, u32)>, s: u32)
    requires
        best_first(kept),
    ensures
        0 <= worse_from(kept, s) <= kept.len(),
        forall|i: int| 0 <= i < worse_from(kept, s) ==> rank((#[trigger] kept[i]).1) >= rank(s),
        forall|i: int|
            worse_from(kept, s) <= i < kept.len() ==> rank((#[trigger] kept[i]).1) < rank(s),
    decreases kept.len(),
{
    if kept.len() > 0 {
        let rest = kept.drop_last();
        assert forall|i: int, j: int| 0 <= i < j < rest.len() implies rank((#[trigger] rest[j]).1)
            < rank((#[trigger] rest[i]).1) || (rest[i].1 == rest[j].1 && rest[i].0
            < rest[j].0) by {
            assert(rest[i] == kept[i] && rest[j] == kept[j]);
        }
        if rank(kept.last().1) < rank(s) {
            lemma_worse_from(rest, s);
            assert forall|i: int| 0 <= i < worse_from(kept, s) implies rank((#[trigger] kept[i]).1)
                >= rank(s) by {
                assert(rest[i] == kept[i]);
            }
            assert forall|i: int| worse_from(kept, s) <= i < kept.len() implies rank(
                (#[trigger] kept[i]).1,
            ) < rank(s) by {
                if i < rest.len() {
                    assert(rest[i] == kept[i]);
                }
            }
        } else {
            let last = kept.len() - 1;
            assert forall|i: int| 0 <= i < kept.len() implies rank((#[trigger] kept[i]).1) >= rank(
                s,
            ) by {
                if i < last {
                    assert(rank(kept[last].1) <= rank(kept[i].1));
                }
            }
        }
    }
}

proof fn lemma_kept_with(kept: Seq<(u32, u32)>, idx: u32, s: u32)
    requires
        best_first(kept),
        forall|i: int| 0 <= i < kept.len() ==> (#[trigger] kept[i]).0 < idx,
    ensures
        best_first(kept_with(kept, idx, s)),
        kept_with(kept, idx, s).len() == kept.len() + 1,
        forall|e: (u32, u32)| #[trigger]
            kept_with(kept, idx, s).contains(e) <==> kept.contains(e) || e == (idx, s),
        rank(kept_with(kept, idx, s).last().1) <= rank(s),
        kept.len() > 0 && rank(kept.last().1) < rank(s) ==> kept_with(kept, idx, s).last()
            == kept.last(),
{
    let w = worse_from(kept, s);
    lemma_worse_from(kept, s);
    let r = kept_with(kept, idx, s);
    assert forall|i: int, j: int| 0 <= i < j < r.len() implies rank((#[trigger] r[j]).1) < rank(
        (#[trigger] r[i]).1,
    ) || (r[i].1 == r[j].1 && r[i].0 < r[j].0) by {
        if i == w {
            assert(r[j] == kept[j - 1]);
        } else if j == w {
            assert(r[i] == kept[i]);
            crate::float::law_orders_agree(kept[i].1, s);
        } else {
            let a = if i < w {
                i
            } else {
                i - 1
            };
            let b = if j < w {
                j
            } else {
                j - 1
            };
            assert(r[i] == kept[a] && r[j] == kept[b]);
        }
    }
    assert forall|e: (u32, u32)| #[trigger] r.contains(e) <==> kept.contains(e) || e == (
        idx,
        s,
    ) by {
        if r.contains(e) {
            let i = choose|i: int| 0 <= i < r.len() && r[i] == e;
            if i < w {
                assert(kept[i] == e);
            } else if i > w {
                assert(kept[i - 1] == e);
            }
        }
        if kept.contains(e) {
            let i = choose|i: int| 0 <= i < kept.len() && kept[i] == e;
            if i < w {
                assert(r[i] == e);
            } else {
                assert(r[i + 1] == e);
            }
        }
        if e == (idx, s) {
            assert(r[w] == e);
        }
    }
    if w < kept.len() {
        assert(r.last() == kept.last());
    }
}

proof fn lemma_worst_at(kept: Seq<(u32, u32)>)
    requires
        kept.len() > 0,
    ensures
        0 <= worst_at(kept) < kept.len(),
        kept[worst_at(kept)].1 == kept.last().1,
    decreases kept.len(),
{
    if kept.len() > 1 && kept[kept.len() - 2].1 == kept.last().1 {
        lemma_worst_at(kept.drop_last());
    }
}

proof fn lemma_last_rank(
    before: Seq<(u32, u32)>,
    rest: Seq<(u32, u32)>,
    kept: Seq<(u32, u32)>,
    w: int,
    idx: u32,
    s: u32,
)
    requires
        best_first(before),
        0 <= w < before.len(),
        rest == before.remove(w),
        kept == kept_with(rest, idx, s),
        best_first(rest),
        rank(before.last().1) < rank(s) || below(before.last().1, s),
    ensures
        kept.len() == before.len(),
        rank(kept.last().1) >= rank(before.last().1),
{
    crate::float::law_orders_agree(before.last().1, s);
    lemma_worse_from(rest, s);
    let p = worse_from(rest, s);
    if p < rest.len() {
        let j = rest.len() - 1;
        let a = if j < w {
            j
        } else {
            j + 1
        };
        assert(kept.last() == rest[j]);
        assert(rest[j] == before[a]);
        if a < before.len() - 1 {
            assert(rank(before[before.len() - 1].1) <= rank(before[a].1));
        }
    } else {
        assert(kept.last() == (idx, s));
    }
}

/// The best rows of a table of vectors for a query vector, best first: at most `k` of
/// those that pass the filter, each with its score.
pub fn search<N, S, P>(
    kernel: &Kernel<N, S>,
    metric: Metric,
    vectors: &[u32],
    norms: &[u32],
    dim: usize,
    query: &[u32],
    pass: &Option<P>,
    k: usize,
) -> (out: Vec<(u32, u32)>) where
    N: Fn(&[u32]) -> u32,
    S: Fn(Metric, &[u32], u32, &[u32], u32) -> u32,
    P: RowFilter,

    requires
        kernel.valid(),
        filter_valid(*pass),
        vectors@.len() == norms@.len() * dim,
        norms@.len() <= u32::MAX,
    ensures
        dim == 0 || k == 0 ==> out@.len() == 0,
        dim > 0 && k > 0 ==> out@ == with_scores(
            metric,
            kept_of(
                row_scores(*kernel, metric, vectors@, norms@, dim as int, query@),
                admitted(*pass),
                metric,
                k as nat,
                norms@.len(),
            ),
        ),
{
    if dim == 0 || k == 0 {
        return Vec::new();
    }
    let ghost scores = row_scores(*kernel, metric, vectors@, norms@, dim as int, query@);
    let ghost pf = admitted(*pass);
    let n: u32 = norms.len() as u32;
    let q_norm: u32 = kernel.norm(query);
    let len: usize = vectors.len();
    let mut kept: Vec<(u32, u32)> = Vec::new();
    let mut idx: u32 = 0;
    while idx < n
        invariant
            kernel.valid(),
            filter_valid(*pass),
            vectors@.len() == norms@.len() * dim,
            len == vectors@.len(),
            n == norms@.len(),
            k > 0,
            q_norm == kernel.norm_of(query@),
            scores == row_scores(*kernel, metric, vectors@, norms@, dim as int, query@),
            pf == admitted(*pass),
            idx <= n,
            kept@ == kept_of(scores, pf, metric, k as nat, idx as nat),
        decreases n - idx,
    {
        if admit_row(pass, idx) {
            proof {
                lemma_row_within(idx as int, n as int, dim as int);
            }
            let start: usize = idx as usize * dim;
            let v = vstd::slice::slice_subrange(vectors, start, start + dim);
            let raw: u32 = kernel.score_with(metric, query, q_norm, v, norms[idx as usize]);
            assert(raw == scores(idx));
            keep(&mut kept, idx, raw, metric, k);
        }
        idx = idx + 1;
    }
    let mut out: Vec<(u32, u32)> = Vec::new();
    let mut i: usize = 0;
    while i < kept.len()
        invariant
            i <= kept@.len(),
            out@ == with_scores(metric, kept@).take(i as int),
        decreases kept.len() - i,
    {
        out.push((kept[i].0, to_merit(metric, kept[i].1)));
        assert(out@ =~= with_scores(metric, kept@).take(i + 1));
        i = i + 1;
    }
    assert(out@ =~= with_scores(metric, kept@));
    out
}

/// Looks at one more row.
fn keep(kept: &mut Vec<(u32, u32)>, idx: u32, score: u32, metric: Metric, k: usize)
    requires
        k > 0,
    ensures
        final(kept)@ == kept_after(old(kept)@, idx, score, metric, k as nat),
{
    if is_nan(score) {
        return;
    }
    let s: u32 = to_merit(metric, score);
    if kept.len() < k {
        put(kept, idx, s);
    } else if lt(kept[kept.len() - 1].1, s) {
        let mut w: usize = kept.len() - 1;
        assert(kept@.take(w + 1) =~= kept@);
        while w > 0 && kept[w - 1].1 == kept[w].1
            invariant
                w < kept@.len(),
                worst_at(kept@.take(w + 1)) == worst_at(kept@),
            decreases w,
        {
            assert(kept@.take(w + 1).drop_last() =~= kept@.take(w as int));
            w = w - 1;
        }
        assert(worst_at(kept@.take(w + 1)) == w);
        kept.remove(w);
        put(kept, idx, s);
    }
}

fn put(kept: &mut Vec<(u32, u32)>, idx: u32, s: u32)
    ensures
        final(kept)@ == kept_with(old(kept)@, idx, s),
{
    let mut p: usize = kept.len();
    assert(kept@.take(p as int) =~= kept@);
    while p > 0 && ranked_before(kept[p - 1].1, s)
        invariant
            p <= kept@.len(),
            worse_from(kept@.take(p as int), s) == worse_from(kept@, s),
        decreases p,
    {
        assert(kept@.take(p as int).drop_last() =~= kept@.take(p - 1));
        p = p - 1;
    }
    assert(worse_from(kept@.take(p as int), s) == p) by {
        if p > 0 {
            assert(kept@.take(p as int).last() == kept@[p - 1]);
        }
    }
    kept.insert(p, (idx, s));
}

/// The exact search of the rows of a segment, as an index.
pub struct FlatIndex<'a> {
    /// The rows.
    pub data: &'a SegmentCore,
    /// The metric.
    pub metric: Metric,
}

impl<'a> FlatIndex<'a> {
    /// The index of some rows.
    pub fn new(data: &'a SegmentCore, metric: Metric) -> (r: Self)
        ensures
            r.data == data,
            r.metric == metric,
    {
        FlatIndex { data, metric }
    }

    /// The best rows that pass the filter, best first: at most `k` of them, each with its
    /// score.
    pub fn search<N, S, P>(
        &self,
        kernel: &Kernel<N, S>,
        query: &[u32],
        k: usize,
        pass: &Option<P>,
    ) -> (out: Vec<(u32, u32)>) where
        N: Fn(&[u32]) -> u32,
        S: Fn(Metric, &[u32], u32, &[u32], u32) -> u32,
        P: RowFilter,

        requires
            kernel.valid(),
            filter_valid(*pass),
            self.data.valid(),
            self.data.ids@.len() <= u32::MAX,
        ensures
            self.data.dim == 0 || k == 0 ==> out@.len() == 0,
            self.data.dim > 0 && k > 0 ==> out@ == with_scores(
                self.metric,
                kept_of(
                    row_scores(
                        *kernel,
                        self.metric,
                        self.data.vectors@,
                        self.data.norms@,
                        self.data.dim as int,
                        query@,
                    ),
                    admitted(*pass),
                    self.metric,
                    k as nat,
                    self.data.norms@.len(),
                ),
            ),
    {
        search(
            kernel,
            self.metric,
            self.data.vectors.as_slice(),
            self.data.norms.as_slice(),
            self.data.dim,
            query,
            pass,
            k,
        )
    }

    /// How many bytes the index takes besides the rows: none.
    pub fn est_bytes(&self) -> (r: u64)
        ensures
            r == 0,
    {
        0
    }

    /// The name of the kind of index.
    pub fn kind(&self) -> (r: &'static str)
        ensures
            r@ == "flat"@,
    {
        "flat"
    }
}

/// The exact search scores every row that passes the filter: with the norm of the query vector, and
/// the vector and the norm of the row. What it gives are such rows, the best first, and at most `k`
/// of them. A row that passes and whose score is a number is left out only if there are `k` others
/// that are no worse.
pub proof fn law_flat_search<N, S>(
    kernel: Kernel<N, S>,
    metric: Metric,
    vectors: Seq<u32>,
    norms: Seq<u32>,
    dim: int,
    query: Seq<u32>,
    pass: spec_fn(u32) -> bool,
    k: nat,
    out: Seq<(u32, u32)>,
    row: u32,
) where N: Fn(&[u32]) -> u32, S: Fn(Metric, &[u32], u32, &[u32], u32) -> u32
    requires
        norms.len() <= u32::MAX,
        out == with_scores(
            metric,
            kept_of(
                row_scores(kernel, metric, vectors, norms, dim, query),
                pass,
                metric,
                k,
                norms.len(),
            ),
        ),
    ensures
        out.len() <= k,
        forall|i: int|
            0 <= i < out.len() ==> {
                let r = (#[trigger] out[i]).0;
                &&& r < norms.len()
                &&& pass(r)
                &&& out[i].1 == kernel.score_of(
                    metric,
                    query,
                    kernel.norm_of(query),
                    vectors.subrange(r * dim, r * dim + dim),
                    norms[r as int],
                )
                &&& !nan(out[i].1)
            },
        forall|i: int, j: int|
            0 <= i < j < out.len() ==> (#[trigger] out[i]).0 != (#[trigger] out[j]).0
                && !metric.better(out[j].1, out[i].1),
        ({
            let s = kernel.score_of(
                metric,
                query,
                kernel.norm_of(query),
                vectors.subrange(row * dim, row * dim + dim),
                norms[row as int],
            );
            row < norms.len() && pass(row) && !nan(s) ==> out.contains((row, s)) || (out.len() == k
                && forall|i: int|
                0 <= i < out.len() ==> !metric.better(s, (#[trigger] out[i]).1))
        }),
{
    let scores = row_scores(kernel, metric, vectors, norms, dim, query);
    let n = norms.len();
    let kept = kept_of(scores, pass, metric, k, n);
    law_best_are_kept(scores, pass, metric, k, n);
    assert forall|i: int| 0 <= i < out.len() implies {
        let r = (#[trigger] out[i]).0;
        r < n && pass(r) && out[i].1 == scores(r) && !nan(out[i].1)
    } by {
        assert(eligible(scores, pass, n, kept[i].0));
        law_negation(scores(kept[i].0), scores(kept[i].0));
    }
    assert forall|i: int, j: int| 0 <= i < j < out.len() implies (#[trigger] out[i]).0 != (
    #[trigger] out[j]).0 && !metric.better(out[j].1, out[i].1) by {
        assert(out[i].1 == scores(out[i].0) && out[j].1 == scores(out[j].0));
        assert(rank(kept[j].1) < rank(kept[i].1) || (kept[i].1 == kept[j].1 && kept[i].0
            < kept[j].0));
        law_negation(out[i].1, out[j].1);
        law_negation(out[j].1, out[i].1);
        law_orders_agree(out[i].1, out[j].1);
        law_orders_agree(out[j].1, out[i].1);
    }
    let s = scores(row);
    if row < n && pass(row) && !nan(s) {
        let m = merit(metric, s);
        assert(eligible(scores, pass, n, row));
        law_negation(s, s);
        if kept.contains((row, m)) {
            let j = choose|j: int| 0 <= j < kept.len() && kept[j] == (row, m);
            assert(out[j] == (row, s));
        } else {
            assert forall|i: int| 0 <= i < out.len() implies !metric.better(
                s,
                (#[trigger] out[i]).1,
            ) by {
                let last = kept.len() - 1;
                assert(out[last].1 == scores(out[last].0));
                if i < last {
                    assert(!metric.better(out[last].1, out[i].1));
                }
                law_negation(s, out[last].1);
                law_negation(out[last].1, s);
            }
        }
    }
}

} // verus!
