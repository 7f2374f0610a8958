//! What a query promises, in terms of the points that a collection holds.

use vstd::prelude::*;

use crate::engine::answers::{
    dead_at, is_hit, law_answers, lemma_all_hits, lemma_exact_first, lemma_exact_number,
    lemma_hit_alive, lemma_outs, lemma_reaching, lemma_sorted, lemma_store, precedes, rows_at,
    scores_at, store_at,
};
use crate::engine::search::{
    ahead, all_hits, first_hits, reaching, sorts, target, wanted, Hit,
};
use crate::engine::view::{held, lemma_layered, CollView};
use crate::error::{Error, Invalid};
use crate::filter::passes;
use crate::float::{law_negation, law_orders_agree, nan};
use crate::id::IdView;
use crate::index::flat::{eligible, kept_of, law_best_are_kept, merit, with_scores};
use crate::index::hnsw::graph::EMPTY;
use crate::index::hnsw::traversal::reachable;
use crate::index::hnsw::{law_graph_search_is_complete, starts_at};
use crate::kernel::{law_better_and_thresholds, law_key_round_trip, Kernel, Metric};
use crate::query::{Query, ScoredPoint};
use crate::segment::data::lemma_row_within;
use crate::segment::immutable::ImmutableSegment;
use crate::segment::{payload_view, Row};

verus! {

/// Whether rows are kept with the norms of their vectors.
pub open spec fn normed<N, S>(rows: Seq<Row>, kernel: Kernel<N, S>) -> bool where
    N: Fn(&[u32]) -> u32,
    S: Fn(Metric, &[u32], u32, &[u32], u32) -> u32,
 {
    forall|i: int|
        0 <= i < rows.len() ==> (#[trigger] rows[i]).norm == kernel.norm_of(rows[i].vector)
}

/// Whether all rows of a collection are kept with the norms of their vectors.
pub open spec fn all_normed<N, S>(view: CollView, kernel: Kernel<N, S>) -> bool where
    N: Fn(&[u32]) -> u32,
    S: Fn(Metric, &[u32], u32, &[u32], u32) -> u32,
 {
    &&& normed(view.mutable.rows(), kernel)
    &&& forall|i: int|
        0 <= i < view.immutables@.len() ==> normed((#[trigger] view.immutables@[i]).rows(), kernel)
}

/// The score of a vector for a query vector.
pub open spec fn score_between<N, S>(
    metric: Metric,
    kernel: Kernel<N, S>,
    query: Seq<u32>,
    vector: Seq<u32>,
) -> u32 where N: Fn(&[u32]) -> u32, S: Fn(Metric, &[u32], u32, &[u32], u32) -> u32 {
    kernel.score_of(metric, query, kernel.norm_of(query), vector, kernel.norm_of(vector))
}

/// The vector that a query is about: its own, or that of the point that it names.
pub open spec fn asked_for(view: CollView, q: Query) -> Seq<u32> {
    match q.vector {
        Some(v) => v@,
        None => view.contents()[q.id->0@].vector,
    }
}

/// Whether a query may give a point: the collection holds it, it meets the condition, and it is
/// not the one that the query names.
pub open spec fn may_be_given(view: CollView, q: Query, id: IdView) -> bool {
    &&& view.contents().contains_key(id)
    &&& passes(q.filter, id, view.contents()[id].payload)
    &&& q.vector is None ==> id != q.id->0@
}

/// Whether a point is among some results.
pub open spec fn given(out: Seq<ScoredPoint>, id: IdView) -> bool {
    exists|i: int| 0 <= i < out.len() && (#[trigger] out[i]).id@ == id
}

/// Whether a query was answered, and with what.
pub open spec fn answered<N, S>(
    view: CollView,
    dim: usize,
    metric: Metric,
    kernel: Kernel<N, S>,
    q: Query,
    out: Seq<ScoredPoint>,
) -> bool where N: Fn(&[u32]) -> u32, S: Fn(Metric, &[u32], u32, &[u32], u32) -> u32 {
    match target(view, dim, q) {
        Ok((v, exclude)) => view.may_give(metric, kernel, q, v, exclude, out),
        Err(_) => false,
    }
}

/// What the row of a hit holds is what the collection holds under its identifier, and the hit has
/// the score of its vector.
proof fn lemma_hit_holds<N, S>(
    view: CollView,
    metric: Metric,
    kernel: Kernel<N, S>,
    q: Query,
    v: Seq<u32>,
    exclude: Option<IdView>,
    h: Hit,
) where N: Fn(&[u32]) -> u32, S: Fn(Metric, &[u32], u32, &[u32], u32) -> u32
    requires
        view.valid(),
        view.apart(),
        all_normed(view, kernel),
        is_hit(view, metric, kernel, q, v, exclude, h),
    ensures
        ({
            let row = rows_at(view, h.place as int)[h.idx as int];
            let all = view.contents();
            &&& all.contains_key(row.id)
            &&& all[row.id] == row.entry()
            &&& Some(row.id) != exclude
            &&& passes(q.filter, row.id, row.payload)
            &&& h.score == score_between(metric, kernel, v, row.vector)
        }),
{
    let row = rows_at(view, h.place as int)[h.idx as int];
    let id = row.id;
    let data = store_at(view, h.place as int);
    lemma_hit_alive(view, metric, kernel, q, v, exclude, h);
    lemma_layered(view.immutables@, id);
    if h.place == 0 {
        view.mutable.lemma_valid();
        assert(view.mutable.live().contains_key(id));
        assert(row == data.rows()[h.idx as int]);
    } else {
        let segs = view.immutables@;
        let i = h.place - 1;
        let seg = segs[i];
        assert(seg.valid());
        seg.lemma_valid();
        assert(seg.live().contains_key(id));
        assert forall|j: int| i < j < segs.len() implies !(
        #[trigger] segs[j]).live().contains_key(id) by {
            assert(segs[i].live().contains_key(id));
        }
        assert(!view.mutable.index().contains_key(id));
        let plain = data.rows()[h.idx as int];
        assert(row.vector == plain.vector && row.norm == plain.norm);
    }
    assert(data.row(h.idx as int) == row.vector);
    assert(row.norm == kernel.norm_of(row.vector));
}

/// The row of a point that a query may give is a hit.
proof fn lemma_point_hit<N, S>(
    view: CollView,
    metric: Metric,
    kernel: Kernel<N, S>,
    q: Query,
    v: Seq<u32>,
    exclude: Option<IdView>,
    id: IdView,
) -> (h: Hit) where N: Fn(&[u32]) -> u32, S: Fn(Metric, &[u32], u32, &[u32], u32) -> u32
    requires
        view.valid(),
        view.apart(),
        all_normed(view, kernel),
        view.contents().contains_key(id),
        passes(q.filter, id, view.contents()[id].payload),
        Some(id) != exclude,
    ensures
        is_hit(view, metric, kernel, q, v, exclude, h),
        rows_at(view, h.place as int)[h.idx as int].id == id,
        h.score == score_between(metric, kernel, v, view.contents()[id].vector),
{
    lemma_layered(view.immutables@, id);
    view.mutable.lemma_valid();
    let place: usize = if view.mutable.live().contains_key(id) {
        0
    } else {
        let segs = view.immutables@;
        assert(held(segs, id));
        let i = choose|i: int| 0 <= i < segs.len() && (#[trigger] segs[i]).live().contains_key(id);
        assert(view.immutables.len() == segs.len());
        (i + 1) as usize
    };
    let idx: u32 = if place == 0 {
        view.mutable.index()[id]
    } else {
        view.immutables@[place - 1].index()[id]
    };
    if place > 0 {
        let segs = view.immutables@;
        let i = place - 1;
        assert(segs[i].live().contains_key(id));
        assert(segs[i].valid());
        segs[i].lemma_valid();
        assert forall|j: int| i < j < segs.len() implies !(
        #[trigger] segs[j]).live().contains_key(id) by {
            assert(segs[i].live().contains_key(id));
        }
        assert(view.contents()[id] == segs[i].live()[id]);
    }
    let h = Hit { score: scores_at(view, metric, kernel, v, place as int)(idx), place, idx };
    assert(rows_at(view, place as int)[idx as int].id == id);
    assert(rows_at(view, place as int)[idx as int].entry() == view.contents()[id]);
    assert(is_hit(view, metric, kernel, q, v, exclude, h));
    lemma_hit_holds(view, metric, kernel, q, v, exclude, h);
    h
}

/// A query is refused exactly if it does not have either a vector or an identifier, if the point
/// that it names is not there, if its vector does not have the dimension of the collection, or if
/// it asks for no results.
pub proof fn law_refused_queries(view: CollView, dim: usize, q: Query)
    requires
        view.valid(),
        view.apart(),
        view.width() == dim,
    ensures
        target(view, dim, q) is Err <==> {
            ||| q.vector is Some && q.id is Some
            ||| q.vector is None && q.id is None
            ||| q.vector is None && !view.contents().contains_key(q.id->0@)
            ||| q.vector is Some && q.vector->0@.len() != dim
            ||| q.top_k == 0
        },
        (q.vector is Some <==> q.id is Some) ==> target(view, dim, q) == Err::<
            (Seq<u32>, Option<IdView>),
            Error,
        >(Error::Invalid(Invalid::VectorOrId)),
        q.vector is None && q.id is Some && !view.contents().contains_key(q.id->0@) ==> target(
            view,
            dim,
            q,
        ) == Err::<(Seq<u32>, Option<IdView>), Error>(Error::Invalid(Invalid::QueryIdNotFound)),
        q.vector is Some && q.id is None && q.vector->0@.len() != dim ==> target(view, dim, q)
            == Err::<(Seq<u32>, Option<IdView>), Error>(
            Error::DimensionMismatch { expected: dim, got: q.vector->0@.len() as usize },
        ),
{
    if q.vector is None && q.id is Some && view.contents().contains_key(q.id->0@) {
        lemma_width(view, q.id->0@);
    }
}

/// The vectors of a collection have its dimension.
proof fn lemma_width(view: CollView, id: IdView)
    requires
        view.valid(),
        view.contents().contains_key(id),
    ensures
        view.contents()[id].vector.len() == view.width(),
{
    view.mutable.lemma_valid();
    lemma_layered(view.immutables@, id);
    if view.mutable.live().contains_key(id) {
        let i = view.mutable.index()[id] as int;
        lemma_row_width(view, 0, i);
    } else {
        let segs = view.immutables@;
        assert(segs.take(segs.len() as int) =~= segs);
        lemma_newest(segs, id, segs.len() as int);
        let i = choose|i: int|
            0 <= i < segs.len() && (#[trigger] segs[i]).live().contains_key(id) && forall|j: int|
                i < j < segs.len() ==> !(#[trigger] segs[j]).live().contains_key(id);
        assert(segs[i].valid());
        segs[i].lemma_valid();
        lemma_row_width(view, i + 1, segs[i].index()[id] as int);
    }
}

/// The newest segment that holds a point.
proof fn lemma_newest(
    segs: Seq<ImmutableSegment>,
    id: IdView,
    n: int,
)
    requires
        0 <= n <= segs.len(),
        held(segs.take(n), id),
        forall|j: int| n <= j < segs.len() ==> !(#[trigger] segs[j]).live().contains_key(id),
    ensures
        exists|i: int|
            0 <= i < segs.len() && (#[trigger] segs[i]).live().contains_key(id) && forall|j: int|
                i < j < segs.len() ==> !(#[trigger] segs[j]).live().contains_key(id),
    decreases n,
{
    let part = segs.take(n);
    let i = choose|i: int| 0 <= i < part.len() && (#[trigger] part[i]).live().contains_key(id);
    if !segs[n - 1].live().contains_key(id) {
        assert(segs.take(n - 1)[i].live().contains_key(id));
        lemma_newest(segs, id, n - 1);
    }
}

proof fn lemma_row_width(view: CollView, p: int, i: int)
    requires
        view.valid(),
        0 <= p <= view.immutables@.len(),
        0 <= i < rows_at(view, p).len(),
    ensures
        rows_at(view, p)[i].vector.len() == view.width(),
{
    let data = store_at(view, p);
    lemma_store(view, p);
    if p == 0 {
        view.mutable.lemma_valid();
    } else {
        let seg = view.immutables@[p - 1];
        assert(seg.valid());
        seg.lemma_valid();
        assert(seg.rows()[i].vector == data.rows()[i].vector);
    }
    lemma_row_within(i, data.ids@.len() as int, data.dim as int);
    assert(rows_at(view, p)[i].vector == data.row(i));
}

/// Every result of a query is a point that the collection holds and that meets the condition, with
/// what it holds of it as far as the query asks for that. Its score is that of its vector for the
/// vector of the query, and the threshold is not better. Better results come first, no point comes
/// twice, and there are no more than were asked for.
pub proof fn law_query_results<N, S>(
    view: CollView,
    dim: usize,
    metric: Metric,
    kernel: Kernel<N, S>,
    q: Query,
    out: Seq<ScoredPoint>,
) where N: Fn(&[u32]) -> u32, S: Fn(Metric, &[u32], u32, &[u32], u32) -> u32
    requires
        view.valid(),
        view.apart(),
        all_normed(view, kernel),
        answered(view, dim, metric, kernel, q, out),
    ensures
        out.len() <= q.top_k,
        forall|i: int|
            0 <= i < out.len() ==> {
                let point = view.contents()[(#[trigger] out[i]).id@];
                &&& may_be_given(view, q, out[i].id@)
                &&& out[i].score == score_between(
                    metric,
                    kernel,
                    asked_for(view, q),
                    point.vector,
                )
                &&& payload_view(out[i].payload) == (if q.with_payload {
                    point.payload
                } else {
                    None
                })
                &&& if q.with_vector {
                    out[i].vector is Some && out[i].vector->0@ == point.vector
                } else {
                    out[i].vector is None
                }
                &&& q.score_threshold matches Some(t) ==> !nan(t) && !nan(out[i].score)
                    && !metric.better(t, out[i].score)
            },
        forall|i: int, j: int|
            0 <= i < j < out.len() ==> !metric.better(
                (#[trigger] out[j]).score,
                (#[trigger] out[i]).score,
            ) && out[i].id@ != out[j].id@,
{
    let (v, exclude) = target(view, dim, q)->Ok_0;
    law_answers(view, metric, kernel, q, v, exclude, out);
    let (outs, sorted) = choose|outs: Seq<Seq<(u32, u32)>>, sorted: Seq<Hit>| #[trigger]
        view.may_answer(metric, kernel, q, v, exclude, outs) && #[trigger] sorts(
            metric,
            all_hits(outs),
            sorted,
        ) && view.reports(
            q,
            reaching(metric, first_hits(sorted, q.top_k as nat), q.score_threshold),
            out,
        );
    let all = all_hits(outs);
    let first = first_hits(sorted, q.top_k as nat);
    let r = reaching(metric, first, q.score_threshold);
    assert(view.immutables.len() <= usize::MAX);
    assert(outs.take(outs.len() as int) =~= outs);
    lemma_all_hits(view, metric, kernel, q, v, exclude, outs, outs.len() as int);
    lemma_reaching(metric, first, q.score_threshold);
    lemma_sorted(metric, all, sorted);
    assert forall|i: int| 0 <= i < out.len() implies {
        let point = view.contents()[(#[trigger] out[i]).id@];
        &&& may_be_given(view, q, out[i].id@)
        &&& out[i].score == score_between(metric, kernel, asked_for(view, q), point.vector)
        &&& payload_view(out[i].payload) == (if q.with_payload {
            point.payload
        } else {
            None
        })
        &&& if q.with_vector {
            out[i].vector is Some && out[i].vector->0@ == point.vector
        } else {
            out[i].vector is None
        }
        &&& q.score_threshold matches Some(t) ==> !nan(t) && !nan(out[i].score) && !metric.better(
            t,
            out[i].score,
        )
    } by {
        let h = r[i];
        assert(first.contains(h));
        let a = choose|a: int| 0 <= a < first.len() && first[a] == h;
        assert(sorted[a] == h);
        assert(all.contains(sorted[a]));
        let b = choose|b: int| 0 <= b < all.len() && all[b] == h;
        assert(is_hit(view, metric, kernel, q, v, exclude, all[b]));
        assert(view.row_at(h) == rows_at(view, h.place as int)[h.idx as int]);
        lemma_hit_holds(view, metric, kernel, q, v, exclude, h);
        if let Some(t) = q.score_threshold {
            law_better_and_thresholds(metric, h.score, t);
        }
    }
    assert forall|i: int, j: int| 0 <= i < j < out.len() implies !metric.better(
        (#[trigger] out[j]).score,
        (#[trigger] out[i]).score,
    ) by {
        law_key_round_trip(metric, out[j].score, out[i].score);
        law_orders_agree(metric.key(out[j].score), metric.key(out[i].score));
    }
}

/// Where no segment has a graph, a query leaves out a point that it may give and whose score the
/// threshold is not better than only if it gives as many results as were asked for, none of which
/// is worse.
pub proof fn law_exact_query_is_complete<N, S>(
    view: CollView,
    dim: usize,
    metric: Metric,
    kernel: Kernel<N, S>,
    q: Query,
    out: Seq<ScoredPoint>,
    id: IdView,
) where N: Fn(&[u32]) -> u32, S: Fn(Metric, &[u32], u32, &[u32], u32) -> u32
    requires
        view.valid(),
        view.apart(),
        view.width() > 0,
        all_normed(view, kernel),
        forall|i: int|
            0 <= i < view.immutables@.len() ==> (#[trigger] view.immutables@[i]).graph() is None,
        answered(view, dim, metric, kernel, q, out),
        may_be_given(view, q, id),
    ensures
        ({
            let s = score_between(metric, kernel, asked_for(view, q), view.contents()[id].vector);
            !nan(s) && (q.score_threshold matches Some(t) ==> !nan(t) && !metric.better(t, s))
                ==> given(out, id) || (out.len() == q.top_k && forall|i: int|
                0 <= i < out.len() ==> !metric.better(s, (#[trigger] out[i]).score))
        }),
{
    let (v, exclude) = target(view, dim, q)->Ok_0;
    let s = score_between(metric, kernel, v, view.contents()[id].vector);
    if !nan(s) && (q.score_threshold matches Some(t) ==> !nan(t) && !metric.better(t, s)) {
        let (outs, sorted) = choose|outs: Seq<Seq<(u32, u32)>>, sorted: Seq<Hit>| #[trigger]
            view.may_answer(metric, kernel, q, v, exclude, outs) && #[trigger] sorts(
                metric,
                all_hits(outs),
                sorted,
            ) && view.reports(
                q,
                reaching(metric, first_hits(sorted, q.top_k as nat), q.score_threshold),
                out,
            );
        let h = lemma_point_hit(view, metric, kernel, q, v, exclude, id);
        let first = first_hits(sorted, q.top_k as nat);
        let r = reaching(metric, first, q.score_threshold);
        assert(view.immutables.len() <= usize::MAX);
        assert(outs.take(outs.len() as int) =~= outs);
        lemma_all_hits(view, metric, kernel, q, v, exclude, outs, outs.len() as int);
        lemma_sorted(metric, all_hits(outs), sorted);
        lemma_exact_first(view, metric, kernel, q, v, exclude, outs, sorted, h);
        if let Some(t) = q.score_threshold {
            law_better_and_thresholds(metric, s, t);
        }
        if first.contains(h) {
            lemma_reached(metric, first, q.score_threshold, h);
            let i = choose|i: int| 0 <= i < r.len() && r[i] == h;
            assert(view.row_at(h) == rows_at(view, h.place as int)[h.idx as int]);
            assert(out[i].id@ == id);
        } else {
            assert forall|i: int| 0 <= i < first.len() implies (q.score_threshold matches Some(t)
                ==> metric.meets((#[trigger] first[i]).score, t)) by {
                assert(sorted[i] == first[i]);
                assert(all_hits(outs).contains(first[i]));
                lemma_exact_number(view, metric, kernel, q, v, exclude, outs, first[i]);
                if let Some(t) = q.score_threshold {
                    law_better_and_thresholds(metric, first[i].score, t);
                    law_better_and_thresholds(metric, s, first[i].score);
                    law_better_and_thresholds(metric, s, t);
                }
            }
            lemma_all_reach(metric, first, q.score_threshold);
            assert(r == first);
        }
    }
}

/// A hit that meets the threshold reaches it.
proof fn lemma_reached(metric: Metric, hits: Seq<Hit>, threshold: Option<u32>, h: Hit)
    requires
        hits.contains(h),
        threshold matches Some(t) ==> metric.meets(h.score, t),
    ensures
        reaching(metric, hits, threshold).contains(h),
    decreases hits.len(),
{
    let r = reaching(metric, hits, threshold);
    let rest = hits.drop_last();
    let before = reaching(metric, rest, threshold);
    let i = choose|i: int| 0 <= i < hits.len() && hits[i] == h;
    if i < rest.len() {
        assert(rest[i] == h);
        lemma_reached(metric, rest, threshold, h);
        let j = choose|j: int| 0 <= j < before.len() && before[j] == h;
        assert(r[j] == h);
    } else {
        assert(r[before.len() as int] == h);
    }
}

/// Where all hits meet the threshold, all of them reach it.
proof fn lemma_all_reach(metric: Metric, hits: Seq<Hit>, threshold: Option<u32>)
    requires
        forall|i: int|
            0 <= i < hits.len() ==> (threshold matches Some(t) ==> metric.meets(
                (#[trigger] hits[i]).score,
                t,
            )),
    ensures
        reaching(metric, hits, threshold) == hits,
    decreases hits.len(),
{
    if hits.len() > 0 {
        let rest = hits.drop_last();
        assert forall|i: int| 0 <= i < rest.len() implies (threshold matches Some(t)
            ==> metric.meets((#[trigger] rest[i]).score, t)) by {
            assert(rest[i] == hits[i]);
        }
        lemma_all_reach(metric, rest, threshold);
        assert(metric.meets(hits[hits.len() - 1].score, threshold->0) || threshold is None);
        assert(reaching(metric, hits, threshold) =~= hits);
    }
}

/// Whether a point lies in a segment with a graph in which a search does not come to its row.
pub open spec fn out_of_reach<N, S>(
    view: CollView,
    metric: Metric,
    kernel: Kernel<N, S>,
    v: Seq<u32>,
    id: IdView,
) -> bool where N: Fn(&[u32]) -> u32, S: Fn(Metric, &[u32], u32, &[u32], u32) -> u32 {
    exists|i: int|
        0 <= i < view.immutables@.len() && {
            let seg = #[trigger] view.immutables@[i];
            &&& seg.live().contains_key(id)
            &&& seg.graph() is Some
            &&& seg.graph()->0.graph@.entry == EMPTY || exists|start: u32| #[trigger]
                starts_at(seg.graph()->0, seg.store(), metric, kernel, v, start) && !reachable(
                    seg.graph()->0.graph@,
                    0,
                    seq![start],
                    seg.index()[id],
                )
        }
}

/// A query without a threshold leaves out a point that it may give only if it gives as many results
/// as were asked for, or if the point lies in a graph where it cannot be reached.
pub proof fn law_query_is_complete<N, S>(
    view: CollView,
    dim: usize,
    metric: Metric,
    kernel: Kernel<N, S>,
    q: Query,
    out: Seq<ScoredPoint>,
    id: IdView,
) where N: Fn(&[u32]) -> u32, S: Fn(Metric, &[u32], u32, &[u32], u32) -> u32
    requires
        view.valid(),
        view.apart(),
        view.width() > 0,
        all_normed(view, kernel),
        answered(view, dim, metric, kernel, q, out),
        q.score_threshold is None,
        may_be_given(view, q, id),
        !nan(score_between(metric, kernel, asked_for(view, q), view.contents()[id].vector)),
    ensures
        given(out, id) || out.len() == q.top_k || out_of_reach(
            view,
            metric,
            kernel,
            asked_for(view, q),
            id,
        ),
{
    let (v, exclude) = target(view, dim, q)->Ok_0;
    let k = q.top_k as nat;
    let (outs, sorted) = choose|outs: Seq<Seq<(u32, u32)>>, sorted: Seq<Hit>| #[trigger]
        view.may_answer(metric, kernel, q, v, exclude, outs) && #[trigger] sorts(
            metric,
            all_hits(outs),
            sorted,
        ) && view.reports(q, reaching(metric, first_hits(sorted, k), q.score_threshold), out);
    let all = all_hits(outs);
    let first = first_hits(sorted, k);
    let h = lemma_point_hit(view, metric, kernel, q, v, exclude, id);
    let p = h.place as int;
    assert(view.immutables.len() <= usize::MAX);
    assert(outs.take(outs.len() as int) =~= outs);
    lemma_all_hits(view, metric, kernel, q, v, exclude, outs, outs.len() as int);
    lemma_sorted(metric, all, sorted);
    lemma_reaching(metric, first, q.score_threshold);
    lemma_hits_len(outs, p);
    let pass = wanted(rows_at(view, p), dead_at(view, p), q.filter, exclude);
    let scores = scores_at(view, metric, kernel, v, p);
    let data = store_at(view, p);
    lemma_store(view, p);
    if p > 0 {
        assert(outs[p - 1 + 1] == outs[p]);
        assert(view.immutables@[p - 1].valid());
        view.immutables@[p - 1].lemma_valid();
    }
    let there = exists|j: int| 0 <= j < outs[p].len() && outs[p][j] == (h.idx, h.score);
    if p > 0 && view.immutables@[p - 1].graph() is Some {
        let seg = view.immutables@[p - 1];
        let g = seg.graph()->0;
        lemma_hit_alive(view, metric, kernel, q, v, exclude, h);
        if g.graph@.entry != EMPTY {
            law_graph_search_is_complete(g, data, metric, kernel, v, k, pass, outs[p]);
            let start = choose|start: u32| #[trigger]
                starts_at(g, data, metric, kernel, v, start) && forall|x: u32|
                    pass(x) && #[trigger] reachable(g.graph@, 0, seq![start], x) ==> outs[p].len()
                        == k || exists|i: int| 0 <= i < outs[p].len() && (#[trigger] outs[p][i]).0 == x;
            if reachable(g.graph@, 0, seq![start], h.idx) && outs[p].len() != k {
                let j = choose|j: int| 0 <= j < outs[p].len() && (#[trigger] outs[p][j]).0 == h.idx;
                lemma_outs(view, metric, kernel, q, v, exclude, outs, p);
                assert(outs[p][j] == (h.idx, h.score));
            }
        }
    } else {
        let kept = kept_of(scores, pass, metric, k, data.norms@.len());
        law_best_are_kept(scores, pass, metric, k, data.norms@.len());
        assert(outs[p] == with_scores(metric, kept));
        assert(eligible(scores, pass, data.norms@.len(), h.idx));
        let m = merit(metric, h.score);
        law_negation(h.score, h.score);
        if kept.contains((h.idx, m)) {
            let j = choose|j: int| 0 <= j < kept.len() && kept[j] == (h.idx, m);
            assert(outs[p][j] == (h.idx, h.score));
        }
    }
    if there {
        let j = choose|j: int| 0 <= j < outs[p].len() && outs[p][j] == (h.idx, h.score);
        assert(outs[p][j].1 == h.score);
        assert(all.contains(h));
        assert(sorted.contains(h));
        let a = choose|a: int| 0 <= a < sorted.len() && sorted[a] == h;
        if a < first.len() {
            assert(first[a] == h);
            assert(view.row_at(h) == rows_at(view, p)[h.idx as int]);
            assert(out[a].id@ == id);
        }
    }
}

/// There are as many hits as in any one segment.
proof fn lemma_hits_len(outs: Seq<Seq<(u32, u32)>>, p: int)
    requires
        0 <= p < outs.len(),
    ensures
        all_hits(outs).len() >= outs[p].len(),
    decreases outs.len(),
{
    if p < outs.len() - 1 {
        lemma_hits_len(outs.drop_last(), p);
    }
}

/// Whether the row of one point comes before that of another: the mutable segment comes before the
/// others, an older segment before a newer one, and in a segment the rows are in their order.
pub open spec fn lies_before(view: CollView, a: IdView, b: IdView) -> bool {
    exists|p: int, i: int, q: int, j: int|
        #![trigger rows_at(view, p)[i], rows_at(view, q)[j]]
        0 <= p <= view.immutables@.len() && 0 <= q <= view.immutables@.len() && 0 <= i < rows_at(
            view,
            p,
        ).len() && 0 <= j < rows_at(view, q).len() && rows_at(view, p)[i].id == a && rows_at(
            view,
            q,
        )[j].id == b && !dead_at(view, p).contains(i as u32) && !dead_at(view, q).contains(j as u32)
            && (p < q || (p == q && i < j))
}

/// Results with the same score come in the order of their rows.
pub proof fn law_equal_scores_in_order<N, S>(
    view: CollView,
    dim: usize,
    metric: Metric,
    kernel: Kernel<N, S>,
    q: Query,
    out: Seq<ScoredPoint>,
    i: int,
    j: int,
) where N: Fn(&[u32]) -> u32, S: Fn(Metric, &[u32], u32, &[u32], u32) -> u32
    requires
        view.valid(),
        view.apart(),
        answered(view, dim, metric, kernel, q, out),
        0 <= i < j < out.len(),
        out[i].score == out[j].score,
    ensures
        lies_before(view, out[i].id@, out[j].id@),
{
    let (v, exclude) = target(view, dim, q)->Ok_0;
    let (outs, sorted) = choose|outs: Seq<Seq<(u32, u32)>>, sorted: Seq<Hit>| #[trigger]
        view.may_answer(metric, kernel, q, v, exclude, outs) && #[trigger] sorts(
            metric,
            all_hits(outs),
            sorted,
        ) && view.reports(
            q,
            reaching(metric, first_hits(sorted, q.top_k as nat), q.score_threshold),
            out,
        );
    let all = all_hits(outs);
    let first = first_hits(sorted, q.top_k as nat);
    let r = reaching(metric, first, q.score_threshold);
    assert(view.immutables.len() <= usize::MAX);
    assert(outs.take(outs.len() as int) =~= outs);
    lemma_all_hits(view, metric, kernel, q, v, exclude, outs, outs.len() as int);
    lemma_reaching(metric, first, q.score_threshold);
    lemma_sorted(metric, all, sorted);
    assert(precedes(first, r[i], r[j]));
    reveal(precedes);
    let (a, b) = choose|a: int, b: int|
        0 <= a < b < first.len() && #[trigger] first[a] == r[i] && #[trigger] first[b] == r[j];
    assert(sorted[a] == r[i] && sorted[b] == r[j]);
    assert(!ahead(metric, sorted[b], sorted[a]));
    assert(all.contains(sorted[a]) && all.contains(sorted[b]));
    let c = choose|c: int| 0 <= c < all.len() && all[c] == r[i];
    let d = choose|d: int| 0 <= d < all.len() && all[d] == r[j];
    assert(is_hit(view, metric, kernel, q, v, exclude, all[c]));
    assert(is_hit(view, metric, kernel, q, v, exclude, all[d]));
    let x = r[i];
    let y = r[j];
    assert(x != y);
    assert(view.row_at(x) == rows_at(view, x.place as int)[x.idx as int]);
    assert(view.row_at(y) == rows_at(view, y.place as int)[y.idx as int]);
    assert(x.place < y.place || (x.place == y.place && x.idx < y.idx));
    assert(rows_at(view, x.place as int)[x.idx as int].id == out[i].id@);
    assert(rows_at(view, y.place as int)[y.idx as int].id == out[j].id@);
}

} // verus!
