//! What writing, deleting, flushing and compacting do to the points that are counted and read.

use vstd::prelude::*;

use crate::collection::CollectionConfig;
use crate::engine::answers::{answers_with, law_answers};
use crate::engine::database::{Collection, Database, Step};
use crate::engine::disk::{lemma_on_disk, on_disk, Disk, StoredSegment};
use crate::engine::durable::gives_back;
use crate::engine::outcome::{
    all_fit, in_list, outcome, put_points, replayed, settled_kept, Kept,
};
use crate::engine::plan::{keeps_same, stores_segment, stores_segments, FlushPlan};
use crate::engine::search::{
    ahead, all_hits, first_hits, reaching, sorts, target, told, wanted, Hit, ScoredView,
};
use crate::engine::tally::counted;
use crate::engine::view::{lemma_layered, CollView};
use crate::id::IdView;
use crate::json::JsonView;
use crate::error::Error;
use crate::filter::{passes, Condition};
use crate::float::rank;
use crate::kernel::{Kernel, Metric};
use crate::query::{Query, ScoredPoint};
use crate::segment::immutable::{
    alike_payloads, law_points_are_kept, settled_entry, settled_live, ImmutableSegment,
};
use crate::segment::{Entry, Row};
use crate::wal::{OpView, RecordView};

verus! {

/// Where two states keep the same under a name, as flushing, compacting and rebuilding leave it,
/// there are as many points, and each of them reads the same as files keep it.
pub proof fn law_kept_points_are_counted_and_read(a: Database, b: Database, name: Seq<char>)
    requires
        keeps_same(a, b),
    ensures
        match (a.kept(name), b.kept(name)) {
            (Some(x), Some(y)) => {
                &&& x.config == y.config
                &&& x.points.dom() == y.points.dom()
                &&& x.points.dom().len() == y.points.dom().len()
                &&& forall|id: IdView| #[trigger]
                    x.points.contains_key(id) ==> settled_entry(x.points[id]) == settled_entry(
                        y.points[id],
                    ) && x.points[id].vector == y.points[id].vector && alike_payloads(
                        x.points[id].payload,
                        y.points[id].payload,
                    )
            },
            (None, None) => true,
            _ => false,
        },
{
    assert(settled_kept(b.kept(name)) == settled_kept(a.kept(name)));
    if let (Some(x), Some(y)) = (a.kept(name), b.kept(name)) {
        let s = settled_live(x.points);
        let t = settled_live(y.points);
        assert(s == t);
        assert forall|id: IdView| x.points.contains_key(id) <==> y.points.contains_key(id) by {
            assert(s.contains_key(id) <==> t.contains_key(id));
        }
        assert(x.points.dom() =~= y.points.dom());
        assert forall|id: IdView| #[trigger] x.points.contains_key(id) implies settled_entry(
            x.points[id],
        ) == settled_entry(y.points[id]) && x.points[id].vector == y.points[id].vector
            && alike_payloads(x.points[id].payload, y.points[id].payload) by {
            assert(s[id] == t[id]);
            lemma_alike(x.points[id], y.points[id]);
        }
    }
}

/// What files keep alike is alike.
proof fn lemma_alike(a: Entry, b: Entry)
    requires
        settled_entry(a) == settled_entry(b),
    ensures
        a.vector == b.vector,
        alike_payloads(a.payload, b.payload),
{
}

/// What is settled alike under a name is the same: the same configuration, and the same points, with
/// the same vectors and, but for `null`, the same payloads.
pub proof fn law_settled_alike_is_the_same(a: Option<Kept>, b: Option<Kept>)
    requires
        settled_kept(a) == settled_kept(b),
    ensures
        match (a, b) {
            (Some(x), Some(y)) => {
                &&& x.config == y.config
                &&& x.points.dom() == y.points.dom()
                &&& forall|id: IdView| #[trigger]
                    x.points.contains_key(id) ==> x.points[id].vector == y.points[id].vector
                        && alike_payloads(x.points[id].payload, y.points[id].payload)
            },
            (None, None) => true,
            _ => false,
        },
{
    if let (Some(x), Some(y)) = (a, b) {
        let s = settled_live(x.points);
        let t = settled_live(y.points);
        assert(s == t);
        assert forall|id: IdView| x.points.contains_key(id) <==> y.points.contains_key(id) by {
            assert(s.contains_key(id) <==> t.contains_key(id));
        }
        assert(x.points.dom() =~= y.points.dom());
        assert forall|id: IdView| #[trigger] x.points.contains_key(id) implies x.points[id].vector
            == y.points[id].vector && alike_payloads(x.points[id].payload, y.points[id].payload) by {
            assert(s[id] == t[id]);
            lemma_alike(x.points[id], y.points[id]);
        }
    }
}

/// What is done under one name changes nothing under another.
pub proof fn law_other_names_are_untouched(k: Option<Kept>, op: OpView, name: Seq<char>)
    requires
        match op {
            OpView::Create { name: n, .. } => n != name,
            OpView::Drop { name: n } => n != name,
            OpView::Upsert { name: n, .. } => n != name,
            OpView::Delete { name: n, .. } => n != name,
            OpView::Pay { name: n, .. } => n != name,
        },
    ensures
        outcome(k, op, name) == k,
{
}

/// A collection that is made has its configuration and no points, and making it again changes
/// nothing. Dropping it leaves nothing, and nothing else makes one.
pub proof fn law_collections_come_and_go(
    k: Kept,
    config: CollectionConfig,
    points: Seq<(IdView, Entry)>,
    ids: Seq<IdView>,
    payload: Option<JsonView>,
    name: Seq<char>,
)
    ensures
        ({
            let new = outcome(None, OpView::Create { name, config }, name);
            &&& new is Some
            &&& new->0.config == config
            &&& new->0.points.dom() == Set::<IdView>::empty()
        }),
        outcome(Some(k), OpView::Create { name, config }, name) == Some(k),
        outcome(Some(k), OpView::Drop { name }, name) is None,
        outcome(None, OpView::Drop { name }, name) is None,
        outcome(None, OpView::Upsert { name, points }, name) is None,
        outcome(None, OpView::Delete { name, ids }, name) is None,
        outcome(None, OpView::Pay { name, ids, payload }, name) is None,
{
    let new = outcome(None, OpView::Create { name, config }, name);
    assert(new->0.points.dom() =~= Set::<IdView>::empty());
}

/// Writing points of which one does not have the dimension of the collection changes nothing.
pub proof fn law_misfits_change_nothing(
    k: Kept,
    points: Seq<(IdView, Entry)>,
    name: Seq<char>,
    i: int,
)
    requires
        0 <= i < points.len(),
        points[i].1.vector.len() != k.config.dim,
    ensures
        outcome(Some(k), OpView::Upsert { name, points }, name) == Some(k),
{
    assert(!all_fit(points, k.config.dim as nat));
}

/// Giving points a payload, or taking it away, changes the payloads of just the points that are
/// listed: there are the same points as before, with the same vectors.
pub proof fn law_paying_changes_payloads_only(
    k: Kept,
    ids: Seq<IdView>,
    payload: Option<JsonView>,
    name: Seq<char>,
)
    ensures
        ({
            let after = outcome(Some(k), OpView::Pay { name, ids, payload }, name);
            &&& after is Some
            &&& after->0.config == k.config
            &&& after->0.points.dom() == k.points.dom()
            &&& forall|id: IdView| #[trigger]
                k.points.contains_key(id) ==> after->0.points[id].vector == k.points[id].vector
                    && after->0.points[id].payload == (if ids.contains(id) {
                    payload
                } else {
                    k.points[id].payload
                })
        }),
{
    let after = outcome(Some(k), OpView::Pay { name, ids, payload }, name)->0;
    assert(after.points.dom() =~= k.points.dom());
}

/// Deleting says how many points fewer there are. Giving payloads says how many items of the list
/// had a point, and writing says nothing.
pub proof fn law_counts(
    k: Kept,
    ids: Seq<IdView>,
    id: IdView,
    payload: Option<JsonView>,
    points: Seq<(IdView, Entry)>,
    name: Seq<char>,
)
    requires
        k.points.dom().finite(),
    ensures
        ({
            let op = OpView::Delete { name, ids };
            counted(Some(k), op) + outcome(Some(k), op, name)->0.points.dom().len()
                == k.points.dom().len()
        }),
        counted(Some(k), OpView::Pay { name, ids: Seq::empty(), payload }) == 0,
        counted(Some(k), OpView::Pay { name, ids: ids.push(id), payload }) == counted(
            Some(k),
            OpView::Pay { name, ids, payload },
        ) + (if k.points.contains_key(id) {
            1nat
        } else {
            0nat
        }),
        counted(Some(k), OpView::Upsert { name, points }) == 0,
{
    law_deleting_takes_what_is_listed(k, ids, name);
    assert(in_list(ids) =~= ids.to_set());
    let there = |x: IdView| k.points.contains_key(x);
    reveal(Seq::filter);
    assert(Seq::<IdView>::empty().filter(there).len() == 0);
    assert(ids.push(id).drop_last() =~= ids);
    assert(ids.push(id).last() == id);
}

/// A record that is replayed after others does what it says to what these left, unless its number is
/// not above the floor.
pub proof fn law_replaying_one_more(
    k: Option<Kept>,
    records: Seq<RecordView>,
    rec: RecordView,
    floor: u64,
    name: Seq<char>,
)
    ensures
        replayed(k, Seq::empty(), floor, name) == k,
        replayed(k, records.push(rec), floor, name) == (if rec.lsn > floor {
            outcome(replayed(k, records, floor, name), rec.op, name)
        } else {
            replayed(k, records, floor, name)
        }),
{
    assert(records.push(rec).drop_last() =~= records);
}

/// Deleting takes just the points that are listed: there are fewer by as many as were there, and
/// the others are as they were.
pub proof fn law_deleting_takes_what_is_listed(k: Kept, ids: Seq<IdView>, name: Seq<char>)
    requires
        k.points.dom().finite(),
    ensures
        ({
            let after = outcome(Some(k), OpView::Delete { name, ids }, name);
            &&& after is Some
            &&& after->0.config == k.config
            &&& after->0.points.dom() == k.points.dom().difference(in_list(ids))
            &&& after->0.points.dom().len() == k.points.dom().len() - k.points.dom().intersect(
                in_list(ids),
            ).len()
            &&& forall|id: IdView| #[trigger]
                after->0.points.contains_key(id) ==> after->0.points[id] == k.points[id]
        }),
{
    let dom = k.points.dom();
    let gone = in_list(ids);
    let after = outcome(Some(k), OpView::Delete { name, ids }, name)->0;
    assert(after.points.dom() =~= dom.difference(gone));
    lemma_split(dom, gone);
}

/// A set falls into what is in another one and what is not.
proof fn lemma_split(dom: Set<IdView>, gone: Set<IdView>)
    requires
        dom.finite(),
    ensures
        dom.difference(gone).finite(),
        dom.intersect(gone).finite(),
        dom.len() == dom.difference(gone).len() + dom.intersect(gone).len(),
    decreases dom.len(),
{
    if dom.len() == 0 {
        assert(dom.difference(gone) =~= Set::<IdView>::empty());
        assert(dom.intersect(gone) =~= Set::<IdView>::empty());
    } else {
        let x = dom.choose();
        let rest = dom.remove(x);
        lemma_split(rest, gone);
        if gone.contains(x) {
            assert(dom.difference(gone) =~= rest.difference(gone));
            assert(dom.intersect(gone) =~= rest.intersect(gone).insert(x));
        } else {
            assert(dom.difference(gone) =~= rest.difference(gone).insert(x));
            assert(dom.intersect(gone) =~= rest.intersect(gone));
        }
    }
}

/// The identifiers of some points.
pub open spec fn ids_of(points: Seq<(IdView, Entry)>) -> Set<IdView> {
    Set::new(|id: IdView| exists|i: int| 0 <= i < points.len() && (#[trigger] points[i]).0 == id)
}

/// Whether a point is the last one of its identifier in a list.
pub open spec fn is_last(points: Seq<(IdView, Entry)>, i: int) -> bool {
    0 <= i < points.len() && forall|j: int|
        i < j < points.len() ==> (#[trigger] points[j]).0 != points[i].0
}

/// Writing points adds just those that were not there, each is what was written last under its
/// identifier, and the others are as they were.
pub proof fn law_writing_adds_what_was_not_there(
    k: Kept,
    points: Seq<(IdView, Entry)>,
    name: Seq<char>,
)
    requires
        k.points.dom().finite(),
        all_fit(points, k.config.dim as nat),
    ensures
        ({
            let after = outcome(Some(k), OpView::Upsert { name, points }, name);
            &&& after is Some
            &&& after->0.config == k.config
            &&& after->0.points.dom() == k.points.dom().union(ids_of(points))
            &&& after->0.points.dom().finite()
            &&& after->0.points.dom().len() == k.points.dom().len() + ids_of(points).difference(
                k.points.dom(),
            ).len()
            &&& forall|i: int| #[trigger]
                is_last(points, i) ==> after->0.points[points[i].0] == points[i].1
            &&& forall|id: IdView| #[trigger]
                k.points.contains_key(id) && !ids_of(points).contains(id) ==> after->0.points[id]
                    == k.points[id]
        }),
{
    let dom = k.points.dom();
    let ids = ids_of(points);
    lemma_put(k.points, points);
    lemma_ids_finite(points);
    let all = dom.union(ids);
    lemma_split(all, dom);
    assert(all.difference(dom) =~= ids.difference(dom));
    assert(all.intersect(dom) =~= dom);
}

/// The identifiers of some points are finitely many.
proof fn lemma_ids_finite(points: Seq<(IdView, Entry)>)
    ensures
        ids_of(points).finite(),
    decreases points.len(),
{
    if points.len() == 0 {
        assert(ids_of(points) =~= Set::<IdView>::empty());
    } else {
        lemma_ids_finite(points.drop_last());
        lemma_ids_more(points);
    }
}

/// The identifiers of some points and one more.
proof fn lemma_ids_more(points: Seq<(IdView, Entry)>)
    requires
        points.len() > 0,
    ensures
        ids_of(points) == ids_of(points.drop_last()).insert(points.last().0),
{
    let rest = points.drop_last();
    assert forall|id: IdView| #[trigger] ids_of(points).contains(id) implies ids_of(
        rest,
    ).insert(points.last().0).contains(id) by {
        let i = choose|i: int| 0 <= i < points.len() && (#[trigger] points[i]).0 == id;
        if i < rest.len() {
            assert(rest[i].0 == id);
        }
    }
    assert forall|id: IdView| #[trigger]
        ids_of(rest).insert(points.last().0).contains(id) implies ids_of(points).contains(id) by {
        if id == points.last().0 {
            assert(points[points.len() - 1].0 == id);
        } else {
            let i = choose|i: int| 0 <= i < rest.len() && (#[trigger] rest[i]).0 == id;
            assert(points[i].0 == id);
        }
    }
    assert(ids_of(points) =~= ids_of(rest).insert(points.last().0));
}

proof fn lemma_put(m: Map<IdView, Entry>, points: Seq<(IdView, Entry)>)
    ensures
        put_points(m, points).dom() == m.dom().union(ids_of(points)),
        forall|i: int| #[trigger]
            is_last(points, i) ==> put_points(m, points)[points[i].0] == points[i].1,
        forall|id: IdView| #[trigger]
            m.contains_key(id) && !ids_of(points).contains(id) ==> put_points(m, points)[id]
                == m[id],
    decreases points.len(),
{
    let all = put_points(m, points);
    if points.len() == 0 {
        assert(ids_of(points) =~= Set::<IdView>::empty());
        assert(all.dom() =~= m.dom().union(ids_of(points)));
    } else {
        let rest = points.drop_last();
        lemma_put(m, rest);
        lemma_ids_more(points);
        assert(all.dom() =~= m.dom().union(ids_of(points)));
        assert forall|i: int| #[trigger] is_last(points, i) implies all[points[i].0]
            == points[i].1 by {
            if i < rest.len() {
                assert(points[points.len() - 1].0 != points[i].0);
                assert(is_last(rest, i)) by {
                    assert forall|j: int| i < j < rest.len() implies (#[trigger] rest[j]).0
                        != rest[i].0 by {
                        assert(points[j].0 != points[i].0);
                    }
                }
                assert(rest[i] == points[i]);
            }
        }
    }
}

/// A segment that is stored with its marks and its new payloads holds the same points once it is
/// opened again, as files keep them.
pub proof fn law_opened_segment_holds_the_same(
    v: StoredSegment,
    seg: ImmutableSegment,
    again: ImmutableSegment,
)
    requires
        seg.valid(),
        again.valid(),
        on_disk(v, seg),
        on_disk(v, again),
    ensures
        settled_live(again.live()) == settled_live(seg.live()),
        again.live().dom() == seg.live().dom(),
        forall|id: IdView| #[trigger]
            seg.live().contains_key(id) ==> again.live()[id].vector == seg.live()[id].vector
                && alike_payloads(again.live()[id].payload, seg.live()[id].payload),
        again.dead() == seg.dead(),
        again.index() == seg.index(),
{
    lemma_on_disk(v, seg);
    lemma_on_disk(v, again);
    law_points_are_kept(seg.live());
    law_points_are_kept(again.live());
    assert forall|id: IdView| #[trigger] seg.live().contains_key(id) implies again.live()[id].vector
        == seg.live()[id].vector && alike_payloads(
        again.live()[id].payload,
        seg.live()[id].payload,
    ) by {
        assert(settled_live(seg.live())[id] == settled_live(again.live())[id]);
        assert(again.live().dom().contains(id));
        lemma_alike(again.live()[id], seg.live()[id]);
    }
}

/// A threshold keeps just the part of the hits that meets it, in the same order.
proof fn lemma_reaching(metric: Metric, hits: Seq<Hit>, threshold: u32)
    ensures
        reaching(metric, hits, Some(threshold)) == hits.filter(
            |h: Hit| metric.meets(h.score, threshold),
        ),
        reaching(metric, hits, None) == hits,
    decreases hits.len(),
{
    reveal(Seq::filter);
    if hits.len() > 0 {
        lemma_reaching(metric, hits.drop_last(), threshold);
        assert(hits.drop_last().push(hits.last()) =~= hits);
    }
}

/// What the result of a hit is.
spec fn shown(view: CollView, q: Query, hit: Hit) -> ScoredView {
    let row = view.row_at(hit);
    ScoredView {
        id: row.id,
        score: hit.score,
        payload: if q.with_payload {
            row.payload
        } else {
            None
        },
        vector: if q.with_vector {
            Some(row.vector)
        } else {
            None
        },
    }
}

/// What the results of some hits are.
spec fn all_shown(view: CollView, q: Query, hits: Seq<Hit>) -> Seq<ScoredView> {
    Seq::new(hits.len(), |i: int| shown(view, q, hits[i]))
}

/// Results are determined by the hits.
proof fn lemma_told(view: CollView, q: Query, hits: Seq<Hit>, out: Seq<ScoredPoint>)
    requires
        view.reports(q, hits, out),
    ensures
        told(out) == all_shown(view, q, hits),
{
    assert forall|i: int| 0 <= i < out.len() implies #[trigger] told(out)[i] == all_shown(
        view,
        q,
        hits,
    )[i] by {
        let p = out[i];
        assert(p.id@ == view.row_at(hits[i]).id);
    }
    assert(told(out) =~= all_shown(view, q, hits));
}

/// The results of the hits that meet a threshold are the results that meet it.
proof fn lemma_shown_meets(view: CollView, metric: Metric, q: Query, hits: Seq<Hit>, threshold: u32)
    ensures
        all_shown(view, q, hits.filter(|h: Hit| metric.meets(h.score, threshold))) == all_shown(
            view,
            q,
            hits,
        ).filter(|p: ScoredView| metric.meets(p.score, threshold)),
    decreases hits.len(),
{
    reveal(Seq::filter);
    let f = |h: Hit| metric.meets(h.score, threshold);
    let g = |p: ScoredView| metric.meets(p.score, threshold);
    let all = all_shown(view, q, hits);
    if hits.len() == 0 {
        assert(all_shown(view, q, hits.filter(f)) =~= all.filter(g));
    } else {
        let rest = hits.drop_last();
        lemma_shown_meets(view, metric, q, rest, threshold);
        assert(all.drop_last() =~= all_shown(view, q, rest));
        assert(all.last() == shown(view, q, hits.last()));
        assert(all_shown(view, q, rest.filter(f).push(hits.last())) =~= all_shown(
            view,
            q,
            rest.filter(f),
        ).push(shown(view, q, hits.last())));
    }
}

/// Hits have one order.
proof fn lemma_one_order(metric: Metric, hits: Seq<Hit>, s: Seq<Hit>, t: Seq<Hit>)
    requires
        sorts(metric, hits, s),
        sorts(metric, hits, t),
    ensures
        s == t,
{
    let leq = |a: Hit, b: Hit| !ahead(metric, b, a);
    assert forall|x: Hit, y: Hit| #[trigger] leq(x, y) && #[trigger] leq(y, x) implies x == y by {
        assert(rank(x.score) == rank(y.score));
    }
    vstd::seq_lib::lemma_sorted_unique(s, t, leq);
}

/// Whether two queries choose from the same rows: what the one leaves out by its condition or as
/// the point that it names, the other one leaves out as well.
pub open spec fn choose_alike(
    a: Option<Condition>,
    a_out: Option<IdView>,
    b: Option<Condition>,
    b_out: Option<IdView>,
) -> bool {
    forall|id: IdView, payload: Option<JsonView>|
        (#[trigger] passes(a, id, payload) && Some(id) != a_out) == (passes(b, id, payload) && Some(
            id,
        ) != b_out)
}

/// Queries for the same number of rows of the same choice find the same hits.
proof fn lemma_same_hits<N, S>(
    view: CollView,
    metric: Metric,
    kernel: Kernel<N, S>,
    a: Query,
    b: Query,
    v: Seq<u32>,
    a_out: Option<IdView>,
    b_out: Option<IdView>,
    x: Seq<Seq<(u32, u32)>>,
    y: Seq<Seq<(u32, u32)>>,
) where N: Fn(&[u32]) -> u32, S: Fn(Metric, &[u32], u32, &[u32], u32) -> u32
    requires
        a.top_k == b.top_k,
        choose_alike(a.filter, a_out, b.filter, b_out),
        view.may_answer(metric, kernel, a, v, a_out, x),
        view.may_answer(metric, kernel, b, v, b_out, y),
    ensures
        x == y,
{
    assert forall|rows: Seq<Row>, dead: Set<u32>| #[trigger]
        wanted(rows, dead, a.filter, a_out) == wanted(rows, dead, b.filter, b_out) by {
        let f = wanted(rows, dead, a.filter, a_out);
        let g = wanted(rows, dead, b.filter, b_out);
        assert forall|i: u32| #[trigger] f(i) == g(i) by {
            if i < rows.len() {
                let row = rows[i as int];
                assert((passes(a.filter, row.id, row.payload) && Some(row.id) != a_out) == (passes(
                    b.filter,
                    row.id,
                    row.payload,
                ) && Some(row.id) != b_out));
            }
        }
        assert(f =~= g);
    }
    assert forall|i: int| 0 <= i < x.len() implies #[trigger] x[i] == y[i] by {
        if i == 0 {
            let m = view.mutable;
            assert(wanted(m.rows(), m.dead(), a.filter, a_out) == wanted(
                m.rows(),
                m.dead(),
                b.filter,
                b_out,
            ));
            assert(x[0] =~= y[0]);
        } else {
            let seg = view.immutables@[i - 1];
            assert(wanted(seg.rows(), seg.dead(), a.filter, a_out) == wanted(
                seg.rows(),
                seg.dead(),
                b.filter,
                b_out,
            ));
            assert(seg.may_find(
                metric,
                kernel,
                v,
                a.top_k as nat,
                wanted(seg.rows(), seg.dead(), a.filter, a_out),
                x[i - 1 + 1],
            ));
            assert(seg.may_find(
                metric,
                kernel,
                v,
                b.top_k as nat,
                wanted(seg.rows(), seg.dead(), b.filter, b_out),
                y[i - 1 + 1],
            ));
            assert(x[i] =~= y[i]);
        }
    }
    assert(x =~= y);
}

/// Queries for the same number of rows of the same choice give results of the same hits.
proof fn lemma_same_top<N, S>(
    view: CollView,
    metric: Metric,
    kernel: Kernel<N, S>,
    a: Query,
    b: Query,
    v: Seq<u32>,
    a_out: Option<IdView>,
    b_out: Option<IdView>,
    x: Seq<ScoredPoint>,
    y: Seq<ScoredPoint>,
) -> (top: Seq<Hit>) where
    N: Fn(&[u32]) -> u32,
    S: Fn(Metric, &[u32], u32, &[u32], u32) -> u32,

    requires
        a.top_k == b.top_k,
        choose_alike(a.filter, a_out, b.filter, b_out),
        view.may_give(metric, kernel, a, v, a_out, x),
        view.may_give(metric, kernel, b, v, b_out, y),
    ensures
        view.reports(a, reaching(metric, top, a.score_threshold), x),
        view.reports(b, reaching(metric, top, b.score_threshold), y),
{
    let (outs, sorted) = choose|outs: Seq<Seq<(u32, u32)>>, sorted: Seq<Hit>| #[trigger]
        view.may_answer(metric, kernel, a, v, a_out, outs) && #[trigger] sorts(
            metric,
            all_hits(outs),
            sorted,
        ) && view.reports(
            a,
            reaching(metric, first_hits(sorted, a.top_k as nat), a.score_threshold),
            x,
        );
    let (more, order) = choose|outs: Seq<Seq<(u32, u32)>>, sorted: Seq<Hit>| #[trigger]
        view.may_answer(metric, kernel, b, v, b_out, outs) && #[trigger] sorts(
            metric,
            all_hits(outs),
            sorted,
        ) && view.reports(
            b,
            reaching(metric, first_hits(sorted, b.top_k as nat), b.score_threshold),
            y,
        );
    lemma_same_hits(view, metric, kernel, a, b, v, a_out, b_out, outs, more);
    lemma_one_order(metric, all_hits(outs), sorted, order);
    first_hits(sorted, a.top_k as nat)
}

/// The same query gives the same results where nothing was written in between.
pub proof fn law_same_query_same_results<N, S>(
    view: CollView,
    metric: Metric,
    kernel: Kernel<N, S>,
    q: Query,
    v: Seq<u32>,
    exclude: Option<IdView>,
    x: Seq<ScoredPoint>,
    y: Seq<ScoredPoint>,
) where N: Fn(&[u32]) -> u32, S: Fn(Metric, &[u32], u32, &[u32], u32) -> u32
    requires
        view.may_give(metric, kernel, q, v, exclude, x),
        view.may_give(metric, kernel, q, v, exclude, y),
    ensures
        told(x) == told(y),
{
    let top = lemma_same_top(view, metric, kernel, q, q, v, exclude, exclude, x, y);
    lemma_told(view, q, reaching(metric, top, q.score_threshold), x);
    lemma_told(view, q, reaching(metric, top, q.score_threshold), y);
}

/// What a query gives with a threshold are the results that meet it of those that the query gives
/// without one, in the same order: nothing moves up in the place of what is left out.
pub proof fn law_threshold_keeps_what_meets_it<N, S>(
    view: CollView,
    dim: usize,
    metric: Metric,
    kernel: Kernel<N, S>,
    q: Query,
    plain: Query,
    v: Seq<u32>,
    exclude: Option<IdView>,
    with: Seq<ScoredPoint>,
    all: Seq<ScoredPoint>,
) where N: Fn(&[u32]) -> u32, S: Fn(Metric, &[u32], u32, &[u32], u32) -> u32
    requires
        q.score_threshold is Some,
        plain == (Query { score_threshold: None, ..q }),
        view.may_give(metric, kernel, q, v, exclude, with),
        view.may_give(metric, kernel, plain, v, exclude, all),
    ensures
        target(view, dim, q) == target(view, dim, plain),
        told(with) == told(all).filter(
            |p: ScoredView| metric.meets(p.score, q.score_threshold->0),
        ),
{
    let t = q.score_threshold->0;
    let top = lemma_same_top(view, metric, kernel, q, plain, v, exclude, exclude, with, all);
    lemma_reaching(metric, top, t);
    lemma_told(view, q, reaching(metric, top, Some(t)), with);
    lemma_told(view, plain, top, all);
    lemma_shown_meets(view, metric, q, top, t);
    assert(all_shown(view, q, top) =~= all_shown(view, plain, top));
}

/// A query that names a point gives what a query of its vector gives whose condition leaves that
/// point out; the point is not among the results.
pub proof fn law_query_by_identifier<N, S>(
    view: CollView,
    dim: usize,
    metric: Metric,
    kernel: Kernel<N, S>,
    named: Query,
    plain: Query,
    x: Seq<ScoredPoint>,
    y: Seq<ScoredPoint>,
) where N: Fn(&[u32]) -> u32, S: Fn(Metric, &[u32], u32, &[u32], u32) -> u32
    requires
        view.valid(),
        named.vector is None,
        named.id is Some,
        view.contents().contains_key(named.id->0@),
        plain.vector is Some,
        plain.vector->0@ == view.contents()[named.id->0@].vector,
        plain == (Query { vector: plain.vector, id: None, filter: plain.filter, ..named }),
        choose_alike(named.filter, Some(named.id->0@), plain.filter, None),
    ensures
        match target(view, dim, plain) {
            Ok((v, exclude)) => {
                let id = named.id->0@;
                &&& exclude is None
                &&& target(view, dim, named) == Ok::<(Seq<u32>, Option<IdView>), Error>(
                    (v, Some(id)),
                )
                &&& view.may_give(metric, kernel, named, v, Some(id), x) ==> forall|i: int|
                    0 <= i < x.len() ==> (#[trigger] x[i]).id@ != id
                &&& view.may_give(metric, kernel, named, v, Some(id), x) && view.may_give(
                    metric,
                    kernel,
                    plain,
                    v,
                    exclude,
                    y,
                ) ==> told(x) == told(y)
            },
            Err(e) => target(view, dim, named) == Err::<(Seq<u32>, Option<IdView>), Error>(e),
        },
{
    let id = named.id->0@;
    if let Ok((v, exclude)) = target(view, dim, plain) {
        if view.may_give(metric, kernel, named, v, Some(id), x) {
            law_answers(view, metric, kernel, named, v, Some(id), x);
            assert forall|i: int| 0 <= i < x.len() implies (#[trigger] x[i]).id@ != id by {
                assert(answers_with(view, metric, kernel, named, v, Some(id), x[i]));
            }
            if view.may_give(metric, kernel, plain, v, exclude, y) {
                let top = lemma_same_top(
                    view,
                    metric,
                    kernel,
                    named,
                    plain,
                    v,
                    Some(id),
                    exclude,
                    x,
                    y,
                );
                let hits = reaching(metric, top, named.score_threshold);
                lemma_told(view, named, hits, x);
                lemma_told(view, plain, hits, y);
                assert(all_shown(view, named, hits) =~= all_shown(view, plain, hits));
            }
        }
    }
}

/// That a point does not have an identifier is a condition that leaves it out.
pub proof fn law_condition_leaves_out(c: Condition, id: IdView)
    requires
        c matches Condition::Not { of } && (*of matches Condition::HasId { ids } && ids@.len() == 1
            && ids@[0]@ == id),
    ensures
        choose_alike(None, Some(id), Some(c), None),
{
    let inner = *(c->Not_of);
    let ids = inner->HasId_ids;
    assert forall|x: IdView, payload: Option<JsonView>|
        (#[trigger] passes(None, x, payload) && Some(x) != Some(id)) == (passes(
            Some(c),
            x,
            payload,
        ) && Some(x) != None::<IdView>) by {
        assert(ids@[0]@ == id);
        assert(inner.holds(x, payload) == (x == id));
        assert(c.holds(x, payload) == !inner.holds(x, payload));
    }
}

/// A flush writes segments and their indexes before it saves the manifest and empties the log.
pub proof fn lemma_flush_steps_first<N, S>(
    db: Database,
    plan: FlushPlan,
    next_lsn: u64,
    kernel: Kernel<N, S>,
) where N: Fn(&[u32]) -> u32, S: Fn(Metric, &[u32], u32, &[u32], u32) -> u32
    requires
        db.flush_planned(plan, next_lsn, kernel),
    ensures
        forall|i: int|
            0 <= i < plan.steps@.len() - 2 ==> (#[trigger] plan.steps@[i]) is WriteSegment
                || plan.steps@[i] is WriteIndex,
{
    let head = plan.steps@.take(plan.steps@.len() - 2);
    lemma_only_segments(
        db.collections@,
        plan.at@,
        db.next_seg_id,
        plan.segs@,
        head,
        kernel,
        plan.at@.len(),
    );
    assert forall|i: int| 0 <= i < plan.steps@.len() - 2 implies (
    #[trigger] plan.steps@[i]) is WriteSegment || plan.steps@[i] is WriteIndex by {
        assert(head[i] == plan.steps@[i]);
    }
}

/// Until the manifest is saved, a flush leaves the manifest and the log as they were, also where
/// writing a segment fails.
pub proof fn law_flush_writes_segments_first<N, S>(
    db: Database,
    disk: Disk,
    plan: FlushPlan,
    next_lsn: u64,
    kernel: Kernel<N, S>,
    k: int,
) where N: Fn(&[u32]) -> u32, S: Fn(Metric, &[u32], u32, &[u32], u32) -> u32
    requires
        db.flush_planned(plan, next_lsn, kernel),
        0 <= k <= plan.steps@.len() - 2,
    ensures
        disk.performed_all(plan.steps@.take(k)).manifest == disk.manifest,
        disk.performed_all(plan.steps@.take(k)).log == disk.log,
{
    let head = plan.steps@.take(plan.steps@.len() - 2);
    lemma_only_segments(
        db.collections@,
        plan.at@,
        db.next_seg_id,
        plan.segs@,
        head,
        kernel,
        plan.at@.len(),
    );
    assert(plan.steps@.take(k) =~= head.take(k));
    lemma_segments_alone(disk, head, k);
}

/// The steps that store segments write these and their indexes only.
proof fn lemma_only_segments<N, S>(
    colls: Seq<Collection>,
    at: Seq<usize>,
    first: u64,
    segs: Seq<ImmutableSegment>,
    steps: Seq<Step>,
    kernel: Kernel<N, S>,
    n: nat,
) where N: Fn(&[u32]) -> u32, S: Fn(Metric, &[u32], u32, &[u32], u32) -> u32
    requires
        stores_segments(colls, at, first, segs, steps, kernel, n),
    ensures
        forall|i: int|
            0 <= i < steps.len() ==> (#[trigger] steps[i]) is WriteSegment
                || steps[i] is WriteIndex,
    decreases n,
{
    if n > 0 {
        let c = colls[at[n - 1] as int];
        let id = (first + n - 1) as u64;
        let k = choose|k: int|
            0 <= k <= steps.len() && #[trigger] stores_segment(
                steps.skip(k),
                segs[n - 1],
                id,
                c.view.mutable,
            ) && stores_segments(
                colls,
                at,
                first,
                segs,
                steps.take(k),
                kernel,
                (n - 1) as nat,
            );
        lemma_only_segments(colls, at, first, segs, steps.take(k), kernel, (n - 1) as nat);
        assert forall|i: int| 0 <= i < steps.len() implies (#[trigger] steps[i]) is WriteSegment
            || steps[i] is WriteIndex by {
            if i < k {
                assert(steps.take(k)[i] == steps[i]);
            } else {
                assert(steps.skip(k)[i - k] == steps[i]);
            }
        }
    }
}

/// Steps that write segments leave the manifest and the log alone.
proof fn lemma_segments_alone(disk: Disk, steps: Seq<Step>, k: int)
    requires
        0 <= k <= steps.len(),
        forall|i: int|
            0 <= i < steps.len() ==> (#[trigger] steps[i]) is WriteSegment
                || steps[i] is WriteIndex,
    ensures
        disk.performed_all(steps.take(k)).manifest == disk.manifest,
        disk.performed_all(steps.take(k)).log == disk.log,
    decreases k,
{
    if k > 0 {
        lemma_segments_alone(disk, steps, k - 1);
        assert(steps.take(k).drop_last() =~= steps.take(k - 1));
        assert(steps.take(k).last() == steps[k - 1]);
    }
}

/// A database that is opened again from files that give back what another one kept holds the same:
/// the same collections with the same configuration, and in them the same points, with the same
/// vectors and, but for `null`, the same payloads.
pub proof fn law_opened_database_holds_the_same(
    db: Database,
    again: Database,
    disk: Disk,
    name: Seq<char>,
)
    requires
        gives_back(disk, db),
        settled_kept(again.kept(name)) == settled_kept(disk.recovered(name)),
    ensures
        match (db.kept(name), again.kept(name)) {
            (Some(x), Some(y)) => {
                &&& x.config == y.config
                &&& x.points.dom() == y.points.dom()
                &&& forall|id: IdView| #[trigger]
                    x.points.contains_key(id) ==> x.points[id].vector == y.points[id].vector
                        && alike_payloads(x.points[id].payload, y.points[id].payload)
            },
            (None, None) => true,
            _ => false,
        },
{
    law_settled_alike_is_the_same(db.kept(name), again.kept(name));
}

/// What a collection holds is what is alive in one of its segments, and what a segment has alive is
/// what its rows hold that are not deleted.
pub proof fn law_contents(view: CollView, id: IdView, i: int)
    requires
        view.valid(),
        view.apart(),
    ensures
        view.contents().contains_key(id) <==> view.mutable.live().contains_key(id) || exists|
            j: int,
        |
            0 <= j < view.immutables@.len() && (
            #[trigger] view.immutables@[j]).live().contains_key(id),
        view.mutable.live().contains_key(id) ==> view.contents()[id] == view.mutable.live()[id],
        0 <= i < view.immutables@.len() && view.immutables@[i].live().contains_key(id)
            ==> view.contents()[id] == view.immutables@[i].live()[id],
        0 <= i < view.mutable.rows().len() && view.mutable.rows()[i].id == id ==> (
        view.mutable.live().contains_key(id) <==> !view.mutable.dead().contains(i as u32)) && (
        view.mutable.live().contains_key(id) ==> view.mutable.live()[id].vector
            == view.mutable.rows()[i].vector && view.mutable.live()[id].payload
            == view.mutable.rows()[i].payload),
{
    let segs = view.immutables@;
    view.mutable.lemma_valid();
    lemma_layered(segs, id);
    if 0 <= i < segs.len() && segs[i].live().contains_key(id) {
        assert forall|j: int| i < j < segs.len() implies !(
        #[trigger] segs[j]).live().contains_key(id) by {
            assert(segs[i].live().contains_key(id));
        }
        assert(!view.mutable.index().contains_key(id));
    }
    if 0 <= i < view.mutable.rows().len() && view.mutable.rows()[i].id == id {
        assert(view.mutable.index()[id] == i);
    }
}

} // verus!
