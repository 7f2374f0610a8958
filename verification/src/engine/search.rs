//! Queries: each segment is searched, and what is found is put in one order.

use vstd::prelude::*;

use crate::collection::CollectionConfig;
use crate::engine::view::CollView;
use crate::error::{Error, Invalid};
use crate::filter::{filter_pass, passes, Condition};
use crate::float::{rank, ranked_before};
use crate::id::{ExternalId, IdView};
use crate::index::flat;
use crate::index::{admitted, RowFilter};
use crate::json::JsonView;
use crate::kernel::{Kernel, Metric};
use crate::query::{Query, ScoredPoint};
use crate::segment::immutable::{exact, law_exact_store, ImmutableSegment};
use crate::segment::mutable::MutableSegment;
use crate::segment::{copy_vector, payload_view, Row};

verus! {

/// A row that a search found.
#[derive(Clone, Copy)]
pub struct Hit {
    /// The score.
    pub score: u32,
    /// The segment: zero for the mutable one, `i + 1` for immutable segment `i`.
    pub place: usize,
    /// The row.
    pub idx: u32,
}

/// Whether a hit comes before another: the better score first, then the segment, then
/// the row.
pub open spec fn ahead(metric: Metric, a: Hit, b: Hit) -> bool {
    let (x, y) = match metric {
        Metric::L2 => (rank(a.score), rank(b.score)),
        Metric::Cosine | Metric::Dot => (rank(b.score), rank(a.score)),
    };
    x < y || (x == y && (a.place < b.place || (a.place == b.place && a.idx < b.idx)))
}

/// Whether `sorted` are some hits in order.
pub open spec fn sorts(metric: Metric, hits: Seq<Hit>, sorted: Seq<Hit>) -> bool {
    &&& sorted.to_multiset() == hits.to_multiset()
    &&& forall|i: int, j: int|
        0 <= i < j < sorted.len() ==> !ahead(metric, #[trigger] sorted[j], #[trigger] sorted[i])
}

/// The hits in one segment.
pub open spec fn hits_of(out: Seq<(u32, u32)>, place: usize) -> Seq<Hit> {
    Seq::new(out.len(), |i: int| Hit { score: out[i].1, place, idx: out[i].0 })
}

/// The hits in all segments.
pub open spec fn all_hits(outs: Seq<Seq<(u32, u32)>>) -> Seq<Hit>
    decreases outs.len(),
{
    if outs.len() == 0 {
        Seq::empty()
    } else {
        all_hits(outs.drop_last()) + hits_of(outs.last(), (outs.len() - 1) as usize)
    }
}

/// The hits whose scores reach a threshold.
pub open spec fn reaching(metric: Metric, hits: Seq<Hit>, threshold: Option<u32>) -> Seq<Hit>
    decreases hits.len(),
{
    if hits.len() == 0 {
        hits
    } else {
        let before = reaching(metric, hits.drop_last(), threshold);
        if threshold is None || metric.meets(hits.last().score, threshold->0) {
            before.push(hits.last())
        } else {
            before
        }
    }
}

/// At most the first `k` hits.
pub open spec fn first_hits(hits: Seq<Hit>, k: nat) -> Seq<Hit> {
    if hits.len() <= k {
        hits
    } else {
        hits.take(k as int)
    }
}

/// What a result is.
#[verifier::ext_equal]
pub struct ScoredView {
    /// The identifier.
    pub id: IdView,
    /// The score.
    pub score: u32,
    /// The payload.
    pub payload: Option<JsonView>,
    /// The vector.
    pub vector: Option<Seq<u32>>,
}

/// What results are.
pub open spec fn told(out: Seq<ScoredPoint>) -> Seq<ScoredView> {
    Seq::new(
        out.len(),
        |i: int|
            ScoredView {
                id: out[i].id@,
                score: out[i].score,
                payload: payload_view(out[i].payload),
                vector: match out[i].vector {
                    Some(v) => Some(v@),
                    None => None,
                },
            },
    )
}

/// What an identifier is, if there is one.
pub open spec fn id_view(id: Option<ExternalId>) -> Option<IdView> {
    match id {
        Some(id) => Some(id@),
        None => None,
    }
}

/// Whether a row is among those a query chooses from: it is not dead, meets the
/// condition, and is not the one that is left out.
pub open spec fn wanted(
    rows: Seq<Row>,
    dead: Set<u32>,
    filter: Option<Condition>,
    exclude: Option<IdView>,
) -> spec_fn(u32) -> bool {
    |i: u32|
        i < rows.len() && !dead.contains(i) && Some(rows[i as int].id) != exclude && passes(
            filter,
            rows[i as int].id,
            rows[i as int].payload,
        )
}

/// The rows of the mutable segment that a query chooses from.
struct MutableRows<'a> {
    seg: &'a MutableSegment,
    filter: &'a Option<Condition>,
    exclude: &'a Option<ExternalId>,
}

impl<'a> RowFilter for MutableRows<'a> {
    closed spec fn sound(&self) -> bool {
        self.seg.valid()
    }

    closed spec fn lets(&self, i: u32) -> bool {
        wanted(self.seg.rows(), self.seg.dead(), *self.filter, id_view(*self.exclude))(i)
    }

    fn pass(&self, i: u32) -> (r: bool) {
        proof {
            self.seg.lemma_valid();
        }
        if i as usize >= self.seg.total() {
            return false;
        }
        if self.seg.is_deleted(i) {
            return false;
        }
        let data = self.seg.data();
        assert(data.rows()[i as int].id == data.ids@[i as int]@);
        let id = &data.ids[i as usize];
        if let Some(e) = self.exclude {
            if e.same(id) {
                return false;
            }
        }
        filter_pass(self.filter, id, &data.payloads[i as usize])
    }
}

/// The rows of an immutable segment that a query chooses from.
struct SegmentRows<'a> {
    seg: &'a ImmutableSegment,
    filter: &'a Option<Condition>,
    exclude: &'a Option<ExternalId>,
}

impl<'a> RowFilter for SegmentRows<'a> {
    closed spec fn sound(&self) -> bool {
        self.seg.valid()
    }

    closed spec fn lets(&self, i: u32) -> bool {
        wanted(self.seg.rows(), self.seg.dead(), *self.filter, id_view(*self.exclude))(i)
    }

    fn pass(&self, i: u32) -> (r: bool) {
        proof {
            self.seg.lemma_valid();
        }
        if i as usize >= self.seg.total() {
            return false;
        }
        if !self.seg.is_alive(i) {
            return false;
        }
        let data = self.seg.data();
        assert(self.seg.rows()[i as int].id == data.ids@[i as int]@);
        let id = &data.ids[i as usize];
        if let Some(e) = self.exclude {
            if e.same(id) {
                return false;
            }
        }
        let payload = self.seg.payload_of(i as usize);
        filter_pass(self.filter, id, &payload)
    }
}

fn is_ahead(metric: Metric, a: Hit, b: Hit) -> (r: bool)
    ensures
        r == ahead(metric, a, b),
{
    let (x, y): (u32, u32) = match metric {
        Metric::L2 => (a.score, b.score),
        Metric::Cosine | Metric::Dot => (b.score, a.score),
    };
    proof {
        crate::float::law_orders_agree(x, y);
    }
    ranked_before(x, y) || (x == y && (a.place < b.place || (a.place == b.place && a.idx < b.idx)))
}

/// Puts hits in order.
fn sort_hits(metric: Metric, hits: &Vec<Hit>) -> (r: Vec<Hit>)
    ensures
        sorts(metric, hits@, r@),
{
    let mut r: Vec<Hit> = Vec::new();
    let mut i: usize = 0;
    assert(hits@.take(0) =~= Seq::<Hit>::empty());
    while i < hits.len()
        invariant
            i <= hits@.len(),
            sorts(metric, hits@.take(i as int), r@),
        decreases hits.len() - i,
    {
        let item: Hit = hits[i];
        let ghost s = r@;
        let mut p: usize = r.len();
        while p > 0 && is_ahead(metric, item, r[p - 1])
            invariant
                p <= r@.len(),
                r@ == s,
                forall|x: int| p <= x < s.len() ==> ahead(metric, item, #[trigger] s[x]),
            decreases p,
        {
            p = p - 1;
        }
        r.insert(p, item);
        proof {
            let t = r@;
            assert(hits@.take(i + 1) =~= hits@.take(i as int).push(item));
            assert(t.remove(p as int) =~= s);
            t.to_multiset_ensures();
            hits@.take(i as int).to_multiset_ensures();
            assert(hits@.take(i + 1).to_multiset() =~= hits@.take(i as int).to_multiset().insert(
                item,
            ));
            assert(t.contains(t[p as int]));
            assert(t.to_multiset() =~= s.to_multiset().insert(item));
            assert forall|a: int, b: int| 0 <= a < b < t.len() implies !ahead(
                metric,
                #[trigger] t[b],
                #[trigger] t[a],
            ) by {
                if a == p {
                    assert(t[b] == s[b - 1]);
                } else if b == p {
                    assert(t[a] == s[a]);
                    if a < p - 1 {
                        assert(!ahead(metric, s[p - 1], s[a]));
                    }
                } else {
                    let x = if a < p {
                        a
                    } else {
                        a - 1
                    };
                    let y = if b < p {
                        b
                    } else {
                        b - 1
                    };
                    assert(t[a] == s[x] && t[b] == s[y]);
                }
            }
        }
        i = i + 1;
    }
    assert(hits@.take(hits@.len() as int) =~= hits@);
    r
}

/// What a query asks for: a vector, and perhaps a point to leave out; or what is wrong
/// with it.
pub open spec fn target(view: CollView, dim: usize, q: Query) -> Result<
    (Seq<u32>, Option<IdView>),
    Error,
> {
    let found = match (q.vector, q.id) {
        (Some(v), None) => Ok((v@, None)),
        (None, Some(id)) => if view.contents().contains_key(id@) {
            Ok((view.contents()[id@].vector, Some(id@)))
        } else {
            Err(Error::Invalid(Invalid::QueryIdNotFound))
        },
        _ => Err(Error::Invalid(Invalid::VectorOrId)),
    };
    match found {
        Err(e) => Err(e),
        Ok((v, exclude)) => if v.len() != dim {
            Err(Error::DimensionMismatch { expected: dim, got: v.len() as usize })
        } else if q.top_k == 0 {
            Err(Error::Invalid(Invalid::ZeroTopK))
        } else {
            Ok((v, exclude))
        },
    }
}

impl CollView {
    /// Whether searches of the segments for a query may give `outs`: those of the
    /// mutable segment first, which are exact, then those of the immutable segments.
    pub open spec fn may_answer<N, S>(
        &self,
        metric: Metric,
        kernel: Kernel<N, S>,
        q: Query,
        v: Seq<u32>,
        exclude: Option<IdView>,
        outs: Seq<Seq<(u32, u32)>>,
    ) -> bool where N: Fn(&[u32]) -> u32, S: Fn(Metric, &[u32], u32, &[u32], u32) -> u32 {
        &&& outs.len() == self.immutables@.len() + 1
        &&& exact(
            self.mutable.store(),
            metric,
            kernel,
            v,
            q.top_k as nat,
            wanted(self.mutable.rows(), self.mutable.dead(), q.filter, exclude),
            outs[0],
        )
        &&& forall|i: int|
            0 <= i < self.immutables@.len() ==> (#[trigger] self.immutables@[i]).may_find(
                metric,
                kernel,
                v,
                q.top_k as nat,
                wanted(
                    self.immutables@[i].rows(),
                    self.immutables@[i].dead(),
                    q.filter,
                    exclude,
                ),
                outs[i + 1],
            )
    }

    /// The row of a hit.
    pub open spec fn row_at(&self, hit: Hit) -> Row {
        if hit.place == 0 {
            self.mutable.rows()[hit.idx as int]
        } else {
            self.immutables@[hit.place - 1].rows()[hit.idx as int]
        }
    }

    /// Whether there is such a row.
    pub open spec fn has_row(&self, hit: Hit) -> bool {
        if hit.place == 0 {
            hit.idx < self.mutable.rows().len()
        } else {
            hit.place - 1 < self.immutables@.len() && hit.idx
                < self.immutables@[hit.place - 1].rows().len()
        }
    }

    /// Whether results are those of some hits: with payloads and vectors as the query
    /// asks.
    pub open spec fn reports(&self, q: Query, hits: Seq<Hit>, out: Seq<ScoredPoint>) -> bool {
        &&& out.len() == hits.len()
        &&& forall|i: int|
            0 <= i < out.len() ==> {
                let row = self.row_at(hits[i]);
                &&& (#[trigger] out[i]).id@ == row.id
                &&& out[i].score == hits[i].score
                &&& payload_view(out[i].payload) == (if q.with_payload {
                    row.payload
                } else {
                    None
                })
                &&& match out[i].vector {
                    Some(v) => q.with_vector && v@ == row.vector,
                    None => !q.with_vector,
                }
            }
    }

    /// Whether a query may give `out`: the hits of all segments in order, the first
    /// `top_k` of them, and of these the ones that reach the threshold.
    pub open spec fn may_give<N, S>(
        &self,
        metric: Metric,
        kernel: Kernel<N, S>,
        q: Query,
        v: Seq<u32>,
        exclude: Option<IdView>,
        out: Seq<ScoredPoint>,
    ) -> bool where N: Fn(&[u32]) -> u32, S: Fn(Metric, &[u32], u32, &[u32], u32) -> u32 {
        exists|outs: Seq<Seq<(u32, u32)>>, sorted: Seq<Hit>| #[trigger]
            self.may_answer(metric, kernel, q, v, exclude, outs) && #[trigger] sorts(
                metric,
                all_hits(outs),
                sorted,
            ) && self.reports(
                q,
                reaching(metric, first_hits(sorted, q.top_k as nat), q.score_threshold),
                out,
            )
    }

    /// All hits are rows.
    proof fn lemma_hits<N, S>(
        &self,
        metric: Metric,
        kernel: Kernel<N, S>,
        q: Query,
        v: Seq<u32>,
        exclude: Option<IdView>,
        outs: Seq<Seq<(u32, u32)>>,
        n: int,
    ) where N: Fn(&[u32]) -> u32, S: Fn(Metric, &[u32], u32, &[u32], u32) -> u32
        requires
            self.valid(),
            self.may_answer(metric, kernel, q, v, exclude, outs),
            0 <= n <= outs.len(),
            outs.len() <= usize::MAX + 1,
        ensures
            forall|i: int|
                0 <= i < all_hits(outs.take(n)).len() ==> self.has_row(
                    #[trigger] all_hits(outs.take(n))[i],
                ),
        decreases n,
    {
        if n > 0 {
            self.lemma_hits(metric, kernel, q, v, exclude, outs, n - 1);
            assert(outs.take(n).drop_last() =~= outs.take(n - 1));
            let place = (n - 1) as usize;
            let out = outs[n - 1];
            if n == 1 {
                self.mutable.lemma_valid();
                law_exact_store(
                    self.mutable.store(),
                    metric,
                    kernel,
                    v,
                    q.top_k as nat,
                    wanted(self.mutable.rows(), self.mutable.dead(), q.filter, exclude),
                    out,
                );
            } else {
                let seg = self.immutables@[n - 2];
                assert(seg.valid());
                assert(outs[n - 2 + 1] == out);
                seg.law_search_presents(
                    metric,
                    kernel,
                    v,
                    q.top_k as nat,
                    wanted(seg.rows(), seg.dead(), q.filter, exclude),
                    out,
                );
            }
            let all = all_hits(outs.take(n));
            let before = all_hits(outs.take(n - 1));
            assert forall|i: int| 0 <= i < all.len() implies self.has_row(#[trigger] all[i]) by {
                if i < before.len() {
                    assert(all[i] == before[i]);
                } else {
                    assert(all[i] == hits_of(out, place)[i - before.len()]);
                    assert(out[i - before.len()].0 == all[i].idx);
                }
            }
        }
    }

    /// The hits in all segments.
    fn find_all<N, S>(
        &self,
        metric: Metric,
        kernel: &Kernel<N, S>,
        q: &Query,
        v: &Vec<u32>,
        exclude: &Option<ExternalId>,
    ) -> (r: (Vec<Hit>, Ghost<Seq<Seq<(u32, u32)>>>)) where
        N: Fn(&[u32]) -> u32,
        S: Fn(Metric, &[u32], u32, &[u32], u32) -> u32,

        requires
            self.valid(),
            kernel.valid(),
        ensures
            self.may_answer(metric, *kernel, *q, v@, id_view(*exclude), r.1@),
            r.0@ == all_hits(r.1@),
    {
        let ghost ex = id_view(*exclude);
        let ghost k = q.top_k as nat;
        let ghost first = wanted(self.mutable.rows(), self.mutable.dead(), q.filter, ex);
        proof {
            self.mutable.lemma_valid();
        }
        let data = self.mutable.data();
        let pass = Some(MutableRows { seg: &self.mutable, filter: &q.filter, exclude });
        assert(admitted(pass) =~= first);
        let out = flat::search(
            kernel,
            metric,
            data.vectors.as_slice(),
            data.norms.as_slice(),
            data.dim,
            v.as_slice(),
            &pass,
            q.top_k,
        );
        let mut hits: Vec<Hit> = Vec::new();
        push_hits(&mut hits, &out, 0);
        let ghost mut outs: Seq<Seq<(u32, u32)>> = seq![out@];
        proof {
            assert(outs.drop_last() =~= Seq::<Seq<(u32, u32)>>::empty());
            assert(hits@ =~= all_hits(outs)) by {
                reveal_with_fuel(all_hits, 2);
            }
        }
        let mut si: usize = 0;
        while si < self.immutables.len()
            invariant
                si <= self.immutables@.len(),
                self.valid(),
                kernel.valid(),
                ex == id_view(*exclude),
                k == q.top_k,
                first == wanted(self.mutable.rows(), self.mutable.dead(), q.filter, ex),
                outs.len() == si + 1,
                exact(self.mutable.store(), metric, *kernel, v@, k, first, outs[0]),
                forall|i: int|
                    0 <= i < si ==> (#[trigger] self.immutables@[i]).may_find(
                        metric,
                        *kernel,
                        v@,
                        k,
                        wanted(
                            self.immutables@[i].rows(),
                            self.immutables@[i].dead(),
                            q.filter,
                            ex,
                        ),
                        outs[i + 1],
                    ),
                hits@ == all_hits(outs),
            decreases self.immutables@.len() - si,
        {
            let seg = &self.immutables[si];
            let pass = Some(SegmentRows { seg, filter: &q.filter, exclude });
            let ghost want = wanted(seg.rows(), seg.dead(), q.filter, ex);
            assert(admitted(pass) =~= want);
            let out = seg.search(metric, kernel, v.as_slice(), q.top_k, &pass);
            push_hits(&mut hits, &out, si + 1);
            proof {
                let more = outs.push(out@);
                assert(more.drop_last() =~= outs);
                assert(more[0] == outs[0]);
                assert forall|i: int| 0 <= i < si + 1 implies (
                #[trigger] self.immutables@[i]).may_find(
                    metric,
                    *kernel,
                    v@,
                    k,
                    wanted(self.immutables@[i].rows(), self.immutables@[i].dead(), q.filter, ex),
                    more[i + 1],
                ) by {
                    if i < si {
                        assert(more[i + 1] == outs[i + 1]);
                    }
                }
                outs = more;
            }
            si = si + 1;
        }
        (hits, Ghost(outs))
    }

    /// The nearest points, best first.
    pub fn query<N, S>(&self, config: &CollectionConfig, kernel: &Kernel<N, S>, q: &Query) -> (r:
        Result<Vec<ScoredPoint>, Error>) where
        N: Fn(&[u32]) -> u32,
        S: Fn(Metric, &[u32], u32, &[u32], u32) -> u32,

        requires
            self.valid(),
            kernel.valid(),
            self.width() == config.dim,
        ensures
            match target(*self, config.dim, *q) {
                Err(e) => r == Err::<Vec<ScoredPoint>, Error>(e),
                Ok((v, exclude)) => r is Ok && self.may_give(
                    config.metric,
                    *kernel,
                    *q,
                    v,
                    exclude,
                    r->Ok_0@,
                ),
            },
    {
        let metric = config.metric;
        let (v, exclude): (Vec<u32>, Option<ExternalId>) = match (&q.vector, &q.id) {
            (Some(v), None) => (copy_vector(v.as_slice()), None),
            (None, Some(id)) => match self.lookup_point(id) {
                Some(p) => (p.vector, Some(id.clone())),
                None => {
                    return Err(Error::Invalid(Invalid::QueryIdNotFound));
                },
            },
            _ => {
                return Err(Error::Invalid(Invalid::VectorOrId));
            },
        };
        if v.len() != config.dim {
            return Err(Error::DimensionMismatch { expected: config.dim, got: v.len() });
        }
        if q.top_k == 0 {
            return Err(Error::Invalid(Invalid::ZeroTopK));
        }
        let (hits, Ghost(outs)) = self.find_all(metric, kernel, q, &v, &exclude);
        let sorted = sort_hits(metric, &hits);
        assert(self.immutables@.len() == self.immutables.len());
        proof {
            self.lemma_hits(
                metric,
                *kernel,
                *q,
                v@,
                id_view(exclude),
                outs,
                outs.len() as int,
            );
            assert(outs.take(outs.len() as int) =~= outs);
            lemma_sorted_items(hits@, sorted@);
        }
        let n: usize = if sorted.len() <= q.top_k {
            sorted.len()
        } else {
            q.top_k
        };
        let ghost top = first_hits(sorted@, q.top_k as nat);
        let mut out: Vec<ScoredPoint> = Vec::new();
        let mut i: usize = 0;
        while i < n
            invariant
                i <= n,
                n <= sorted@.len(),
                n == top.len(),
                self.valid(),
                forall|j: int| 0 <= j < top.len() ==> top[j] == #[trigger] sorted@[j],
                forall|j: int| 0 <= j < sorted@.len() ==> self.has_row(#[trigger] sorted@[j]),
                self.reports(
                    *q,
                    reaching(metric, top.take(i as int), q.score_threshold),
                    out@,
                ),
            decreases n - i,
        {
            let hit: Hit = sorted[i];
            assert(top.take(i + 1).drop_last() =~= top.take(i as int));
            assert(top.take(i + 1).last() == hit);
            let good: bool = match q.score_threshold {
                Some(t) => metric.passes(hit.score, t),
                None => true,
            };
            if good {
                let point = if hit.place == 0 {
                    self.mutable.point(hit.idx)
                } else {
                    let seg = &self.immutables[hit.place - 1];
                    seg.point(hit.idx)
                };
                assert(self.has_row(hit));
                out.push(
                    ScoredPoint {
                        id: point.id,
                        score: hit.score,
                        payload: if q.with_payload {
                            point.payload
                        } else {
                            None
                        },
                        vector: if q.with_vector {
                            Some(point.vector)
                        } else {
                            None
                        },
                    },
                );
            }
            i = i + 1;
        }
        proof {
            assert(top.take(top.len() as int) =~= top);
            assert(self.may_answer(metric, *kernel, *q, v@, id_view(exclude), outs));
            assert(sorts(metric, all_hits(outs), sorted@));
        }
        Ok(out)
    }
}

/// What sorting leaves is what there was.
proof fn lemma_sorted_items(hits: Seq<Hit>, sorted: Seq<Hit>)
    requires
        sorted.to_multiset() == hits.to_multiset(),
    ensures
        sorted.len() == hits.len(),
        forall|i: int| 0 <= i < sorted.len() ==> hits.contains(#[trigger] sorted[i]),
        forall|i: int| 0 <= i < hits.len() ==> sorted.contains(#[trigger] hits[i]),
{
    sorted.to_multiset_ensures();
    hits.to_multiset_ensures();
    assert forall|i: int| 0 <= i < sorted.len() implies hits.contains(#[trigger] sorted[i]) by {
        assert(sorted.contains(sorted[i]));
        assert(sorted.to_multiset().contains(sorted[i]));
    }
    assert forall|i: int| 0 <= i < hits.len() implies sorted.contains(#[trigger] hits[i]) by {
        assert(hits.contains(hits[i]));
        assert(hits.to_multiset().contains(hits[i]));
    }
}

/// Adds the hits in one segment.
fn push_hits(hits: &mut Vec<Hit>, out: &Vec<(u32, u32)>, place: usize)
    ensures
        final(hits)@ == old(hits)@ + hits_of(out@, place),
{
    let mut i: usize = 0;
    assert(hits_of(out@, place).take(0) =~= Seq::<Hit>::empty());
    assert(hits@ =~= old(hits)@ + hits_of(out@, place).take(0));
    while i < out.len()
        invariant
            i <= out@.len(),
            hits@ == old(hits)@ + hits_of(out@, place).take(i as int),
        decreases out.len() - i,
    {
        hits.push(Hit { score: out[i].1, place, idx: out[i].0 });
        assert(hits@ =~= old(hits)@ + hits_of(out@, place).take(i + 1));
        i = i + 1;
    }
    assert(hits_of(out@, place).take(out@.len() as int) =~= hits_of(out@, place));
}

} // verus!
