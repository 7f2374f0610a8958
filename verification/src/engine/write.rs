//! Writes to the segments of a collection.

use vstd::prelude::*;

use crate::engine::view::{disjoint, held, layered, lemma_layered, oldest_in, CollView};
use crate::filter::listed;
use crate::id::{ExternalId, IdMap, IdView};
use crate::json::{Json, JsonView};
use crate::kernel::{Kernel, Metric};
use crate::segment::immutable::{repaid, ImmutableSegment};
use crate::segment::overlay::overlaid;
use crate::segment::{copy_payload, payload_view, Entry, Point, Row};

verus! {

/// The rows that hold some points.
pub open spec fn point_rows<N, S>(points: Seq<Point>, kernel: Kernel<N, S>) -> Seq<Row> where
    N: Fn(&[u32]) -> u32,
    S: Fn(Metric, &[u32], u32, &[u32], u32) -> u32,
 {
    Seq::new(points.len(), |i: int| points[i].row(kernel.norm_of(points[i].vector@)))
}

/// The points of a collection once some points were written, one after the other.
pub open spec fn with_points(m: Map<IdView, Entry>, points: Seq<Point>) -> Map<IdView, Entry>
    decreases points.len(),
{
    if points.len() == 0 {
        m
    } else {
        with_points(m, points.drop_last()).insert(points.last().id@, points.last().entry())
    }
}

/// The identifiers of some points that have no row yet.
pub open spec fn new_ids(index: Map<IdView, u32>, points: Seq<Point>) -> Set<IdView> {
    Set::new(
        |id: IdView|
            !index.contains_key(id) && exists|i: int|
                0 <= i < points.len() && (#[trigger] points[i]).id@ == id,
    )
}

/// Whether each segment is the one before it with the rows of some identifiers deleted.
pub open spec fn all_without(
    before: Seq<ImmutableSegment>,
    after: Seq<ImmutableSegment>,
    gone: Set<IdView>,
) -> bool {
    &&& before.len() == after.len()
    &&& forall|i: int| 0 <= i < before.len() ==> (#[trigger] before[i]).without(after[i], gone)
}

/// Whether a segment holds one of some points.
pub open spec fn holds_any(seg: ImmutableSegment, ids: Set<IdView>) -> bool {
    exists|id: IdView| ids.contains(id) && #[trigger] seg.live().contains_key(id)
}

/// What is layered, less some points.
proof fn lemma_all_without(
    before: Seq<ImmutableSegment>,
    after: Seq<ImmutableSegment>,
    gone: Set<IdView>,
    dim: nat,
)
    requires
        crate::engine::view::all_valid(before, dim),
        all_without(before, after, gone),
    ensures
        layered(after) == layered(before).remove_keys(gone),
        disjoint(before) ==> disjoint(after),
    decreases before.len(),
{
    if before.len() > 0 {
        let last = before.len() - 1;
        before[last].lemma_without(after[last], gone);
        assert forall|i: int| 0 <= i < last implies (#[trigger] before.drop_last()[i]).without(
            after.drop_last()[i],
            gone,
        ) by {
            assert(before[i].without(after[i], gone));
        }
        lemma_all_without(before.drop_last(), after.drop_last(), gone, dim);
        assert(layered(after) =~= layered(before).remove_keys(gone));
    } else {
        assert(layered(after) =~= layered(before).remove_keys(gone));
    }
    if disjoint(before) {
        assert forall|i: int, j: int, id: IdView|
            #![trigger after[i].live().contains_key(id), after[j].live().contains_key(id)]
            0 <= i < j < after.len() && after[i].live().contains_key(
                id,
            ) implies !after[j].live().contains_key(id) by {
            before[i].lemma_without(after[i], gone);
            before[j].lemma_without(after[j], gone);
            assert(before[i].live().contains_key(id));
            assert(after[j].live().contains_key(id) ==> before[j].live().contains_key(id));
        }
    }
}

impl CollView {
    /// Whether writing points leads to another view, and touches some of the immutable
    /// segments: the points are written to the mutable segment one after the other, and
    /// those that it has no row of are deleted in the others.
    pub open spec fn upserts<N, S>(
        &self,
        after: CollView,
        points: Seq<Point>,
        kernel: Kernel<N, S>,
        touched: Seq<bool>,
    ) -> bool where N: Fn(&[u32]) -> u32, S: Fn(Metric, &[u32], u32, &[u32], u32) -> u32 {
        let fresh = new_ids(self.mutable.index(), points);
        &&& after.mutable.table() == self.mutable.table().put_all(point_rows(points, kernel))
        &&& all_without(self.immutables@, after.immutables@, fresh)
        &&& touched.len() == self.immutables@.len()
        &&& forall|i: int|
            0 <= i < touched.len() ==> (#[trigger] touched[i]) == holds_any(
                self.immutables@[i],
                fresh,
            )
    }

    /// Whether deleting the points of a list leads to another view, and touches some of
    /// the immutable segments.
    pub open spec fn deletes(
        &self,
        after: CollView,
        ids: Seq<ExternalId>,
        touched: Seq<bool>,
    ) -> bool {
        &&& after.mutable.rows() == self.mutable.rows()
        &&& after.mutable.index() == self.mutable.index()
        &&& after.mutable.live() == self.mutable.live().remove_keys(id_set(ids))
        &&& after.immutables@.len() == self.immutables@.len()
        &&& forall|i: int|
            0 <= i < self.immutables@.len() ==> (#[trigger] self.immutables@[i]).without(
                after.immutables@[i],
                gone_from(self.mutable.live(), self.immutables@, ids, i),
            )
        &&& touched.len() == self.immutables@.len()
        &&& forall|i: int|
            0 <= i < touched.len() ==> (#[trigger] touched[i]) == holds_any(
                self.immutables@[i],
                gone_from(self.mutable.live(), self.immutables@, ids, i),
            )
    }

    /// Whether giving the points of a list a payload leads to another view, and touches
    /// some of the immutable segments.
    pub open spec fn pays(
        &self,
        after: CollView,
        ids: Seq<ExternalId>,
        payload: Option<JsonView>,
        touched: Seq<bool>,
    ) -> bool {
        &&& after.mutable.rows() == repaid_rows(
            self.mutable.rows(),
            self.mutable.dead(),
            id_set(ids),
            payload,
        )
        &&& after.mutable.index() == self.mutable.index()
        &&& after.mutable.dead() == self.mutable.dead()
        &&& after.immutables@.len() == self.immutables@.len()
        &&& forall|i: int|
            0 <= i < self.immutables@.len() ==> (#[trigger] self.immutables@[i]).laid(
                after.immutables@[i],
                laid_in(self.mutable.live(), self.immutables@, ids, i),
                payload,
            )
        &&& touched.len() == self.immutables@.len()
        &&& forall|i: int|
            0 <= i < touched.len() ==> (#[trigger] touched[i]) == holds_any(
                self.immutables@[i],
                laid_in(self.mutable.live(), self.immutables@, ids, i),
            )
    }

    /// Marks the row of a point in every immutable segment where it is alive.
    fn bury(&mut self, id: &ExternalId, touched: &mut Vec<bool>)
        requires
            old(self).valid(),
            old(touched)@.len() == old(self).immutables@.len(),
        ensures
            final(self).mutable == old(self).mutable,
            final(self).valid(),
            all_without(old(self).immutables@, final(self).immutables@, set![id@]),
            final(touched)@.len() == old(touched)@.len(),
            forall|i: int|
                0 <= i < old(touched)@.len() ==> (#[trigger] final(touched)@[i]) == (old(
                    touched,
                )@[i] || old(self).immutables@[i].live().contains_key(id@)),
    {
        let ghost segs = self.immutables@;
        let ghost flags = touched@;
        let mut si: usize = 0;
        while si < self.immutables.len()
            invariant
                si <= self.immutables@.len(),
                self.immutables@.len() == segs.len(),
                touched@.len() == segs.len(),
                flags == old(touched)@,
                segs == old(self).immutables@,
                self.mutable == old(self).mutable,
                old(self).valid(),
                crate::engine::view::all_valid(self.immutables@, self.width()),
                forall|i: int|
                    0 <= i < si ==> (#[trigger] segs[i]).without(self.immutables@[i], set![id@]),
                forall|i: int| si <= i < segs.len() ==> #[trigger] segs[i] == self.immutables@[i],
                forall|i: int|
                    0 <= i < segs.len() ==> (#[trigger] touched@[i]) == (flags[i] || (i < si
                        && segs[i].live().contains_key(id@))),
            decreases self.immutables@.len() - si,
        {
            let ghost seg = segs[si as int];
            proof {
                seg.lemma_valid();
            }
            if let Some(idx) = self.immutables[si].alive_index(id) {
                let mut idxs: Vec<u32> = Vec::new();
                idxs.push(idx);
                self.immutables[si].tombstone_many(idxs.as_slice());
                touched.set(si, true);
                proof {
                    let after = self.immutables@[si as int];
                    assert(seg.without(after, set![id@])) by {
                        assert(idxs@ =~= seq![idx]);
                        assert(seg.rows()[idx as int].id == id@);
                        assert(idxs@.to_set() =~= set![idx]) by {
                            assert(idxs@[0] == idx);
                        }
                        assert(after.dead() =~= Set::new(
                            |r: u32|
                                seg.dead().contains(r) || (r < seg.rows().len() && set![id@].contains(
                                    seg.rows()[r as int].id,
                                )),
                        ));
                    }
                }
            } else {
                proof {
                    assert(seg.without(seg, set![id@])) by {
                        assert(seg.dead() =~= Set::new(
                            |r: u32|
                                seg.dead().contains(r) || (r < seg.rows().len() && set![id@].contains(
                                    seg.rows()[r as int].id,
                                )),
                        ));
                    }
                }
            }
            si = si + 1;
        }
    }

    /// Writes points, one after the other. A point that the mutable segment has no row
    /// of is deleted in the immutable segments first. Says which of these were touched.
    pub fn apply_upsert<N, S>(&mut self, points: &[Point], kernel: &Kernel<N, S>) -> (touched: Vec<
        bool,
    >) where N: Fn(&[u32]) -> u32, S: Fn(Metric, &[u32], u32, &[u32], u32) -> u32
        requires
            old(self).valid(),
            kernel.valid(),
            forall|i: int|
                0 <= i < points@.len() ==> (#[trigger] points@[i]).vector@.len() == old(
                    self,
                ).width(),
            old(self).mutable.rows().len() + points@.len() <= u32::MAX,
        ensures
            final(self).valid(),
            final(self).width() == old(self).width(),
            old(self).upserts(*final(self), points@, *kernel, touched@),
            final(self).contents() == with_points(old(self).contents(), points@),
            old(self).apart() ==> final(self).apart(),
    {
        let ghost segs = self.immutables@;
        let ghost table = self.mutable.table();
        let ghost rows = point_rows(points@, *kernel);
        let mut touched: Vec<bool> = Vec::new();
        let mut si: usize = 0;
        while si < self.immutables.len()
            invariant
                si <= self.immutables@.len(),
                touched@.len() == si,
                forall|i: int| 0 <= i < si ==> !(#[trigger] touched@[i]),
            decreases self.immutables@.len() - si,
        {
            touched.push(false);
            si = si + 1;
        }
        proof {
            assert(points@.take(0) =~= Seq::<Point>::empty());
            assert(rows.take(0) =~= Seq::<Row>::empty());
            assert forall|i: int| 0 <= i < segs.len() implies (#[trigger] segs[i]).without(
                segs[i],
                new_ids(table.index, points@.take(0)),
            ) by {
                let none = new_ids(table.index, points@.take(0));
                assert(segs[i].dead() =~= Set::new(
                    |r: u32|
                        segs[i].dead().contains(r) || (r < segs[i].rows().len() && none.contains(
                            segs[i].rows()[r as int].id,
                        )),
                ));
            }
        }
        let mut k: usize = 0;
        while k < points.len()
            invariant
                k <= points@.len(),
                old(self).valid(),
                self.valid(),
                self.width() == old(self).width(),
                kernel.valid(),
                forall|i: int|
                    0 <= i < points@.len() ==> (#[trigger] points@[i]).vector@.len()
                        == self.width(),
                old(self).mutable.rows().len() + points@.len() <= u32::MAX,
                self.mutable.rows().len() <= old(self).mutable.rows().len() + k,
                segs == old(self).immutables@,
                table == old(self).mutable.table(),
                rows == point_rows(points@, *kernel),
                self.mutable.table() == table.put_all(rows.take(k as int)),
                forall|id: IdView| #[trigger]
                    self.mutable.index().contains_key(id) <==> table.index.contains_key(id)
                        || exists|i: int| 0 <= i < k && (#[trigger] points@[i]).id@ == id,
                all_without(segs, self.immutables@, new_ids(table.index, points@.take(k as int))),
                touched@.len() == segs.len(),
                forall|i: int|
                    0 <= i < segs.len() ==> (#[trigger] touched@[i]) == holds_any(
                        segs[i],
                        new_ids(table.index, points@.take(k as int)),
                    ),
                self.contents() == with_points(old(self).contents(), points@.take(k as int)),
                old(self).apart() ==> self.apart(),
            decreases points.len() - k,
        {
            let p = &points[k];
            let ghost seg1 = self.immutables@;
            let ghost view1 = *self;
            let ghost gone = new_ids(table.index, points@.take(k as int));
            let ghost gone2 = new_ids(table.index, points@.take(k + 1));
            let ghost flags = touched@;
            let fresh: bool = !self.mutable.contains(&p.id);
            if fresh {
                self.bury(&p.id, &mut touched);
            }
            let ghost seg2 = self.immutables@;
            self.mutable.upsert(p, kernel);
            proof {
                assert(points@.take(k + 1).drop_last() =~= points@.take(k as int));
                assert(points@.take(k + 1).last() == *p);
                assert(rows.take(k + 1).drop_last() =~= rows.take(k as int));
                lemma_new_ids(table.index, points@, k as int);
                view1.mutable.lemma_valid();
                assert(self.mutable.rows() == self.mutable.table().rows);
                assert(fresh <==> (!table.index.contains_key(p.id@) && !gone.contains(p.id@)));
                if fresh {
                    assert(gone2 =~= gone.insert(p.id@));
                    assert forall|i: int| 0 <= i < segs.len() implies (#[trigger] segs[i]).without(
                        seg2[i],
                        gone2,
                    ) by {
                        assert(segs[i].without(seg1[i], gone));
                        assert(seg1[i].without(seg2[i], set![p.id@]));
                        segs[i].lemma_without(seg1[i], gone);
                        assert(seg2[i].dead() =~= Set::new(
                            |r: u32|
                                segs[i].dead().contains(r) || (r < segs[i].rows().len()
                                    && gone2.contains(segs[i].rows()[r as int].id)),
                        ));
                    }
                    assert forall|i: int| 0 <= i < segs.len() implies (#[trigger] touched@[i])
                        == holds_any(segs[i], gone2) by {
                        assert(segs[i].without(seg1[i], gone));
                        segs[i].lemma_without(seg1[i], gone);
                        assert(touched@[i] == (flags[i] || seg1[i].live().contains_key(p.id@)));
                        assert(flags[i] == holds_any(segs[i], gone));
                        if holds_any(segs[i], gone2) {
                            let id = choose|id: IdView|
                                gone2.contains(id) && #[trigger] segs[i].live().contains_key(id);
                            if id != p.id@ {
                                assert(gone.contains(id));
                            }
                        }
                        if holds_any(segs[i], gone) {
                            let id = choose|id: IdView|
                                gone.contains(id) && #[trigger] segs[i].live().contains_key(id);
                            assert(gone2.contains(id));
                        }
                        if seg1[i].live().contains_key(p.id@) {
                            assert(segs[i].live().contains_key(p.id@));
                            assert(gone2.contains(p.id@));
                        }
                    }
                    lemma_all_without(seg1, seg2, set![p.id@], self.width());
                } else {
                    assert(gone2 =~= gone);
                }
                assert(self.contents() =~= view1.contents().insert(p.id@, p.entry())) by {
                    assert(layered(seg2).remove(p.id@) =~= layered(seg1).remove(p.id@));
                }
                if view1.apart() {
                    assert forall|i: int, id: IdView|
                        #![trigger seg2[i].live().contains_key(id)]
                        0 <= i < seg2.len() && self.mutable.index().contains_key(
                            id,
                        ) implies !seg2[i].live().contains_key(id) by {
                        if fresh {
                            assert(seg1[i].without(seg2[i], set![p.id@]));
                            seg1[i].lemma_without(seg2[i], set![p.id@]);
                            if id != p.id@ {
                                assert(view1.mutable.index().contains_key(id));
                                assert(!seg1[i].live().contains_key(id));
                            }
                        } else {
                            assert(view1.mutable.index().contains_key(id));
                        }
                    }
                }
                assert forall|id: IdView| #[trigger]
                    self.mutable.index().contains_key(id) <==> table.index.contains_key(id)
                        || exists|i: int| 0 <= i < k + 1 && (#[trigger] points@[i]).id@ == id by {
                    if self.mutable.index().contains_key(id) {
                        if id == p.id@ {
                            assert(points@[k as int].id@ == id);
                        } else {
                            assert(view1.mutable.index().contains_key(id));
                        }
                    }
                    if table.index.contains_key(id) {
                        assert(view1.mutable.index().contains_key(id));
                    }
                    if exists|i: int| 0 <= i < k + 1 && (#[trigger] points@[i]).id@ == id {
                        let i = choose|i: int| 0 <= i < k + 1 && (#[trigger] points@[i]).id@ == id;
                        if i < k {
                            assert(view1.mutable.index().contains_key(id));
                        }
                    }
                }
            }
            k = k + 1;
        }
        proof {
            assert(points@.take(points@.len() as int) =~= points@);
            assert(rows.take(rows.len() as int) =~= rows);
        }
        touched
    }
}

/// What one more point adds to the identifiers without a row.
proof fn lemma_new_ids(index: Map<IdView, u32>, points: Seq<Point>, k: int)
    requires
        0 <= k < points.len(),
    ensures
        new_ids(index, points.take(k + 1)) == (if index.contains_key(points[k].id@) {
            new_ids(index, points.take(k))
        } else {
            new_ids(index, points.take(k)).insert(points[k].id@)
        }),
        forall|id: IdView| #[trigger]
            new_ids(index, points.take(k)).contains(id) <==> !index.contains_key(id)
                && exists|i: int| 0 <= i < k && (#[trigger] points[i]).id@ == id,
{
    let a = points.take(k);
    let b = points.take(k + 1);
    assert forall|id: IdView| #[trigger]
        new_ids(index, a).contains(id) <==> !index.contains_key(id) && exists|i: int|
            0 <= i < k && (#[trigger] points[i]).id@ == id by {
        if new_ids(index, a).contains(id) {
            let i = choose|i: int| 0 <= i < a.len() && (#[trigger] a[i]).id@ == id;
            assert(points[i].id@ == id);
        }
        if exists|i: int| 0 <= i < k && (#[trigger] points[i]).id@ == id {
            let i = choose|i: int| 0 <= i < k && (#[trigger] points[i]).id@ == id;
            assert(a[i].id@ == id);
        }
    }
    assert forall|id: IdView| #[trigger]
        new_ids(index, b).contains(id) <==> !index.contains_key(id) && (id == points[k].id@
            || new_ids(index, a).contains(id)) by {
        if new_ids(index, b).contains(id) {
            let i = choose|i: int| 0 <= i < b.len() && (#[trigger] b[i]).id@ == id;
            if i < k {
                assert(points[i].id@ == id);
            }
        }
        if !index.contains_key(id) && id == points[k].id@ {
            assert(b[k].id@ == id);
        }
        if new_ids(index, a).contains(id) {
            let i = choose|i: int| 0 <= i < a.len() && (#[trigger] a[i]).id@ == id;
            assert(b[i].id@ == id);
        }
    }
    let more = new_ids(index, a).insert(points[k].id@);
    if index.contains_key(points[k].id@) {
        assert(new_ids(index, b) =~= new_ids(index, a));
    } else {
        assert(new_ids(index, b) =~= more);
    }
}

/// The identifiers in a list.
pub open spec fn id_set(ids: Seq<ExternalId>) -> Set<IdView> {
    Set::new(|id: IdView| listed(ids, id))
}

/// Whether deleting item `k` of a list deletes a point of the mutable segment: it is
/// alive there, and no item before is the same.
pub open spec fn in_mutable(live: Map<IdView, Entry>, ids: Seq<ExternalId>, k: int) -> bool {
    live.contains_key(ids[k]@) && !listed(ids.take(k), ids[k]@)
}

/// How many of some points are in a list.
pub open spec fn deletions(contents: Map<IdView, Entry>, ids: Seq<ExternalId>) -> nat {
    contents.dom().intersect(id_set(ids)).len()
}

/// What one more item adds to the points that are in a list.
proof fn lemma_deletions(contents: Map<IdView, Entry>, ids: Seq<ExternalId>, k: int)
    requires
        0 <= k < ids.len(),
        contents.dom().intersect(id_set(ids.take(k))).finite(),
    ensures
        contents.dom().intersect(id_set(ids.take(k + 1))).finite(),
        deletions(contents, ids.take(k + 1)) == deletions(contents, ids.take(k)) + (
        if contents.contains_key(ids[k]@) && !id_set(ids.take(k)).contains(ids[k]@) {
            1nat
        } else {
            0nat
        }),
{
    lemma_id_set(ids, k);
    let a = contents.dom().intersect(id_set(ids.take(k)));
    let b = contents.dom().intersect(id_set(ids.take(k + 1)));
    if contents.contains_key(ids[k]@) {
        assert(b =~= a.insert(ids[k]@));
    } else {
        assert(b =~= a);
    }
}

/// The points that deleting a list deletes in immutable segment `i`: those that are not
/// deleted in the mutable segment, and for which it is the oldest segment that has them.
pub open spec fn gone_from(
    live: Map<IdView, Entry>,
    segs: Seq<ImmutableSegment>,
    ids: Seq<ExternalId>,
    i: int,
) -> Set<IdView> {
    Set::new(
        |id: IdView|
            oldest_in(segs, id, i) && exists|k: int|
                0 <= k < ids.len() && (#[trigger] ids[k])@ == id && !in_mutable(live, ids, k),
    )
}

/// What one more item adds to the points that are deleted.
proof fn lemma_gone_from(
    live: Map<IdView, Entry>,
    segs: Seq<ImmutableSegment>,
    ids: Seq<ExternalId>,
    k: int,
    i: int,
)
    requires
        0 <= k < ids.len(),
    ensures
        gone_from(live, segs, ids.take(k + 1), i) == (if !in_mutable(live, ids, k) && oldest_in(
            segs,
            ids[k]@,
            i,
        ) {
            gone_from(live, segs, ids.take(k), i).insert(ids[k]@)
        } else {
            gone_from(live, segs, ids.take(k), i)
        }),
{
    let a = ids.take(k);
    let b = ids.take(k + 1);
    assert forall|j: int| 0 <= j <= k implies #[trigger] in_mutable(live, b, j) == in_mutable(
        live,
        ids,
        j,
    ) by {
        assert(b.take(j) =~= ids.take(j));
        assert(b[j] == ids[j]);
    }
    assert forall|j: int| 0 <= j < k implies #[trigger] in_mutable(live, a, j) == in_mutable(
        live,
        ids,
        j,
    ) by {
        assert(a.take(j) =~= ids.take(j));
        assert(a[j] == ids[j]);
    }
    let ga = gone_from(live, segs, a, i);
    let gb = gone_from(live, segs, b, i);
    assert forall|id: IdView| #[trigger] gb.contains(id) <==> ga.contains(id) || (!in_mutable(
        live,
        ids,
        k,
    ) && oldest_in(segs, ids[k]@, i) && id == ids[k]@) by {
        if gb.contains(id) {
            let j = choose|j: int|
                0 <= j < b.len() && (#[trigger] b[j])@ == id && !in_mutable(live, b, j);
            if j < k {
                assert(a[j]@ == id && !in_mutable(live, a, j));
            }
        }
        if ga.contains(id) {
            let j = choose|j: int|
                0 <= j < a.len() && (#[trigger] a[j])@ == id && !in_mutable(live, a, j);
            assert(b[j]@ == id && !in_mutable(live, b, j));
        }
        if !in_mutable(live, ids, k) && oldest_in(segs, ids[k]@, i) && id == ids[k]@ {
            assert(b[k]@ == id && !in_mutable(live, b, k));
        }
    }
    if !in_mutable(live, ids, k) && oldest_in(segs, ids[k]@, i) {
        assert(gb =~= ga.insert(ids[k]@));
    } else {
        assert(gb =~= ga);
    }
}

/// What deleting points did.
pub struct Deleted {
    /// How many points were deleted.
    pub count: usize,
    /// Which immutable segments were touched.
    pub touched: Vec<bool>,
    /// The immutable segments that are worth rebuilding, the last one first.
    pub worn: Vec<usize>,
}

impl CollView {
    /// The oldest immutable segment in which a point is alive, and its row there.
    fn oldest(&self, id: &ExternalId) -> (r: Option<(usize, u32)>)
        requires
            self.valid(),
        ensures
            match r {
                Some((si, idx)) => oldest_in(self.immutables@, id@, si as int) && idx
                    == self.immutables@[si as int].index()[id@],
                None => !held(self.immutables@, id@),
            },
    {
        let mut si: usize = 0;
        while si < self.immutables.len()
            invariant
                si <= self.immutables@.len(),
                self.valid(),
                forall|j: int|
                    0 <= j < si ==> !(#[trigger] self.immutables@[j]).live().contains_key(id@),
            decreases self.immutables@.len() - si,
        {
            if let Some(idx) = self.immutables[si].alive_index(id) {
                return Some((si, idx));
            }
            si = si + 1;
        }
        None
    }

    /// The immutable segments that are worth rebuilding, the last one first.
    fn worn(&self) -> (r: Vec<usize>)
        requires
            self.valid(),
        ensures
            worn_list(self.immutables@, r@),
    {
        let mut r: Vec<usize> = Vec::new();
        let mut si: usize = self.immutables.len();
        while si > 0
            invariant
                si <= self.immutables@.len(),
                self.valid(),
                worn_from(self.immutables@, r@, si as int),
            decreases si,
        {
            si = si - 1;
            let ghost r0 = r@;
            if self.immutables[si].is_worn() {
                r.push(si);
                proof {
                    assert forall|i: usize|
                        si <= i < self.immutables@.len() && (
                        #[trigger] self.immutables@[i as int]).worn() implies r@.contains(i) by {
                        if i > si {
                            let a = choose|a: int| 0 <= a < r0.len() && r0[a] == i;
                            assert(r@[a] == i);
                        } else {
                            assert(r@[r0.len() as int] == i);
                        }
                    }
                }
            }
        }
        r
    }

    /// Deletes the points of a list.
    pub fn apply_delete(&mut self, ids: &[ExternalId]) -> (r: Deleted)
        requires
            old(self).valid(),
        ensures
            final(self).valid(),
            final(self).width() == old(self).width(),
            old(self).deletes(*final(self), ids@, r.touched@),
            r.count == deletions(old(self).contents(), ids@),
            worn_list(final(self).immutables@, r.worn@),
            old(self).apart() ==> final(self).apart() && final(self).contents() == old(
                self,
            ).contents().remove_keys(id_set(ids@)),
    {
        let ghost segs = self.immutables@;
        let ghost live = self.mutable.live();
        let n: usize = self.immutables.len();
        let mut tombs: Vec<Vec<u32>> = Vec::new();
        let mut si: usize = 0;
        while si < n
            invariant
                si <= n,
                tombs@.len() == si,
                forall|i: int| 0 <= i < si ==> (#[trigger] tombs@[i])@.len() == 0,
            decreases n - si,
        {
            tombs.push(Vec::new());
            si = si + 1;
        }
        let mut count: usize = 0;
        let mut seen: IdMap<u32> = IdMap::new();
        let mut k: usize = 0;
        let ghost contents = self.contents();
        proof {
            assert(ids@.take(0) =~= Seq::<ExternalId>::empty());
            assert(self.mutable.live() =~= live.remove_keys(id_set(ids@.take(0))));
            assert(seen@.dom() =~= id_set(ids@.take(0)));
            assert(contents.dom().intersect(id_set(ids@.take(0))) =~= Set::<IdView>::empty());
        }
        while k < ids.len()
            invariant
                k <= ids@.len(),
                count <= k,
                n == segs.len(),
                old(self).valid(),
                self.valid(),
                self.width() == old(self).width(),
                segs == old(self).immutables@,
                live == old(self).mutable.live(),
                self.immutables@ == segs,
                self.mutable.rows() == old(self).mutable.rows(),
                self.mutable.index() == old(self).mutable.index(),
                self.mutable.live() == live.remove_keys(id_set(ids@.take(k as int))),
                contents == layered(segs).union_prefer_right(live),
                seen@.dom() == id_set(ids@.take(k as int)),
                contents.dom().intersect(id_set(ids@.take(k as int))).finite(),
                count == deletions(contents, ids@.take(k as int)),
                tombs@.len() == n,
                forall|i: int|
                    0 <= i < n ==> marks(
                        segs[i],
                        gone_from(live, segs, ids@.take(k as int), i),
                        (#[trigger] tombs@[i])@,
                    ),
            decreases ids.len() - k,
        {
            let id = &ids[k];
            let ghost before = ids@.take(k as int);
            let ghost after = ids@.take(k + 1);
            let ghost tombs0 = tombs@;
            proof {
                assert(after.drop_last() =~= before);
                assert(after[k as int] == *id);
                assert(after.take(k as int) =~= before);
                lemma_id_set(ids@, k as int);
                assert(in_mutable(live, after, k as int) == in_mutable(live, ids@, k as int));
                lemma_deletions(contents, ids@, k as int);
                lemma_layered(segs, id@);
            }
            let fresh: bool = seen.get(id).is_none();
            assert(fresh == !id_set(before).contains(id@)) by {
                assert(seen@.contains_key(id@) == seen@.dom().contains(id@));
            }
            seen.insert(id, 0);
            assert(seen@.dom() =~= id_set(after));
            if self.mutable.delete(id) {
                count = count + 1;
                proof {
                    assert(in_mutable(live, ids@, k as int));
                    assert forall|i: int| 0 <= i < n implies marks(
                        segs[i],
                        gone_from(live, segs, after, i),
                        (#[trigger] tombs@[i])@,
                    ) by {
                        lemma_gone_from(live, segs, ids@, k as int, i);
                    }
                }
            } else {
                proof {
                    assert(!in_mutable(live, ids@, k as int));
                }
                match self.oldest(id) {
                    Some((si, idx)) => {
                        if fresh {
                            count = count + 1;
                        }
                        tombs[si].push(idx);
                        proof {
                            assert(held(segs, id@)) by {
                                assert(segs[si as int].live().contains_key(id@));
                            }
                            assert forall|i: int| 0 <= i < n implies marks(
                                segs[i],
                                gone_from(live, segs, after, i),
                                (#[trigger] tombs@[i])@,
                            ) by {
                                lemma_gone_from(live, segs, ids@, k as int, i);
                                assert(marks(
                                    segs[i],
                                    gone_from(live, segs, before, i),
                                    tombs0[i]@,
                                ));
                                if i == si {
                                    segs[i].lemma_valid();
                                    lemma_marks(
                                        segs[i],
                                        gone_from(live, segs, before, i),
                                        tombs0[i]@,
                                        id@,
                                    );
                                } else {
                                    assert(!oldest_in(segs, id@, i)) by {
                                        if oldest_in(segs, id@, i) {
                                            if i < si {
                                                assert(!segs[i].live().contains_key(id@));
                                            } else {
                                                assert(!segs[si as int].live().contains_key(id@));
                                            }
                                        }
                                    }
                                }
                            }
                        }
                    },
                    None => {
                        proof {
                            assert forall|i: int| 0 <= i < n implies marks(
                                segs[i],
                                gone_from(live, segs, after, i),
                                (#[trigger] tombs@[i])@,
                            ) by {
                                lemma_gone_from(live, segs, ids@, k as int, i);
                                assert(!oldest_in(segs, id@, i));
                            }
                        }
                    },
                }
            }
            assert(self.mutable.live() =~= live.remove_keys(id_set(after)));
            k = k + 1;
        }
        assert(ids@.take(ids@.len() as int) =~= ids@);
        let mut touched: Vec<bool> = Vec::new();
        let mut si: usize = 0;
        while si < n
            invariant
                si <= n,
                n == segs.len(),
                n == self.immutables@.len(),
                old(self).valid(),
                self.valid(),
                self.width() == old(self).width(),
                segs == old(self).immutables@,
                live == old(self).mutable.live(),
                self.mutable.rows() == old(self).mutable.rows(),
                self.mutable.index() == old(self).mutable.index(),
                self.mutable.live() == live.remove_keys(id_set(ids@)),
                tombs@.len() == n,
                touched@.len() == si,
                forall|i: int|
                    0 <= i < n ==> marks(
                        segs[i],
                        gone_from(live, segs, ids@, i),
                        (#[trigger] tombs@[i])@,
                    ),
                forall|i: int|
                    0 <= i < si ==> (#[trigger] segs[i]).without(
                        self.immutables@[i],
                        gone_from(live, segs, ids@, i),
                    ),
                forall|i: int| si <= i < n ==> #[trigger] segs[i] == self.immutables@[i],
                forall|i: int|
                    0 <= i < si ==> (#[trigger] touched@[i]) == holds_any(
                        segs[i],
                        gone_from(live, segs, ids@, i),
                    ),
            decreases n - si,
        {
            let ghost seg = segs[si as int];
            let ghost gone = gone_from(live, segs, ids@, si as int);
            proof {
                assert(marks(seg, gone, tombs@[si as int]@));
                seg.lemma_valid();
            }
            let any: bool = self.immutables[si].tombstone_many(tombs[si].as_slice());
            touched.push(any);
            proof {
                let rows = tombs@[si as int]@;
                assert(self.immutables@[si as int].dead() =~= Set::new(
                    |r: u32|
                        seg.dead().contains(r) || (r < seg.rows().len() && gone.contains(
                            seg.rows()[r as int].id,
                        )),
                )) by {
                    assert forall|r: u32| #[trigger] rows.to_set().contains(r) implies r
                        < seg.rows().len() && gone.contains(seg.rows()[r as int].id) by {
                        let a = choose|a: int| 0 <= a < rows.len() && rows[a] == r;
                        assert(rows[a] < seg.rows().len());
                    }
                    assert forall|r: u32|
                        r < seg.rows().len() && gone.contains(
                            #[trigger] seg.rows()[r as int].id,
                        ) implies rows.to_set().contains(r) by {
                        assert(rows.contains(seg.index()[seg.rows()[r as int].id]));
                    }
                }
                if any {
                    assert(seg.live().contains_key(seg.rows()[rows[0] as int].id));
                    assert(holds_any(seg, gone));
                }
                if holds_any(seg, gone) {
                    let id = choose|id: IdView|
                        gone.contains(id) && #[trigger] seg.live().contains_key(id);
                    assert(rows.contains(seg.index()[id]));
                }
            }
            si = si + 1;
        }
        let worn = self.worn();
        proof {
            if old(self).apart() {
                let all = id_set(ids@);
                assert forall|i: int| 0 <= i < n implies (#[trigger] segs[i]).live().remove_keys(all)
                    == self.immutables@[i].live() by {
                    let gone = gone_from(live, segs, ids@, i);
                    segs[i].lemma_without(self.immutables@[i], gone);
                    assert forall|id: IdView| #[trigger] segs[i].live().contains_key(
                        id,
                    ) implies (gone.contains(id) <==> all.contains(id)) by {
                        if all.contains(id) {
                            let j = choose|j: int| 0 <= j < ids@.len() && (#[trigger] ids@[j])@ == id;
                            assert(!live.contains_key(id)) by {
                                if live.contains_key(id) {
                                    assert(old(self).mutable.index().contains_key(id));
                                }
                            }
                            assert(!in_mutable(live, ids@, j));
                            assert(oldest_in(segs, id, i));
                        }
                    }
                    assert(segs[i].live().remove_keys(all) =~= self.immutables@[i].live());
                }
                lemma_layered_less(segs, self.immutables@, all);
                assert(self.contents() =~= old(self).contents().remove_keys(all));
                assert forall|i: int, j: int, id: IdView|
                    #![trigger self.immutables@[i].live().contains_key(id), self.immutables@[j].live().contains_key(id)]
                    0 <= i < j < n && self.immutables@[i].live().contains_key(
                        id,
                    ) implies !self.immutables@[j].live().contains_key(id) by {
                    assert(segs[i].live().remove_keys(all) == self.immutables@[i].live());
                    assert(segs[j].live().remove_keys(all) == self.immutables@[j].live());
                    assert(segs[i].live().contains_key(id));
                    assert(!segs[j].live().contains_key(id));
                }
                assert forall|i: int, id: IdView|
                    #![trigger self.immutables@[i].live().contains_key(id)]
                    0 <= i < n && self.mutable.index().contains_key(
                        id,
                    ) implies !self.immutables@[i].live().contains_key(id) by {
                    assert(segs[i].live().remove_keys(all) == self.immutables@[i].live());
                    assert(!segs[i].live().contains_key(id));
                }
            }
        }
        Deleted { count, touched, worn }
    }
}

/// How many items of a list are those of points that are alive.
pub open spec fn found(
    live: Map<IdView, Entry>,
    segs: Seq<ImmutableSegment>,
    ids: Seq<ExternalId>,
) -> nat
    decreases ids.len(),
{
    if ids.len() == 0 {
        0
    } else {
        found(live, segs, ids.drop_last()) + (if live.contains_key(ids.last()@) || held(
            segs,
            ids.last()@,
        ) {
            1nat
        } else {
            0nat
        })
    }
}

/// The points of a list that have a payload laid over in immutable segment `i`: those
/// that are not alive in the mutable segment, and for which it is the oldest segment
/// that has them.
pub open spec fn laid_in(
    live: Map<IdView, Entry>,
    segs: Seq<ImmutableSegment>,
    ids: Seq<ExternalId>,
    i: int,
) -> Set<IdView> {
    Set::new(
        |id: IdView| listed(ids, id) && !live.contains_key(id) && oldest_in(segs, id, i),
    )
}

/// What setting payloads did.
pub struct Repaid {
    /// How many items of the list are those of points that are alive.
    pub count: usize,
    /// Which immutable segments were touched.
    pub touched: Vec<bool>,
}

impl CollView {
    /// Gives the points of a list a payload, or none.
    pub fn apply_payload(&mut self, ids: &[ExternalId], payload: &Option<Json>) -> (r: Repaid)
        requires
            old(self).valid(),
        ensures
            final(self).valid(),
            final(self).width() == old(self).width(),
            old(self).pays(*final(self), ids@, payload_view(*payload), r.touched@),
            r.count == found(old(self).mutable.live(), old(self).immutables@, ids@),
            old(self).apart() ==> final(self).apart() && final(self).contents() == repaid(
                old(self).contents(),
                id_set(ids@),
                payload_view(*payload),
            ),
    {
        let ghost segs = self.immutables@;
        let ghost live = self.mutable.live();
        let ghost rows = self.mutable.rows();
        let ghost dead = self.mutable.dead();
        let ghost pv = payload_view(*payload);
        let n: usize = self.immutables.len();
        let mut touched: Vec<bool> = Vec::new();
        let mut si: usize = 0;
        while si < n
            invariant
                si <= n,
                touched@.len() == si,
                forall|i: int| 0 <= i < si ==> !(#[trigger] touched@[i]),
            decreases n - si,
        {
            touched.push(false);
            si = si + 1;
        }
        proof {
            assert(ids@.take(0) =~= Seq::<ExternalId>::empty());
            assert(rows =~= repaid_rows(rows, dead, id_set(ids@.take(0)), pv));
            assert(live =~= repaid(live, id_set(ids@.take(0)), pv));
            assert forall|i: int| 0 <= i < segs.len() implies (#[trigger] segs[i]).laid(
                segs[i],
                laid_in(live, segs, ids@.take(0), i),
                pv,
            ) by {
                assert(segs[i].over() =~= segs[i].over().union_prefer_right(
                    Map::new(
                        |id: IdView| laid_in(live, segs, ids@.take(0), i).contains(id),
                        |id: IdView| pv,
                    ),
                ));
            }
        }
        let mut count: usize = 0;
        let mut k: usize = 0;
        while k < ids.len()
            invariant
                k <= ids@.len(),
                count <= k,
                n == segs.len(),
                pv == payload_view(*payload),
                old(self).valid(),
                self.valid(),
                self.width() == old(self).width(),
                segs == old(self).immutables@,
                live == old(self).mutable.live(),
                rows == old(self).mutable.rows(),
                dead == old(self).mutable.dead(),
                self.immutables@.len() == n,
                self.mutable.index() == old(self).mutable.index(),
                self.mutable.dead() == dead,
                self.mutable.rows() == repaid_rows(rows, dead, id_set(ids@.take(k as int)), pv),
                self.mutable.live() == repaid(live, id_set(ids@.take(k as int)), pv),
                count == found(live, segs, ids@.take(k as int)),
                forall|i: int|
                    0 <= i < n ==> (#[trigger] segs[i]).laid(
                        self.immutables@[i],
                        laid_in(live, segs, ids@.take(k as int), i),
                        pv,
                    ),
                touched@.len() == n,
                forall|i: int|
                    0 <= i < n ==> (#[trigger] touched@[i]) == holds_any(
                        segs[i],
                        laid_in(live, segs, ids@.take(k as int), i),
                    ),
            decreases ids.len() - k,
        {
            let id = &ids[k];
            let ghost before = ids@.take(k as int);
            let ghost after = ids@.take(k + 1);
            let ghost segs1 = self.immutables@;
            let ghost flags = touched@;
            proof {
                assert(after.drop_last() =~= before);
                assert(after.last() == *id);
                lemma_id_set(ids@, k as int);
                old(self).mutable.lemma_valid();
                assert forall|i: int| 0 <= i < n implies #[trigger] laid_in(live, segs, after, i)
                    == (if !live.contains_key(id@) && oldest_in(segs, id@, i) {
                    laid_in(live, segs, before, i).insert(id@)
                } else {
                    laid_in(live, segs, before, i)
                }) by {
                    assert forall|other: IdView| #[trigger] listed(after, other) <==> listed(
                        before,
                        other,
                    ) || other == id@ by {
                        assert(id_set(after).contains(other) <==> id_set(before).contains(other)
                            || other == id@);
                    }
                    let a = laid_in(live, segs, before, i);
                    let b = laid_in(live, segs, after, i);
                    if !live.contains_key(id@) && oldest_in(segs, id@, i) {
                        assert(b =~= a.insert(id@));
                    } else {
                        assert(b =~= a);
                    }
                }
                lemma_alike(segs, segs1, live, before, pv, id@);
            }
            if self.mutable.set_payload(id, payload) {
                count = count + 1;
                proof {
                    assert(live.contains_key(id@));
                    assert forall|i: int| 0 <= i < n implies (#[trigger] segs[i]).laid(
                        self.immutables@[i],
                        laid_in(live, segs, after, i),
                        pv,
                    ) && touched@[i] == holds_any(segs[i], laid_in(live, segs, after, i)) by {
                        assert(laid_in(live, segs, after, i) == laid_in(live, segs, before, i));
                        assert(touched@[i] == holds_any(segs[i], laid_in(live, segs, before, i)));
                    }
                }
            } else {
                assert(!live.contains_key(id@));
                match self.oldest(id) {
                    Some((si, idx)) => {
                        count = count + 1;
                        let mut edits: Vec<(ExternalId, Option<Json>)> = Vec::new();
                        edits.push((id.clone(), copy_payload(payload)));
                        self.immutables[si].set_overlay_batch(edits.as_slice());
                        touched.set(si, true);
                        proof {
                            assert(oldest_in(segs, id@, si as int));
                            assert(held(segs, id@)) by {
                                assert(segs[si as int].live().contains_key(id@));
                            }
                            assert(edits@.drop_last() =~= Seq::<
                                (ExternalId, Option<Json>),
                            >::empty());
                            assert forall|i: int| 0 <= i < n implies (#[trigger] segs[i]).laid(
                                self.immutables@[i],
                                laid_in(live, segs, after, i),
                                pv,
                            ) && touched@[i] == holds_any(
                                segs[i],
                                laid_in(live, segs, after, i),
                            ) by {
                                let a = laid_in(live, segs, before, i);
                                let b = laid_in(live, segs, after, i);
                                assert(segs[i].laid(segs1[i], a, pv));
                                assert(flags[i] == holds_any(segs[i], a));
                                if i == si {
                                    reveal_with_fuel(overlaid, 2);
                                    assert(self.immutables@[i].over()
                                        =~= segs[i].over().union_prefer_right(
                                        Map::new(|id: IdView| b.contains(id), |id: IdView| pv),
                                    ));
                                    assert(b.contains(id@));
                                    assert(holds_any(segs[i], b));
                                } else {
                                    assert(!oldest_in(segs, id@, i)) by {
                                        if oldest_in(segs, id@, i) {
                                            if i < si {
                                                assert(!segs[i].live().contains_key(id@));
                                            } else {
                                                assert(!segs[si as int].live().contains_key(id@));
                                            }
                                        }
                                    }
                                    assert(a == b);
                                }
                            }
                        }
                    },
                    None => {
                        proof {
                            assert(!held(segs, id@));
                            assert forall|i: int| 0 <= i < n implies (#[trigger] segs[i]).laid(
                                self.immutables@[i],
                                laid_in(live, segs, after, i),
                                pv,
                            ) && touched@[i] == holds_any(
                                segs[i],
                                laid_in(live, segs, after, i),
                            ) by {
                                assert(!oldest_in(segs, id@, i));
                                assert(laid_in(live, segs, after, i) == laid_in(
                                    live,
                                    segs,
                                    before,
                                    i,
                                ));
                                assert(touched@[i] == holds_any(
                                    segs[i],
                                    laid_in(live, segs, before, i),
                                ));
                            }
                        }
                    },
                }
            }
            proof {
                assert(self.mutable.rows() =~= repaid_rows(rows, dead, id_set(after), pv));
                assert(self.mutable.live() =~= repaid(live, id_set(after), pv));
            }
            k = k + 1;
        }
        proof {
            assert(ids@.take(ids@.len() as int) =~= ids@);
            if old(self).apart() {
                let all = id_set(ids@);
                assert forall|i: int| 0 <= i < n implies repaid(
                    (#[trigger] segs[i]).live(),
                    all,
                    pv,
                ) == self.immutables@[i].live() by {
                    let some = laid_in(live, segs, ids@, i);
                    segs[i].lemma_laid(self.immutables@[i], some, pv);
                    assert forall|id: IdView| #[trigger] segs[i].live().contains_key(
                        id,
                    ) implies (some.contains(id) <==> all.contains(id)) by {
                        assert(!live.contains_key(id)) by {
                            if live.contains_key(id) {
                                assert(old(self).mutable.index().contains_key(id));
                            }
                        }
                        assert(oldest_in(segs, id, i));
                    }
                    assert(repaid(segs[i].live(), all, pv) =~= self.immutables@[i].live());
                }
                lemma_layered_repaid(segs, self.immutables@, all, pv);
                assert(self.contents() =~= repaid(old(self).contents(), all, pv));
                assert forall|i: int, j: int, id: IdView|
                    #![trigger self.immutables@[i].live().contains_key(id), self.immutables@[j].live().contains_key(id)]
                    0 <= i < j < n && self.immutables@[i].live().contains_key(
                        id,
                    ) implies !self.immutables@[j].live().contains_key(id) by {
                    assert(repaid(segs[i].live(), all, pv) == self.immutables@[i].live());
                    assert(repaid(segs[j].live(), all, pv) == self.immutables@[j].live());
                    assert(segs[i].live().contains_key(id));
                    assert(!segs[j].live().contains_key(id));
                }
                assert forall|i: int, id: IdView|
                    #![trigger self.immutables@[i].live().contains_key(id)]
                    0 <= i < n && self.mutable.index().contains_key(
                        id,
                    ) implies !self.immutables@[i].live().contains_key(id) by {
                    assert(repaid(segs[i].live(), all, pv) == self.immutables@[i].live());
                    assert(!segs[i].live().contains_key(id));
                }
            }
        }
        Repaid { count, touched }
    }
}

/// Rows once those of some identifiers that are not dead have another payload.
pub open spec fn repaid_rows(
    rows: Seq<Row>,
    dead: Set<u32>,
    ids: Set<IdView>,
    payload: Option<JsonView>,
) -> Seq<Row> {
    Seq::new(
        rows.len(),
        |i: int|
            if ids.contains(rows[i].id) && !dead.contains(i as u32) {
                Row { payload, ..rows[i] }
            } else {
                rows[i]
            },
    )
}

/// Laying payloads over does not change where a point is alive.
proof fn lemma_alike(
    segs: Seq<ImmutableSegment>,
    after: Seq<ImmutableSegment>,
    live: Map<IdView, Entry>,
    ids: Seq<ExternalId>,
    payload: Option<JsonView>,
    id: IdView,
)
    requires
        segs.len() == after.len(),
        forall|i: int| 0 <= i < segs.len() ==> (#[trigger] segs[i]).valid(),
        forall|i: int|
            0 <= i < segs.len() ==> (#[trigger] segs[i]).laid(
                after[i],
                laid_in(live, segs, ids, i),
                payload,
            ),
    ensures
        held(segs, id) <==> held(after, id),
        forall|i: int| oldest_in(segs, id, i) <==> #[trigger] oldest_in(after, id, i),
{
    assert forall|i: int| 0 <= i < segs.len() implies ((#[trigger] segs[i]).live().contains_key(id)
        <==> after[i].live().contains_key(id)) by {
        segs[i].lemma_laid(after[i], laid_in(live, segs, ids, i), payload);
    }
    if held(segs, id) {
        let i = choose|i: int| 0 <= i < segs.len() && (#[trigger] segs[i]).live().contains_key(id);
        assert(after[i].live().contains_key(id));
    }
    if held(after, id) {
        let i = choose|i: int| 0 <= i < after.len() && (#[trigger] after[i]).live().contains_key(id);
        assert(segs[i].live().contains_key(id));
    }
    assert forall|i: int| oldest_in(segs, id, i) <==> #[trigger] oldest_in(after, id, i) by {
        if oldest_in(segs, id, i) {
            assert forall|j: int| 0 <= j < i implies !(#[trigger] after[j]).live().contains_key(
                id,
            ) by {
                assert(!segs[j].live().contains_key(id));
            }
        }
        if oldest_in(after, id, i) {
            assert forall|j: int| 0 <= j < i implies !(#[trigger] segs[j]).live().contains_key(
                id,
            ) by {
                assert(!after[j].live().contains_key(id));
            }
        }
    }
}

/// What is layered, once some points have another payload.
proof fn lemma_layered_repaid(
    before: Seq<ImmutableSegment>,
    after: Seq<ImmutableSegment>,
    ids: Set<IdView>,
    payload: Option<JsonView>,
)
    requires
        before.len() == after.len(),
        forall|i: int|
            0 <= i < before.len() ==> repaid((#[trigger] before[i]).live(), ids, payload)
                == after[i].live(),
    ensures
        layered(after) == repaid(layered(before), ids, payload),
    decreases before.len(),
{
    if before.len() > 0 {
        let last = before.len() - 1;
        assert forall|i: int| 0 <= i < last implies repaid(
            (#[trigger] before.drop_last()[i]).live(),
            ids,
            payload,
        ) == after.drop_last()[i].live() by {
            assert(repaid(before[i].live(), ids, payload) == after[i].live());
        }
        lemma_layered_repaid(before.drop_last(), after.drop_last(), ids, payload);
        assert(repaid(before[last].live(), ids, payload) == after[last].live());
    }
    assert(layered(after) =~= repaid(layered(before), ids, payload));
}

/// Whether a list has the places of all segments from place `n` on that are worth rebuilding,
/// the last one first.
pub open spec fn worn_from(segs: Seq<ImmutableSegment>, r: Seq<usize>, n: int) -> bool {
    &&& forall|a: int, b: int| 0 <= a < b < r.len() ==> #[trigger] r[a] > #[trigger] r[b]
    &&& forall|a: int|
        0 <= a < r.len() ==> n <= (#[trigger] r[a]) < segs.len() && segs[r[a] as int].worn()
    &&& forall|i: usize|
        n <= i < segs.len() && (#[trigger] segs[i as int]).worn() ==> r.contains(i)
}

/// Whether a list has the places of all segments that are worth rebuilding, the last one first.
/// Where one that is left empty is removed, those that come after in the list stay in place.
pub open spec fn worn_list(segs: Seq<ImmutableSegment>, r: Seq<usize>) -> bool {
    worn_from(segs, r, 0)
}

/// Whether row numbers are those of some points of a segment.
spec fn marks(seg: ImmutableSegment, ids: Set<IdView>, rows: Seq<u32>) -> bool {
    &&& forall|a: int|
        0 <= a < rows.len() ==> (#[trigger] rows[a]) < seg.rows().len() && ids.contains(
            seg.rows()[rows[a] as int].id,
        ) && seg.live().contains_key(seg.rows()[rows[a] as int].id)
    &&& forall|id: IdView| #[trigger] ids.contains(id) ==> rows.contains(seg.index()[id])
}

proof fn lemma_marks(seg: ImmutableSegment, ids: Set<IdView>, rows: Seq<u32>, id: IdView)
    requires
        seg.valid(),
        marks(seg, ids, rows),
        seg.live().contains_key(id),
    ensures
        marks(seg, ids.insert(id), rows.push(seg.index()[id])),
{
    seg.lemma_valid();
    let more = rows.push(seg.index()[id]);
    assert forall|other: IdView| #[trigger] ids.insert(id).contains(other) implies more.contains(
        seg.index()[other],
    ) by {
        if other == id {
            assert(more[rows.len() as int] == seg.index()[id]);
        } else {
            let a = choose|a: int| 0 <= a < rows.len() && rows[a] == seg.index()[other];
            assert(more[a] == seg.index()[other]);
        }
    }
}

proof fn lemma_id_set(ids: Seq<ExternalId>, k: int)
    requires
        0 <= k < ids.len(),
    ensures
        id_set(ids.take(k + 1)) == id_set(ids.take(k)).insert(ids[k]@),
        forall|id: IdView| id_set(ids.take(k)).contains(id) <==> listed(ids.take(k), id),
{
    let a = ids.take(k);
    let b = ids.take(k + 1);
    assert forall|id: IdView| #[trigger] listed(b, id) <==> listed(a, id) || id == ids[k]@ by {
        if listed(b, id) {
            let i = choose|i: int| 0 <= i < b.len() && (#[trigger] b[i])@ == id;
            if i < k {
                assert(a[i]@ == id);
            }
        }
        if listed(a, id) {
            let i = choose|i: int| 0 <= i < a.len() && (#[trigger] a[i])@ == id;
            assert(b[i]@ == id);
        }
        if id == ids[k]@ {
            assert(b[k]@ == id);
        }
    }
    assert(id_set(b) =~= id_set(a).insert(ids[k]@));
}

/// What is layered, less some points.
proof fn lemma_layered_less(
    before: Seq<ImmutableSegment>,
    after: Seq<ImmutableSegment>,
    gone: Set<IdView>,
)
    requires
        before.len() == after.len(),
        forall|i: int|
            0 <= i < before.len() ==> (#[trigger] before[i]).live().remove_keys(gone)
                == after[i].live(),
    ensures
        layered(after) == layered(before).remove_keys(gone),
    decreases before.len(),
{
    if before.len() > 0 {
        let last = before.len() - 1;
        assert forall|i: int| 0 <= i < last implies (
        #[trigger] before.drop_last()[i]).live().remove_keys(gone)
            == after.drop_last()[i].live() by {
            assert(before[i].live().remove_keys(gone) == after[i].live());
        }
        lemma_layered_less(before.drop_last(), after.drop_last(), gone);
        assert(before[last].live().remove_keys(gone) == after[last].live());
    }
    assert(layered(after) =~= layered(before).remove_keys(gone));
}

} // verus!
