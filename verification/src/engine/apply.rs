//! Applying what the log says.

use vstd::prelude::*;

use crate::bitmap::decoded_rows;
use crate::collection::CollectionConfig;
use crate::engine::database::{
    coll_at, lemma_coll_at, lemma_coll_from, lemma_kept_none, lemma_kept_push, lemma_kept_remove,
    lemma_kept_update, Collection, Database, DatabaseOptions, Step,
};
use crate::engine::outcome::{
    all_fit, done_to, lemma_id_views, lemma_with_points, needs_collection, outcome, replayed,
    subject, subject_of,
};
use crate::engine::write::{deletions, found, worn_list};
use crate::error::{Error, Invalid};
use crate::id::ExternalId;
use crate::json::{Json, JsonView};
use crate::kernel::{Kernel, Metric};
use crate::manifest::{entries_without, entry_at, EntryView, ManifestView};
use crate::segment::immutable::ImmutableSegment;
use crate::segment::mutable::{payloads_len, MutableSegment};
use crate::segment::overlay::overlaid;
use crate::segment::{copy_payload, payload_view, Point};
use crate::wal::{id_views, point_views, Op, OpView, RecordView, WalRecord};

verus! {

/// What applying an operation did.
pub struct Applied {
    /// How many items of a list were deleted, or have the payload.
    pub count: usize,
    /// Whether the collection should be flushed.
    pub need_flush: bool,
    /// What has to be stored, in order.
    pub steps: Vec<Step>,
    /// The immutable segments of the collection that should be rebuilt, one after the
    /// other.
    pub rebuild: Vec<usize>,
}

/// The places where a list says yes.
pub open spec fn places(touched: Seq<bool>) -> Seq<int>
    decreases touched.len(),
{
    if touched.len() == 0 {
        Seq::empty()
    } else if touched.last() {
        places(touched.drop_last()).push(touched.len() - 1)
    } else {
        places(touched.drop_last())
    }
}

/// Whether a step stores the marks of the deleted rows of a segment.
pub open spec fn stores_marks(step: Step, seg: ImmutableSegment) -> bool {
    step matches Step::WriteTombstones(id, bytes) && id == seg.number() && decoded_rows(
        bytes@,
    ) is Some && decoded_rows(bytes@)->0.to_set() == seg.dead()
}

/// Whether a step stores the new payloads of a segment.
pub open spec fn stores_overlay(step: Step, seg: ImmutableSegment) -> bool {
    step matches Step::WriteOverlay(id, entries) && id == seg.number() && overlaid(
        Map::empty(),
        entries@,
    ) == seg.over()
}

/// Whether steps store the marks of some segments, in order.
pub open spec fn all_marks(segs: Seq<ImmutableSegment>, at: Seq<int>, steps: Seq<Step>) -> bool {
    &&& steps.len() == at.len()
    &&& forall|j: int| 0 <= j < steps.len() ==> stores_marks(#[trigger] steps[j], segs[at[j]])
}

/// Whether steps store the new payloads of some segments, in order.
pub open spec fn all_overlays(segs: Seq<ImmutableSegment>, at: Seq<int>, steps: Seq<Step>) -> bool {
    &&& steps.len() == at.len()
    &&& forall|j: int| 0 <= j < steps.len() ==> stores_overlay(#[trigger] steps[j], segs[at[j]])
}

proof fn lemma_places(touched: Seq<bool>)
    ensures
        places(touched).len() <= touched.len(),
        forall|j: int|
            0 <= j < places(touched).len() ==> 0 <= (#[trigger] places(touched)[j]) < touched.len(),
    decreases touched.len(),
{
    if touched.len() > 0 {
        lemma_places(touched.drop_last());
    }
}

/// The steps that store the marks of the segments that were touched.
fn mark_steps(segs: &Vec<ImmutableSegment>, touched: &Vec<bool>) -> (r: Vec<Step>)
    requires
        touched@.len() == segs@.len(),
    ensures
        all_marks(segs@, places(touched@), r@),
{
    let mut r: Vec<Step> = Vec::new();
    let mut i: usize = 0;
    assert(touched@.take(0) =~= Seq::<bool>::empty());
    while i < touched.len()
        invariant
            i <= touched@.len(),
            touched@.len() == segs@.len(),
            all_marks(segs@, places(touched@.take(i as int)), r@),
        decreases touched.len() - i,
    {
        assert(touched@.take(i + 1).drop_last() =~= touched@.take(i as int));
        if touched[i] {
            r.push(Step::WriteTombstones(segs[i].seg_id(), segs[i].tombstone_bytes()));
        }
        i = i + 1;
    }
    assert(touched@.take(touched@.len() as int) =~= touched@);
    r
}

/// A copy of new payloads.
fn copy_entries(v: &Vec<(ExternalId, Option<Json>)>) -> (r: Vec<(ExternalId, Option<Json>)>)
    ensures
        overlaid(Map::empty(), r@) == overlaid(Map::empty(), v@),
{
    let mut r: Vec<(ExternalId, Option<Json>)> = Vec::new();
    let mut i: usize = 0;
    while i < v.len()
        invariant
            i <= v@.len(),
            overlaid(Map::empty(), r@) == overlaid(Map::empty(), v@.take(i as int)),
        decreases v.len() - i,
    {
        let ghost before = r@;
        r.push((v[i].0.clone(), copy_payload(&v[i].1)));
        assert(r@.drop_last() =~= before);
        assert(v@.take(i + 1).drop_last() =~= v@.take(i as int));
        i = i + 1;
    }
    assert(v@.take(v@.len() as int) =~= v@);
    r
}

/// The steps that store the new payloads of the segments that were touched.
fn overlay_steps(segs: &Vec<ImmutableSegment>, touched: &Vec<bool>) -> (r: Vec<Step>)
    requires
        touched@.len() == segs@.len(),
        forall|i: int| 0 <= i < segs@.len() ==> (#[trigger] segs@[i]).valid(),
    ensures
        all_overlays(segs@, places(touched@), r@),
{
    let mut r: Vec<Step> = Vec::new();
    let mut i: usize = 0;
    assert(touched@.take(0) =~= Seq::<bool>::empty());
    while i < touched.len()
        invariant
            i <= touched@.len(),
            touched@.len() == segs@.len(),
            forall|i: int| 0 <= i < segs@.len() ==> (#[trigger] segs@[i]).valid(),
            all_overlays(segs@, places(touched@.take(i as int)), r@),
        decreases touched.len() - i,
    {
        assert(touched@.take(i + 1).drop_last() =~= touched@.take(i as int));
        if touched[i] {
            r.push(Step::WriteOverlay(segs[i].seg_id(), copy_entries(segs[i].overlay_entries())));
        }
        i = i + 1;
    }
    assert(touched@.take(touched@.len() as int) =~= touched@);
    r
}

/// Whether a mutable segment has grown so large that it should be flushed.
pub open spec fn is_large(m: MutableSegment, options: DatabaseOptions) -> bool {
    m.rows().len() >= options.auto_flush_points || (4 * (m.rows().len() * m.width())
        + payloads_len(m.rows())) % 0x1_0000_0000_0000_0000 >= options.auto_flush_bytes
}

/// Whether nothing has to be done further.
pub open spec fn nothing_more(a: Applied) -> bool {
    a.count == 0 && !a.need_flush && a.steps@.len() == 0 && a.rebuild@.len() == 0
}

/// Whether a collection is another one with other segments.
pub open spec fn same_but_view(a: Collection, b: Collection) -> bool {
    a.name == b.name && a.config == b.config
}

impl Database {
    /// Whether applying an operation leads to another state, and does what `a` says.
    pub open spec fn applies<N, S>(
        &self,
        after: Database,
        op: Op,
        kernel: Kernel<N, S>,
        a: Applied,
    ) -> bool where N: Fn(&[u32]) -> u32, S: Fn(Metric, &[u32], u32, &[u32], u32) -> u32 {
        let at = coll_at(self.collections@, subject(op@));
        let here = at < self.collections@.len();
        match op {
            Op::CreateCollection { name, config } => self.creates(after, name@, config, a),
            Op::DropCollection { name } => self.drops(after, name@, a),
            Op::Upsert { collection, points } => here && self.upserts_in(
                after,
                at,
                points@,
                kernel,
                a,
            ),
            Op::Delete { collection, ids } => here && self.deletes_in(after, at, ids@, a),
            Op::SetPayload { collection, ids, payload } => here && self.pays_in(
                after,
                at,
                ids@,
                Some(payload@),
                a,
            ),
            Op::ClearPayload { collection, ids } => here && self.pays_in(after, at, ids@, None, a),
        }
    }

    /// Whether making a collection leads to another state: there is one more collection,
    /// without points, unless it was there already.
    pub open spec fn creates(
        &self,
        after: Database,
        name: Seq<char>,
        config: CollectionConfig,
        a: Applied,
    ) -> bool {
        if coll_at(self.collections@, name) < self.collections@.len() {
            after.collections == self.collections && after.manifest == self.manifest
                && nothing_more(a)
        } else {
            &&& after.collections@.len() == self.collections@.len() + 1
            &&& after.collections@.drop_last() == self.collections@
            &&& after.collections@.last().name@ == name
            &&& after.collections@.last().config == config
            &&& after.collections@.last().view.immutables@.len() == 0
            &&& after.collections@.last().view.mutable.rows().len() == 0
            &&& after.manifest@ == (ManifestView {
                entries: self.manifest@.entries.push(
                    EntryView { name, config, segments: Seq::empty() },
                ),
                ..self.manifest@
            })
            &&& a.count == 0 && !a.need_flush && a.rebuild@.len() == 0
            &&& a.steps@.len() == 1
            &&& a.steps@[0] is SaveManifest
            &&& a.steps@[0]->SaveManifest_0@ == after.manifest@
        }
    }

    /// Whether dropping a collection leads to another state: the collection and its
    /// entries in the manifest are gone, and so are its segments.
    pub open spec fn drops(&self, after: Database, name: Seq<char>, a: Applied) -> bool {
        let at = coll_at(self.collections@, name);
        let entry = entry_at(self.manifest@.entries, name);
        let segs = if entry < self.manifest@.entries.len() {
            self.manifest@.entries[entry].segments
        } else {
            Seq::<u64>::empty()
        };
        &&& after.collections@ == (if at < self.collections@.len() {
            self.collections@.remove(at)
        } else {
            self.collections@
        })
        &&& after.manifest@ == (ManifestView {
            entries: entries_without(self.manifest@.entries, name),
            ..self.manifest@
        })
        &&& a.count == 0 && !a.need_flush && a.rebuild@.len() == 0
        &&& a.steps@.len() == 1 + segs.len()
        &&& a.steps@[0] is SaveManifest
        &&& a.steps@[0]->SaveManifest_0@ == after.manifest@
        &&& forall|j: int|
            1 <= j < a.steps@.len() ==> #[trigger] a.steps@[j] == Step::RemoveSegment(segs[j - 1])
    }

    /// Whether writing points to a collection leads to another state. Points that do not
    /// have the dimension of the collection are not written.
    pub open spec fn upserts_in<N, S>(
        &self,
        after: Database,
        at: int,
        points: Seq<Point>,
        kernel: Kernel<N, S>,
        a: Applied,
    ) -> bool where N: Fn(&[u32]) -> u32, S: Fn(Metric, &[u32], u32, &[u32], u32) -> u32 {
        let before = self.collections@[at];
        let new = after.collections@[at];
        &&& after.manifest == self.manifest
        &&& if all_fit(point_views(points), before.config.dim as nat) {
            &&& after.collections@ == self.collections@.update(at, new)
            &&& same_but_view(before, new)
            &&& a.count == 0 && a.rebuild@.len() == 0
            &&& a.need_flush == is_large(new.view.mutable, self.options)
            &&& exists|touched: Seq<bool>| #[trigger]
                before.view.upserts(new.view, points, kernel, touched) && all_marks(
                    new.view.immutables@,
                    places(touched),
                    a.steps@,
                )
        } else {
            after.collections == self.collections && nothing_more(a)
        }
    }

    /// Whether deleting points of a collection leads to another state.
    pub open spec fn deletes_in(
        &self,
        after: Database,
        at: int,
        ids: Seq<ExternalId>,
        a: Applied,
    ) -> bool {
        let before = self.collections@[at];
        let new = after.collections@[at];
        &&& after.manifest == self.manifest
        &&& after.collections@ == self.collections@.update(at, new)
        &&& same_but_view(before, new)
        &&& a.count == deletions(before.view.contents(), ids)
        &&& !a.need_flush
        &&& worn_list(new.view.immutables@, a.rebuild@)
        &&& exists|touched: Seq<bool>| #[trigger]
            before.view.deletes(new.view, ids, touched) && all_marks(
                new.view.immutables@,
                places(touched),
                a.steps@,
            )
    }

    /// Whether giving points of a collection a payload leads to another state.
    pub open spec fn pays_in(
        &self,
        after: Database,
        at: int,
        ids: Seq<ExternalId>,
        payload: Option<JsonView>,
        a: Applied,
    ) -> bool {
        let before = self.collections@[at];
        let new = after.collections@[at];
        &&& after.manifest == self.manifest
        &&& after.collections@ == self.collections@.update(at, new)
        &&& same_but_view(before, new)
        &&& a.count == found(before.view.mutable.live(), before.view.immutables@, ids)
        &&& !a.need_flush
        &&& a.rebuild@.len() == 0
        &&& exists|touched: Seq<bool>| #[trigger]
            before.view.pays(new.view, ids, payload, touched) && all_overlays(
                new.view.immutables@,
                places(touched),
                a.steps@,
            )
    }

    /// Whether an operation cannot be applied, for that reason: its collection is not
    /// there, or the mutable segment has no room for the points.
    pub open spec fn refuses(&self, op: Op, e: Error) -> bool {
        let at = coll_at(self.collections@, subject(op@));
        if at == self.collections@.len() {
            needs_collection(op@) && e is CollectionNotFound && e->CollectionNotFound_0@ == subject(
                op@,
            )
        } else {
            op matches Op::Upsert { points, .. } && all_fit(
                point_views(points@),
                self.collections@[at].config.dim as nat,
            ) && self.collections@[at].view.mutable.rows().len() + points@.len() > u32::MAX && e
                == Error::Invalid(Invalid::SegmentTooLarge)
        }
    }

    /// What is the same, whatever is applied.
    pub open spec fn rest_same(&self, after: Database) -> bool {
        &&& after.options == self.options
        &&& after.next_seg_id == self.next_seg_id
        &&& after.recovery_clean == self.recovery_clean
    }

    /// Whether what is kept is what comes of an operation.
    pub open spec fn follows(&self, after: Database, op: OpView) -> bool {
        self.apart() ==> after.apart() && forall|name: Seq<char>| #[trigger]
            after.kept(name) == outcome(self.kept(name), op, name)
    }

    fn apply_create(&mut self, name: &str, config: CollectionConfig) -> (a: Applied)
        requires
            old(self).valid(),
        ensures
            final(self).valid(),
            old(self).rest_same(*final(self)),
            old(self).creates(*final(self), name@, config, a),
            old(self).follows(*final(self), OpView::Create { name: name@, config }),
    {
        let ghost colls = self.collections@;
        let ghost op = OpView::Create { name: name@, config };
        proof {
            lemma_kept_none(colls, name@);
        }
        let at: usize = self.find(name);
        if at < self.collections.len() {
            assert forall|other: Seq<char>| #[trigger] self.kept(other) == outcome(
                old(self).kept(other),
                op,
                other,
            ) by {}
            return Applied {
                count: 0,
                need_flush: false,
                steps: Vec::new(),
                rebuild: Vec::new(),
            };
        }
        self.manifest.add_entry(name, config);
        let c = Collection::new(name, config);
        let ghost new = c;
        self.collections.push(c);
        let mut steps: Vec<Step> = Vec::new();
        steps.push(Step::SaveManifest(self.manifest.copy()));
        proof {
            let after = self.collections@;
            assert(after == colls.push(new));
            assert(after.drop_last() =~= colls);
            assert(after.last() == new);
            lemma_kept_push(colls, new, name@);
            assert forall|i: int| 0 <= i < after.len() implies (#[trigger] after[i]).valid() by {
                if i < colls.len() {
                    assert(colls[i].valid());
                }
            }
            if old(self).apart() {
                assert forall|i: int| 0 <= i < after.len() implies (
                #[trigger] after[i]).view.apart() by {
                    if i < colls.len() {
                        assert(colls[i].view.apart());
                    }
                }
            }
            assert forall|other: Seq<char>| #[trigger] self.kept(other) == outcome(
                old(self).kept(other),
                op,
                other,
            ) by {
                lemma_kept_push(colls, new, other);
            }
        }
        Applied { count: 0, need_flush: false, steps, rebuild: Vec::new() }
    }

    fn apply_drop(&mut self, name: &str) -> (a: Applied)
        requires
            old(self).valid(),
        ensures
            final(self).valid(),
            old(self).rest_same(*final(self)),
            old(self).drops(*final(self), name@, a),
            old(self).follows(*final(self), OpView::Drop { name: name@ }),
    {
        let ghost colls = self.collections@;
        let ghost op = OpView::Drop { name: name@ };
        proof {
            lemma_kept_none(colls, name@);
            lemma_coll_from(colls, name@, 0);
        }
        let segs = self.manifest.drop_entries(name);
        let at: usize = self.find(name);
        if at < self.collections.len() {
            self.collections.remove(at);
        }
        let mut steps: Vec<Step> = Vec::new();
        steps.push(Step::SaveManifest(self.manifest.copy()));
        let mut i: usize = 0;
        while i < segs.len()
            invariant
                i <= segs@.len(),
                steps@.len() == 1 + i,
                steps@[0] is SaveManifest,
                steps@[0]->SaveManifest_0@ == self.manifest@,
                forall|j: int|
                    1 <= j < steps@.len() ==> #[trigger] steps@[j] == Step::RemoveSegment(
                        segs@[j - 1],
                    ),
            decreases segs.len() - i,
        {
            steps.push(Step::RemoveSegment(segs[i]));
            i = i + 1;
        }
        proof {
            let after = self.collections@;
            if at < colls.len() {
                lemma_kept_remove(colls, at as int, name@);
                assert forall|i: int| 0 <= i < after.len() implies (#[trigger] after[i]).valid()
                    && (old(self).apart() ==> after[i].view.apart()) by {
                    let x = if i < at {
                        i
                    } else {
                        i + 1
                    };
                    assert(after[i] == colls[x]);
                    assert(colls[x].valid());
                }
            }
            assert forall|other: Seq<char>| #[trigger] self.kept(other) == outcome(
                old(self).kept(other),
                op,
                other,
            ) by {
                if at < colls.len() {
                    lemma_kept_remove(colls, at as int, other);
                }
            }
        }
        Applied { count: 0, need_flush: false, steps, rebuild: Vec::new() }
    }

    /// What follows where the view of one collection changed.
    proof fn lemma_view_changed(&self, after: Database, at: int, op: OpView)
        requires
            self.valid(),
            0 <= at < self.collections@.len(),
            after.collections@.len() == self.collections@.len(),
            after.collections@ == self.collections@.update(at, after.collections@[at]),
            same_but_view(self.collections@[at], after.collections@[at]),
            after.collections@[at].valid(),
            subject(op) == self.collections@[at].name@,
            self.collections@[at].view.apart() ==> after.collections@[at].view.apart() && Some(
                after.collections@[at].kept(),
            ) == done_to(Some(self.collections@[at].kept()), op),
        ensures
            after.valid(),
            self.follows(after, op),
    {
        let colls = self.collections@;
        let new = after.collections@[at];
        lemma_kept_update(colls, at, new, new.name@);
        lemma_coll_at(colls, at);
        assert forall|i: int| 0 <= i < after.collections@.len() implies (
        #[trigger] after.collections@[i]).valid() by {
            if i != at {
                assert(after.collections@[i] == colls[i]);
            }
        }
        if self.apart() {
            assert(colls[at].view.apart());
            assert forall|i: int| 0 <= i < after.collections@.len() implies (
            #[trigger] after.collections@[i]).view.apart() by {
                if i != at {
                    assert(after.collections@[i] == colls[i]);
                }
            }
            assert forall|name: Seq<char>| #[trigger] after.kept(name) == outcome(
                self.kept(name),
                op,
                name,
            ) by {
                lemma_kept_update(colls, at, new, name);
            }
        }
    }

    fn apply_upsert<N, S>(
        &mut self,
        collection: &String,
        points: &Vec<Point>,
        kernel: &Kernel<N, S>,
    ) -> (r: Result<Applied, Error>) where
        N: Fn(&[u32]) -> u32,
        S: Fn(Metric, &[u32], u32, &[u32], u32) -> u32,

        requires
            old(self).valid(),
            kernel.valid(),
        ensures
            final(self).valid(),
            old(self).rest_same(*final(self)),
            ({
                let at = coll_at(old(self).collections@, collection@);
                let here = at < old(self).collections@.len();
                match r {
                    Ok(a) => here && old(self).upserts_in(
                        *final(self),
                        at,
                        points@,
                        *kernel,
                        a,
                    ) && old(self).follows(
                        *final(self),
                        OpView::Upsert { name: collection@, points: point_views(points@) },
                    ),
                    Err(e) => {
                        &&& *final(self) == *old(self)
                        &&& if here {
                            all_fit(
                                point_views(points@),
                                old(self).collections@[at].config.dim as nat,
                            ) && old(self).collections@[at].view.mutable.rows().len() + points@.len()
                                > u32::MAX && e == Error::Invalid(Invalid::SegmentTooLarge)
                        } else {
                            e is CollectionNotFound && e->CollectionNotFound_0@ == collection@
                        }
                    },
                }
            }),
    {
        let ghost op = OpView::Upsert { name: collection@, points: point_views(points@) };
        proof {
            lemma_kept_none(self.collections@, collection@);
            lemma_coll_from(self.collections@, collection@, 0);
        }
        let at: usize = self.find(collection.as_str());
        if at == self.collections.len() {
            return Err(Error::CollectionNotFound(collection.clone()));
        }
        let ghost before = self.collections@[at as int];
        let dim: usize = self.collections[at].config.dim;
        let mut i: usize = 0;
        while i < points.len()
            invariant
                i <= points@.len(),
                *self == *old(self),
                old(self).valid(),
                at < self.collections@.len(),
                at == coll_at(self.collections@, collection@),
                before == self.collections@[at as int],
                dim == before.config.dim,
                before.name@ == collection@,
                op == (OpView::Upsert { name: collection@, points: point_views(points@) }),
                forall|k: int| 0 <= k < i ==> (#[trigger] points@[k]).vector@.len() == dim,
            decreases points.len() - i,
        {
            if points[i].vector.len() != dim {
                proof {
                    assert(point_views(points@)[i as int].1.vector.len() != dim);
                    assert(!all_fit(point_views(points@), dim as nat));
                    assert forall|name: Seq<char>| #[trigger] self.kept(name) == outcome(
                        old(self).kept(name),
                        op,
                        name,
                    ) by {}
                }
                return Ok(
                    Applied {
                        count: 0,
                        need_flush: false,
                        steps: Vec::new(),
                        rebuild: Vec::new(),
                    },
                );
            }
            i = i + 1;
        }
        assert(all_fit(point_views(points@), dim as nat)) by {
            assert forall|k: int| 0 <= k < point_views(points@).len() implies (
            #[trigger] point_views(points@)[k]).1.vector.len() == dim by {
                assert(points@[k].vector@.len() == dim);
            }
        }
        proof {
            before.view.mutable.lemma_valid();
        }
        let room: usize = u32::MAX as usize - self.collections[at].view.mutable.total();
        if points.len() > room {
            return Err(Error::Invalid(Invalid::SegmentTooLarge));
        }
        let touched = self.collections[at].view.apply_upsert(points.as_slice(), kernel);
        let steps = mark_steps(&self.collections[at].view.immutables, &touched);
        let m = &self.collections[at].view.mutable;
        let need_flush: bool = m.total() >= self.options.auto_flush_points || m.approx_bytes()
            >= self.options.auto_flush_bytes;
        let a = Applied { count: 0, need_flush, steps, rebuild: Vec::new() };
        proof {
            let new = self.collections@[at as int];
            assert(self.collections@ =~= old(self).collections@.update(at as int, new));
            assert(before.view.upserts(new.view, points@, *kernel, touched@));
            lemma_with_points(before.view.contents(), points@);
            old(self).lemma_view_changed(*self, at as int, op);
        }
        Ok(a)
    }

    /// Why an operation cannot be applied, if it cannot be.
    pub fn refusal(&self, op: &Op) -> (r: Option<Error>)
        requires
            self.valid(),
        ensures
            match r {
                Some(e) => self.refuses(*op, e),
                None => forall|e: Error| !#[trigger] self.refuses(*op, e),
            },
    {
        let name = subject_of(op);
        proof {
            lemma_coll_from(self.collections@, name@, 0);
        }
        let at: usize = self.find(name);
        if at == self.collections.len() {
            return match op {
                Op::CreateCollection { .. } | Op::DropCollection { .. } => None,
                _ => Some(Error::CollectionNotFound(name.to_owned())),
            };
        }
        let points = match op {
            Op::Upsert { points, .. } => points,
            _ => {
                return None;
            },
        };
        let ghost views = point_views(points@);
        let dim: usize = self.collections[at].config.dim;
        let mut i: usize = 0;
        while i < points.len()
            invariant
                i <= points@.len(),
                at < self.collections@.len(),
                at == coll_at(self.collections@, subject(op@)),
                dim == self.collections@[at as int].config.dim,
                *op matches Op::Upsert { points: p, .. } && p == points,
                views == point_views(points@),
                forall|k: int| 0 <= k < i ==> (#[trigger] points@[k]).vector@.len() == dim,
            decreases points.len() - i,
        {
            if points[i].vector.len() != dim {
                assert(views[i as int].1.vector.len() != dim);
                assert(!all_fit(views, dim as nat));
                return None;
            }
            i = i + 1;
        }
        assert(all_fit(views, dim as nat)) by {
            assert forall|k: int| 0 <= k < views.len() implies (
            #[trigger] views[k]).1.vector.len() == dim by {
                assert(points@[k].vector@.len() == dim);
            }
        }
        proof {
            self.collections@[at as int].view.mutable.lemma_valid();
        }
        let room: usize = u32::MAX as usize - self.collections[at].view.mutable.total();
        if points.len() > room {
            Some(Error::Invalid(Invalid::SegmentTooLarge))
        } else {
            None
        }
    }

    fn apply_delete(&mut self, collection: &String, ids: &Vec<ExternalId>) -> (r: Result<
        Applied,
        Error,
    >)
        requires
            old(self).valid(),
        ensures
            final(self).valid(),
            old(self).rest_same(*final(self)),
            ({
                let at = coll_at(old(self).collections@, collection@);
                let here = at < old(self).collections@.len();
                match r {
                    Ok(a) => here && old(self).deletes_in(*final(self), at, ids@, a) && old(
                        self,
                    ).follows(
                        *final(self),
                        OpView::Delete { name: collection@, ids: id_views(ids@) },
                    ),
                    Err(e) => *final(self) == *old(self) && !here && e is CollectionNotFound
                        && e->CollectionNotFound_0@ == collection@,
                }
            }),
    {
        let ghost op = OpView::Delete { name: collection@, ids: id_views(ids@) };
        proof {
            lemma_kept_none(self.collections@, collection@);
            lemma_coll_from(self.collections@, collection@, 0);
        }
        let at: usize = self.find(collection.as_str());
        if at == self.collections.len() {
            return Err(Error::CollectionNotFound(collection.clone()));
        }
        let ghost before = self.collections@[at as int];
        let d = self.collections[at].view.apply_delete(ids.as_slice());
        let steps = mark_steps(&self.collections[at].view.immutables, &d.touched);
        proof {
            let new = self.collections@[at as int];
            assert(self.collections@ =~= old(self).collections@.update(at as int, new));
            assert(before.view.deletes(new.view, ids@, d.touched@));
            lemma_id_views(ids@);
            old(self).lemma_view_changed(*self, at as int, op);
        }
        Ok(Applied { count: d.count, need_flush: false, steps, rebuild: d.worn })
    }

    fn apply_payload(
        &mut self,
        collection: &String,
        ids: &Vec<ExternalId>,
        payload: &Option<Json>,
    ) -> (r: Result<Applied, Error>)
        requires
            old(self).valid(),
        ensures
            final(self).valid(),
            old(self).rest_same(*final(self)),
            ({
                let at = coll_at(old(self).collections@, collection@);
                let here = at < old(self).collections@.len();
                match r {
                    Ok(a) => here && old(self).pays_in(
                        *final(self),
                        at,
                        ids@,
                        payload_view(*payload),
                        a,
                    ) && old(self).follows(
                        *final(self),
                        OpView::Pay {
                            name: collection@,
                            ids: id_views(ids@),
                            payload: payload_view(*payload),
                        },
                    ),
                    Err(e) => *final(self) == *old(self) && !here && e is CollectionNotFound
                        && e->CollectionNotFound_0@ == collection@,
                }
            }),
    {
        let ghost op = OpView::Pay {
            name: collection@,
            ids: id_views(ids@),
            payload: payload_view(*payload),
        };
        proof {
            lemma_kept_none(self.collections@, collection@);
            lemma_coll_from(self.collections@, collection@, 0);
        }
        let at: usize = self.find(collection.as_str());
        if at == self.collections.len() {
            return Err(Error::CollectionNotFound(collection.clone()));
        }
        let ghost before = self.collections@[at as int];
        let d = self.collections[at].view.apply_payload(ids.as_slice(), payload);
        let steps = overlay_steps(&self.collections[at].view.immutables, &d.touched);
        proof {
            let new = self.collections@[at as int];
            assert(self.collections@ =~= old(self).collections@.update(at as int, new));
            assert(before.view.pays(new.view, ids@, payload_view(*payload), d.touched@));
            lemma_id_views(ids@);
            old(self).lemma_view_changed(*self, at as int, op);
        }
        Ok(Applied { count: d.count, need_flush: false, steps, rebuild: Vec::new() })
    }

    /// Applies an operation that is in the log.
    pub fn apply<N, S>(&mut self, op: &Op, kernel: &Kernel<N, S>) -> (r: Result<Applied, Error>) where
        N: Fn(&[u32]) -> u32,
        S: Fn(Metric, &[u32], u32, &[u32], u32) -> u32,

        requires
            old(self).valid(),
            kernel.valid(),
        ensures
            final(self).valid(),
            old(self).rest_same(*final(self)),
            match r {
                Ok(a) => old(self).applies(*final(self), *op, *kernel, a) && old(self).follows(
                    *final(self),
                    op@,
                ),
                Err(e) => old(self).refuses(*op, e) && *final(self) == *old(self),
            },
    {
        proof {
            lemma_kept_none(self.collections@, subject(op@));
        }
        match op {
            Op::CreateCollection { name, config } => {
                let a = self.apply_create(name.as_str(), *config);
                assert(op@ == (OpView::Create { name: name@, config: *config }));
                Ok(a)
            },
            Op::DropCollection { name } => {
                let a = self.apply_drop(name.as_str());
                assert(op@ == (OpView::Drop { name: name@ }));
                Ok(a)
            },
            Op::Upsert { collection, points } => {
                let r = self.apply_upsert(collection, points, kernel);
                assert(op@ == (OpView::Upsert {
                    name: collection@,
                    points: point_views(points@),
                }));
                r
            },
            Op::Delete { collection, ids } => {
                let r = self.apply_delete(collection, ids);
                assert(op@ == (OpView::Delete { name: collection@, ids: id_views(ids@) }));
                r
            },
            Op::SetPayload { collection, ids, payload } => {
                let p: Option<Json> = Some(payload.clone());
                let r = self.apply_payload(collection, ids, &p);
                assert(op@ == (OpView::Pay {
                    name: collection@,
                    ids: id_views(ids@),
                    payload: payload_view(p),
                }));
                r
            },
            Op::ClearPayload { collection, ids } => {
                let p: Option<Json> = None;
                let r = self.apply_payload(collection, ids, &p);
                assert(op@ == (OpView::Pay {
                    name: collection@,
                    ids: id_views(ids@),
                    payload: payload_view(p),
                }));
                r
            },
        }
    }
}

/// Whether replaying stops at a record, for that reason: it needs a collection
/// that is not there, or the mutable segment has no room for its points.
pub open spec fn stops_at(before: Database, rec: WalRecord, e: Error) -> bool {
    let at = coll_at(before.collections@, subject(rec.op@));
    if at == before.collections@.len() {
        needs_collection(rec.op@) && (e matches Error::Invalid(
            Invalid::ReplayMissing { name, lsn },
        ) && name@ == subject(rec.op@) && lsn == rec.lsn)
    } else {
        before.refuses(rec.op, e)
    }
}

impl Database {
    /// Applies a record of the log. It gives nothing where the record is in segments
    /// already.
    pub fn replay_record<N, S>(&mut self, rec: &WalRecord, kernel: &Kernel<N, S>) -> (r: Result<
        Option<Applied>,
        Error,
    >) where N: Fn(&[u32]) -> u32, S: Fn(Metric, &[u32], u32, &[u32], u32) -> u32
        requires
            old(self).valid(),
            kernel.valid(),
        ensures
            final(self).valid(),
            old(self).rest_same(*final(self)),
            final(self).manifest@.last_flushed_lsn == old(self).manifest@.last_flushed_lsn,
            rec.lsn <= old(self).manifest.last_flushed_lsn ==> r == Ok::<Option<Applied>, Error>(
                None,
            ) && *final(self) == *old(self),
            rec.lsn > old(self).manifest.last_flushed_lsn ==> match r {
                Ok(None) => false,
                Ok(Some(a)) => old(self).applies(*final(self), rec.op, *kernel, a),
                Err(e) => stops_at(*old(self), *rec, e) && *final(self) == *old(self),
            },
            r is Ok && old(self).apart() ==> final(self).apart() && forall|name: Seq<char>| #[trigger]
                final(self).kept(name) == replayed(
                    old(self).kept(name),
                    seq![rec@],
                    old(self).manifest.last_flushed_lsn,
                    name,
                ),
    {
        let ghost floor = self.manifest.last_flushed_lsn;
        proof {
            assert(seq![rec@].drop_last() =~= Seq::<RecordView>::empty());
            reveal_with_fuel(replayed, 2);
            lemma_kept_none(self.collections@, subject(rec.op@));
        }
        if rec.lsn <= self.manifest.last_flushed_lsn {
            assert forall|name: Seq<char>| #[trigger] self.kept(name) == replayed(
                old(self).kept(name),
                seq![rec@],
                floor,
                name,
            ) by {}
            return Ok(None);
        }
        match self.apply(&rec.op, kernel) {
            Ok(a) => {
                proof {
                    assert(self.manifest@.last_flushed_lsn == floor);
                    if old(self).apart() {
                        assert forall|name: Seq<char>| #[trigger] self.kept(name) == replayed(
                            old(self).kept(name),
                            seq![rec@],
                            floor,
                            name,
                        ) by {
                            assert(self.kept(name) == outcome(old(self).kept(name), rec.op@, name));
                        }
                    }
                }
                Ok(Some(a))
            },
            Err(Error::CollectionNotFound(name)) => Err(
                Error::Invalid(Invalid::ReplayMissing { name, lsn: rec.lsn }),
            ),
            Err(e) => Err(e),
        }
    }
}

/// A mutable segment is flushed once it has as many rows as the options say, or its vectors, four
/// bytes for each component, and the texts of its payloads take as many bytes.
pub proof fn law_large_segments(m: MutableSegment, options: DatabaseOptions)
    ensures
        m.rows().len() >= options.auto_flush_points ==> is_large(m, options),
        ({
            let bytes = m.rows().len() * m.width() * 4 + payloads_len(m.rows());
            bytes <= u64::MAX ==> (is_large(m, options) <==> m.rows().len()
                >= options.auto_flush_points || bytes >= options.auto_flush_bytes)
        }),
{
    let x = m.rows().len() * m.width();
    assert(x * 4 == 4 * x);
}

/// Making and dropping collections is never refused. Another operation is refused where its
/// collection is not there, with the name that it asks for; where it is there, only writing points
/// may be refused, and only if there would be more rows in memory than can be numbered.
pub proof fn law_refusals(db: Database, op: Op, e: Error)
    ensures
        match op {
            Op::CreateCollection { .. } => !db.refuses(op, e),
            Op::DropCollection { .. } => !db.refuses(op, e),
            Op::Upsert { collection, points } => match db.kept(collection@) {
                None => db.refuses(op, e) == (e is CollectionNotFound && e->CollectionNotFound_0@
                    == collection@),
                Some(_) => db.refuses(op, e) ==> db.collections@[coll_at(
                    db.collections@,
                    collection@,
                )].view.mutable.rows().len() + points@.len() > u32::MAX,
            },
            Op::Delete { collection, .. } => db.refuses(op, e) == (db.kept(collection@) is None && e
                is CollectionNotFound && e->CollectionNotFound_0@ == collection@),
            Op::SetPayload { collection, .. } => db.refuses(op, e) == (db.kept(collection@) is None
                && e is CollectionNotFound && e->CollectionNotFound_0@ == collection@),
            Op::ClearPayload { collection, .. } => db.refuses(op, e) == (db.kept(
                collection@,
            ) is None && e is CollectionNotFound && e->CollectionNotFound_0@ == collection@),
        },
{
    lemma_kept_none(db.collections@, subject(op@));
    lemma_coll_from(db.collections@, subject(op@), 0);
}

/// Writing points leads to a flush exactly if the mutable segment is large afterwards, and nothing else
/// does.
pub proof fn law_large_segments_are_flushed<N, S>(
    db: Database,
    after: Database,
    op: Op,
    kernel: Kernel<N, S>,
    a: Applied,
) where N: Fn(&[u32]) -> u32, S: Fn(Metric, &[u32], u32, &[u32], u32) -> u32
    requires
        db.applies(after, op, kernel, a),
    ensures
        a.need_flush ==> op is Upsert,
        op matches Op::Upsert { collection, points } ==> {
            let c = coll_at(db.collections@, collection@);
            let m = after.collections@[c].view.mutable;
            (forall|i: int|
                0 <= i < points@.len() ==> (#[trigger] points@[i]).vector@.len()
                    == db.collections@[c].config.dim) ==> (m.rows().len()
                >= db.options.auto_flush_points ==> a.need_flush) && (a.need_flush ==> is_large(
                m,
                db.options,
            ))
        },
{
    if let Op::Upsert { collection, points } = op {
        let c = coll_at(db.collections@, collection@);
        if forall|i: int|
            0 <= i < points@.len() ==> (#[trigger] points@[i]).vector@.len()
                == db.collections@[c].config.dim {
            assert forall|i: int| 0 <= i < point_views(points@).len() implies (
            #[trigger] point_views(points@)[i]).1.vector.len() == db.collections@[c].config.dim by {
                assert(points@[i].vector@.len() == db.collections@[c].config.dim);
            }
        }
    }
}

} // verus!
