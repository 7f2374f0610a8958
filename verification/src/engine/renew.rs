//! Compacting a collection, and rebuilding one of its segments.

use vstd::prelude::*;

use crate::collection::CollectionConfig;
use crate::engine::apply::same_but_view;
use crate::engine::database::{coll_at, lemma_kept_none, Database, Step};
use crate::engine::merge::{live_rows, made, no_rows, renormed};
use crate::engine::plan::{
    buildable, keeps_same, lemma_keeps_same, stage, stores_segment,
};
use crate::error::{Error, Invalid};
use crate::id::IdView;
use crate::kernel::{Kernel, Metric};
use crate::manifest::{entry_at, lemma_entry_from, EntryView, Manifest, ManifestView};
use crate::segment::immutable::{settled_live, ImmutableSegment};
use crate::segment::mutable::MutableSegment;
use crate::segment::Entry;

verus! {

/// Where a number stands first in a list, from place `i` on; the length of the list if it
/// does not.
pub open spec fn first_from(s: Seq<u64>, x: u64, i: int) -> int
    decreases s.len() - i,
{
    if i >= s.len() {
        s.len() as int
    } else if s[i] == x {
        i
    } else {
        first_from(s, x, i + 1)
    }
}

/// A list with a number in the place of another; behind all where that is not there.
pub open spec fn exchanged(s: Seq<u64>, old_id: u64, new_id: u64) -> Seq<u64> {
    let p = first_from(s, old_id, 0);
    if p < s.len() {
        s.update(p, new_id)
    } else {
        s.push(new_id)
    }
}

/// A list without a number.
pub open spec fn all_but(s: Seq<u64>, x: u64) -> Seq<u64>
    decreases s.len(),
{
    if s.len() == 0 {
        s
    } else if s.last() == x {
        all_but(s.drop_last(), x)
    } else {
        all_but(s.drop_last(), x).push(s.last())
    }
}

fn exchange(s: &mut Vec<u64>, old_id: u64, new_id: u64)
    ensures
        final(s)@ == exchanged(old(s)@, old_id, new_id),
{
    let mut i: usize = 0;
    while i < s.len()
        invariant
            i <= s@.len(),
            s@ == old(s)@,
            first_from(s@, old_id, i as int) == first_from(s@, old_id, 0),
        decreases s.len() - i,
    {
        if s[i] == old_id {
            s.set(i, new_id);
            return;
        }
        i = i + 1;
    }
    s.push(new_id);
}

fn without_number(s: &Vec<u64>, x: u64) -> (r: Vec<u64>)
    ensures
        r@ == all_but(s@, x),
{
    let mut r: Vec<u64> = Vec::new();
    let mut i: usize = 0;
    while i < s.len()
        invariant
            i <= s@.len(),
            r@ == all_but(s@.take(i as int), x),
        decreases s.len() - i,
    {
        assert(s@.take(i + 1).drop_last() =~= s@.take(i as int));
        if s[i] != x {
            r.push(s[i]);
        }
        i = i + 1;
    }
    assert(s@.take(s@.len() as int) =~= s@);
    r
}

/// The manifest once the segments of the first entry of a name are others.
pub open spec fn with_list(m: ManifestView, name: Seq<char>, segments: Seq<u64>) -> ManifestView {
    let at = entry_at(m.entries, name);
    ManifestView {
        entries: m.entries.update(at, EntryView { segments, ..m.entries[at] }),
        ..m
    }
}

/// A new segment that is to take the place of others.
pub struct RenewPlan {
    /// The collection.
    pub at: usize,
    /// The new segment; none where there are no points.
    pub seg: Option<ImmutableSegment>,
    /// The manifest afterwards.
    pub manifest: Manifest,
    /// What has to be stored, in order.
    pub steps: Vec<Step>,
}

/// Whether steps store a new segment if there is one, then a manifest, and then remove
/// the directories of some segments.
pub open spec fn renews(
    steps: Seq<Step>,
    seg: Option<ImmutableSegment>,
    seg_id: u64,
    m: MutableSegment,
    manifest: ManifestView,
    gone: Seq<u64>,
) -> bool {
    let k = steps.len() - gone.len() - 1;
    &&& k >= 0
    &&& match seg {
        Some(s) => stores_segment(steps.take(k), s, seg_id, m),
        None => k == 0,
    }
    &&& steps[k] is SaveManifest
    &&& steps[k]->SaveManifest_0@ == manifest
    &&& forall|j: int|
        0 <= j < gone.len() ==> #[trigger] removes(steps, k + 1 + j, gone[j])
}

/// Whether a step removes the directory of a segment.
pub open spec fn removes(steps: Seq<Step>, i: int, id: u64) -> bool {
    steps[i] == Step::RemoveSegment(id)
}

/// The numbers of some segments.
pub open spec fn numbers(segs: Seq<ImmutableSegment>) -> Seq<u64> {
    Seq::new(segs.len(), |i: int| segs[i].number())
}

/// The number of a new segment, if there is one.
pub open spec fn number_of(seg: Option<ImmutableSegment>, id: u64) -> Seq<u64> {
    match seg {
        Some(_) => seq![id],
        None => Seq::empty(),
    }
}

/// Whether a segment is made of some rows, if there are any.
pub open spec fn made_if_any<N, S>(
    seg: Option<ImmutableSegment>,
    config: CollectionConfig,
    id: u64,
    m: MutableSegment,
    kernel: Kernel<N, S>,
) -> bool where N: Fn(&[u32]) -> u32, S: Fn(Metric, &[u32], u32, &[u32], u32) -> u32 {
    match seg {
        Some(s) => m.rows().len() > 0 && made(s, config, id, m, kernel),
        None => m.rows().len() == 0,
    }
}

/// Adds steps that remove the directories of some segments.
fn push_removals(steps: &mut Vec<Step>, ids: &Vec<u64>)
    ensures
        final(steps)@.len() == old(steps)@.len() + ids@.len(),
        final(steps)@.take(old(steps)@.len() as int) == old(steps)@,
        forall|j: int|
            0 <= j < ids@.len() ==> #[trigger] removes(
                final(steps)@,
                old(steps)@.len() + j,
                ids@[j],
            ),
{
    let ghost before = steps@;
    let mut i: usize = 0;
    assert(before.take(before.len() as int) =~= before);
    while i < ids.len()
        invariant
            i <= ids@.len(),
            before == old(steps)@,
            steps@.len() == before.len() + i,
            steps@.take(before.len() as int) == before,
            forall|j: int|
                0 <= j < i ==> #[trigger] removes(steps@, before.len() + j, ids@[j]),
        decreases ids.len() - i,
    {
        let ghost mid = steps@;
        steps.push(Step::RemoveSegment(ids[i]));
        assert(steps@.take(before.len() as int) =~= mid.take(before.len() as int));
        assert forall|j: int| 0 <= j < i + 1 implies #[trigger] removes(
            steps@,
            before.len() + j,
            ids@[j],
        ) by {
            if j < i {
                assert(removes(mid, before.len() + j, ids@[j]));
            }
        }
        i = i + 1;
    }
}

/// A mutable segment without rows has no points.
pub proof fn lemma_no_points(m: MutableSegment)
    requires
        m.valid(),
        m.rows().len() == 0,
    ensures
        m.live() == Map::<IdView, Entry>::empty(),
{
    m.lemma_valid();
    assert forall|id: IdView| !(#[trigger] m.live().contains_key(id)) by {
        if m.index().contains_key(id) {
            assert(m.index()[id] < m.rows().len());
        }
    }
    assert(m.live() =~= Map::<IdView, Entry>::empty());
}

impl Database {
    /// What a plan leaves as it is, and which number it took.
    pub open spec fn took(&self, after: Database, seg: Option<ImmutableSegment>) -> bool {
        &&& self.only_numbers(after)
        &&& after.next_seg_id == (if seg is Some {
            self.next_seg_id + 1
        } else {
            self.next_seg_id as int
        })
    }

    /// Whether a plan is that of compacting a collection: a new segment holds all its
    /// points, the manifest has it in place of the others, and these are removed.
    pub open spec fn compact_planned<N, S>(
        &self,
        name: Seq<char>,
        plan: RenewPlan,
        kernel: Kernel<N, S>,
        m: MutableSegment,
    ) -> bool where N: Fn(&[u32]) -> u32, S: Fn(Metric, &[u32], u32, &[u32], u32) -> u32 {
        let c = self.collections@[plan.at as int];
        &&& plan.at == coll_at(self.collections@, name)
        &&& plan.at < self.collections@.len()
        &&& m.valid()
        &&& m.width() == c.view.width()
        &&& m.table() == no_rows().put_all(renormed(c.view.chronicle(), kernel))
        &&& m.live() == c.view.contents()
        &&& made_if_any(plan.seg, c.config, self.next_seg_id, m, kernel)
        &&& entry_at(self.manifest@.entries, name) < self.manifest@.entries.len()
        &&& plan.manifest@ == with_list(
            self.manifest@,
            name,
            number_of(plan.seg, self.next_seg_id),
        )
        &&& renews(
            plan.steps@,
            plan.seg,
            self.next_seg_id,
            m,
            plan.manifest@,
            numbers(c.view.immutables@),
        )
    }

    /// Whether compacting a collection cannot be planned, for that reason: it is not there,
    /// or not in the manifest, or it has too many points.
    pub open spec fn compact_refused(&self, name: Seq<char>, e: Error) -> bool {
        let at = coll_at(self.collections@, name);
        let c = self.collections@[at];
        ||| (at == self.collections@.len() || entry_at(self.manifest@.entries, name)
            == self.manifest@.entries.len()) && (e matches Error::CollectionNotFound(n) && n@
            == name)
        ||| at < self.collections@.len() && e == Error::Invalid(Invalid::SegmentTooLarge) && (
        c.view.alive_total() > u32::MAX || !buildable(c.config, c.view.contents().len()))
    }

    /// Plans compacting a collection: all its points go to one new segment.
    pub fn plan_compact<N, S>(&mut self, name: &str, kernel: &Kernel<N, S>) -> (r: Result<
        RenewPlan,
        Error,
    >) where N: Fn(&[u32]) -> u32, S: Fn(Metric, &[u32], u32, &[u32], u32) -> u32
        requires
            old(self).valid(),
            kernel.valid(),
            old(self).next_seg_id < u64::MAX,
            forall|i: int|
                0 <= i < old(self).collections@.len() ==> (#[trigger] old(
                    self,
                ).collections@[i]).view.rows_total() <= u64::MAX,
        ensures
            old(self).only_numbers(*final(self)),
            old(self).next_seg_id <= final(self).next_seg_id,
            match r {
                Ok(plan) => old(self).took(*final(self), plan.seg) && exists|m: MutableSegment| #[trigger]
                    old(self).compact_planned(name@, plan, *kernel, m),
                Err(e) => old(self).compact_refused(name@, e),
            },
    {
        let ghost first = self.next_seg_id;
        proof {
            lemma_kept_none(self.collections@, name@);
            lemma_entry_from(self.manifest@.entries, name@, 0);
        }
        let at: usize = self.find(name);
        if at == self.collections.len() {
            return Err(Error::CollectionNotFound(name.to_owned()));
        }
        let ghost c = self.collections@[at as int];
        assert(c.valid());
        if self.collections[at].view.count() > u32::MAX as u64 {
            return Err(Error::Invalid(Invalid::SegmentTooLarge));
        }
        let m = self.collections[at].view.merged(kernel);
        let mut steps: Vec<Step> = Vec::new();
        let mut seg: Option<ImmutableSegment> = None;
        if !m.is_empty() {
            let seg_id: u64 = self.next_seg_id;
            self.next_seg_id = seg_id + 1;
            match stage(&self.collections[at].config, seg_id, &m, kernel, &mut steps) {
                Ok(s) => {
                    assert(steps@.skip(0) =~= steps@);
                    seg = Some(s);
                },
                Err(e) => {
                    proof {
                        m.lemma_all_alive();
                    }
                    return Err(e);
                },
            }
        }
        let ghost written = steps@;
        let mut manifest = self.manifest.copy();
        let mut list: Vec<u64> = Vec::new();
        if seg.is_some() {
            list.push(first_of(self.next_seg_id));
        }
        assert(list@ =~= number_of(seg, first));
        match manifest.entry_mut(name) {
            Some(e) => {
                e.segments = list;
            },
            None => {
                return Err(Error::CollectionNotFound(name.to_owned()));
            },
        }
        assert(manifest@ =~= with_list(self.manifest@, name@, number_of(seg, first)));
        steps.push(Step::SaveManifest(manifest.copy()));
        let ids = seg_ids(&self.collections[at].view.immutables);
        push_removals(&mut steps, &ids);
        proof {
            let all = steps@;
            let k = written.len() as int;
            assert(all.take(k + 1)[k] == all[k]);
            assert(all.take(k) =~= written) by {
                assert(all.take(k) =~= all.take(k + 1).take(k));
            }
            assert forall|j: int| 0 <= j < ids@.len() implies #[trigger] removes(
                all,
                k + 1 + j,
                ids@[j],
            ) by {
                assert(removes(all, (k + 1) + j, ids@[j]));
            }
        }
        let plan = RenewPlan { at, seg, manifest, steps };
        assert(old(self).compact_planned(name@, plan, *kernel, m));
        Ok(plan)
    }

    /// Whether a plan was carried out in memory for one collection.
    pub open spec fn renewed_at(&self, after: Database, plan: RenewPlan) -> bool {
        let before = self.collections@[plan.at as int];
        let new = after.collections@[plan.at as int];
        &&& after.options == self.options
        &&& after.next_seg_id == self.next_seg_id
        &&& after.recovery_clean == self.recovery_clean
        &&& after.manifest == plan.manifest
        &&& after.collections@ == self.collections@.update(plan.at as int, new)
        &&& same_but_view(before, new)
    }

    /// Whether a collection was compacted in memory: it has no rows but those of the new
    /// segment.
    pub open spec fn compact_committed(&self, after: Database, plan: RenewPlan) -> bool {
        let before = self.collections@[plan.at as int];
        let new = after.collections@[plan.at as int];
        &&& self.renewed_at(after, plan)
        &&& new.view.immutables@ == (match plan.seg {
            Some(s) => seq![s],
            None => Seq::<ImmutableSegment>::empty(),
        })
        &&& new.view.mutable.table() == no_rows()
        &&& new.view.contents() == settled_live(before.view.contents())
    }

    /// Whether a segment was rebuilt in memory: the new one is in its place.
    pub open spec fn rebuild_committed(&self, after: Database, si: usize, plan: RenewPlan) -> bool {
        let before = self.collections@[plan.at as int];
        let new = after.collections@[plan.at as int];
        &&& self.renewed_at(after, plan)
        &&& new.view.immutables@ == (match plan.seg {
            Some(s) => before.view.immutables@.update(si as int, s),
            None => before.view.immutables@.remove(si as int),
        })
        &&& new.view.mutable == before.view.mutable
    }

    /// Carries out the compaction of a collection in memory, once everything is stored.
    pub fn commit_compact(&mut self, plan: RenewPlan)
        requires
            old(self).valid(),
            plan.at < old(self).collections@.len(),
            match plan.seg {
                Some(s) => s.valid() && s.width() == old(
                    self,
                ).collections@[plan.at as int].view.width() && s.live() == settled_live(
                    old(self).collections@[plan.at as int].view.contents(),
                ),
                None => old(self).collections@[plan.at as int].view.contents() == Map::<
                    IdView,
                    Entry,
                >::empty(),
            },
        ensures
            final(self).valid(),
            old(self).compact_committed(*final(self), plan),
            keeps_same(*old(self), *final(self)),
            old(self).apart() ==> final(self).apart(),
    {
        let ghost before = *self;
        let RenewPlan { at, seg, manifest, steps } = plan;
        assert(self.collections@[at as int].valid());
        self.manifest = manifest;
        self.collections[at].view.install_compacted(seg);
        proof {
            let new = self.collections@[at as int];
            assert(self.collections@ =~= before.collections@.update(at as int, new));
            let c = before.collections@[at as int].view.contents();
            assert(settled_live(settled_live(c)) =~= settled_live(c));
            lemma_keeps_same(before, *self, at as int);
        }
    }

    /// Whether a plan is that of rebuilding an immutable segment: a new segment holds its
    /// points, takes its place in the manifest, and the old one is removed.
    pub open spec fn rebuild_planned<N, S>(
        &self,
        name: Seq<char>,
        si: usize,
        plan: RenewPlan,
        kernel: Kernel<N, S>,
        m: MutableSegment,
    ) -> bool where N: Fn(&[u32]) -> u32, S: Fn(Metric, &[u32], u32, &[u32], u32) -> u32 {
        let c = self.collections@[plan.at as int];
        let seg = c.view.immutables@[si as int];
        let entry = self.manifest@.entries[entry_at(self.manifest@.entries, name)];
        &&& plan.at == coll_at(self.collections@, name)
        &&& plan.at < self.collections@.len()
        &&& si < c.view.immutables@.len()
        &&& m.valid()
        &&& m.width() == c.view.width()
        &&& m.table() == no_rows().put_all(renormed(live_rows(seg.rows(), seg.dead()), kernel))
        &&& m.live() == seg.live()
        &&& made_if_any(plan.seg, c.config, self.next_seg_id, m, kernel)
        &&& entry_at(self.manifest@.entries, name) < self.manifest@.entries.len()
        &&& plan.manifest@ == with_list(
            self.manifest@,
            name,
            if plan.seg is Some {
                exchanged(entry.segments, seg.number(), self.next_seg_id)
            } else {
                all_but(entry.segments, seg.number())
            },
        )
        &&& renews(
            plan.steps@,
            plan.seg,
            self.next_seg_id,
            m,
            plan.manifest@,
            seq![seg.number()],
        )
    }

    /// Whether rebuilding a segment cannot be planned, for that reason: the collection is
    /// not there, or not in the manifest, or the segment has too many points.
    pub open spec fn rebuild_refused(&self, name: Seq<char>, si: usize, e: Error) -> bool {
        let at = coll_at(self.collections@, name);
        let c = self.collections@[at];
        ||| at == self.collections@.len() && (e matches Error::CollectionNotFound(n) && n@ == name)
        ||| at < self.collections@.len() && si < c.view.immutables@.len() && entry_at(
            self.manifest@.entries,
            name,
        ) == self.manifest@.entries.len() && (e matches Error::CollectionNotFound(n) && n@ == name)
        ||| at < self.collections@.len() && si < c.view.immutables@.len() && e == Error::Invalid(
            Invalid::SegmentTooLarge,
        ) && !buildable(c.config, c.view.immutables@[si as int].live().len())
    }

    /// Plans rebuilding an immutable segment: its points go to a new one. There is nothing
    /// to plan if there is no such segment.
    pub fn plan_rebuild<N, S>(&mut self, name: &str, si: usize, kernel: &Kernel<N, S>) -> (r: Result<
        Option<RenewPlan>,
        Error,
    >) where N: Fn(&[u32]) -> u32, S: Fn(Metric, &[u32], u32, &[u32], u32) -> u32
        requires
            old(self).valid(),
            kernel.valid(),
            old(self).next_seg_id < u64::MAX,
        ensures
            old(self).only_numbers(*final(self)),
            old(self).next_seg_id <= final(self).next_seg_id,
            match r {
                Ok(None) => coll_at(old(self).collections@, name@) < old(self).collections@.len()
                    && si >= old(self).collections@[coll_at(
                    old(self).collections@,
                    name@,
                )].view.immutables@.len() && final(self).next_seg_id == old(self).next_seg_id,
                Ok(Some(plan)) => old(self).took(*final(self), plan.seg) && exists|
                    m: MutableSegment,
                | #[trigger]
                    old(self).rebuild_planned(name@, si, plan, *kernel, m),
                Err(e) => old(self).rebuild_refused(name@, si, e),
            },
    {
        let ghost first = self.next_seg_id;
        proof {
            lemma_kept_none(self.collections@, name@);
            lemma_entry_from(self.manifest@.entries, name@, 0);
        }
        let at: usize = self.find(name);
        if at == self.collections.len() {
            return Err(Error::CollectionNotFound(name.to_owned()));
        }
        let ghost c = self.collections@[at as int];
        assert(c.valid());
        if si >= self.collections[at].view.immutables.len() {
            return Ok(None);
        }
        let ghost old_seg = c.view.immutables@[si as int];
        let old_id: u64 = self.collections[at].view.immutables[si].seg_id();
        let m = self.collections[at].view.renewed(si, kernel);
        let mut steps: Vec<Step> = Vec::new();
        let mut seg: Option<ImmutableSegment> = None;
        if !m.is_empty() {
            let seg_id: u64 = self.next_seg_id;
            self.next_seg_id = seg_id + 1;
            match stage(&self.collections[at].config, seg_id, &m, kernel, &mut steps) {
                Ok(s) => {
                    assert(steps@.skip(0) =~= steps@);
                    seg = Some(s);
                },
                Err(e) => {
                    proof {
                        m.lemma_all_alive();
                    }
                    return Err(e);
                },
            }
        }
        let ghost written = steps@;
        let mut manifest = self.manifest.copy();
        let ghost entry = self.manifest@.entries[entry_at(self.manifest@.entries, name@)];
        match manifest.entry_mut(name) {
            Some(e) => {
                if seg.is_some() {
                    exchange(&mut e.segments, old_id, first_of(self.next_seg_id));
                } else {
                    e.segments = without_number(&e.segments, old_id);
                }
            },
            None => {
                return Err(Error::CollectionNotFound(name.to_owned()));
            },
        }
        proof {
            let list = if seg is Some {
                exchanged(entry.segments, old_seg.number(), first)
            } else {
                all_but(entry.segments, old_seg.number())
            };
            assert(manifest@ =~= with_list(self.manifest@, name@, list));
        }
        steps.push(Step::SaveManifest(manifest.copy()));
        steps.push(Step::RemoveSegment(old_id));
        proof {
            let all = steps@;
            let k = written.len() as int;
            assert(all.take(k) =~= written);
            assert(removes(all, k + 1 + 0, old_id));
        }
        let plan = RenewPlan { at, seg, manifest, steps };
        assert(old(self).rebuild_planned(name@, si, plan, *kernel, m));
        Ok(Some(plan))
    }

    /// Carries out the rebuilding of an immutable segment in memory, once everything is
    /// stored.
    pub fn commit_rebuild(&mut self, si: usize, plan: RenewPlan)
        requires
            old(self).valid(),
            plan.at < old(self).collections@.len(),
            si < old(self).collections@[plan.at as int].view.immutables@.len(),
            match plan.seg {
                Some(s) => s.valid() && s.width() == old(
                    self,
                ).collections@[plan.at as int].view.width() && s.live() == settled_live(
                    old(self).collections@[plan.at as int].view.immutables@[si as int].live(),
                ),
                None => old(self).collections@[plan.at as int].view.immutables@[si as int].live()
                    == Map::<IdView, Entry>::empty(),
            },
        ensures
            final(self).valid(),
            old(self).rebuild_committed(*final(self), si, plan),
            keeps_same(*old(self), *final(self)),
            old(self).apart() ==> final(self).apart(),
    {
        let ghost before = *self;
        let RenewPlan { at, seg, manifest, steps } = plan;
        assert(self.collections@[at as int].valid());
        self.manifest = manifest;
        self.collections[at].view.install_rebuilt(si, seg);
        proof {
            let new = self.collections@[at as int];
            assert(self.collections@ =~= before.collections@.update(at as int, new));
            lemma_keeps_same(before, *self, at as int);
        }
    }
}

/// The number before another.
fn first_of(next: u64) -> (r: u64)
    requires
        next > 0,
    ensures
        r == next - 1,
{
    next - 1
}

/// The numbers of some segments.
fn seg_ids(segs: &Vec<ImmutableSegment>) -> (r: Vec<u64>)
    ensures
        r@ == numbers(segs@),
{
    let mut r: Vec<u64> = Vec::new();
    let mut i: usize = 0;
    while i < segs.len()
        invariant
            i <= segs@.len(),
            r@ == numbers(segs@).take(i as int),
        decreases segs.len() - i,
    {
        r.push(segs[i].seg_id());
        assert(numbers(segs@).take(i + 1) =~= numbers(segs@).take(i as int).push(
            segs@[i as int].number(),
        ));
        i = i + 1;
    }
    assert(numbers(segs@).take(segs@.len() as int) =~= numbers(segs@));
    r
}

/// A plan to compact suits the state for which it was made.
pub proof fn lemma_compact_suits<N, S>(
    db: Database,
    name: Seq<char>,
    plan: RenewPlan,
    kernel: Kernel<N, S>,
    m: MutableSegment,
) where N: Fn(&[u32]) -> u32, S: Fn(Metric, &[u32], u32, &[u32], u32) -> u32
    requires
        db.compact_planned(name, plan, kernel, m),
    ensures
        match plan.seg {
            Some(s) => s.valid() && s.width() == db.collections@[plan.at as int].view.width()
                && s.live() == settled_live(db.collections@[plan.at as int].view.contents()),
            None => db.collections@[plan.at as int].view.contents() == Map::<
                IdView,
                Entry,
            >::empty(),
        },
{
    if plan.seg is None {
        lemma_no_points(m);
    }
}

/// A plan to rebuild a segment suits the state for which it was made.
pub proof fn lemma_rebuild_suits<N, S>(
    db: Database,
    name: Seq<char>,
    si: usize,
    plan: RenewPlan,
    kernel: Kernel<N, S>,
    m: MutableSegment,
) where N: Fn(&[u32]) -> u32, S: Fn(Metric, &[u32], u32, &[u32], u32) -> u32
    requires
        db.rebuild_planned(name, si, plan, kernel, m),
    ensures
        match plan.seg {
            Some(s) => s.valid() && s.width() == db.collections@[plan.at as int].view.width()
                && s.live() == settled_live(
                db.collections@[plan.at as int].view.immutables@[si as int].live(),
            ),
            None => db.collections@[plan.at as int].view.immutables@[si as int].live() == Map::<
                IdView,
                Entry,
            >::empty(),
        },
{
    if plan.seg is None {
        lemma_no_points(m);
    }
}

} // verus!
